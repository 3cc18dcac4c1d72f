//! Verified interval set algebra over genomic regions.
//!
//! Records are half-open regions `[start, end)` on an integer chromosome id,
//! ordered by `(chr, start, end)`.  The engine sorts records, merges
//! touching-or-overlapping runs (batch or streaming), intersects two sets
//! under fractional-overlap policies, and subtracts one set from another,
//! with a translator mapping chromosome-name strings to dense ids and a
//! writer that renders records back to tab-delimited text.
#![verifier::loop_isolation(false)]

pub mod record;
pub mod sort;
pub mod merge;
pub mod subtract;
pub mod intersect;
pub mod laws;
pub mod translate;
pub mod writer;
