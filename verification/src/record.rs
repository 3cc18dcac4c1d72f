//! The interval record, its total order, and the adjacency/overlap rules
//! every set operation is built on.

use vstd::prelude::*;

verus! {

/// Strand of a six-field record; `Plus` is the neutral default.
#[derive(PartialEq, Eq, Structural, Clone, Copy, Debug)]
pub enum Strand {
    Plus,
    Minus,
    Dot,
}

/// Which fields a record stream carries on the wire: three positional
/// fields, or six with name/score/strand payload.
#[derive(PartialEq, Eq, Structural, Clone, Copy, Debug)]
pub enum RecordFormat {
    Bed3,
    Bed6,
}

/// One genomic interval: the half-open region `[start, end)` on chromosome
/// `chr`.  `chr` and `name` are dense integer ids (see `translate`); `score`
/// is stored in tenths so that text output can carry one decimal digit
/// without floating point.  The payload fields are opaque to the set
/// algebra: merge resets them to the neutral default, intersect and
/// subtract carry the query side's payload through.
#[derive(PartialEq, Eq, Structural, Clone, Copy, Debug)]
pub struct Record {
    pub chr: u32,
    pub start: u64,
    pub end: u64,
    pub name: u32,
    pub score_tenths: u64,
    pub strand: Strand,
}

impl Record {
    /// A record is well formed when its region is not inverted.
    pub open spec fn valid(self) -> bool {
        self.start <= self.end
    }

    /// Length of the region.
    pub open spec fn len(self) -> int {
        self.end - self.start
    }

    /// The payload a merge emits: empty name, zero score, default strand.
    pub open spec fn neutral_payload(self) -> bool {
        self.name == 0 && self.score_tenths == 0 && self.strand == Strand::Plus
    }

    pub fn new_bed3(chr: u32, start: u64, end: u64) -> (r: Record)
        ensures
            r == (Record { chr, start, end, name: 0, score_tenths: 0, strand: Strand::Plus }),
    {
        Record { chr, start, end, name: 0, score_tenths: 0, strand: Strand::Plus }
    }

    pub fn new_bed6(chr: u32, start: u64, end: u64, name: u32, score_tenths: u64, strand: Strand) -> (r: Record)
        ensures
            r == (Record { chr, start, end, name, score_tenths, strand }),
    {
        Record { chr, start, end, name, score_tenths, strand }
    }
}

/// The total (pre)order of the sort stage: by chromosome id, then start,
/// then end, ascending.  Payload fields do not participate.
pub open spec fn key_le(a: Record, b: Record) -> bool {
    if a.chr != b.chr {
        a.chr < b.chr
    } else if a.start != b.start {
        a.start < b.start
    } else {
        a.end <= b.end
    }
}

/// A sequence is sorted when every pair of positions respects `key_le`.
pub open spec fn sorted(s: Seq<Record>) -> bool {
    forall|i: int, j: int| 0 <= i < j < s.len() ==> key_le(s[i], s[j])
}

/// Every record of the sequence is well formed.
pub open spec fn all_valid(s: Seq<Record>) -> bool {
    forall|i: int| 0 <= i < s.len() ==> (#[trigger] s[i]).valid()
}

/// The adjacency rule of the merge engine, stated of an ordered pair
/// (`a` no later than `b` in the sort order): same chromosome and `b`
/// starting no later than `a` ends.  With half-open coordinates,
/// `b.start == a.end` is exactly touching and counts as mergeable.
pub open spec fn mergeable(a: Record, b: Record) -> bool {
    a.chr == b.chr && b.start <= a.end
}

/// Two records overlap when they share a chromosome and a region of
/// positive length: the later start lies strictly before the earlier end,
/// so a zero-length interval overlaps nothing.
pub open spec fn overlaps(a: Record, b: Record) -> bool {
    a.chr == b.chr && max_u64(a.start, b.start) < min_u64(a.end, b.end)
}

/// Length of the shared region of two overlapping records.
pub open spec fn overlap_len(a: Record, b: Record) -> int {
    min_u64(a.end, b.end) - max_u64(a.start, b.start)
}

pub open spec fn min_u64(a: u64, b: u64) -> u64 {
    if a <= b { a } else { b }
}

pub open spec fn max_u64(a: u64, b: u64) -> u64 {
    if a >= b { a } else { b }
}

/// An overlap-fraction threshold, kept as an exact rational
/// `num / den` so that the engine never touches floating point.
#[derive(PartialEq, Eq, Structural, Clone, Copy, Debug)]
pub struct Frac {
    pub num: u32,
    pub den: u32,
}

impl Frac {
    /// A threshold is well formed when its denominator is positive.
    pub open spec fn valid(self) -> bool {
        self.den > 0
    }

    pub fn new(num: u32, den: u32) -> (r: Frac)
        requires
            den > 0,
        ensures
            r == (Frac { num, den }),
            r.valid(),
    {
        Frac { num, den }
    }
}

/// `ov / len >= f`, stated without division: `ov * den >= num * len`.
pub open spec fn frac_meets(ov: int, len: int, f: Frac) -> bool {
    ov * f.den >= f.num * len
}

/// Exact comparison of `ov / len` against the threshold, computed in
/// 128-bit arithmetic so no product can overflow.
pub fn frac_meets_exec(ov: u64, len: u64, f: Frac) -> (r: bool)
    ensures
        r == frac_meets(ov as int, len as int, f),
{
    proof {
        assert((ov as u128) * (f.den as u128) <= 0xffff_ffff_ffff_ffffu128 * 0xffff_ffffu128)
            by (nonlinear_arith);
        assert((f.num as u128) * (len as u128) <= 0xffff_ffffu128 * 0xffff_ffff_ffff_ffffu128)
            by (nonlinear_arith);
    }
    (ov as u128) * (f.den as u128) >= (f.num as u128) * (len as u128)
}

/// The error kinds of the engine.  `MalformedRecord` identifies the first
/// offending input position; `UnknownId` reports a translator lookup for
/// an id that was never interned.
#[derive(PartialEq, Eq, Structural, Clone, Copy, Debug)]
pub enum GiaError {
    MalformedRecord { index: usize },
    UnknownId { id: u32 },
}

/// Rejects inputs holding an inverted region, naming the first such
/// position, as the reader contract demands of every operation's input.
pub fn validate_records(records: &Vec<Record>) -> (r: Result<(), GiaError>)
    ensures
        r is Ok <==> all_valid(records@),
        r is Err ==> {
            let idx = r->Err_0->MalformedRecord_index;
            &&& r->Err_0 is MalformedRecord
            &&& 0 <= idx < records@.len()
            &&& !records@[idx as int].valid()
            &&& forall|k: int| 0 <= k < idx ==> (#[trigger] records@[k]).valid()
        },
{
    let mut i: usize = 0;
    while i < records.len()
        invariant
            0 <= i <= records@.len(),
            forall|k: int| 0 <= k < i ==> (#[trigger] records@[k]).valid(),
        decreases records@.len() - i,
    {
        if records[i].start > records[i].end {
            return Err(GiaError::MalformedRecord { index: i });
        }
        i += 1;
    }
    Ok(())
}

} // verus!
