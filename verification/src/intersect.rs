//! The intersect engine: a sorted merge-join of a query set against a
//! target set, reporting one overlap region per accepted pair under the
//! fractional-overlap / reciprocal / either policy.

use vstd::prelude::*;
use crate::record::{
    Record, Frac, GiaError, overlaps, overlap_len, frac_meets, frac_meets_exec,
    sorted, all_valid, key_le, validate_records,
};
use crate::sort::sort_records;
use crate::subtract::b_done;

verus! {

/// The acceptance policy of the intersect engine.
#[derive(PartialEq, Eq, Structural, Clone, Copy, Debug)]
pub struct IntersectParams {
    /// Minimum fraction of the query record's length the overlap must cover.
    pub fraction_query: Option<Frac>,
    /// Minimum fraction of the target record's length the overlap must cover.
    pub fraction_target: Option<Frac>,
    /// Mirror a threshold given for only one side onto the other.
    pub reciprocal: bool,
    /// With both thresholds in play, accept when either holds instead of both.
    pub either: bool,
}

impl IntersectParams {
    pub open spec fn valid(self) -> bool {
        &&& (self.fraction_query matches Some(f) ==> f.valid())
        &&& (self.fraction_target matches Some(f) ==> f.valid())
    }

    /// The query-side threshold actually applied.
    pub open spec fn query_frac(self) -> Option<Frac> {
        if self.fraction_query is Some {
            self.fraction_query
        } else if self.reciprocal {
            self.fraction_target
        } else {
            None
        }
    }

    /// The target-side threshold actually applied.
    pub open spec fn target_frac(self) -> Option<Frac> {
        if self.fraction_target is Some {
            self.fraction_target
        } else if self.reciprocal {
            self.fraction_query
        } else {
            None
        }
    }
}

/// Whether the pair `(a, b)` is reported: a positive-length overlap that
/// meets the thresholds in play — both of them, or either one when the
/// `either` policy is chosen.
pub open spec fn pair_accepts(a: Record, b: Record, p: IntersectParams) -> bool {
    overlaps(a, b) && {
        let ov = overlap_len(a, b);
        match (p.query_frac(), p.target_frac()) {
            (None, None) => true,
            (Some(f), None) => frac_meets(ov, a.len(), f),
            (None, Some(f)) => frac_meets(ov, b.len(), f),
            (Some(fq), Some(ft)) => if p.either {
                frac_meets(ov, a.len(), fq) || frac_meets(ov, b.len(), ft)
            } else {
                frac_meets(ov, a.len(), fq) && frac_meets(ov, b.len(), ft)
            },
        }
    }
}

/// The record reported for an accepted pair: the overlap region on the
/// shared chromosome, carrying the query record's payload.
pub open spec fn piece_of(a: Record, b: Record) -> Record {
    Record {
        chr: a.chr,
        start: if a.start >= b.start { a.start } else { b.start },
        end: if a.end <= b.end { a.end } else { b.end },
        name: a.name,
        score_tenths: a.score_tenths,
        strand: a.strand,
    }
}

/// All pieces one query record yields against the target set, in target
/// order.
pub open spec fn pieces_for(a: Record, b: Seq<Record>, p: IntersectParams) -> Seq<Record>
    decreases b.len(),
{
    if b.len() == 0 {
        Seq::empty()
    } else {
        let rest = pieces_for(a, b.drop_last(), p);
        if pair_accepts(a, b.last(), p) {
            rest.push(piece_of(a, b.last()))
        } else {
            rest
        }
    }
}

/// What intersecting sorted `a` with sorted `b` means: each query record
/// in turn, its pieces against the whole target set.
pub open spec fn intersect_fold(a: Seq<Record>, b: Seq<Record>, p: IntersectParams) -> Seq<Record>
    decreases a.len(),
{
    if a.len() == 0 {
        Seq::empty()
    } else {
        intersect_fold(a.drop_last(), b, p) + pieces_for(a.last(), b, p)
    }
}

proof fn lemma_pieces_empty_prefix(a: Record, b: Seq<Record>, p: IntersectParams)
    requires
        forall|j: int| 0 <= j < b.len() ==> !pair_accepts(a, #[trigger] b[j], p),
    ensures
        pieces_for(a, b, p) == Seq::<Record>::empty(),
    decreases b.len(),
{
    if b.len() > 0 {
        lemma_pieces_empty_prefix(a, b.drop_last(), p);
    }
}

proof fn lemma_pieces_stop(a: Record, b: Seq<Record>, k: int, p: IntersectParams)
    requires
        0 <= k <= b.len(),
        forall|j: int| k <= j < b.len() ==> !pair_accepts(a, #[trigger] b[j], p),
    ensures
        pieces_for(a, b, p) == pieces_for(a, b.take(k), p),
    decreases b.len() - k,
{
    if k == b.len() {
        assert(b.take(k) =~= b);
    } else {
        assert(b.take(b.len() as int - 1) =~= b.drop_last());
        lemma_pieces_stop(a, b.drop_last(), k, p);
        assert(b.drop_last().take(k) =~= b.take(k));
    }
}

/// Every reported piece has positive length: only positive-length
/// overlaps are accepted, and the piece is exactly the overlap region.
pub proof fn lemma_intersect_fold_positive(a: Seq<Record>, b: Seq<Record>, p: IntersectParams)
    ensures
        forall|i: int| 0 <= i < intersect_fold(a, b, p).len()
            ==> (#[trigger] intersect_fold(a, b, p)[i]).start < intersect_fold(a, b, p)[i].end,
    decreases a.len(),
{
    if a.len() > 0 {
        let prev = intersect_fold(a.drop_last(), b, p);
        let ps = pieces_for(a.last(), b, p);
        lemma_intersect_fold_positive(a.drop_last(), b, p);
        lemma_pieces_positive(a.last(), b, p);
        assert forall|i: int| 0 <= i < intersect_fold(a, b, p).len()
            implies (#[trigger] intersect_fold(a, b, p)[i]).start
                < intersect_fold(a, b, p)[i].end by {
            if i < prev.len() {
                assert(intersect_fold(a, b, p)[i] == prev[i]);
            } else {
                assert(intersect_fold(a, b, p)[i] == ps[i - prev.len()]);
            }
        }
    }
}

proof fn lemma_pieces_positive(x: Record, b: Seq<Record>, p: IntersectParams)
    ensures
        forall|i: int| 0 <= i < pieces_for(x, b, p).len()
            ==> (#[trigger] pieces_for(x, b, p)[i]).start < pieces_for(x, b, p)[i].end,
    decreases b.len(),
{
    if b.len() > 0 {
        lemma_pieces_positive(x, b.drop_last(), p);
    }
}

/// Sorted merge-join intersect over pre-sorted inputs.
pub fn intersect_sorted(a: &Vec<Record>, b: &Vec<Record>, params: IntersectParams) -> (r: Vec<Record>)
    requires
        sorted(a@),
        all_valid(a@),
        sorted(b@),
        all_valid(b@),
        params.valid(),
    ensures
        r@ == intersect_fold(a@, b@, params),
{
    let ghost av = a@;
    let ghost bv = b@;
    let mut out: Vec<Record> = Vec::new();
    let mut base: usize = 0;
    let mut i: usize = 0;
    while i < a.len()
        invariant
            0 <= i <= av.len(),
            0 <= base <= bv.len(),
            a@ == av,
            b@ == bv,
            out@ == intersect_fold(av.take(i as int), bv, params),
            forall|j: int, k: int|
                0 <= j < base && i <= k < av.len() ==> b_done(#[trigger] bv[j], #[trigger] av[k]),
        decreases av.len() - i,
    {
        let x = a[i];
        while base < b.len()
            && (b[base].chr < x.chr || (b[base].chr == x.chr && b[base].end <= x.start))
            invariant
                0 <= base <= bv.len(),
                a@ == av,
                b@ == bv,
                x == av[i as int],
                0 <= i < av.len(),
                forall|j: int| 0 <= j < base ==> b_done(#[trigger] bv[j], x),
            decreases bv.len() - base,
        {
            base += 1;
        }
        proof {
            assert forall|j: int, k: int|
                0 <= j < base && i <= k < av.len()
                implies b_done(#[trigger] bv[j], #[trigger] av[k]) by {
                if k > i {
                    assert(key_le(av[i as int], av[k]));
                }
            }
            assert forall|p: int| 0 <= p < base
                implies !pair_accepts(x, #[trigger] bv[p], params) by {
                assert(b_done(bv[p], x));
            }
            lemma_pieces_empty_prefix(x, bv.take(base as int), params);
        }
        let mut j: usize = base;
        while j < b.len() && b[j].chr == x.chr && b[j].start < x.end
            invariant
                base <= j <= bv.len(),
                a@ == av,
                b@ == bv,
                x == av[i as int],
                0 <= i < av.len(),
                x.valid(),
                params.valid(),
                forall|p: int| 0 <= p < base ==> b_done(#[trigger] bv[p], x),
                out@ == intersect_fold(av.take(i as int), bv, params)
                    + pieces_for(x, bv.take(j as int), params),
            decreases bv.len() - j,
        {
            proof {
                assert(bv.take(j as int + 1).drop_last() =~= bv.take(j as int));
            }
            let lo = if x.start >= b[j].start { x.start } else { b[j].start };
            let hi = if x.end <= b[j].end { x.end } else { b[j].end };
            if hi > lo {
                let ov = hi - lo;
                proof {
                    assert(ov == overlap_len(x, bv[j as int]));
                }
                let keep = match (
                    if params.fraction_query.is_some() {
                        params.fraction_query
                    } else if params.reciprocal {
                        params.fraction_target
                    } else {
                        None
                    },
                    if params.fraction_target.is_some() {
                        params.fraction_target
                    } else if params.reciprocal {
                        params.fraction_query
                    } else {
                        None
                    },
                ) {
                    (None, None) => true,
                    (Some(f), None) => frac_meets_exec(ov, x.end - x.start, f),
                    (None, Some(f)) => frac_meets_exec(ov, b[j].end - b[j].start, f),
                    (Some(fq), Some(ft)) => if params.either {
                        frac_meets_exec(ov, x.end - x.start, fq)
                            || frac_meets_exec(ov, b[j].end - b[j].start, ft)
                    } else {
                        frac_meets_exec(ov, x.end - x.start, fq)
                            && frac_meets_exec(ov, b[j].end - b[j].start, ft)
                    },
                };
                if keep {
                    let ghost prev_out = out@;
                    out.push(Record {
                        chr: x.chr,
                        start: lo,
                        end: hi,
                        name: x.name,
                        score_tenths: x.score_tenths,
                        strand: x.strand,
                    });
                    proof {
                        assert(pair_accepts(x, bv[j as int], params));
                        assert(out@.last() == piece_of(x, bv[j as int]));
                        assert(prev_out.push(piece_of(x, bv[j as int]))
                            =~= intersect_fold(av.take(i as int), bv, params)
                                + pieces_for(x, bv.take(j as int), params)
                                    .push(piece_of(x, bv[j as int])));
                    }
                } else {
                    proof {
                        assert(!pair_accepts(x, bv[j as int], params));
                    }
                }
            }
            j += 1;
        }
        proof {
            assert forall|p: int| j <= p < bv.len()
                implies !pair_accepts(x, #[trigger] bv[p], params) by {
                assert((base as int) < bv.len());
                assert(bv[base as int].chr >= x.chr);
                if (j as int) > (base as int) {
                    assert(key_le(bv[base as int], bv[j as int]));
                }
                assert(bv[j as int].chr >= x.chr);
                if p > j {
                    assert(key_le(bv[j as int], bv[p]));
                }
                if bv[j as int].chr == x.chr {
                    assert(bv[j as int].start >= x.end);
                    if bv[p].chr == x.chr {
                        assert(bv[p].start >= x.end);
                    }
                } else {
                    assert(bv[j as int].chr > x.chr);
                    assert(bv[p].chr > x.chr);
                }
                assert(!overlaps(x, bv[p]));
            }
            lemma_pieces_stop(x, bv, j as int, params);
            assert(av.take(i as int + 1).drop_last() =~= av.take(i as int));
            assert(av.take(i as int + 1).last() == x);
            assert(out@ == intersect_fold(av.take(i as int + 1), bv, params));
        }
        i += 1;
    }
    proof {
        assert(av.take(av.len() as int) =~= av);
    }
    out
}

/// The intersect engine: rejects malformed records, sorts both sets, and
/// reports the overlap region of every accepted query/target pair, in
/// query order.
pub fn intersect(
    a: &Vec<Record>,
    b: &Vec<Record>,
    params: IntersectParams,
) -> (r: Result<Vec<Record>, GiaError>)
    requires
        params.valid(),
    ensures
        r is Ok <==> all_valid(a@) && all_valid(b@),
        r matches Ok(out) ==> {
            &&& sorted(a@) && sorted(b@) ==> out@ == intersect_fold(a@, b@, params)
            &&& exists|sa: Seq<Record>, sb: Seq<Record>|
                sorted(sa) && sa.to_multiset() == a@.to_multiset()
                    && sorted(sb) && sb.to_multiset() == b@.to_multiset()
                    && out@ == intersect_fold(sa, sb, params)
            &&& forall|i: int| 0 <= i < out@.len()
                ==> (#[trigger] out@[i]).start < out@[i].end
        },
        r matches Err(e) ==> e is MalformedRecord,
{
    match validate_records(a) {
        Ok(()) => (),
        Err(e) => {
            return Err(e);
        },
    }
    match validate_records(b) {
        Ok(()) => (),
        Err(e) => {
            return Err(e);
        },
    }
    let sa = sort_records(a);
    let sb = sort_records(b);
    let r = intersect_sorted(&sa, &sb, params);
    proof {
        let wa = sa@;
        let wb = sb@;
        assert(sorted(wa) && wa.to_multiset() == a@.to_multiset()
            && sorted(wb) && wb.to_multiset() == b@.to_multiset()
            && r@ == intersect_fold(wa, wb, params));
        lemma_intersect_fold_positive(wa, wb, params);
    }
    Ok(r)
}

} // verus!
