//! Cross-engine laws: with no fractional threshold, subtract removes
//! exactly the region that intersect reports, so the two outputs together
//! account for every base of the minuend set.

use vstd::prelude::*;
use crate::record::{Record, Frac, overlaps, overlap_len, sorted, all_valid};
use crate::merge::runs_disjoint;
use crate::subtract::{carve, accepted_cuts, cut_accepts, subtract_fold, frag_of};
use crate::intersect::{IntersectParams, pieces_for, piece_of, pair_accepts, intersect_fold};

verus! {

/// The policy that accepts every positive-length overlap.
pub open spec fn no_thresholds() -> IntersectParams {
    IntersectParams { fraction_query: None, fraction_target: None, reciprocal: false, either: false }
}

/// Total number of bases covered by a sequence of records, multiplicity
/// included.
pub open spec fn total_len(s: Seq<Record>) -> int
    decreases s.len(),
{
    if s.len() == 0 {
        0
    } else {
        s[0].len() + total_len(s.drop_first())
    }
}

/// Sum of the overlap lengths of `a` against each cut in turn.
pub open spec fn sum_overlap(a: Record, cuts: Seq<Record>) -> int
    decreases cuts.len(),
{
    if cuts.len() == 0 {
        0
    } else {
        overlap_len(a, cuts[0]) + sum_overlap(a, cuts.drop_first())
    }
}

proof fn lemma_total_len_push(s: Seq<Record>, z: Record)
    ensures
        total_len(s.push(z)) == total_len(s) + z.len(),
    decreases s.len(),
{
    assert(s.push(z).len() == s.len() + 1);
    assert(s.push(z)[0] == if s.len() == 0 { z } else { s[0] });
    if s.len() == 0 {
        assert(s.push(z).drop_first() =~= Seq::<Record>::empty());
        assert(total_len(s.push(z)) == z.len() + total_len(Seq::<Record>::empty()));
    } else {
        assert(s.push(z).drop_first() =~= s.drop_first().push(z));
        lemma_total_len_push(s.drop_first(), z);
        assert(total_len(s.push(z)) == s[0].len() + total_len(s.drop_first().push(z)));
    }
}

proof fn lemma_sum_overlap_push(a: Record, cuts: Seq<Record>, z: Record)
    ensures
        sum_overlap(a, cuts.push(z)) == sum_overlap(a, cuts) + overlap_len(a, z),
    decreases cuts.len(),
{
    assert(cuts.push(z).len() == cuts.len() + 1);
    assert(cuts.push(z)[0] == if cuts.len() == 0 { z } else { cuts[0] });
    if cuts.len() == 0 {
        assert(cuts.push(z).drop_first() =~= Seq::<Record>::empty());
        assert(sum_overlap(a, cuts.push(z))
            == overlap_len(a, z) + sum_overlap(a, Seq::<Record>::empty()));
    } else {
        assert(cuts.push(z).drop_first() =~= cuts.drop_first().push(z));
        lemma_sum_overlap_push(a, cuts.drop_first(), z);
        assert(sum_overlap(a, cuts.push(z))
            == overlap_len(a, cuts[0]) + sum_overlap(a, cuts.drop_first().push(z)));
    }
}

proof fn lemma_total_len_singleton(z: Record)
    ensures
        total_len(seq![z]) == z.len(),
{
    assert(seq![z].len() == 1);
    assert(seq![z][0] == z);
    assert(seq![z].drop_first() =~= Seq::<Record>::empty());
    assert(total_len(seq![z]) == z.len() + total_len(seq![z].drop_first()));
}

proof fn lemma_total_len_concat(x: Seq<Record>, y: Seq<Record>)
    ensures
        total_len(x + y) == total_len(x) + total_len(y),
    decreases x.len(),
{
    if x.len() == 0 {
        assert(x + y =~= y);
    } else {
        assert((x + y).drop_first() =~= x.drop_first() + y);
        lemma_total_len_concat(x.drop_first(), y);
    }
}

/// The accepted cuts of a disjoint sorted subtrahend set: every one is an
/// accepted record of that set, and they stay pairwise disjoint in order.
proof fn lemma_accepted_cuts_shape(a: Record, bs: Seq<Record>, frac: Option<Frac>)
    requires
        sorted(bs),
        runs_disjoint(bs),
        all_valid(bs),
    ensures
        ({
            let c = accepted_cuts(a, bs, frac);
            &&& forall|k: int| 0 <= k < c.len()
                ==> cut_accepts(a, #[trigger] c[k], frac) && c[k].valid()
            &&& forall|k: int| 0 <= k < c.len()
                ==> exists|m: int| 0 <= m < bs.len() && bs[m] == #[trigger] c[k]
            &&& forall|i: int, j: int| 0 <= i < j < c.len() ==> c[i].end < c[j].start
        }),
    decreases bs.len(),
{
    if bs.len() > 0 {
        let t = bs.drop_last();
        let c0 = accepted_cuts(a, t, frac);
        let c = accepted_cuts(a, bs, frac);
        lemma_accepted_cuts_shape(a, t, frac);
        assert forall|k: int| 0 <= k < c0.len()
            implies exists|m: int| 0 <= m < bs.len() && bs[m] == #[trigger] c0[k] by {
            let m = choose|m: int| 0 <= m < t.len() && t[m] == c0[k];
            assert(bs[m] == c0[k]);
        }
        if cut_accepts(a, bs.last(), frac) {
            assert(c == c0.push(bs.last()));
            assert forall|i: int, j: int| 0 <= i < j < c.len()
                implies c[i].end < c[j].start by {
                if j == c.len() - 1 {
                    let m = choose|m: int| 0 <= m < t.len() && t[m] == c0[i];
                    // both cuts overlap `a`, so they share its chromosome
                    assert(overlaps(a, c[i]));
                    assert(overlaps(a, bs.last()));
                    assert(bs[m].chr == bs[bs.len() - 1].chr);
                    assert(bs[m].end < bs[bs.len() - 1].start);
                }
            }
        } else {
            assert(c == c0);
        }
    }
}

/// One sweep accounts for every base: the fragments the carve keeps plus
/// the overlap removed by each accepted cut add up to the region from the
/// cursor to the record's end.
proof fn lemma_carve_len(cur: u64, a: Record, cuts: Seq<Record>)
    requires
        a.valid(),
        a.start <= cur,
        cur <= a.end,
        forall|k: int| 0 <= k < cuts.len()
            ==> overlaps(a, #[trigger] cuts[k]) && cuts[k].valid(),
        forall|i: int, j: int| 0 <= i < j < cuts.len() ==> cuts[i].end < cuts[j].start,
        cuts.len() > 0 ==> (cur <= cuts[0].start || cur == a.start),
    ensures
        total_len(carve(cur, a, cuts)) + sum_overlap(a, cuts) == a.end - cur,
    decreases cuts.len(),
{
    if cuts.len() == 0 {
        if cur < a.end {
            assert(carve(cur, a, cuts) =~= seq![frag_of(a, cur, a.end)]);
            lemma_total_len_singleton(frag_of(a, cur, a.end));
        } else {
            assert(carve(cur, a, cuts) =~= Seq::<Record>::empty());
        }
    } else {
        let c = cuts[0];
        let rest = cuts.drop_first();
        let pre = if cur < c.start {
            seq![frag_of(a, cur, c.start)]
        } else {
            Seq::<Record>::empty()
        };
        let cur2 = if cur >= c.end { cur } else { c.end };
        assert(carve(cur, a, cuts) == pre + carve(cur2, a, rest));
        assert(cur2 == c.end) by {
            if cur > a.start {
                assert(cur <= c.start);
            }
        }
        let pre_len: int = if cur < c.start { c.start - cur } else { 0 };
        assert(total_len(pre) == pre_len) by {
            if cur < c.start {
                lemma_total_len_singleton(frag_of(a, cur, c.start));
            }
        }
        lemma_total_len_concat(pre, carve(cur2, a, rest));
        assert(sum_overlap(a, cuts) == overlap_len(a, c) + sum_overlap(a, rest));
        if rest.len() == 0 {
            // the last cut may run past the record's end
            assert(sum_overlap(a, rest) == 0);
            if c.end < a.end {
                assert(carve(cur2, a, rest) =~= seq![frag_of(a, c.end, a.end)]);
                lemma_total_len_singleton(frag_of(a, c.end, a.end));
                assert(total_len(carve(cur, a, cuts)) == pre_len + (a.end - c.end));
            } else {
                assert(carve(cur2, a, rest) =~= Seq::<Record>::empty());
                assert(total_len(carve(cur, a, cuts)) == pre_len);
            }
            assert(overlap_len(a, c)
                == (if a.end <= c.end { a.end } else { c.end })
                    - (if a.start >= c.start { a.start } else { c.start }));
            assert(total_len(carve(cur, a, cuts)) + sum_overlap(a, cuts) == a.end - cur);
        } else {
            // a further cut starts after this one ends yet before the
            // record ends, so the cursor stays inside the record
            assert(c.end < rest[0].start);
            assert(overlaps(a, rest[0]));
            assert(rest[0].start < a.end);
            assert(forall|k: int| 0 <= k < rest.len()
                ==> overlaps(a, #[trigger] rest[k]) && rest[k].valid());
            assert forall|i: int, j: int| 0 <= i < j < rest.len()
                implies rest[i].end < rest[j].start by {
                assert(cuts[i + 1].end < cuts[j + 1].start);
            }
            lemma_carve_len(cur2, a, rest);
            assert(total_len(carve(cur2, a, rest)) + sum_overlap(a, rest)
                == a.end - c.end);
            assert(overlap_len(a, c)
                == (if a.end <= c.end { a.end } else { c.end })
                    - (if a.start >= c.start { a.start } else { c.start }));
            assert(total_len(carve(cur, a, cuts)) + sum_overlap(a, cuts) == a.end - cur);
        }
    }
}

/// The pieces intersect reports are exactly the accepted cuts' overlaps.
proof fn lemma_pieces_len(a: Record, bs: Seq<Record>)
    requires
        a.valid(),
        all_valid(bs),
    ensures
        total_len(pieces_for(a, bs, no_thresholds()))
            == sum_overlap(a, accepted_cuts(a, bs, None)),
    decreases bs.len(),
{
    if bs.len() > 0 {
        let t = bs.drop_last();
        lemma_pieces_len(a, t);
        if overlaps(a, bs.last()) {
            assert(pair_accepts(a, bs.last(), no_thresholds()));
            assert(cut_accepts(a, bs.last(), None));
            lemma_total_len_push(pieces_for(a, t, no_thresholds()), piece_of(a, bs.last()));
            lemma_sum_overlap_push(a, accepted_cuts(a, t, None), bs.last());
            assert(piece_of(a, bs.last()).len() == overlap_len(a, bs.last()));
        } else {
            assert(!pair_accepts(a, bs.last(), no_thresholds()));
            assert(!cut_accepts(a, bs.last(), None));
        }
    }
}

/// Subtract/intersect duality for one minuend record: with no fractional
/// threshold and a merged (sorted, disjoint) subtrahend set, the
/// fragments subtract keeps and the pieces intersect reports partition
/// the record — their lengths add up to exactly its length, with the
/// fragment boundaries meeting the piece boundaries.
pub proof fn lemma_subtract_intersect_duality_one(a: Record, bs: Seq<Record>)
    requires
        a.valid(),
        sorted(bs),
        runs_disjoint(bs),
        all_valid(bs),
    ensures
        total_len(carve(a.start, a, accepted_cuts(a, bs, None)))
            + total_len(pieces_for(a, bs, no_thresholds())) == a.len(),
{
    let c = accepted_cuts(a, bs, None);
    lemma_accepted_cuts_shape(a, bs, None);
    assert(forall|k: int| 0 <= k < c.len()
        ==> overlaps(a, #[trigger] c[k]) && c[k].valid());
    lemma_carve_len(a.start, a, c);
    lemma_pieces_len(a, bs);
}

/// Subtract/intersect duality over whole sets: with no fractional
/// threshold and a merged subtrahend set, the total length of
/// `subtract(A, B)` plus the total length of `intersect(A, B)` equals the
/// total length of `A`.
pub proof fn lemma_subtract_intersect_duality(a: Seq<Record>, bs: Seq<Record>)
    requires
        all_valid(a),
        sorted(bs),
        runs_disjoint(bs),
        all_valid(bs),
    ensures
        total_len(subtract_fold(a, bs, None))
            + total_len(intersect_fold(a, bs, no_thresholds())) == total_len(a),
    decreases a.len(),
{
    if a.len() == 0 {
    } else {
        let t = a.drop_last();
        let x = a.last();
        lemma_subtract_intersect_duality(t, bs);
        lemma_subtract_intersect_duality_one(x, bs);
        lemma_total_len_concat(
            subtract_fold(t, bs, None),
            carve(x.start, x, accepted_cuts(x, bs, None)),
        );
        lemma_total_len_concat(
            intersect_fold(t, bs, no_thresholds()),
            pieces_for(x, bs, no_thresholds()),
        );
        lemma_total_len_push(t, x);
        assert(t.push(x) =~= a);
    }
}

} // verus!

