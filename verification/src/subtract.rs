//! The subtract engine: carves each minuend record into the maximal
//! sub-regions not covered by any accepted subtrahend record, via one
//! sorted merge-join sweep per chromosome.

use vstd::prelude::*;
use crate::record::{
    Record, Frac, GiaError, overlaps, overlap_len, frac_meets, frac_meets_exec,
    sorted, all_valid, key_le, max_u64, validate_records,
};
use crate::merge::{merge, merge_fold};
use crate::sort::sort_records;

verus! {

/// A fragment of `a`: the region `[s, e)` carrying `a`'s chromosome and
/// payload.
pub open spec fn frag_of(a: Record, s: u64, e: u64) -> Record {
    Record { chr: a.chr, start: s, end: e, name: a.name, score_tenths: a.score_tenths, strand: a.strand }
}

/// Whether subtrahend record `b` actually removes region from `a`: it
/// must overlap `a` with positive length and, when a threshold is given,
/// cover at least that fraction of `a`'s length.
pub open spec fn cut_accepts(a: Record, b: Record, frac: Option<Frac>) -> bool {
    overlaps(a, b) && match frac {
        None => true,
        Some(f) => frac_meets(overlap_len(a, b), a.len(), f),
    }
}

/// The subtrahend records that pass the acceptance test for `a`, in
/// their input order.
pub open spec fn accepted_cuts(a: Record, b: Seq<Record>, frac: Option<Frac>) -> Seq<Record>
    decreases b.len(),
{
    if b.len() == 0 {
        Seq::empty()
    } else {
        let rest = accepted_cuts(a, b.drop_last(), frac);
        if cut_accepts(a, b.last(), frac) {
            rest.push(b.last())
        } else {
            rest
        }
    }
}

/// The interval-difference sweep over one record: walk the accepted cuts
/// left to right from cursor `cur`, emit the gap before each cut, then
/// the gap after the last cut, dropping empty gaps.
pub open spec fn carve(cur: u64, a: Record, cuts: Seq<Record>) -> Seq<Record>
    decreases cuts.len(),
{
    if cuts.len() == 0 {
        if cur < a.end {
            seq![frag_of(a, cur, a.end)]
        } else {
            Seq::empty()
        }
    } else {
        let c = cuts[0];
        let pre = if cur < c.start {
            seq![frag_of(a, cur, c.start)]
        } else {
            Seq::<Record>::empty()
        };
        pre + carve(max_u64(cur, c.end), a, cuts.drop_first())
    }
}

/// What subtracting sorted `b` from sorted `a` means: each `a` record in
/// turn, carved around the subtrahend records it accepts.
pub open spec fn subtract_fold(a: Seq<Record>, b: Seq<Record>, frac: Option<Frac>) -> Seq<Record>
    decreases a.len(),
{
    if a.len() == 0 {
        Seq::empty()
    } else {
        subtract_fold(a.drop_last(), b, frac)
            + carve(a.last().start, a.last(), accepted_cuts(a.last(), b, frac))
    }
}

/// A prefix in which nothing is accepted contributes no cuts.
proof fn lemma_accepted_cuts_empty_prefix(a: Record, b: Seq<Record>, frac: Option<Frac>)
    requires
        forall|j: int| 0 <= j < b.len() ==> !cut_accepts(a, #[trigger] b[j], frac),
    ensures
        accepted_cuts(a, b, frac) == Seq::<Record>::empty(),
    decreases b.len(),
{
    if b.len() > 0 {
        lemma_accepted_cuts_empty_prefix(a, b.drop_last(), frac);
    }
}

/// Records past the last candidate position change nothing: the accepted
/// cuts of `b` are those of its first `k` records when nothing from `k`
/// on is accepted.
proof fn lemma_accepted_cuts_stop(a: Record, b: Seq<Record>, k: int, frac: Option<Frac>)
    requires
        0 <= k <= b.len(),
        forall|j: int| k <= j < b.len() ==> !cut_accepts(a, #[trigger] b[j], frac),
    ensures
        accepted_cuts(a, b, frac) == accepted_cuts(a, b.take(k), frac),
    decreases b.len() - k,
{
    if k == b.len() {
        assert(b.take(k) =~= b);
    } else {
        assert(b.take(b.len() as int - 1) =~= b.drop_last());
        lemma_accepted_cuts_stop(a, b.drop_last(), k, frac);
        assert(b.drop_last().take(k) =~= b.take(k));
    }
}

/// Every region the sweep emits has positive length: an empty gap — in
/// particular a subtrahend record exactly covering the whole record — is
/// dropped, never emitted as an empty fragment.
pub proof fn lemma_carve_positive(cur: u64, a: Record, cuts: Seq<Record>)
    ensures
        forall|i: int| 0 <= i < carve(cur, a, cuts).len()
            ==> (#[trigger] carve(cur, a, cuts)[i]).start < carve(cur, a, cuts)[i].end,
    decreases cuts.len(),
{
    if cuts.len() == 0 {
    } else {
        let c = cuts[0];
        let pre = if cur < c.start {
            seq![frag_of(a, cur, c.start)]
        } else {
            Seq::<Record>::empty()
        };
        let rest = carve(max_u64(cur, c.end), a, cuts.drop_first());
        lemma_carve_positive(max_u64(cur, c.end), a, cuts.drop_first());
        assert forall|i: int| 0 <= i < carve(cur, a, cuts).len()
            implies (#[trigger] carve(cur, a, cuts)[i]).start
                < carve(cur, a, cuts)[i].end by {
            if i < pre.len() {
                assert(carve(cur, a, cuts)[i] == pre[i]);
            } else {
                assert(carve(cur, a, cuts)[i] == rest[i - pre.len()]);
            }
        }
    }
}

/// Fragment positivity lifted over a whole subtraction.
pub proof fn lemma_subtract_fold_positive(a: Seq<Record>, b: Seq<Record>, frac: Option<Frac>)
    ensures
        forall|i: int| 0 <= i < subtract_fold(a, b, frac).len()
            ==> (#[trigger] subtract_fold(a, b, frac)[i]).start
                < subtract_fold(a, b, frac)[i].end,
    decreases a.len(),
{
    if a.len() > 0 {
        let prev = subtract_fold(a.drop_last(), b, frac);
        let frags = carve(a.last().start, a.last(), accepted_cuts(a.last(), b, frac));
        lemma_subtract_fold_positive(a.drop_last(), b, frac);
        lemma_carve_positive(a.last().start, a.last(), accepted_cuts(a.last(), b, frac));
        assert forall|i: int| 0 <= i < subtract_fold(a, b, frac).len()
            implies (#[trigger] subtract_fold(a, b, frac)[i]).start
                < subtract_fold(a, b, frac)[i].end by {
            if i < prev.len() {
                assert(subtract_fold(a, b, frac)[i] == prev[i]);
            } else {
                assert(subtract_fold(a, b, frac)[i] == frags[i - prev.len()]);
            }
        }
    }
}

/// The window advanced past `b[j]`: it lies wholly before `x` in the
/// sweep order and can overlap neither `x` nor any later record.
pub open spec fn b_done(bj: Record, x: Record) -> bool {
    bj.chr < x.chr || (bj.chr == x.chr && bj.end <= x.start)
}

/// Sorted merge-join subtract over pre-sorted inputs.
pub fn subtract_sorted(a: &Vec<Record>, b: &Vec<Record>, frac: Option<Frac>) -> (r: Vec<Record>)
    requires
        sorted(a@),
        all_valid(a@),
        sorted(b@),
        all_valid(b@),
        frac matches Some(f) ==> f.valid(),
    ensures
        r@ == subtract_fold(a@, b@, frac),
{
    let ghost av = a@;
    let ghost bv = b@;
    let mut out: Vec<Record> = Vec::new();
    let mut base: usize = 0;
    let mut i: usize = 0;
    while i < a.len()
        invariant
            0 <= i <= av.len(),
            0 <= base <= bv.len(),
            a@ == av,
            b@ == bv,
            out@ == subtract_fold(av.take(i as int), bv, frac),
            forall|j: int, k: int|
                0 <= j < base && i <= k < av.len() ==> b_done(#[trigger] bv[j], #[trigger] av[k]),
        decreases av.len() - i,
    {
        let x = a[i];
        // Advance the window start past records that can no longer
        // overlap this or any later minuend record.
        while base < b.len()
            && (b[base].chr < x.chr || (b[base].chr == x.chr && b[base].end <= x.start))
            invariant
                0 <= base <= bv.len(),
                a@ == av,
                b@ == bv,
                x == av[i as int],
                0 <= i < av.len(),
                forall|j: int| 0 <= j < base ==> b_done(#[trigger] bv[j], x),
            decreases bv.len() - base,
        {
            base += 1;
        }
        proof {
            // Once done for `x`, a record stays done for every later
            // minuend record: keys only grow along sorted `a`.
            assert forall|j: int, k: int|
                0 <= j < base && i <= k < av.len()
                implies b_done(#[trigger] bv[j], #[trigger] av[k]) by {
                if k > i {
                    assert(key_le(av[i as int], av[k]));
                }
            }
        }
        // Collect the accepted cuts for `x` from the candidate window.
        let mut cuts: Vec<Record> = Vec::new();
        let mut j: usize = base;
        proof {
            assert forall|p: int| 0 <= p < base
                implies !cut_accepts(x, #[trigger] bv[p], frac) by {
                assert(b_done(bv[p], x));
            }
            lemma_accepted_cuts_empty_prefix(x, bv.take(base as int), frac);
        }
        while j < b.len() && b[j].chr == x.chr && b[j].start < x.end
            invariant
                base <= j <= bv.len(),
                a@ == av,
                b@ == bv,
                x == av[i as int],
                0 <= i < av.len(),
                x.valid(),
                frac matches Some(f) ==> f.valid(),
                forall|p: int| 0 <= p < base ==> b_done(#[trigger] bv[p], x),
                cuts@ == accepted_cuts(x, bv.take(j as int), frac),
            decreases bv.len() - j,
        {
            proof {
                assert(bv.take(j as int + 1).drop_last() =~= bv.take(j as int));
            }
            let lo = if x.start >= b[j].start { x.start } else { b[j].start };
            let hi = if x.end <= b[j].end { x.end } else { b[j].end };
            if hi > lo {
                let ov = hi - lo;
                let keep = match frac {
                    None => true,
                    Some(f) => frac_meets_exec(ov, x.end - x.start, f),
                };
                if keep {
                    cuts.push(b[j]);
                }
                proof {
                    assert(ov == overlap_len(x, bv[j as int]));
                }
            } else {
                proof {
                    assert(!overlaps(x, bv[j as int]));
                }
            }
            j += 1;
        }
        proof {
            // Nothing at or past the stop position is a candidate: the
            // stop record is already on a later chromosome or starts at or
            // past `x.end`, and keys only grow from there.
            assert forall|p: int| j <= p < bv.len()
                implies !cut_accepts(x, #[trigger] bv[p], frac) by {
                assert((base as int) < bv.len());
                assert(bv[base as int].chr >= x.chr);
                if (j as int) > (base as int) {
                    assert(key_le(bv[base as int], bv[j as int]));
                }
                assert(bv[j as int].chr >= x.chr);
                if p > j {
                    assert(key_le(bv[j as int], bv[p]));
                }
                if bv[j as int].chr == x.chr {
                    assert(bv[j as int].start >= x.end);
                    if bv[p].chr == x.chr {
                        assert(bv[p].start >= x.end);
                    }
                } else {
                    assert(bv[j as int].chr > x.chr);
                    assert(bv[p].chr > x.chr);
                }
                assert(!overlaps(x, bv[p]));
            }
            lemma_accepted_cuts_stop(x, bv, j as int, frac);
        }
        // Sweep: emit the gaps around the accepted cuts.
        let ghost cs = cuts@;
        let ghost target = subtract_fold(av.take(i as int), bv, frac) + carve(x.start, x, cs);
        let mut cur: u64 = x.start;
        let mut k: usize = 0;
        proof {
            assert(cs.skip(0) =~= cs);
        }
        while k < cuts.len()
            invariant
                0 <= k <= cs.len(),
                cuts@ == cs,
                out@ + carve(cur, x, cs.skip(k as int)) == target,
            decreases cs.len() - k,
        {
            let c = cuts[k];
            let ghost prev_out = out@;
            let ghost cur2 = max_u64(cur, c.end);
            let ghost pre = if cur < c.start {
                seq![frag_of(x, cur, c.start)]
            } else {
                Seq::<Record>::empty()
            };
            proof {
                assert(cs.skip(k as int)[0] == cs[k as int]);
                assert(cs.skip(k as int).drop_first() =~= cs.skip(k as int + 1));
                assert(carve(cur, x, cs.skip(k as int))
                    == pre + carve(cur2, x, cs.skip(k as int + 1)));
                assert((prev_out + pre) + carve(cur2, x, cs.skip(k as int + 1))
                    =~= prev_out + (pre + carve(cur2, x, cs.skip(k as int + 1))));
                if cur < c.start {
                    assert(prev_out + pre =~= prev_out.push(frag_of(x, cur, c.start)));
                } else {
                    assert(prev_out + pre =~= prev_out);
                }
            }
            if cur < c.start {
                out.push(Record {
                    chr: x.chr, start: cur, end: c.start,
                    name: x.name, score_tenths: x.score_tenths, strand: x.strand,
                });
            }
            if c.end > cur {
                cur = c.end;
            }
            k += 1;
        }
        let ghost prev_out = out@;
        proof {
            assert(cs.skip(cs.len() as int) =~= Seq::<Record>::empty());
            if cur < x.end {
                assert(carve(cur, x, Seq::<Record>::empty())
                    == seq![frag_of(x, cur, x.end)]);
                assert(prev_out + seq![frag_of(x, cur, x.end)]
                    =~= prev_out.push(frag_of(x, cur, x.end)));
            } else {
                assert(prev_out + carve(cur, x, Seq::<Record>::empty()) =~= prev_out);
            }
        }
        if cur < x.end {
            out.push(Record {
                chr: x.chr, start: cur, end: x.end,
                name: x.name, score_tenths: x.score_tenths, strand: x.strand,
            });
        }
        proof {
            assert(out@ == target);
            assert(av.take(i as int + 1).drop_last() =~= av.take(i as int));
            assert(av.take(i as int + 1).last() == x);
            assert(out@ == subtract_fold(av.take(i as int + 1), bv, frac));
        }
        i += 1;
    }
    proof {
        assert(av.take(av.len() as int) =~= av);
    }
    out
}

/// The subtract engine.  Unless `unmerged` is set, both sets first go
/// through the batch merge, collapsing overlapping regions into single
/// spans; with it, the raw records are used as they stand, each minuend
/// record carved independently.  Inputs need not be sorted: the sort
/// stage runs inside, and malformed records are rejected first.
pub fn subtract(
    a: &Vec<Record>,
    b: &Vec<Record>,
    frac: Option<Frac>,
    unmerged: bool,
) -> (r: Result<Vec<Record>, GiaError>)
    requires
        frac matches Some(f) ==> f.valid(),
    ensures
        r is Ok <==> all_valid(a@) && all_valid(b@),
        r matches Ok(out) ==> {
            &&& !unmerged && sorted(a@) && sorted(b@)
                ==> out@ == subtract_fold(merge_fold(a@), merge_fold(b@), frac)
            &&& unmerged && sorted(a@) && sorted(b@)
                ==> out@ == subtract_fold(a@, b@, frac)
            &&& !unmerged ==> forall|sa: Seq<Record>, sb: Seq<Record>|
                sorted(sa) && sa.to_multiset() == a@.to_multiset()
                    && sorted(sb) && sb.to_multiset() == b@.to_multiset()
                    ==> out@ == subtract_fold(merge_fold(sa), merge_fold(sb), frac)
            &&& unmerged ==> exists|sa: Seq<Record>, sb: Seq<Record>|
                sorted(sa) && sa.to_multiset() == a@.to_multiset()
                    && sorted(sb) && sb.to_multiset() == b@.to_multiset()
                    && out@ == subtract_fold(sa, sb, frac)
            &&& forall|i: int| 0 <= i < out@.len()
                ==> (#[trigger] out@[i]).start < out@[i].end
        },
        r matches Err(e) ==> e is MalformedRecord,
{
    match validate_records(a) {
        Ok(()) => (),
        Err(e) => {
            return Err(e);
        },
    }
    match validate_records(b) {
        Ok(()) => (),
        Err(e) => {
            return Err(e);
        },
    }
    if unmerged {
        let sa = sort_records(a);
        let sb = sort_records(b);
        let out = subtract_sorted(&sa, &sb, frac);
        proof {
            lemma_subtract_fold_positive(sa@, sb@, frac);
            let wa = sa@;
            let wb = sb@;
            assert(sorted(wa) && wa.to_multiset() == a@.to_multiset()
                && sorted(wb) && wb.to_multiset() == b@.to_multiset()
                && out@ == subtract_fold(wa, wb, frac));
        }
        Ok(out)
    } else {
        let ma = merge(a, false);
        let mb = merge(b, false);
        proof {
            if sorted(a@) {
                crate::merge::lemma_merge_fold_props(a@);
            }
            if sorted(b@) {
                crate::merge::lemma_merge_fold_props(b@);
            }
        }
        let out = subtract_sorted(&ma, &mb, frac);
        proof {
            lemma_subtract_fold_positive(ma@, mb@, frac);
        }
        Ok(out)
    }
}

} // verus!
