//! The sort stage: reorders an interval set into the `(chr, start, end)`
//! total order, leaving already-sorted input untouched.

use vstd::prelude::*;
use crate::record::{Record, GiaError, key_le, sorted, all_valid, validate_records};

verus! {

/// `key_le` relates every pair of records one way or the other.
pub proof fn lemma_key_le_total(a: Record, b: Record)
    ensures
        key_le(a, b) || key_le(b, a),
{
}

/// `key_le` is transitive.
pub proof fn lemma_key_le_trans(a: Record, b: Record, c: Record)
    requires
        key_le(a, b),
        key_le(b, c),
    ensures
        key_le(a, c),
{
}

/// Inserting an element anywhere in a sequence adds exactly it to the
/// sequence's multiset.
proof fn lemma_insert_to_multiset(s: Seq<Record>, i: int, x: Record)
    requires
        0 <= i <= s.len(),
    ensures
        s.insert(i, x).to_multiset() =~= s.to_multiset().insert(x),
{
    broadcast use vstd::seq_lib::group_to_multiset_ensures;

    let t = s.insert(i, x);
    assert(t.remove(i) =~= s);
    assert(t[i] == x);
    assert(t.remove(i).to_multiset() =~= t.to_multiset().remove(x));
    assert(t.contains(x));
    assert(t.to_multiset().count(x) > 0);
    assert forall|y: Record| t.to_multiset().count(y)
        == s.to_multiset().insert(x).count(y) by {
        if y == x {
            assert(s.to_multiset().count(x) == t.to_multiset().remove(x).count(x));
        } else {
            assert(s.to_multiset().count(y) == t.to_multiset().remove(x).count(y));
        }
    }
    assert(t.to_multiset() =~= s.to_multiset().insert(x));
}

/// Reorders `records` into the total order of the sort stage.  The result
/// holds exactly the input records; input that is already sorted comes back
/// identical, so equal keys keep their original relative order there.
pub fn sort_records(records: &Vec<Record>) -> (r: Vec<Record>)
    ensures
        sorted(r@),
        r@.to_multiset() == records@.to_multiset(),
        r@.len() == records@.len(),
        sorted(records@) ==> r@ == records@,
        all_valid(records@) ==> all_valid(r@),
{
    broadcast use vstd::seq_lib::group_to_multiset_ensures;

    let ghost rs = records@;
    let mut out: Vec<Record> = Vec::new();
    let mut i: usize = 0;
    while i < records.len()
        invariant
            0 <= i <= rs.len(),
            records@ == rs,
            out@.len() == i,
            sorted(out@),
            out@.to_multiset() == rs.take(i as int).to_multiset(),
            sorted(rs) ==> out@ == rs.take(i as int),
        decreases rs.len() - i,
    {
        let x = records[i];
        // Find the first position whose record does not precede `x`.
        let mut pos: usize = 0;
        while pos < out.len() && key_le_exec(&out[pos], &x)
            invariant
                0 <= pos <= out@.len(),
                forall|p: int| 0 <= p < pos ==> key_le(#[trigger] out@[p], x),
            decreases out@.len() - pos,
        {
            pos += 1;
        }
        let ghost pre = out@;
        proof {
            // `x` precedes the whole suffix from `pos` on.
            assert forall|j: int| pos <= j < pre.len() implies key_le(x, pre[j]) by {
                lemma_key_le_total(pre[pos as int], x);
                assert(key_le(x, pre[pos as int]));
                if j > pos {
                    assert(key_le(pre[pos as int], pre[j]));
                    lemma_key_le_trans(x, pre[pos as int], pre[j]);
                }
            }
            assert(rs.take(i as int).push(rs[i as int]) =~= rs.take(i as int + 1));
            lemma_insert_to_multiset(pre, pos as int, x);
            if sorted(rs) {
                // Every record already placed precedes `x`, so it lands at
                // the end and the prefix is reproduced verbatim.
                assert(forall|p: int| 0 <= p < pre.len()
                    ==> key_le(#[trigger] pre[p], x));
                assert(pos == pre.len());
                assert(pre.insert(pos as int, x) =~= rs.take(i as int + 1));
            }
        }
        out.insert(pos, x);
        proof {
            assert(out@ == pre.insert(pos as int, x));
            assert forall|p: int, q: int| 0 <= p < q < out@.len()
                implies key_le(out@[p], out@[q]) by {
                let pp = if p < pos { pre[p] } else if p == pos { x } else { pre[p - 1] };
                let qq = if q < pos { pre[q] } else if q == pos { x } else { pre[q - 1] };
                assert(out@[p] == pp);
                assert(out@[q] == qq);
                if q < pos || p > pos {
                    assert(key_le(pp, qq));
                } else if p == pos {
                    assert(key_le(x, qq));
                } else if q == pos {
                    assert(key_le(pp, x));
                } else if p < pos && q > pos {
                    assert(key_le(pp, x));
                    assert(key_le(x, qq));
                    lemma_key_le_trans(pp, x, qq);
                }
            }
        }
        i += 1;
    }
    proof {
        assert(rs.take(rs.len() as int) =~= rs);
        if all_valid(rs) {
            assert forall|k: int| 0 <= k < out@.len()
                implies (#[trigger] out@[k]).valid() by {
                assert(out@.contains(out@[k]));
                assert(out@.to_multiset().count(out@[k]) > 0);
                assert(rs.contains(out@[k]));
            }
        }
    }
    out
}

/// Executable form of the `key_le` total order.
pub fn key_le_exec(a: &Record, b: &Record) -> (r: bool)
    ensures
        r == key_le(*a, *b),
{
    if a.chr != b.chr {
        a.chr < b.chr
    } else if a.start != b.start {
        a.start < b.start
    } else {
        a.end <= b.end
    }
}

/// The full sort stage: rejects malformed records (`start > end`) naming
/// the first offender, then returns the sorted set.
pub fn sort_stage(records: &Vec<Record>) -> (r: Result<Vec<Record>, GiaError>)
    ensures
        r is Ok <==> all_valid(records@),
        r matches Ok(out) ==> {
            &&& sorted(out@)
            &&& out@.to_multiset() == records@.to_multiset()
            &&& all_valid(out@)
            &&& (sorted(records@) ==> out@ == records@)
        },
        r matches Err(e) ==> e is MalformedRecord,
{
    match validate_records(records) {
        Ok(()) => Ok(sort_records(records)),
        Err(e) => Err(e),
    }
}

} // verus!
