//! The merge engine: collapses a sorted interval set into maximal
//! non-overlapping, non-touching runs.  One emit-run-on-non-mergeable
//! state machine (`MergeStream`) does the work; batch mode feeds it a
//! materialized sorted vector, streaming mode feeds it record by record.

use vstd::prelude::*;
use crate::record::{
    Record, Strand, mergeable, sorted, all_valid, key_le, max_u64,
};
use crate::sort::{sort_records, lemma_key_le_trans};

verus! {

/// The run a single record seeds: its region with neutral payload.
pub open spec fn new_run(x: Record) -> Record {
    Record { chr: x.chr, start: x.start, end: x.end, name: 0, score_tenths: 0, strand: Strand::Plus }
}

/// Extending a run by a mergeable record keeps its start and stretches
/// its end.
pub open spec fn extend_run(run: Record, x: Record) -> Record {
    Record { chr: run.chr, start: run.start, end: max_u64(run.end, x.end), name: 0, score_tenths: 0, strand: Strand::Plus }
}

/// The meaning of merging: a left-to-right fold of the sorted input that
/// extends the trailing run while records stay mergeable with it and
/// seeds a fresh run otherwise.
pub open spec fn merge_fold(s: Seq<Record>) -> Seq<Record>
    decreases s.len(),
{
    if s.len() == 0 {
        Seq::empty()
    } else {
        let prev = merge_fold(s.drop_last());
        let x = s.last();
        if prev.len() > 0 && mergeable(prev.last(), x) {
            prev.update(prev.len() - 1, extend_run(prev.last(), x))
        } else {
            prev.push(new_run(x))
        }
    }
}

/// No two runs on one chromosome touch or overlap: each ends strictly
/// before the next starts.
pub open spec fn runs_disjoint(m: Seq<Record>) -> bool {
    forall|i: int, j: int|
        0 <= i < j < m.len() && m[i].chr == m[j].chr ==> m[i].end < m[j].start
}

/// A run contains a record's whole region.
pub open spec fn covers(run: Record, x: Record) -> bool {
    run.chr == x.chr && run.start <= x.start && x.end <= run.end
}

/// The shape of a merge result: sorted disjoint valid runs with neutral
/// payload, each input record contained in some run, and the trailing
/// run pinned to the trailing input record.
pub proof fn lemma_merge_fold_props(s: Seq<Record>)
    requires
        sorted(s),
        all_valid(s),
    ensures
        ({
            let m = merge_fold(s);
            &&& (m.len() == 0 <==> s.len() == 0)
            &&& sorted(m)
            &&& runs_disjoint(m)
            &&& all_valid(m)
            &&& forall|i: int| 0 <= i < m.len() ==> (#[trigger] m[i]).neutral_payload()
            &&& forall|k: int| 0 <= k < s.len()
                ==> exists|i: int| 0 <= i < m.len() && covers(m[i], #[trigger] s[k])
            &&& s.len() > 0 ==> {
                let last = m.last();
                &&& last.chr == s.last().chr
                &&& last.start <= s.last().start
                &&& s.last().end <= last.end
            }
        }),
    decreases s.len(),
{
    if s.len() > 0 {
        let t = s.drop_last();
        let x = s.last();
        let prev = merge_fold(t);
        let m = merge_fold(s);
        assert(forall|i: int, j: int| 0 <= i < j < t.len() ==> key_le(t[i], t[j]));
        lemma_merge_fold_props(t);
        if t.len() == 0 {
            assert(m =~= seq![new_run(x)]);
        } else {
            assert(key_le(t.last(), x));
            if prev.len() > 0 && mergeable(prev.last(), x) {
                let ext = extend_run(prev.last(), x);
                assert(m == prev.update(prev.len() - 1, ext));
                assert(m.len() == prev.len());
                assert(forall|i: int| 0 <= i < m.len() - 1 ==> m[i] == prev[i]);
                assert(m.last() == ext);
                // order and disjointness: only the trailing end grew
                assert forall|i: int, j: int| 0 <= i < j < m.len()
                    implies key_le(m[i], m[j]) by {
                    assert(key_le(prev[i], prev[j]));
                }
                // coverage: old runs unchanged or enlarged, x lands in the
                // trailing run
                assert(prev.last().start <= t.last().start);
                assert(t.last().start <= x.start);
                assert forall|k: int| 0 <= k < s.len()
                    implies exists|i: int| 0 <= i < m.len() && covers(m[i], #[trigger] s[k]) by {
                    if k < t.len() {
                        let i = choose|i: int| 0 <= i < prev.len() && covers(prev[i], t[k]);
                        if i < prev.len() - 1 {
                            assert(covers(m[i], s[k]));
                        } else {
                            assert(covers(m[prev.len() - 1], s[k]));
                        }
                    } else {
                        assert(s[k] == x);
                        assert(covers(m[m.len() - 1], x));
                    }
                }
            } else {
                let nr = new_run(x);
                assert(m == prev.push(nr));
                // the fresh run comes after every previous run
                assert(prev.last().chr == t.last().chr);
                assert(key_le(prev.last(), nr)) by {
                    if prev.last().chr == x.chr {
                        assert(x.start > prev.last().end);
                    }
                }
                assert forall|i: int, j: int| 0 <= i < j < m.len()
                    implies key_le(m[i], m[j]) by {
                    if j == m.len() - 1 {
                        if i < prev.len() - 1 {
                            lemma_key_le_trans(prev[i], prev[prev.len() - 1], nr);
                        }
                    }
                }
                assert forall|i: int, j: int| 0 <= i < j < m.len() && m[i].chr == m[j].chr
                    implies m[i].end < m[j].start by {
                    if j == m.len() - 1 {
                        // a same-chromosome earlier run ends before the
                        // trailing old run, which ends before x starts
                        assert(m[i].chr == x.chr);
                        if i < prev.len() - 1 {
                            assert(key_le(prev[i], prev[prev.len() - 1]));
                        }
                        assert(prev[i].chr <= prev[prev.len() - 1].chr);
                        assert(prev[prev.len() - 1].chr <= x.chr);
                        assert(prev[prev.len() - 1].chr == x.chr);
                        assert(x.start > prev.last().end);
                        if i < prev.len() - 1 {
                            assert(prev[i].end < prev[prev.len() - 1].start);
                        }
                    }
                }
                assert forall|k: int| 0 <= k < s.len()
                    implies exists|i: int| 0 <= i < m.len() && covers(m[i], #[trigger] s[k]) by {
                    if k < t.len() {
                        let i = choose|i: int| 0 <= i < prev.len() && covers(prev[i], t[k]);
                        assert(covers(m[i], s[k]));
                    } else {
                        assert(covers(m[m.len() - 1], x));
                    }
                }
            }
        }
    }
}

/// Merging leaves a set that is already in merged shape untouched.
proof fn lemma_merge_fold_fixed(m: Seq<Record>)
    requires
        sorted(m),
        runs_disjoint(m),
        all_valid(m),
        forall|i: int| 0 <= i < m.len() ==> (#[trigger] m[i]).neutral_payload(),
    ensures
        merge_fold(m) == m,
    decreases m.len(),
{
    if m.len() > 0 {
        let t = m.drop_last();
        let x = m.last();
        assert(forall|i: int, j: int| 0 <= i < j < t.len() ==> key_le(t[i], t[j]));
        lemma_merge_fold_fixed(t);
        if t.len() > 0 {
            assert(!mergeable(t.last(), x)) by {
                if t.last().chr == x.chr {
                    assert(t.last().end < x.start);
                }
            }
        }
        assert(new_run(x) == x);
        assert(merge_fold(m) =~= t.push(x));
        assert(t.push(x) =~= m);
    } else {
        assert(merge_fold(m) =~= m);
    }
}

/// Merge idempotence: merging an already-merged set yields the identical
/// set.
pub proof fn lemma_merge_idempotent(s: Seq<Record>)
    requires
        sorted(s),
        all_valid(s),
    ensures
        merge_fold(merge_fold(s)) == merge_fold(s),
{
    lemma_merge_fold_props(s);
    lemma_merge_fold_fixed(merge_fold(s));
}

/// Merge closure: no two output runs could be combined further (for any
/// pair in output order, the later run starts strictly after the earlier
/// one ends, so the adjacency rule rejects it), and no input record
/// escapes its run — every one lies inside some output run.
pub proof fn lemma_merge_closure(s: Seq<Record>)
    requires
        sorted(s),
        all_valid(s),
    ensures
        ({
            let m = merge_fold(s);
            &&& forall|i: int, j: int| 0 <= i < j < m.len() ==> !mergeable(m[i], m[j])
            &&& forall|k: int| 0 <= k < s.len()
                ==> exists|i: int| 0 <= i < m.len() && covers(m[i], #[trigger] s[k])
        }),
{
    lemma_merge_fold_props(s);
    let m = merge_fold(s);
    assert forall|i: int, j: int| 0 <= i < j < m.len()
        implies !mergeable(m[i], m[j]) by {
        if m[i].chr == m[j].chr {
            assert(m[i].end < m[j].start);
        }
    }
}

/// The fields the merge reads from a record: its sort key.
pub open spec fn key_of(r: Record) -> (u32, u64, u64) {
    (r.chr, r.start, r.end)
}

/// The key projection of a record sequence.
pub open spec fn keys_of(s: Seq<Record>) -> Seq<(u32, u64, u64)> {
    s.map_values(|r: Record| key_of(r))
}

/// The lexicographic order on sort keys, mirroring `key_le`.
pub open spec fn key_tuple_le(a: (u32, u64, u64), b: (u32, u64, u64)) -> bool {
    if a.0 != b.0 {
        a.0 < b.0
    } else if a.1 != b.1 {
        a.1 < b.1
    } else {
        a.2 <= b.2
    }
}

/// Multiset-equal record sequences have multiset-equal key projections.
proof fn lemma_keys_multiset(s1: Seq<Record>, s2: Seq<Record>)
    requires
        s1.to_multiset() == s2.to_multiset(),
    ensures
        keys_of(s1).to_multiset() == keys_of(s2).to_multiset(),
    decreases s1.len(),
{
    broadcast use vstd::seq_lib::group_to_multiset_ensures;

    if s1.len() == 0 {
        assert(s2.to_multiset().len() == 0);
        assert(keys_of(s1) =~= Seq::<(u32, u64, u64)>::empty());
        assert(keys_of(s2) =~= Seq::<(u32, u64, u64)>::empty());
    } else {
        let v = s1.last();
        assert(s1.contains(v));
        assert(s1.to_multiset().count(v) > 0);
        assert(s2.contains(v));
        let j = choose|j: int| 0 <= j < s2.len() && s2[j] == v;
        let s1r = s1.drop_last();
        let s2r = s2.remove(j);
        assert(s1.remove(s1.len() - 1) =~= s1r);
        assert(s1r.to_multiset() == s1.to_multiset().remove(v));
        assert(s2r.to_multiset() == s2.to_multiset().remove(v));
        lemma_keys_multiset(s1r, s2r);
        assert(keys_of(s1r).push(key_of(v)) =~= keys_of(s1));
        assert(keys_of(s1).to_multiset() == keys_of(s1r).to_multiset().insert(key_of(v)));
        assert(keys_of(s2r) =~= keys_of(s2).remove(j));
        assert(keys_of(s2).remove(j).to_multiset()
            == keys_of(s2).to_multiset().remove(keys_of(s2)[j]));
        assert(keys_of(s2)[j] == key_of(v));
        assert(keys_of(s2).contains(key_of(v)));
        assert(keys_of(s2).to_multiset().count(key_of(v)) > 0);
        assert forall|y: (u32, u64, u64)| keys_of(s1).to_multiset().count(y)
            == keys_of(s2).to_multiset().count(y) by {
            if y == key_of(v) {
                assert(keys_of(s1r).to_multiset().count(y)
                    == keys_of(s2).to_multiset().remove(key_of(v)).count(y));
            } else {
                assert(keys_of(s1r).to_multiset().count(y)
                    == keys_of(s2).to_multiset().remove(key_of(v)).count(y));
            }
        }
        assert(keys_of(s1).to_multiset() =~= keys_of(s2).to_multiset());
    }
}

/// The merge reads only the key fields, so key-equal inputs merge alike.
proof fn lemma_merge_fold_keys(s1: Seq<Record>, s2: Seq<Record>)
    requires
        keys_of(s1) == keys_of(s2),
    ensures
        merge_fold(s1) == merge_fold(s2),
    decreases s1.len(),
{
    assert(keys_of(s1).len() == s1.len());
    assert(keys_of(s2).len() == s2.len());
    assert(s1.len() == s2.len());
    if s1.len() > 0 {
        assert(keys_of(s1.drop_last()) =~= keys_of(s1).drop_last());
        assert(keys_of(s2.drop_last()) =~= keys_of(s2).drop_last());
        lemma_merge_fold_keys(s1.drop_last(), s2.drop_last());
        assert(keys_of(s1)[s1.len() - 1] == key_of(s1.last()));
        assert(keys_of(s2)[s2.len() - 1] == key_of(s2.last()));
        assert(key_of(s1.last()) == key_of(s2.last()));
        assert(new_run(s1.last()) == new_run(s2.last()));
        let prev = merge_fold(s1.drop_last());
        if prev.len() > 0 {
            assert(mergeable(prev.last(), s1.last()) == mergeable(prev.last(), s2.last()));
            if mergeable(prev.last(), s1.last()) {
                assert(extend_run(prev.last(), s1.last()) == extend_run(prev.last(), s2.last()));
            }
        }
    }
}

/// Sort-merge equivalence: any two sorted arrangements of the same
/// records — in particular, the sort stage's output for any permutation
/// of a sorted input — merge to exactly the same runs.  Together with the
/// contracts of `merge` and `merge_stream`, batch-merging any permutation
/// of a sorted input equals stream-merging the sorted input itself.
pub proof fn lemma_sort_merge_equivalence(x: Seq<Record>, s: Seq<Record>)
    requires
        sorted(x),
        sorted(s),
        s.to_multiset() == x.to_multiset(),
    ensures
        merge_fold(s) == merge_fold(x),
{
    let leq = |a: (u32, u64, u64), b: (u32, u64, u64)| key_tuple_le(a, b);
    lemma_keys_multiset(s, x);
    assert(vstd::relations::sorted_by(keys_of(x), leq)) by {
        assert forall|i: int, j: int| 0 <= i < j < keys_of(x).len()
            implies leq(keys_of(x)[i], keys_of(x)[j]) by {
            assert(key_le(x[i], x[j]));
        }
    }
    assert(vstd::relations::sorted_by(keys_of(s), leq)) by {
        assert forall|i: int, j: int| 0 <= i < j < keys_of(s).len()
            implies leq(keys_of(s)[i], keys_of(s)[j]) by {
            assert(key_le(s[i], s[j]));
        }
    }
    assert(vstd::relations::total_ordering(leq)) by {
        assert(vstd::relations::reflexive(leq));
        assert(vstd::relations::transitive(leq));
        assert(vstd::relations::antisymmetric(leq));
        assert(vstd::relations::strongly_connected(leq));
    }
    vstd::seq_lib::lemma_sorted_unique(keys_of(s), keys_of(x), leq);
    assert(keys_of(s) =~= keys_of(x));
    lemma_merge_fold_keys(s, x);
}

/// Executable form of the adjacency rule for an ordered pair.
pub fn mergeable_exec(a: &Record, b: &Record) -> (r: bool)
    ensures
        r == mergeable(*a, *b),
{
    a.chr == b.chr && b.start <= a.end
}

/// The streaming merge state machine: holds only the current run and
/// emits a completed run as soon as the next record proves non-mergeable
/// with it.  Memory stays bounded by one run regardless of input length.
pub struct MergeStream {
    run: Option<Record>,
    seen: Ghost<Seq<Record>>,
    done: Ghost<Seq<Record>>,
}

impl MergeStream {
    /// Records pushed so far.
    pub closed spec fn seen(self) -> Seq<Record> {
        self.seen@
    }

    /// Runs emitted so far.
    pub closed spec fn emitted(self) -> Seq<Record> {
        self.done@
    }

    /// The state machine invariant: the runs emitted so far, followed by
    /// the open run, are exactly the merge of what was pushed.
    pub closed spec fn wf(self) -> bool {
        &&& sorted(self.seen@)
        &&& all_valid(self.seen@)
        &&& merge_fold(self.seen@) == self.done@ + (match self.run {
            Some(r) => seq![r],
            None => Seq::empty(),
        })
        &&& (self.run is Some <==> self.seen@.len() > 0)
    }

    pub fn new() -> (r: MergeStream)
        ensures
            r.wf(),
            r.seen() == Seq::<Record>::empty(),
            r.emitted() == Seq::<Record>::empty(),
    {
        let r = MergeStream { run: None, seen: Ghost(Seq::empty()), done: Ghost(Seq::empty()) };
        proof {
            assert(merge_fold(r.seen@) =~= r.done@ + Seq::<Record>::empty());
        }
        r
    }

    /// Feed the next record, which must follow everything already pushed
    /// in the sort order; a run that it closes comes back out.
    pub fn push(&mut self, x: Record) -> (out: Option<Record>)
        requires
            old(self).wf(),
            x.valid(),
            old(self).seen().len() > 0 ==> key_le(old(self).seen().last(), x),
        ensures
            final(self).wf(),
            final(self).seen() == old(self).seen().push(x),
            final(self).emitted() == old(self).emitted() + (match out {
                Some(r) => seq![r],
                None => Seq::<Record>::empty(),
            }),
    {
        proof {
            let sn = self.seen@.push(x);
            assert(sn.drop_last() =~= self.seen@);
            assert forall|i: int, j: int| 0 <= i < j < sn.len()
                implies key_le(sn[i], sn[j]) by {
                if j == sn.len() - 1 && i < sn.len() - 1 {
                    if i < self.seen@.len() - 1 {
                        lemma_key_le_trans(
                            self.seen@[i],
                            self.seen@[self.seen@.len() - 1],
                            x,
                        );
                    }
                }
            }
        }
        let ghost old_seen = self.seen@;
        proof {
            self.seen@ = self.seen@.push(x);
        }
        match self.run {
            None => {
                self.run = Some(Record {
                    chr: x.chr, start: x.start, end: x.end,
                    name: 0, score_tenths: 0, strand: Strand::Plus,
                });
                proof {
                    assert(merge_fold(self.seen@) =~= self.done@ + seq![new_run(x)]);
                }
                None
            },
            Some(r) => {
                if mergeable_exec(&r, &x) {
                    let ext = Record {
                        chr: r.chr, start: r.start,
                        end: if r.end >= x.end { r.end } else { x.end },
                        name: 0, score_tenths: 0, strand: Strand::Plus,
                    };
                    self.run = Some(ext);
                    proof {
                        let prev = merge_fold(old_seen);
                        assert(prev.last() == r);
                        assert(ext == extend_run(r, x));
                        assert(merge_fold(self.seen@)
                            == prev.update(prev.len() - 1, ext));
                        assert(merge_fold(self.seen@) =~= self.done@ + seq![ext]);
                    }
                    None
                } else {
                    self.run = Some(Record {
                        chr: x.chr, start: x.start, end: x.end,
                        name: 0, score_tenths: 0, strand: Strand::Plus,
                    });
                    proof {
                        let prev = merge_fold(old_seen);
                        assert(prev.last() == r);
                        self.done@ = self.done@.push(r);
                        assert(merge_fold(self.seen@) == prev.push(new_run(x)));
                        assert(merge_fold(self.seen@) =~= self.done@ + seq![new_run(x)]);
                    }
                    Some(r)
                }
            },
        }
    }

    /// Close the stream: the still-open run, if any, comes out, and the
    /// runs emitted over the stream's whole life are exactly the merge of
    /// everything pushed.
    pub fn finish(self) -> (out: Option<Record>)
        requires
            self.wf(),
        ensures
            merge_fold(self.seen()) == self.emitted() + (match out {
                Some(r) => seq![r],
                None => Seq::<Record>::empty(),
            }),
    {
        self.run
    }
}

/// Streaming-mode merge of a single-pass, already-sorted input: one scan,
/// bounded memory, result equal to the batch merge of the same records.
pub fn merge_stream(records: &Vec<Record>) -> (r: Vec<Record>)
    requires
        sorted(records@),
        all_valid(records@),
    ensures
        r@ == merge_fold(records@),
{
    let ghost rs = records@;
    let mut st = MergeStream::new();
    let mut out: Vec<Record> = Vec::new();
    let mut i: usize = 0;
    while i < records.len()
        invariant
            0 <= i <= rs.len(),
            records@ == rs,
            st.wf(),
            st.seen() == rs.take(i as int),
            out@ == st.emitted(),
        decreases rs.len() - i,
    {
        proof {
            assert(rs.take(i as int).push(rs[i as int]) =~= rs.take(i as int + 1));
            if i > 0 {
                assert(rs.take(i as int).last() == rs[i as int - 1]);
            }
        }
        match st.push(records[i]) {
            Some(run) => out.push(run),
            None => (),
        }
        i += 1;
    }
    proof {
        assert(rs.take(rs.len() as int) =~= rs);
    }
    match st.finish() {
        Some(run) => out.push(run),
        None => (),
    }
    out
}

/// Batch-mode merge.  With `assume_sorted` the caller vouches for the
/// order (feeding unsorted input in that mode is excluded by contract);
/// otherwise the sort stage runs first.  Either way the result is the
/// merge of the input in sorted order.
pub fn merge(records: &Vec<Record>, assume_sorted: bool) -> (r: Vec<Record>)
    requires
        all_valid(records@),
        assume_sorted ==> sorted(records@),
    ensures
        sorted(records@) ==> r@ == merge_fold(records@),
        forall|s: Seq<Record>|
            sorted(s) && s.to_multiset() == records@.to_multiset()
                ==> r@ == merge_fold(s),
        sorted(r@),
        runs_disjoint(r@),
        all_valid(r@),
{
    let ghost mut w: Seq<Record> = Seq::empty();
    let r = if assume_sorted {
        let rr = merge_stream(records);
        proof {
            w = records@;
        }
        rr
    } else {
        let sorted_records = sort_records(records);
        let rr = merge_stream(&sorted_records);
        proof {
            w = sorted_records@;
        }
        rr
    };
    proof {
        assert(sorted(w) && w.to_multiset() == records@.to_multiset()
            && all_valid(w) && r@ == merge_fold(w));
        lemma_merge_fold_props(w);
        assert forall|s: Seq<Record>|
            sorted(s) && s.to_multiset() == records@.to_multiset()
            implies r@ == merge_fold(s) by {
            lemma_sort_merge_equivalence(w, s);
        }
        if sorted(records@) {
            assert(r@ == merge_fold(records@));
        }
    }
    r
}

} // verus!
