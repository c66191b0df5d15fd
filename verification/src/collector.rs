//! The result collector. Results arrive from the workers in completion
//! order; in arrival-order mode they are passed straight through, while in
//! keep-order mode a buffer keyed by ascending job id holds early arrivals
//! back until every lower id has been released.

use vstd::prelude::*;
use vstd::seq_lib::group_to_multiset_ensures;
use vstd::seq_lib::lemma_multiset_commutative;
use vstd::multiset::group_multiset_axioms;
use vstd::multiset::Multiset;
use crate::jobs::JobResult;

verus! {

/// No two results carry the same id.
pub open spec fn ids_distinct(rs: Seq<JobResult>) -> bool {
    forall|i: int, j: int| 0 <= i < j < rs.len() ==> rs[i].id != rs[j].id
}

/// Ids strictly increase from front to back.
pub open spec fn sorted_by_id(rs: Seq<JobResult>) -> bool {
    forall|i: int, j: int| 0 <= i < j < rs.len() ==> rs[i].id < rs[j].id
}

/// `r` placed before the first buffered result with a larger id.
pub open spec fn insert_sorted(s: Seq<JobResult>, r: JobResult) -> Seq<JobResult>
    decreases s.len(),
{
    if s.len() == 0 {
        seq![r]
    } else if r.id < s[0].id {
        seq![r] + s
    } else {
        seq![s[0]] + insert_sorted(s.drop_first(), r)
    }
}

/// How many results at the front of `s` carry the consecutive ids
/// `from`, `from + 1`, ….
pub open spec fn run_len(s: Seq<JobResult>, from: int) -> int
    decreases s.len(),
{
    if s.len() > 0 && s[0].id == from {
        1 + run_len(s.drop_first(), from + 1)
    } else {
        0
    }
}

/// The insertion keeps every result, adding `r` once.
proof fn lemma_insert_sorted_multiset(s: Seq<JobResult>, r: JobResult)
    ensures
        insert_sorted(s, r).to_multiset() == s.to_multiset().insert(r),
    decreases s.len(),
{
    broadcast use group_to_multiset_ensures;
    broadcast use group_multiset_axioms;

    if s.len() == 0 {
        assert(seq![r].drop_first() =~= Seq::<JobResult>::empty());
        assert(seq![r].to_multiset() =~= s.to_multiset().insert(r));
    } else if r.id < s[0].id {
        lemma_multiset_commutative(seq![r], s);
        assert(seq![r].drop_first() =~= Seq::<JobResult>::empty());
        assert(seq![r].to_multiset() =~= Multiset::<JobResult>::empty().insert(r));
        assert((seq![r] + s).to_multiset() =~= s.to_multiset().insert(r));
    } else {
        lemma_insert_sorted_multiset(s.drop_first(), r);
        lemma_multiset_commutative(seq![s[0]], insert_sorted(s.drop_first(), r));
        lemma_multiset_commutative(seq![s[0]], s.drop_first());
        assert(seq![s[0]] + s.drop_first() =~= s);
        assert(seq![s[0]].drop_first() =~= Seq::<JobResult>::empty());
        assert(seq![s[0]].to_multiset() =~= Multiset::<JobResult>::empty().insert(s[0]));
        assert((seq![s[0]] + insert_sorted(s.drop_first(), r)).to_multiset()
            =~= s.to_multiset().insert(r));
    }
}

/// Inserting an id that is not yet present keeps the buffer strictly
/// sorted, and keeps every id at or above any lower bound that held
/// before.
proof fn lemma_insert_sorted_order(s: Seq<JobResult>, r: JobResult, lo: int)
    requires
        sorted_by_id(s),
        forall|i: int| 0 <= i < s.len() ==> (#[trigger] s[i]).id != r.id,
        forall|i: int| 0 <= i < s.len() ==> (#[trigger] s[i]).id >= lo,
        r.id >= lo,
    ensures
        sorted_by_id(insert_sorted(s, r)),
        forall|i: int| 0 <= i < insert_sorted(s, r).len()
            ==> (#[trigger] insert_sorted(s, r)[i]).id >= lo,
        insert_sorted(s, r).len() == s.len() + 1,
    decreases s.len(),
{
    if s.len() == 0 {
    } else if r.id < s[0].id {
        let t = seq![r] + s;
        assert forall|i: int, j: int| 0 <= i < j < t.len() implies t[i].id < t[j].id by {
            if i > 0 {
                assert(t[i] == s[i - 1]);
            }
        }
    } else {
        assert(forall|i: int| 0 <= i < s.drop_first().len()
            ==> (#[trigger] s.drop_first()[i]).id == s[i + 1].id);
        lemma_insert_sorted_order(s.drop_first(), r, s[0].id + 1);
        let rec = insert_sorted(s.drop_first(), r);
        let t = seq![s[0]] + rec;
        assert forall|i: int, j: int| 0 <= i < j < t.len() implies t[i].id < t[j].id by {
            if i > 0 {
                assert(t[i] == rec[i - 1] && t[j] == rec[j - 1]);
            } else {
                assert(t[j] == rec[j - 1]);
                assert(rec[j - 1].id >= s[0].id + 1);
            }
        }
        assert forall|i: int| 0 <= i < t.len() implies (#[trigger] t[i]).id >= lo by {
            if i > 0 {
                assert(t[i] == rec[i - 1]);
                assert(rec[i - 1].id >= s[0].id + 1);
            }
        }
    }
}

/// Placing `r` behind the `pos` buffered results with smaller ids is the
/// sorted insertion.
proof fn lemma_insert_sorted_at(s: Seq<JobResult>, r: JobResult, pos: int)
    requires
        sorted_by_id(s),
        0 <= pos <= s.len(),
        forall|j: int| 0 <= j < pos ==> (#[trigger] s[j]).id < r.id,
        pos < s.len() ==> s[pos].id > r.id,
    ensures
        insert_sorted(s, r) == s.take(pos) + seq![r] + s.skip(pos),
    decreases s.len(),
{
    if s.len() == 0 {
        assert(s.take(0) + seq![r] + s.skip(0) =~= seq![r]);
    } else if pos == 0 {
        assert(s.take(0) + seq![r] + s.skip(0) =~= seq![r] + s);
    } else {
        assert(forall|i: int| 0 <= i < s.drop_first().len()
            ==> (#[trigger] s.drop_first()[i]).id == s[i + 1].id);
        lemma_insert_sorted_at(s.drop_first(), r, pos - 1);
        assert(s.drop_first().take(pos - 1) =~= s.take(pos).drop_first());
        assert(s.drop_first().skip(pos - 1) =~= s.skip(pos));
        assert(seq![s[0]] + (s.take(pos).drop_first() + seq![r] + s.skip(pos))
            =~= s.take(pos) + seq![r] + s.skip(pos));
    }
}

/// The first `run_len` results carry consecutive ids starting at `from`.
proof fn lemma_run_len_props(s: Seq<JobResult>, from: int)
    ensures
        0 <= run_len(s, from) <= s.len(),
        forall|i: int| 0 <= i < run_len(s, from) ==> (#[trigger] s[i]).id == from + i,
    decreases s.len(),
{
    if s.len() > 0 && s[0].id == from {
        lemma_run_len_props(s.drop_first(), from + 1);
        assert forall|i: int| 0 <= i < run_len(s, from) implies (#[trigger] s[i]).id == from + i by {
            if i >= 1 {
                assert(s.drop_first()[i - 1] == s[i]);
            }
        }
    }
}

/// The keep-order buffer: results whose ids are still ahead of the next
/// id owed to the output, kept in ascending id order.
pub struct Collector {
    /// The lowest id not yet released.
    pub next_id: usize,
    /// Buffered results, ids strictly ascending, all at or above
    /// `next_id`.
    pub pending: Vec<JobResult>,
}

impl Collector {
    /// The buffer's invariant: strictly sorted, nothing owed earlier than
    /// `next_id`, and every id small enough that ids can keep counting
    /// up.
    pub open spec fn wf(&self) -> bool {
        sorted_by_id(self.pending@) && (forall|i: int|
            0 <= i < self.pending@.len()
                ==> self.next_id <= (#[trigger] self.pending@[i]).id < usize::MAX)
    }

    /// An empty collector expecting id 0 first.
    pub fn new() -> (c: Collector)
        ensures
            c.wf(),
            c.next_id == 0,
            c.pending@.len() == 0,
    {
        Collector { next_id: 0, pending: Vec::new() }
    }

    /// Takes in one result: it is slotted into the buffer at its id's
    /// position, then every result whose id continues the released run is
    /// appended to `out`, in ascending id order, and removed from the
    /// buffer.
    #[verifier::rlimit(50)]
    pub fn accept(&mut self, r: JobResult, out: &mut Vec<JobResult>)
        requires
            old(self).wf(),
            old(self).next_id <= r.id < usize::MAX,
            forall|i: int| 0 <= i < old(self).pending@.len()
                ==> (#[trigger] old(self).pending@[i]).id != r.id,
        ensures
            final(self).wf(),
            ({
                let merged = insert_sorted(old(self).pending@, r);
                let k = run_len(merged, old(self).next_id as int);
                final(out)@ == old(out)@ + merged.take(k)
                    && final(self).pending@ == merged.skip(k)
                    && final(self).next_id == old(self).next_id + k
            }),
            final(out)@.to_multiset().add(final(self).pending@.to_multiset())
                == old(out)@.to_multiset().add(old(self).pending@.to_multiset()).insert(r),
    {
        let ghost s0 = self.pending@;
        let ghost n0 = self.next_id as int;
        proof {
            lemma_insert_sorted_multiset(s0, r);
            lemma_insert_sorted_order(s0, r, n0);
        }
        let ghost merged = insert_sorted(s0, r);

        let mut pos: usize = 0;
        while pos < self.pending.len() && self.pending[pos].id < r.id
            invariant
                pos <= self.pending@.len(),
                self.pending@ == s0,
                forall|j: int| 0 <= j < pos ==> (#[trigger] s0[j]).id < r.id,
            decreases self.pending@.len() - pos,
        {
            pos += 1;
        }
        proof {
            lemma_insert_sorted_at(s0, r, pos as int);
        }
        self.pending.insert(pos, r);
        proof {
            assert(self.pending@ =~= s0.take(pos as int) + seq![r] + s0.skip(pos as int));
            assert(self.pending@ == merged);
        }

        let ghost k_total = run_len(merged, n0);
        proof {
            lemma_run_len_props(merged, n0);
        }
        let ghost out0 = out@;
        let mut drained: usize = 0;
        while self.pending.len() > 0 && self.pending[0].id == self.next_id
            invariant
                self.pending@ == merged.skip(drained as int),
                0 <= drained <= k_total <= merged.len(),
                k_total == run_len(merged, n0),
                self.next_id as int == n0 + drained,
                out@ == out0 + merged.take(drained as int),
                run_len(self.pending@, self.next_id as int) == k_total - drained,
                sorted_by_id(merged),
                forall|i: int| 0 <= i < merged.len()
                    ==> n0 <= (#[trigger] merged[i]).id < usize::MAX,
            decreases self.pending@.len(),
        {
            let ghost pend = self.pending@;
            let first = self.pending.remove(0);
            proof {
                assert(pend[0].id == n0 + drained);
                lemma_run_len_props(pend.drop_first(), n0 + drained + 1);
                assert(run_len(pend, n0 + drained) == 1 + run_len(
                    pend.drop_first(),
                    n0 + drained + 1,
                ));
                assert(k_total - drained >= 1);
                assert(self.pending@ =~= pend.drop_first());
                assert(merged.skip(drained as int).drop_first() =~= merged.skip(drained + 1));
                assert(first == merged[drained as int]);
            }
            out.push(first);
            proof {
                assert(out@ =~= out0 + merged.take(drained + 1));
            }
            self.next_id = self.next_id + 1;
            drained += 1;
        }
        proof {
            assert(run_len(self.pending@, self.next_id as int) == 0);
            assert(drained == k_total);
            assert forall|i: int, j: int| 0 <= i < j < self.pending@.len()
                implies self.pending@[i].id < self.pending@[j].id by {
                assert(self.pending@[i] == merged[i + drained]);
                assert(self.pending@[j] == merged[j + drained]);
            }
            assert forall|i: int| 0 <= i < self.pending@.len()
                implies self.next_id <= (#[trigger] self.pending@[i]).id < usize::MAX by {
                assert(self.pending@[i] == merged[i + drained]);
                if drained > 0 {
                    assert(merged[drained - 1].id == n0 + drained - 1);
                    assert(merged[i + drained].id > merged[drained - 1].id);
                }
            }
            broadcast use group_multiset_axioms;
            lemma_multiset_commutative(merged.take(drained as int), merged.skip(drained as int));
            assert(merged.take(drained as int) + merged.skip(drained as int) =~= merged);
            assert(merged.take(drained as int).to_multiset().add(
                merged.skip(drained as int).to_multiset()) == merged.to_multiset());
            lemma_multiset_commutative(out0, merged.take(drained as int));
            assert(out@.to_multiset() == out0.to_multiset().add(
                merged.take(drained as int).to_multiset()));
            assert(out@.to_multiset().add(self.pending@.to_multiset())
                =~= out0.to_multiset().add(merged.to_multiset()));
            assert(merged.to_multiset() == s0.to_multiset().insert(r));
            assert(out0.to_multiset().add(s0.to_multiset().insert(r))
                =~= out0.to_multiset().add(s0.to_multiset()).insert(r));
        }
    }

    /// Releases everything still buffered, in ascending id order; used
    /// when the result stream has closed.
    pub fn flush(&mut self, out: &mut Vec<JobResult>)
        ensures
            final(out)@ == old(out)@ + old(self).pending@,
            final(self).pending@.len() == 0,
            final(self).next_id == old(self).next_id,
    {
        out.append(&mut self.pending);
    }
}

/// Strictly sorted ids spread at least as fast as indices.
proof fn lemma_sorted_gap(rs: Seq<JobResult>, i: int, j: int)
    requires
        sorted_by_id(rs),
        0 <= i <= j < rs.len(),
    ensures
        rs[j].id - rs[i].id >= j - i,
    decreases j - i,
{
    if i < j {
        lemma_sorted_gap(rs, i, j - 1);
    }
}

/// Consumes a whole arrival sequence. With `keep_order` off the results
/// come back exactly as they arrived; with it on they come back as the
/// ascending-id reordering of the arrivals, every result kept.
pub fn result_collector(results: Vec<JobResult>, keep_order: bool) -> (emitted: Vec<JobResult>)
    requires
        keep_order ==> ids_distinct(results@) && (forall|i: int|
            0 <= i < results@.len() ==> (#[trigger] results@[i]).id < usize::MAX),
    ensures
        !keep_order ==> emitted@ == results@,
        keep_order ==> emitted@.to_multiset() == results@.to_multiset()
            && sorted_by_id(emitted@),
{
    broadcast use group_to_multiset_ensures;
    broadcast use group_multiset_axioms;

    if !keep_order {
        return results;
    }
    let ghost all = results@;
    let mut c = Collector::new();
    let mut out: Vec<JobResult> = Vec::new();
    let mut rest = results;
    proof {
        assert(all.take(0).to_multiset() =~= Multiset::<JobResult>::empty());
        assert(out@.to_multiset().add(c.pending@.to_multiset()) =~= all.take(0).to_multiset());
        assert(rest@ =~= all.skip(0));
    }
    while rest.len() > 0
        invariant
            c.wf(),
            ids_distinct(all),
            forall|i: int| 0 <= i < all.len() ==> (#[trigger] all[i]).id < usize::MAX,
            rest@.len() <= all.len(),
            rest@ == all.skip(all.len() - rest@.len()),
            out@.len() == c.next_id,
            forall|i: int| 0 <= i < out@.len() ==> (#[trigger] out@[i]).id == i,
            out@.to_multiset().add(c.pending@.to_multiset())
                == all.take(all.len() - rest@.len()).to_multiset(),
        decreases rest@.len(),
    {
        let ghost k = all.len() - rest@.len();
        let ghost pend0 = c.pending@;
        let ghost out0 = out@;
        let ghost n0 = c.next_id as int;
        let r = rest.remove(0);
        proof {
            assert(all.skip(k)[0] == all[k as int]);
            assert(r == all[k as int]);
            assert(rest@ =~= all.skip(k).drop_first());
            assert(all.skip(k).drop_first() =~= all.skip(k + 1));

            // the new result's id is not among the buffered ones
            assert forall|i: int| 0 <= i < pend0.len()
                implies (#[trigger] pend0[i]).id != r.id by {
                assert(pend0.contains(pend0[i]));
                vstd::seq_lib::to_multiset_contains(pend0, pend0[i]);
                vstd::seq_lib::to_multiset_contains(all.take(k), pend0[i]);
                assert(out0.to_multiset().add(pend0.to_multiset()).count(pend0[i])
                    == out0.to_multiset().count(pend0[i]) + pend0.to_multiset().count(pend0[i]));
                assert(all.take(k).to_multiset().count(pend0[i]) > 0);
                assert(all.take(k).contains(pend0[i]));
                let j = choose|j: int| 0 <= j < k && all.take(k)[j] == pend0[i];
                assert(all[j] == pend0[i]);
                assert(all[j].id != all[k as int].id);
            }
            // and not below the released run
            if r.id < n0 {
                let i = r.id as int;
                assert(out0[i].id == i);
                assert(out0.contains(out0[i]));
                vstd::seq_lib::to_multiset_contains(out0, out0[i]);
                vstd::seq_lib::to_multiset_contains(all.take(k), out0[i]);
                assert(out0.to_multiset().add(pend0.to_multiset()).count(out0[i])
                    == out0.to_multiset().count(out0[i]) + pend0.to_multiset().count(out0[i]));
                assert(all.take(k).to_multiset().count(out0[i]) > 0);
                assert(all.take(k).contains(out0[i]));
                let j = choose|j: int| 0 <= j < k && all.take(k)[j] == out0[i];
                assert(all[j].id != all[k as int].id);
                assert(false);
            }
        }
        c.accept(r, &mut out);
        proof {
            let merged = insert_sorted(pend0, r);
            let k2 = run_len(merged, n0);
            lemma_run_len_props(merged, n0);
            assert forall|i: int| 0 <= i < out@.len()
                implies (#[trigger] out@[i]).id == i by {
                if i >= out0.len() {
                    assert(out@[i] == merged.take(k2)[i - n0]);
                    assert(merged.take(k2)[i - n0] == merged[i - n0]);
                }
            }
            assert(all.take(k + 1) =~= all.take(k).push(all[k as int]));
            vstd::seq_lib::to_multiset_build(all.take(k), r);
            assert(all.take(k + 1).to_multiset() == all.take(k).to_multiset().insert(r));
        }
    }
    let ghost n0 = c.next_id as int;
    let ghost pend0 = c.pending@;
    let ghost out0 = out@;
    c.flush(&mut out);
    proof {
        assert(all.take(all.len() as int) =~= all);
        assert(out@ == out0 + pend0);
        lemma_multiset_commutative(out0, pend0);
        assert(out@.to_multiset() == all.to_multiset());
        assert forall|i: int, j: int| 0 <= i < j < out@.len()
            implies out@[i].id < out@[j].id by {
            if j < out0.len() {
            } else if i < out0.len() {
                assert(out@[j] == pend0[j - out0.len()]);
                assert(pend0[j - out0.len()].id >= n0);
                assert(out@[i].id == i);
            } else {
                assert(out@[i] == pend0[i - out0.len()]);
                assert(out@[j] == pend0[j - out0.len()]);
            }
        }
    }
    out
}

/// With keep-order on, whatever the completion interleaving was: when the
/// arrivals carry each id `0, …, n-1` exactly once, the emitted sequence
/// is exactly the results reordered to ids `0, 1, 2, …` with no gap and
/// no reordering.
pub proof fn lemma_keep_order_emits_input_order(arrivals: Seq<JobResult>, emitted: Seq<JobResult>)
    requires
        ids_distinct(arrivals),
        forall|i: int| 0 <= i < arrivals.len()
            ==> 0 <= (#[trigger] arrivals[i]).id < arrivals.len(),
        emitted.to_multiset() == arrivals.to_multiset(),
        sorted_by_id(emitted),
    ensures
        emitted.len() == arrivals.len(),
        forall|i: int| 0 <= i < emitted.len() ==> (#[trigger] emitted[i]).id == i,
{
    broadcast use group_to_multiset_ensures;
    broadcast use group_multiset_axioms;

    vstd::seq_lib::to_multiset_len(emitted);
    vstd::seq_lib::to_multiset_len(arrivals);
    assert(emitted.len() == emitted.to_multiset().len());
    assert(arrivals.len() == arrivals.to_multiset().len());
    let n = emitted.len() as int;
    assert(emitted.len() == arrivals.len());
    assert forall|i: int| 0 <= i < n implies (#[trigger] emitted[i]).id == i by {
        assert(emitted.contains(emitted[0]));
        vstd::seq_lib::to_multiset_contains(emitted, emitted[0]);
        vstd::seq_lib::to_multiset_contains(arrivals, emitted[0]);
        assert(arrivals.contains(emitted[0]));
        let a = choose|a: int| 0 <= a < arrivals.len() && arrivals[a] == emitted[0];
        assert(emitted[0].id >= 0);
        assert(emitted.contains(emitted[n - 1]));
        vstd::seq_lib::to_multiset_contains(emitted, emitted[n - 1]);
        vstd::seq_lib::to_multiset_contains(arrivals, emitted[n - 1]);
        assert(arrivals.contains(emitted[n - 1]));
        let b = choose|b: int| 0 <= b < arrivals.len() && arrivals[b] == emitted[n - 1];
        assert(emitted[n - 1].id < n);
        lemma_sorted_gap(emitted, 0, i);
        lemma_sorted_gap(emitted, i, n - 1);
    }
}

/// With keep-order off the collector emits exactly the arrivals, so the
/// multiset of emitted results — and with it the multiset of their ids —
/// equals the multiset of produced results.
pub proof fn lemma_arrival_order_keeps_all(arrivals: Seq<JobResult>, emitted: Seq<JobResult>)
    requires
        emitted == arrivals,
    ensures
        emitted.to_multiset() == arrivals.to_multiset(),
        emitted.map_values(|r: JobResult| r.id).to_multiset()
            == arrivals.map_values(|r: JobResult| r.id).to_multiset(),
{
}

} // verus!
