//! What holds of the queue over whole histories of operations.
//!
//! A history is a sequence of pushes and pops; replaying it on the heap model
//! gives the heap that the executable queue would hold after the same calls.
//! All of this is ghost code.

use crate::heap_model::{
    heap_ordered, lemma_popped_entries, lemma_popped_heap_ordered, lemma_pushed_entries,
    lemma_pushed_heap_ordered, lemma_root_is_greatest, lemma_sift_down_len, popped, pushed,
    top_value,
};
use vstd::prelude::*;

verus! {

/// One call in a history of the queue.
pub enum Operation<T> {
    /// A push of `value` under the key `priority`.
    Push { priority: u32, value: T },
    /// A pop.
    Pop,
}

/// The heap after one operation. A pop on the empty heap leaves it empty.
pub open spec fn step<T>(s: Seq<(u32, T)>, op: Operation<T>) -> Seq<(u32, T)> {
    match op {
        Operation::Push { priority, value } => pushed(s, priority, value),
        Operation::Pop => popped(s),
    }
}

/// The heap after the operations of `ops`, applied to `s` from first to last.
pub open spec fn replay<T>(s: Seq<(u32, T)>, ops: Seq<Operation<T>>) -> Seq<(u32, T)>
    decreases ops.len(),
{
    if ops.len() == 0 {
        s
    } else {
        step(replay(s, ops.drop_last()), ops.last())
    }
}

/// The entries that the pushes of `ops` put in, in order.
pub open spec fn taken_in<T>(ops: Seq<Operation<T>>) -> Seq<(u32, T)>
    decreases ops.len(),
{
    if ops.len() == 0 {
        Seq::empty()
    } else {
        match ops.last() {
            Operation::Push { priority, value } => {
                taken_in(ops.drop_last()).push((priority, value))
            },
            Operation::Pop => taken_in(ops.drop_last()),
        }
    }
}

/// The entries that the pops of `ops` handed out, in order, when the history
/// starts from `s`. A pop that finds the heap empty hands out nothing.
pub open spec fn handed_out<T>(s: Seq<(u32, T)>, ops: Seq<Operation<T>>) -> Seq<(u32, T)>
    decreases ops.len(),
{
    if ops.len() == 0 {
        Seq::empty()
    } else {
        let earlier = handed_out(s, ops.drop_last());
        let heap = replay(s, ops.drop_last());
        match ops.last() {
            Operation::Push { .. } => earlier,
            Operation::Pop => {
                if heap.len() > 0 {
                    earlier.push(heap[0])
                } else {
                    earlier
                }
            },
        }
    }
}

/// The number of pops in `ops`.
pub open spec fn count_pops<T>(ops: Seq<Operation<T>>) -> nat
    decreases ops.len(),
{
    if ops.len() == 0 {
        0
    } else {
        match ops.last() {
            Operation::Push { .. } => count_pops(ops.drop_last()),
            Operation::Pop => count_pops(ops.drop_last()) + 1,
        }
    }
}

/// The number of pushes in `ops`.
pub open spec fn count_pushes<T>(ops: Seq<Operation<T>>) -> nat {
    taken_in(ops).len()
}

/// No pop of the history meets an empty heap.
pub open spec fn every_pop_finds_entry<T>(s: Seq<(u32, T)>, ops: Seq<Operation<T>>) -> bool {
    forall|n: int|
        0 <= n < ops.len() && (#[trigger] ops[n]) is Pop ==> replay(s, ops.take(n)).len() > 0
}

/// The entries that repeated pops hand out until the heap is empty: the root,
/// then what the rest of the heap gives.
pub open spec fn drained<T>(s: Seq<(u32, T)>) -> Seq<(u32, T)>
    decreases s.len(),
    via drained_terminates::<T>
{
    if s.len() == 0 {
        Seq::empty()
    } else {
        seq![s[0]] + drained(popped(s))
    }
}

#[via_fn]
proof fn drained_terminates<T>(s: Seq<(u32, T)>) {
    if s.len() > 1 {
        lemma_sift_down_len(s.drop_last().update(0, s.last()), 0);
    }
}

/// Heap order holds in every state: whatever the history, replaying it
/// on a heap gives a heap.
pub proof fn lemma_replay_heap_ordered<T>(s: Seq<(u32, T)>, ops: Seq<Operation<T>>)
    requires
        heap_ordered(s),
    ensures
        heap_ordered(replay(s, ops)),
    decreases ops.len(),
{
    if ops.len() > 0 {
        let heap = replay(s, ops.drop_last());
        lemma_replay_heap_ordered(s, ops.drop_last());
        match ops.last() {
            Operation::Push { priority, value } => lemma_pushed_heap_ordered(heap, priority, value),
            Operation::Pop => lemma_popped_heap_ordered(heap),
        }
    }
}

/// Nothing is lost and nothing is made up: the entries in the heap together
/// with those handed out are the entries it started with together with those
/// pushed, each as often. So does the count.
pub proof fn lemma_replay_conserves_entries<T>(s: Seq<(u32, T)>, ops: Seq<Operation<T>>)
    ensures
        replay(s, ops).to_multiset().add(handed_out(s, ops).to_multiset())
            == s.to_multiset().add(taken_in(ops).to_multiset()),
        replay(s, ops).len() + handed_out(s, ops).len() == s.len() + count_pushes(ops),
    decreases ops.len(),
{
    broadcast use vstd::seq_lib::group_to_multiset_ensures;

    if ops.len() == 0 {
        assert(replay(s, ops).to_multiset().add(handed_out(s, ops).to_multiset())
            =~= s.to_multiset().add(taken_in(ops).to_multiset()));
    } else {
        let heap = replay(s, ops.drop_last());
        let out = handed_out(s, ops.drop_last());
        let put = taken_in(ops.drop_last());
        lemma_replay_conserves_entries(s, ops.drop_last());
        match ops.last() {
            Operation::Push { priority, value } => {
                lemma_pushed_entries(heap, priority, value);
                vstd::seq_lib::to_multiset_build(put, (priority, value));
                assert(heap.to_multiset().insert((priority, value)).add(out.to_multiset())
                    =~= heap.to_multiset().add(out.to_multiset()).insert((priority, value)));
                assert(s.to_multiset().add(put.to_multiset().insert((priority, value)))
                    =~= s.to_multiset().add(put.to_multiset()).insert((priority, value)));
            },
            Operation::Pop => {
                if heap.len() > 0 {
                    lemma_popped_entries(heap);
                    vstd::seq_lib::to_multiset_build(out, heap[0]);
                    assert(popped(heap).to_multiset().add(out.to_multiset().insert(heap[0]))
                        =~= popped(heap).to_multiset().insert(heap[0]).add(out.to_multiset()));
                }
            },
        }
    }
}

/// Every operation is a push or a pop.
pub proof fn lemma_counts_add_up<T>(ops: Seq<Operation<T>>)
    ensures
        count_pushes(ops) + count_pops(ops) == ops.len(),
    decreases ops.len(),
{
    if ops.len() > 0 {
        lemma_counts_add_up(ops.drop_last());
    }
}

/// When no pop meets an empty heap, every pop hands out one entry.
pub proof fn lemma_every_pop_hands_out<T>(s: Seq<(u32, T)>, ops: Seq<Operation<T>>)
    requires
        every_pop_finds_entry(s, ops),
    ensures
        handed_out(s, ops).len() == count_pops(ops),
    decreases ops.len(),
{
    if ops.len() > 0 {
        let shorter = ops.drop_last();
        assert forall|n: int| 0 <= n < shorter.len() && (#[trigger] shorter[n]) is Pop implies
            replay(s, shorter.take(n)).len() > 0
        by {
            assert(shorter.take(n) =~= ops.take(n));
        }
        lemma_every_pop_hands_out(s, shorter);
        assert(ops.take(ops.len() - 1) =~= shorter);
    }
}

/// The size of the queue: after a history with `k` pushes and `j` pops, none of
/// which met an empty heap, a heap that was empty at first holds `k - j`
/// entries; one that held `n` holds `n + k - j`.
pub proof fn lemma_replay_len<T>(s: Seq<(u32, T)>, ops: Seq<Operation<T>>)
    requires
        every_pop_finds_entry(s, ops),
    ensures
        count_pops(ops) <= s.len() + count_pushes(ops),
        replay(s, ops).len() == s.len() + count_pushes(ops) - count_pops(ops),
{
    lemma_replay_conserves_entries(s, ops);
    lemma_every_pop_hands_out(s, ops);
}

/// The empty heap has nothing to give: a pop hands out no value and leaves the
/// heap empty.
pub proof fn lemma_empty_gives_nothing<T>()
    ensures
        top_value(Seq::<(u32, T)>::empty()) is None,
        popped(Seq::<(u32, T)>::empty()) == Seq::<(u32, T)>::empty(),
{
}

/// Pushing onto the empty heap and popping once hands the pushed value back
/// and leaves the heap empty again.
pub proof fn lemma_push_then_pop_on_empty<T>(priority: u32, value: T)
    ensures
        pushed(Seq::<(u32, T)>::empty(), priority, value) == seq![(priority, value)],
        top_value(pushed(Seq::<(u32, T)>::empty(), priority, value)) == Some(value),
        popped(pushed(Seq::<(u32, T)>::empty(), priority, value)) == Seq::<(u32, T)>::empty(),
{
    assert(Seq::<(u32, T)>::empty().push((priority, value)) =~= seq![(priority, value)]);
}

/// A value pushed with a priority strictly greater than every priority in the
/// heap is the value that the next pop hands out.
pub proof fn lemma_push_greatest_then_pop<T>(s: Seq<(u32, T)>, priority: u32, value: T)
    requires
        heap_ordered(s),
        forall|i: int| 0 <= i < s.len() ==> (#[trigger] s[i]).0 < priority,
    ensures
        top_value(pushed(s, priority, value)) == Some(value),
{
    broadcast use vstd::seq_lib::group_to_multiset_ensures;

    let heap = pushed(s, priority, value);
    let entry = (priority, value);
    lemma_pushed_entries(s, priority, value);
    lemma_pushed_heap_ordered(s, priority, value);
    // The new entry is somewhere in the heap, so the root is no smaller.
    assert(heap.to_multiset().count(entry) > 0);
    let at = choose|k: int| 0 <= k < heap.len() && heap[k] == entry;
    lemma_root_is_greatest(heap, at);
    // The root is the new entry or an old one, and every old one is smaller.
    assert(heap.to_multiset().count(heap[0]) > 0);
    if heap[0] != entry {
        assert(s.contains(heap[0]));
    }
}

/// Draining a heap hands out each of its entries once, the priorities never
/// increasing from one pop to the next.
pub proof fn lemma_drained_descends<T>(s: Seq<(u32, T)>)
    requires
        heap_ordered(s),
    ensures
        drained(s).len() == s.len(),
        drained(s).to_multiset() == s.to_multiset(),
        forall|i: int, j: int|
            0 <= i <= j < drained(s).len() ==> drained(s)[i].0 >= drained(s)[j].0,
    decreases s.len(),
{
    broadcast use vstd::seq_lib::group_to_multiset_ensures;

    if s.len() > 0 {
        let rest = popped(s);
        let tail = drained(rest);
        lemma_popped_entries(s);
        lemma_popped_heap_ordered(s);
        lemma_drained_descends(rest);
        assert(drained(s).to_multiset() =~= s.to_multiset()) by {
            assert(drained(s) =~= tail.insert(0, s[0]));
            vstd::seq_lib::to_multiset_insert(tail, 0, s[0]);
        }
        assert forall|i: int, j: int| 0 <= i <= j < drained(s).len() implies
            drained(s)[i].0 >= drained(s)[j].0
        by {
            if i == 0 && j > 0 {
                // What comes out later was in the heap, hence under the root.
                let e = tail[j - 1];
                assert(tail.to_multiset().count(e) > 0);
                assert(s.to_multiset().count(e) > 0);
                let k = choose|k: int| 0 <= k < s.len() && s[k] == e;
                lemma_root_is_greatest(s, k);
            }
        }
    }
}

/// A history of pushes alone hands out nothing.
pub proof fn lemma_pushes_hand_out_nothing<T>(s: Seq<(u32, T)>, ops: Seq<Operation<T>>)
    requires
        forall|n: int| 0 <= n < ops.len() ==> (#[trigger] ops[n]) is Push,
    ensures
        handed_out(s, ops) == Seq::<(u32, T)>::empty(),
        count_pops(ops) == 0,
    decreases ops.len(),
{
    if ops.len() > 0 {
        lemma_pushes_hand_out_nothing(s, ops.drop_last());
    }
}

/// Filling an empty queue by pushes and then popping until it is empty hands
/// out exactly the entries pushed, each as often as it was pushed, the
/// priorities never increasing from one pop to the next.
pub proof fn lemma_drain_after_pushes<T>(ops: Seq<Operation<T>>)
    requires
        forall|n: int| 0 <= n < ops.len() ==> (#[trigger] ops[n]) is Push,
    ensures
        drained(replay(Seq::<(u32, T)>::empty(), ops)).len() == ops.len(),
        drained(replay(Seq::<(u32, T)>::empty(), ops)).to_multiset()
            == taken_in(ops).to_multiset(),
        forall|i: int, j: int|
            0 <= i <= j < ops.len() ==> drained(replay(Seq::<(u32, T)>::empty(), ops))[i].0
                >= drained(replay(Seq::<(u32, T)>::empty(), ops))[j].0,
{
    broadcast use vstd::seq_lib::group_to_multiset_ensures;

    let empty = Seq::<(u32, T)>::empty();
    let heap = replay(empty, ops);
    lemma_replay_heap_ordered(empty, ops);
    lemma_replay_conserves_entries(empty, ops);
    lemma_pushes_hand_out_nothing(empty, ops);
    lemma_counts_add_up(ops);
    lemma_drained_descends(heap);
    assert(heap.to_multiset().add(empty.to_multiset()) =~= heap.to_multiset());
    assert(empty.to_multiset().add(taken_in(ops).to_multiset()) =~= taken_in(ops).to_multiset());
}

} // verus!
