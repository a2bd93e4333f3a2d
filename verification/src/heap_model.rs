//! The mathematical model of the queue: a binary max-heap laid out in a
//! sequence of `(priority, value)` entries.
//!
//! Index `0` is the root. The children of index `i` are `2i + 1` and `2i + 2`,
//! its parent is `(i - 1) / 2`. Everything here is ghost code: the executable
//! queue states its contracts over these functions.

use vstd::prelude::*;

verus! {

/// Index of the parent of the non-root index `i`.
pub open spec fn parent(i: int) -> int {
    (i - 1) / 2
}

/// Index of the left child of `i`.
pub open spec fn left_child(i: int) -> int {
    2 * i + 1
}

/// Index of the right child of `i`.
pub open spec fn right_child(i: int) -> int {
    2 * i + 2
}

/// Max-heap order: no entry has a larger priority than its parent.
pub open spec fn heap_ordered<T>(s: Seq<(u32, T)>) -> bool {
    forall|i: int| 0 < i < s.len() ==> s[#[trigger] parent(i)].0 >= s[i].0
}

/// The value that removing the root hands out: the root's, where there is a
/// root.
pub open spec fn top_value<T>(s: Seq<(u32, T)>) -> Option<T> {
    if s.len() > 0 {
        Some(s[0].1)
    } else {
        None
    }
}

/// `s` with the entries at `i` and `j` exchanged.
pub open spec fn swapped<T>(s: Seq<(u32, T)>, i: int, j: int) -> Seq<(u32, T)> {
    s.update(i, s[j]).update(j, s[i])
}

/// Moves the entry at `i` towards the root for as long as its priority is
/// strictly greater than its parent's. An entry equal to its parent stays.
pub open spec fn sift_up<T>(s: Seq<(u32, T)>, i: int) -> Seq<(u32, T)>
    decreases i,
{
    if 0 < i < s.len() && s[i].0 > s[parent(i)].0 {
        sift_up(swapped(s, i, parent(i)), parent(i))
    } else {
        s
    }
}

/// The child of `i` that sift-down looks at: the one with the larger priority,
/// the right one when both are equal. Meaningful when `i` has a left child.
pub open spec fn larger_child<T>(s: Seq<(u32, T)>, i: int) -> int {
    if right_child(i) < s.len() && s[left_child(i)].0 <= s[right_child(i)].0 {
        right_child(i)
    } else {
        left_child(i)
    }
}

/// Moves the entry at `i` towards the leaves for as long as its larger child
/// has a strictly greater priority. An entry equal to that child stays.
pub open spec fn sift_down<T>(s: Seq<(u32, T)>, i: int) -> Seq<(u32, T)>
    decreases s.len() - i,
{
    if 0 <= i && left_child(i) < s.len() && s[larger_child(s, i)].0 > s[i].0 {
        sift_down(swapped(s, i, larger_child(s, i)), larger_child(s, i))
    } else {
        s
    }
}

/// The heap after inserting `value` with `priority`: the entry is appended and
/// sifted up from the last index.
pub open spec fn pushed<T>(s: Seq<(u32, T)>, priority: u32, value: T) -> Seq<(u32, T)> {
    sift_up(s.push((priority, value)), s.len() as int)
}

/// The heap after removing its root: the last entry takes the root's place and
/// is sifted down. A heap of at most one entry becomes empty.
pub open spec fn popped<T>(s: Seq<(u32, T)>) -> Seq<(u32, T)> {
    if s.len() <= 1 {
        Seq::empty()
    } else {
        sift_down(s.drop_last().update(0, s.last()), 0)
    }
}

/// Every pair of parent and child is in order, except possibly the pair whose
/// child is `k`; and the children of `k` are in order with the parent of `k`.
pub open spec fn ordered_except_above<T>(s: Seq<(u32, T)>, k: int) -> bool {
    &&& forall|j: int| 0 < j < s.len() && j != k ==> s[#[trigger] parent(j)].0 >= s[j].0
    &&& forall|j: int|
        0 < j < s.len() && #[trigger] parent(j) == k && k > 0 ==> s[parent(k)].0 >= s[j].0
}

/// Every pair of parent and child is in order, except possibly the pairs whose
/// parent is `k`; and the children of `k` are in order with the parent of `k`.
pub open spec fn ordered_except_below<T>(s: Seq<(u32, T)>, k: int) -> bool {
    &&& forall|j: int|
        0 < j < s.len() && parent(j) != k ==> s[#[trigger] parent(j)].0 >= s[j].0
    &&& forall|j: int|
        0 < j < s.len() && #[trigger] parent(j) == k && k > 0 ==> s[parent(k)].0 >= s[j].0
}

/// Sift-up keeps the length.
pub proof fn lemma_sift_up_len<T>(s: Seq<(u32, T)>, i: int)
    ensures
        sift_up(s, i).len() == s.len(),
    decreases i,
{
    if 0 < i < s.len() && s[i].0 > s[parent(i)].0 {
        lemma_sift_up_len(swapped(s, i, parent(i)), parent(i));
    }
}

/// Sift-down keeps the length.
pub proof fn lemma_sift_down_len<T>(s: Seq<(u32, T)>, i: int)
    ensures
        sift_down(s, i).len() == s.len(),
    decreases s.len() - i,
{
    if 0 <= i && left_child(i) < s.len() && s[larger_child(s, i)].0 > s[i].0 {
        lemma_sift_down_len(swapped(s, i, larger_child(s, i)), larger_child(s, i));
    }
}

/// Sift-up repairs a sequence whose only disorder is between `k` and its parent.
pub proof fn lemma_sift_up_orders<T>(s: Seq<(u32, T)>, k: int)
    requires
        0 <= k < s.len(),
        ordered_except_above(s, k),
    ensures
        heap_ordered(sift_up(s, k)),
    decreases k,
{
    if 0 < k && s[k].0 > s[parent(k)].0 {
        // After the exchange the greater entry sits above its old parent, its
        // old sibling and its old children; what may still be out of order is
        // the pair one level up.
        lemma_sift_up_orders(swapped(s, k, parent(k)), parent(k));
    }
}

/// Sift-down repairs a sequence whose only disorder is between `k` and its
/// children.
pub proof fn lemma_sift_down_orders<T>(s: Seq<(u32, T)>, k: int)
    requires
        0 <= k < s.len(),
        ordered_except_below(s, k),
    ensures
        heap_ordered(sift_down(s, k)),
    decreases s.len() - k,
{
    if left_child(k) < s.len() && s[larger_child(s, k)].0 > s[k].0 {
        // After the exchange the larger child sits above the other child and
        // below the old parent of `k`; what may still be out of order are the
        // pairs one level down.
        let c = larger_child(s, k);
        assert(parent(c) == k);
        lemma_sift_down_orders(swapped(s, k, c), c);
    }
}

/// Exchanging two entries keeps the multiset of entries.
pub proof fn lemma_swapped_permutes<T>(s: Seq<(u32, T)>, i: int, j: int)
    requires
        0 <= i < s.len(),
        0 <= j < s.len(),
    ensures
        swapped(s, i, j).len() == s.len(),
        swapped(s, i, j).to_multiset() == s.to_multiset(),
{
    broadcast use vstd::seq_lib::group_to_multiset_ensures;

    vstd::seq_lib::to_multiset_update(s, i, s[j]);
    vstd::seq_lib::to_multiset_update(s.update(i, s[j]), j, s[i]);
    assert(s.contains(s[i]) && s.contains(s[j]));
    assert(swapped(s, i, j).to_multiset() =~= s.to_multiset());
}

/// Sift-up only rearranges the entries.
pub proof fn lemma_sift_up_permutes<T>(s: Seq<(u32, T)>, i: int)
    ensures
        sift_up(s, i).to_multiset() == s.to_multiset(),
    decreases i,
{
    if 0 < i < s.len() && s[i].0 > s[parent(i)].0 {
        lemma_swapped_permutes(s, i, parent(i));
        lemma_sift_up_permutes(swapped(s, i, parent(i)), parent(i));
    }
}

/// Sift-down only rearranges the entries.
pub proof fn lemma_sift_down_permutes<T>(s: Seq<(u32, T)>, i: int)
    ensures
        sift_down(s, i).to_multiset() == s.to_multiset(),
    decreases s.len() - i,
{
    if 0 <= i && left_child(i) < s.len() && s[larger_child(s, i)].0 > s[i].0 {
        lemma_swapped_permutes(s, i, larger_child(s, i));
        lemma_sift_down_permutes(swapped(s, i, larger_child(s, i)), larger_child(s, i));
    }
}

/// In a heap no entry has a larger priority than the root.
pub proof fn lemma_root_is_greatest<T>(s: Seq<(u32, T)>, i: int)
    requires
        heap_ordered(s),
        0 <= i < s.len(),
    ensures
        s[0].0 >= s[i].0,
    decreases i,
{
    if i > 0 {
        lemma_root_is_greatest(s, parent(i));
    }
}

/// Inserting adds exactly the new entry: one more entry, and the multiset of
/// entries grows by `(priority, value)`.
pub proof fn lemma_pushed_entries<T>(s: Seq<(u32, T)>, priority: u32, value: T)
    ensures
        pushed(s, priority, value).len() == s.len() + 1,
        pushed(s, priority, value).to_multiset() == s.to_multiset().insert((priority, value)),
{
    let appended = s.push((priority, value));
    lemma_sift_up_len(appended, s.len() as int);
    lemma_sift_up_permutes(appended, s.len() as int);
    vstd::seq_lib::to_multiset_build(s, (priority, value));
}

/// Inserting into a heap gives a heap.
pub proof fn lemma_pushed_heap_ordered<T>(s: Seq<(u32, T)>, priority: u32, value: T)
    requires
        heap_ordered(s),
    ensures
        heap_ordered(pushed(s, priority, value)),
{
    // The appended entry is a leaf; only it can be out of order.
    lemma_sift_up_orders(s.push((priority, value)), s.len() as int);
}

/// Removing the root takes exactly the root away: one entry fewer, and the
/// multiset of entries shrinks by the old root.
pub proof fn lemma_popped_entries<T>(s: Seq<(u32, T)>)
    requires
        s.len() > 0,
    ensures
        popped(s).len() == s.len() - 1,
        popped(s).to_multiset().insert(s[0]) == s.to_multiset(),
{
    broadcast use vstd::seq_lib::group_to_multiset_ensures;

    if s.len() == 1 {
        assert(s =~= Seq::<(u32, T)>::empty().push(s[0]));
        vstd::seq_lib::to_multiset_build(Seq::<(u32, T)>::empty(), s[0]);
    } else {
        let last = s.len() - 1;
        let moved = s.drop_last().update(0, s.last());
        let exchanged = swapped(s, 0, last);
        lemma_swapped_permutes(s, 0, last);
        assert(exchanged =~= moved.push(s[0]));
        vstd::seq_lib::to_multiset_build(moved, s[0]);
        lemma_sift_down_len(moved, 0);
        lemma_sift_down_permutes(moved, 0);
    }
}

/// Removing the root of a heap gives a heap.
pub proof fn lemma_popped_heap_ordered<T>(s: Seq<(u32, T)>)
    requires
        heap_ordered(s),
    ensures
        heap_ordered(popped(s)),
{
    if s.len() > 1 {
        // Only the entry moved into the root can be out of order.
        lemma_sift_down_orders(s.drop_last().update(0, s.last()), 0);
    }
}

} // verus!
