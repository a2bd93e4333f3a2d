//! The executable max-priority queue.
//!
//! Every element lives in a node of its own behind an owning `Box`; the heap
//! array holds the handles. Sifting exchanges handles, never node contents.

use crate::heap_model::{
    heap_ordered, lemma_popped_entries, lemma_popped_heap_ordered, lemma_pushed_entries,
    lemma_pushed_heap_ordered, lemma_root_is_greatest, popped, pushed, sift_down, sift_up,
    swapped, top_value,
};
use vstd::prelude::*;

verus! {

/// One element of the queue: a priority key and the value it owns.
///
/// `value` is `Some` from construction until the value is handed back to the
/// caller.
pub struct PriorityQueueNode<T> {
    pub priority: u32,
    pub value: Option<T>,
}

impl<T> PriorityQueueNode<T> {
    /// A node that owns `value` under the key `priority`.
    pub fn new(priority: u32, value: T) -> (node: PriorityQueueNode<T>)
        ensures
            node.priority == priority,
            node.value == Some(value),
    {
        PriorityQueueNode { priority, value: Some(value) }
    }
}

/// A slot of the heap array: an owning handle to a node, or vacant while an
/// operation is moving handles around.
type Slot<T> = Option<Box<PriorityQueueNode<T>>>;

/// A binary max-heap of individually boxed nodes.
///
/// Its view is the heap array as a sequence of `(priority, value)` entries,
/// root first.
pub struct PriorityQueue<T> {
    nodes: Vec<Slot<T>>,
}

/// The slot holds a node, and the node still owns its value.
spec fn slot_live<T>(slot: Slot<T>) -> bool {
    slot is Some && slot->0.value is Some
}

/// No slot is vacant.
spec fn all_live<T>(slots: Seq<Slot<T>>) -> bool {
    forall|i: int| 0 <= i < slots.len() ==> slot_live(#[trigger] slots[i])
}

/// The entry that a live slot stands for.
spec fn entry_of<T>(slot: Slot<T>) -> (u32, T) {
    (slot->0.priority, slot->0.value->0)
}

/// The entries that a heap array of live slots stands for.
spec fn entries_of<T>(slots: Seq<Slot<T>>) -> Seq<(u32, T)> {
    Seq::new(slots.len(), |i: int| entry_of(slots[i]))
}

impl<T> View for PriorityQueue<T> {
    type V = Seq<(u32, T)>;

    closed spec fn view(&self) -> Seq<(u32, T)> {
        entries_of(self.nodes@)
    }
}

/// Exchanges the handles in slots `i` and `j`. Both slots are vacant for a
/// moment and full again on return.
fn exchange<T>(nodes: &mut Vec<Slot<T>>, i: usize, j: usize)
    requires
        i < old(nodes)@.len(),
        j < old(nodes)@.len(),
        i != j,
        all_live(old(nodes)@),
    ensures
        all_live(final(nodes)@),
        final(nodes)@ == old(nodes)@.update(i as int, old(nodes)@[j as int]).update(
            j as int,
            old(nodes)@[i as int],
        ),
        entries_of(final(nodes)@) == swapped(entries_of(old(nodes)@), i as int, j as int),
{
    let first = nodes[i].take();
    let second = nodes[j].take();
    nodes[i] = second;
    nodes[j] = first;
    proof {
        assert(entries_of(nodes@) =~= swapped(entries_of(old(nodes)@), i as int, j as int));
    }
}

/// Lifts the node in slot `pos` towards the root while its priority is
/// strictly greater than its parent's.
fn sift_up_from<T>(nodes: &mut Vec<Slot<T>>, pos: usize)
    requires
        pos < old(nodes)@.len(),
        all_live(old(nodes)@),
    ensures
        all_live(final(nodes)@),
        entries_of(final(nodes)@) == sift_up(entries_of(old(nodes)@), pos as int),
{
    let ghost target = sift_up(entries_of(nodes@), pos as int);
    let priority: u32 = nodes[pos].as_ref().unwrap().priority;
    let mut pos: usize = pos;
    while pos > 0
        invariant
            pos < nodes@.len(),
            all_live(nodes@),
            entries_of(nodes@)[pos as int].0 == priority,
            sift_up(entries_of(nodes@), pos as int) == target,
        ensures
            all_live(nodes@),
            entries_of(nodes@) == target,
        decreases pos,
    {
        let above: usize = (pos - 1) / 2;
        if priority > nodes[above].as_ref().unwrap().priority {
            exchange(nodes, pos, above);
            pos = above;
        } else {
            break ;
        }
    }
}

/// Lowers the node in slot `pos` towards the leaves while the larger of its
/// children, the right one of two equal children, has a strictly greater
/// priority.
fn sift_down_from<T>(nodes: &mut Vec<Slot<T>>, pos: usize)
    requires
        pos < old(nodes)@.len(),
        all_live(old(nodes)@),
    ensures
        all_live(final(nodes)@),
        entries_of(final(nodes)@) == sift_down(entries_of(old(nodes)@), pos as int),
{
    let ghost target = sift_down(entries_of(nodes@), pos as int);
    let priority: u32 = nodes[pos].as_ref().unwrap().priority;
    let len: usize = nodes.len();
    let mut pos: usize = pos;
    loop
        invariant
            len == nodes@.len(),
            pos < len,
            all_live(nodes@),
            entries_of(nodes@)[pos as int].0 == priority,
            sift_down(entries_of(nodes@), pos as int) == target,
        ensures
            all_live(nodes@),
            entries_of(nodes@) == target,
        decreases len - pos,
    {
        if pos >= len / 2 {
            // No left child, so no child at all. Asking this way keeps the
            // child indices below `len`, whatever `len` is.
            break ;
        }
        let left: usize = 2 * pos + 1;
        let right: usize = left + 1;
        let mut child: usize = left;
        if right < len {
            let left_priority: u32 = nodes[left].as_ref().unwrap().priority;
            let right_priority: u32 = nodes[right].as_ref().unwrap().priority;
            if !(left_priority > right_priority) {
                child = right;
            }
        }
        if !(nodes[child].as_ref().unwrap().priority > priority) {
            break ;
        }
        exchange(nodes, pos, child);
        pos = child;
    }
}

/// Putting another live node with the same priority into the root slot keeps
/// the heap a heap, and changes the root entry's value only.
proof fn lemma_root_value_replaced<T>(slots: Seq<Slot<T>>)
    requires
        slots.len() > 0,
        all_live(slots),
        heap_ordered(entries_of(slots)),
    ensures
        forall|slot: Slot<T>|
            slot_live(slot) && slot->0.priority == slots[0]->0.priority ==> {
                &&& all_live(#[trigger] slots.update(0, slot))
                &&& heap_ordered(entries_of(slots.update(0, slot)))
                &&& entries_of(slots.update(0, slot)) == entries_of(slots).update(
                    0,
                    (slots[0]->0.priority, slot->0.value->0),
                )
            },
{
    assert forall|slot: Slot<T>|
        slot_live(slot) && slot->0.priority == slots[0]->0.priority implies {
        &&& all_live(#[trigger] slots.update(0, slot))
        &&& heap_ordered(entries_of(slots.update(0, slot)))
        &&& entries_of(slots.update(0, slot)) == entries_of(slots).update(
            0,
            (slots[0]->0.priority, slot->0.value->0),
        )
    } by {
        // The priorities are what they were, entry by entry.
        assert(entries_of(slots.update(0, slot)) =~= entries_of(slots).update(
            0,
            (slots[0]->0.priority, slot->0.value->0),
        ));
    }
}

impl<T> PriorityQueue<T> {
    /// The queue's invariant: no slot is vacant, every node owns its value,
    /// and the entries are in max-heap order.
    pub closed spec fn well_formed(&self) -> bool {
        &&& all_live(self.nodes@)
        &&& heap_ordered(self@)
    }

    /// A well-formed queue is a heap, and its root is an entry of greatest
    /// priority.
    pub proof fn lemma_well_formed_heap(&self)
        requires
            self.well_formed(),
        ensures
            heap_ordered(self@),
            forall|i: int| 0 <= i < self@.len() ==> self@[0].0 >= (#[trigger] self@[i]).0,
    {
        assert forall|i: int| 0 <= i < self@.len() implies
            self@[0].0 >= (#[trigger] self@[i]).0
        by {
            lemma_root_is_greatest(self@, i);
        }
    }

    /// An empty queue, with room set aside for the first elements.
    pub fn new() -> (queue: PriorityQueue<T>)
        ensures
            queue.well_formed(),
            queue@ == Seq::<(u32, T)>::empty(),
    {
        PriorityQueue { nodes: Vec::with_capacity(128) }
    }

    /// Inserts `value` under the key `priority`.
    ///
    /// The new node goes into a fresh last slot and climbs towards the root
    /// while its priority is strictly greater than its parent's. The queue
    /// gains exactly this entry and stays a heap.
    pub fn push(&mut self, priority: u32, value: T)
        requires
            old(self).well_formed(),
        ensures
            final(self).well_formed(),
            final(self)@ == pushed(old(self)@, priority, value),
            final(self)@.len() == old(self)@.len() + 1,
            final(self)@.to_multiset() == old(self)@.to_multiset().insert((priority, value)),
            heap_ordered(final(self)@),
    {
        let ghost before = self@;
        let node = PriorityQueueNode::new(priority, value);
        self.nodes.push(Some(Box::new(node)));
        proof {
            assert(entries_of(self.nodes@) =~= before.push((priority, value)));
        }
        let last: usize = self.nodes.len() - 1;
        sift_up_from(&mut self.nodes, last);
        proof {
            lemma_pushed_entries(before, priority, value);
            lemma_pushed_heap_ordered(before, priority, value);
        }
    }

    /// Removes the root, an entry of greatest priority, and returns its
    /// value; `None` when the queue is empty.
    ///
    /// The root's node leaves the queue and gives up its value. Where other
    /// nodes remain, the last one takes the root's place and descends while
    /// its larger child, the right one of two equal children, has a strictly
    /// greater priority. The queue loses exactly the old root and stays a
    /// heap.
    pub fn pop(&mut self) -> (top: Option<T>)
        requires
            old(self).well_formed(),
        ensures
            final(self).well_formed(),
            top == top_value(old(self)@),
            final(self)@ == popped(old(self)@),
            old(self)@.len() == 0 ==> final(self)@.len() == 0,
            old(self)@.len() > 0 ==> final(self)@.len() == old(self)@.len() - 1,
            old(self)@.len() > 0 ==> final(self)@.to_multiset().insert(old(self)@[0])
                == old(self)@.to_multiset(),
            forall|i: int|
                0 <= i < old(self)@.len() ==> old(self)@[0].0 >= (#[trigger] old(self)@[i]).0,
            heap_ordered(final(self)@),
    {
        let ghost before = self@;
        proof {
            self.lemma_well_formed_heap();
            lemma_popped_heap_ordered(before);
        }
        if self.nodes.len() < 1 {
            proof {
                assert(self@ =~= popped(before));
            }
            return None;
        }
        proof {
            lemma_popped_entries(before);
        }
        let root = self.nodes[0].take();
        // With a single node this is the slot just vacated.
        let bottom = self.nodes.pop().unwrap();
        let mut node = root.unwrap();
        if self.nodes.len() < 1 {
            proof {
                assert(self@ =~= popped(before));
            }
            return node.value.take();
        }
        self.nodes[0] = bottom;
        proof {
            assert(entries_of(self.nodes@) =~= before.drop_last().update(0, before.last()));
        }
        sift_down_from(&mut self.nodes, 0);
        node.value.take()
    }

    /// Borrows the value at the root, the one that `pop` would return, without
    /// removing it; `None` when the queue is empty.
    ///
    /// The caller may change the value through the borrow. Its priority and
    /// every other entry stay as they are.
    pub fn peek(&mut self) -> (top: Option<&mut T>)
        requires
            old(self).well_formed(),
        ensures
            final(self).well_formed(),
            heap_ordered(final(self)@),
            old(self)@.len() == 0 ==> top is None && final(self)@ == old(self)@,
            old(self)@.len() > 0 ==> top is Some && *top->0 == old(self)@[0].1,
            old(self)@.len() > 0 ==> final(self)@ == old(self)@.update(
                0,
                (old(self)@[0].0, *final(top->0)),
            ),
    {
        if self.nodes.len() < 1 {
            return None;
        }
        proof {
            lemma_root_value_replaced(self.nodes@);
        }
        self.nodes[0].as_mut().unwrap().value.as_mut()
    }
}

} // verus!
