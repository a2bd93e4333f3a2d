use priority_queue::{PriorityQueue, PriorityQueueNode};
use std::rc::Rc;

fn drain<T>(queue: &mut PriorityQueue<T>) -> Vec<T> {
    let mut out = Vec::new();
    while let Some(value) = queue.pop() {
        out.push(value);
    }
    out
}

fn filled(entries: &[(u32, &'static str)]) -> PriorityQueue<&'static str> {
    let mut queue = PriorityQueue::new();
    for &(priority, value) in entries {
        queue.push(priority, value);
    }
    queue
}

#[test]
fn main() {
    let mut queue = PriorityQueue::new();
    for priority in 10..10000 {
        queue.push(priority, String::from(format!("HelloWorld{}", priority)));
    }

    if let Some(t) = queue.peek() {
        println!("peek {}", t);
    }

    for _priority in 0..10 {
        let value = queue.pop();
        if let Some(t) = value {
            println!("pop {}", t);
        }
    }

    if let Some(t) = queue.peek() {
        println!("peek {}", t);
    }
}

#[test]
fn node_owns_priority_and_value() {
    let node = PriorityQueueNode::new(7, String::from("seven"));
    assert_eq!(node.priority, 7);
    assert_eq!(node.value, Some(String::from("seven")));
}

#[test]
fn fresh_queue_has_nothing_to_give() {
    let mut queue: PriorityQueue<String> = PriorityQueue::new();
    assert!(queue.peek().is_none());
    assert_eq!(queue.pop(), None);
    assert!(queue.peek().is_none());
    assert_eq!(queue.pop(), None);
}

#[test]
fn one_push_one_pop_returns_to_empty() {
    let mut queue = PriorityQueue::new();
    for round in 0..3u32 {
        queue.push(round, round * 10);
        assert_eq!(queue.peek().map(|value| *value), Some(round * 10));
        assert_eq!(queue.pop(), Some(round * 10));
        assert!(queue.peek().is_none());
        assert_eq!(queue.pop(), None);
    }
}

#[test]
fn four_entries_come_out_by_priority() {
    let mut queue = filled(&[(5, "a"), (1, "b"), (9, "c"), (3, "d")]);
    assert_eq!(queue.pop(), Some("c"));
    assert_eq!(queue.pop(), Some("a"));
    assert_eq!(queue.pop(), Some("d"));
    assert_eq!(queue.pop(), Some("b"));
    assert_eq!(queue.pop(), None);
}

#[test]
fn peek_shows_what_pop_returns_and_keeps_it() {
    let mut queue = filled(&[(5, "a"), (1, "b"), (9, "c"), (3, "d")]);
    assert_eq!(queue.peek().map(|value| *value), Some("c"));
    assert_eq!(queue.peek().map(|value| *value), Some("c"));
    assert_eq!(queue.pop(), Some("c"));
    assert_eq!(queue.peek().map(|value| *value), Some("a"));
    assert_eq!(drain(&mut queue), vec!["a", "d", "b"]);
}

#[test]
fn peek_lets_the_root_value_be_changed_in_place() {
    let mut queue = PriorityQueue::new();
    queue.push(2, String::from("low"));
    queue.push(8, String::from("high"));
    queue.push(4, String::from("mid"));
    if let Some(value) = queue.peek() {
        value.push_str("er");
    }
    assert_eq!(queue.pop(), Some(String::from("higher")));
    assert_eq!(queue.pop(), Some(String::from("mid")));
    assert_eq!(queue.pop(), Some(String::from("low")));
    assert_eq!(queue.pop(), None);
}

#[test]
fn root_is_the_greatest_after_every_push_and_pop() {
    let priorities = [6u32, 25, 24, 23, 28, 9, 42, 43, 10, 17, 44, 47];
    let mut queue = PriorityQueue::new();
    let mut present: Vec<u32> = Vec::new();
    for &priority in priorities.iter() {
        queue.push(priority, priority);
        present.push(priority);
        let greatest = present.iter().copied().max();
        assert_eq!(queue.peek().map(|value| *value), greatest);
    }
    while !present.is_empty() {
        let greatest = present.iter().copied().max();
        let popped = queue.pop();
        assert_eq!(popped, greatest);
        let at = present.iter().position(|&p| Some(p) == popped);
        assert!(at.is_some());
        present.remove(at.unwrap_or(0));
        let next = present.iter().copied().max();
        assert_eq!(queue.peek().map(|value| *value), next);
    }
    assert_eq!(queue.pop(), None);
}

#[test]
fn size_is_pushes_minus_pops() {
    let pushes = 37usize;
    let pops = 12usize;
    let mut queue = PriorityQueue::new();
    for i in 0..pushes {
        queue.push((i * 7 % 11) as u32, i);
    }
    for _ in 0..pops {
        assert!(queue.pop().is_some());
    }
    assert_eq!(drain(&mut queue).len(), pushes - pops);
    assert_eq!(queue.pop(), None);
}

#[test]
fn size_is_pushes_minus_pops_when_interleaved() {
    let mut queue = PriorityQueue::new();
    let mut pushes = 0usize;
    let mut pops = 0usize;
    for i in 0..60u32 {
        queue.push(i % 13, i);
        pushes += 1;
        if i % 3 == 2 {
            assert!(queue.pop().is_some());
            pops += 1;
        }
    }
    assert_eq!(pushes, 60);
    assert_eq!(pops, 20);
    assert_eq!(drain(&mut queue).len(), 40);
}

#[test]
fn pop_on_empty_does_not_count_against_later_pushes() {
    let mut queue = PriorityQueue::new();
    assert_eq!(queue.pop(), None);
    queue.push(1, 'x');
    assert_eq!(drain(&mut queue), vec!['x']);
}

#[test]
fn priorities_never_increase_from_pop_to_pop() {
    let mut state: u64 = 12345;
    let mut pushed: Vec<u32> = Vec::new();
    let mut queue = PriorityQueue::new();
    for _ in 0..500 {
        state = (state * 1103515245 + 12345) % (1u64 << 31);
        let priority = (state % 50) as u32;
        pushed.push(priority);
        queue.push(priority, priority);
    }
    let out = drain(&mut queue);
    assert_eq!(out.len(), 500);
    for pair in out.windows(2) {
        assert!(pair[0] >= pair[1]);
    }
    pushed.sort();
    pushed.reverse();
    assert_eq!(out, pushed);
}

#[test]
fn twelve_entries_come_out_in_the_expected_order() {
    let priorities = [6u32, 25, 24, 23, 28, 9, 42, 43, 10, 17, 44, 47];
    let mut queue = PriorityQueue::new();
    for (i, &priority) in priorities.iter().enumerate() {
        queue.push(priority, i);
    }
    assert_eq!(drain(&mut queue), vec![11, 10, 7, 6, 4, 1, 2, 3, 9, 8, 5, 0]);
}

#[test]
fn ascending_pushes_come_out_descending() {
    let mut queue = PriorityQueue::new();
    for priority in 10..10000u32 {
        queue.push(priority, format!("HelloWorld{}", priority));
    }
    assert_eq!(queue.peek().map(|value| value.clone()), Some(String::from("HelloWorld9999")));
    for priority in (10..10000u32).rev() {
        assert_eq!(queue.pop(), Some(format!("HelloWorld{}", priority)));
    }
    assert_eq!(queue.pop(), None);
}

#[test]
fn extreme_priorities_are_ordered() {
    let mut queue = filled(&[(0, "least"), (u32::MAX, "most"), (1, "one"), (u32::MAX - 1, "next")]);
    assert_eq!(drain(&mut queue), vec!["most", "next", "one", "least"]);
}

#[test]
fn right_child_wins_between_equal_children() {
    let mut queue = filled(&[(5, "a"), (3, "b"), (3, "c"), (1, "d")]);
    assert_eq!(drain(&mut queue), vec!["a", "c", "b", "d"]);
}

#[test]
fn entry_equal_to_its_children_stays_above_them() {
    let mut queue = filled(&[(5, "a"), (3, "b"), (3, "c"), (3, "d")]);
    assert_eq!(drain(&mut queue), vec!["a", "d", "c", "b"]);
}

#[test]
fn pushed_entry_equal_to_its_parent_stays_below() {
    let mut queue = filled(&[(1, "a"), (1, "b"), (1, "c")]);
    assert_eq!(drain(&mut queue), vec!["a", "c", "b"]);
    let mut queue = filled(&[(7, "a"), (7, "b"), (7, "c"), (7, "d"), (7, "e")]);
    assert_eq!(drain(&mut queue), vec!["a", "e", "d", "c", "b"]);
}

#[test]
fn mixed_ties_come_out_in_the_expected_order() {
    let mut queue = filled(&[(2, "a"), (4, "b"), (4, "c"), (6, "d"), (2, "e"), (6, "f")]);
    assert_eq!(drain(&mut queue), vec!["d", "f", "c", "b", "e", "a"]);
}

#[test]
fn popped_value_is_the_value_pushed() {
    let payloads: Vec<Vec<u8>> = (0..40u8).map(|n| (0..n).collect()).collect();
    let mut queue = PriorityQueue::new();
    for (i, payload) in payloads.iter().enumerate() {
        queue.push(i as u32, payload.clone());
    }
    for i in (0..payloads.len()).rev() {
        assert_eq!(queue.pop(), Some(payloads[i].clone()));
    }
    assert_eq!(queue.pop(), None);
}

#[test]
fn popped_box_is_the_box_pushed() {
    let mut queue: PriorityQueue<Box<(u64, String)>> = PriorityQueue::new();
    queue.push(1, Box::new((11, String::from("eleven"))));
    queue.push(3, Box::new((33, String::from("thirty-three"))));
    queue.push(2, Box::new((22, String::from("twenty-two"))));
    assert_eq!(queue.pop(), Some(Box::new((33, String::from("thirty-three")))));
    assert_eq!(queue.pop(), Some(Box::new((22, String::from("twenty-two")))));
    assert_eq!(queue.pop(), Some(Box::new((11, String::from("eleven")))));
}

#[test]
fn dropping_the_queue_releases_every_element_once() {
    let witness = Rc::new(());
    {
        let mut queue = PriorityQueue::new();
        for i in 0..300u32 {
            queue.push(i % 17, Rc::clone(&witness));
        }
        assert_eq!(Rc::strong_count(&witness), 301);
    }
    assert_eq!(Rc::strong_count(&witness), 1);
}

#[test]
fn popping_hands_ownership_to_the_caller() {
    let witness = Rc::new(());
    let mut queue = PriorityQueue::new();
    for i in 0..50u32 {
        queue.push(i, Rc::clone(&witness));
    }
    assert_eq!(Rc::strong_count(&witness), 51);
    let mut kept = Vec::new();
    for _ in 0..20 {
        kept.push(queue.pop());
    }
    assert_eq!(Rc::strong_count(&witness), 51);
    kept.clear();
    assert_eq!(Rc::strong_count(&witness), 31);
    drop(queue);
    assert_eq!(Rc::strong_count(&witness), 1);
}

#[test]
fn emptied_queue_holds_on_to_nothing() {
    let witness = Rc::new(());
    let mut queue = PriorityQueue::new();
    for i in 0..10u32 {
        queue.push(i, Rc::clone(&witness));
    }
    while let Some(element) = queue.pop() {
        drop(element);
    }
    assert_eq!(Rc::strong_count(&witness), 1);
    queue.push(0, Rc::clone(&witness));
    assert_eq!(Rc::strong_count(&witness), 2);
    drop(queue);
    assert_eq!(Rc::strong_count(&witness), 1);
}
