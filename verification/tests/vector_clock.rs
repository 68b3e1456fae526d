use rhizo_core::distributed::{CausalOrder, NodeId, VectorClock};

fn clock(entries: &[(&str, u64)]) -> VectorClock {
    let mut c = VectorClock::new();
    for (node, time) in entries {
        c.set(&NodeId::new(node), *time);
    }
    c
}

#[test]
fn node_id_text() {
    let node = NodeId::new("node-1");
    assert_eq!(node.as_str(), "node-1");
    assert_eq!(node.to_string(), "node-1");
    assert_eq!(node, NodeId::new("node-1"));
    assert_ne!(node, NodeId::new("node-2"));
}

#[test]
fn new_clock_is_empty_and_reads_zero() {
    let c = VectorClock::new();
    assert!(c.is_empty());
    assert_eq!(c.len(), 0);
    assert_eq!(c.get(&NodeId::new("anyone")), 0);
    assert!(c.entries().is_empty());
}

#[test]
fn tick_advances_one_node() {
    let a = NodeId::new("a");
    let b = NodeId::new("b");
    let mut c = VectorClock::new();
    c.tick(&a);
    c.tick(&a);
    c.tick(&b);
    assert_eq!(c.get(&a), 2);
    assert_eq!(c.get(&b), 1);
    assert_eq!(c.len(), 2);
    assert!(!c.is_empty());
}

#[test]
fn tick_stops_at_the_largest_time() {
    let a = NodeId::new("a");
    let mut c = VectorClock::new();
    c.set(&a, u64::MAX);
    c.tick(&a);
    assert_eq!(c.get(&a), u64::MAX);
}

#[test]
fn merge_takes_the_larger_time_of_each_node() {
    let mut left = clock(&[("a", 3), ("b", 1)]);
    let right = clock(&[("b", 5), ("c", 2)]);
    left.merge(&right);
    assert_eq!(left, clock(&[("a", 3), ("b", 5), ("c", 2)]));

    let max = VectorClock::max(&clock(&[("a", 3), ("b", 1)]), &right);
    assert_eq!(max, left);
    assert_eq!(
        max.entries(),
        vec![(NodeId::new("a"), 3), (NodeId::new("b"), 5), (NodeId::new("c"), 2)]
    );
}

#[test]
fn merge_is_idempotent_and_commutative() {
    let x = clock(&[("a", 3), ("b", 1)]);
    let y = clock(&[("b", 5), ("c", 2)]);
    assert_eq!(VectorClock::max(&x, &y), VectorClock::max(&y, &x));
    assert_eq!(VectorClock::max(&x, &x), x);
    let xy = VectorClock::max(&x, &y);
    assert_eq!(VectorClock::max(&xy, &y), xy);
}

#[test]
fn compare_orders_clocks() {
    let small = clock(&[("a", 1)]);
    let large = clock(&[("a", 2), ("b", 1)]);
    let other = clock(&[("c", 1)]);

    assert_eq!(small.compare(&large), CausalOrder::Before);
    assert_eq!(large.compare(&small), CausalOrder::After);
    assert_eq!(small.compare(&clock(&[("a", 1)])), CausalOrder::Equal);
    assert_eq!(small.compare(&other), CausalOrder::Concurrent);
    assert_eq!(other.compare(&small), CausalOrder::Concurrent);

    assert!(small.happened_before(&large));
    assert!(!large.happened_before(&small));
    assert!(!small.happened_before(&small));
    assert!(small.concurrent_with(&other));
    assert!(!small.concurrent_with(&large));
}

#[test]
fn an_entry_of_zero_counts_as_no_entry_when_compared() {
    let with_zero = clock(&[("a", 0), ("b", 4)]);
    let without = clock(&[("b", 4)]);
    assert_eq!(with_zero.compare(&without), CausalOrder::Equal);
    assert_eq!(VectorClock::new().compare(&clock(&[("a", 0)])), CausalOrder::Equal);
    assert_eq!(VectorClock::new().compare(&without), CausalOrder::Before);
}

#[test]
fn the_maximum_dominates_both_clocks() {
    let x = clock(&[("a", 3), ("b", 1)]);
    let y = clock(&[("b", 5), ("c", 2)]);
    let max = VectorClock::max(&x, &y);
    for side in [&x, &y] {
        let order = side.compare(&max);
        assert!(order == CausalOrder::Before || order == CausalOrder::Equal);
    }
}
