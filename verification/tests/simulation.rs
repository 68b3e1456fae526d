use rhizo_core::algebraic::{AlgebraicValue, OpType};
use rhizo_core::distributed::{
    AlgebraicOperation, AlgebraicTransaction, NodeId, SimulatedCluster, SimulatedNode,
    SimulationBuilder, VersionedUpdate, VectorClock,
};
use rhizo_core::sets::StrSet;

// Helper to create an ADD operation
fn add_op(key: &str, value: i64) -> AlgebraicOperation {
    AlgebraicOperation::new(key, OpType::AbelianAdd, AlgebraicValue::integer(value))
}

// Helper to create a MAX operation
fn max_op(key: &str, value: i64) -> AlgebraicOperation {
    AlgebraicOperation::new(key, OpType::SemilatticeMax, AlgebraicValue::integer(value))
}

// Helper to create a UNION operation
fn union_op(key: &str, values: &[&str]) -> AlgebraicOperation {
    let mut set = StrSet::new();
    for v in values {
        set.insert(v.to_string());
    }
    AlgebraicOperation::new(key, OpType::SemilatticeUnion, AlgebraicValue::StringSet(set))
}

// ============ Basic Cluster Tests ============

#[test]
fn test_create_cluster() {
    let cluster = SimulatedCluster::new(5);
    assert_eq!(cluster.num_nodes(), 5);
    assert!(cluster.verify_convergence()); // Empty cluster is converged
}

#[test]
fn test_single_node_commit() {
    let mut cluster = SimulatedCluster::new(1);

    let mut tx = AlgebraicTransaction::new();
    tx.add_operation(add_op("counter", 10));

    cluster.commit_on_node(0, tx).unwrap();

    let value = cluster.get_node_state(0, "counter").unwrap();
    assert_eq!(value.as_integer(), Some(10));
}

// ============ Two Node Convergence ============

#[test]
fn test_two_nodes_converge_add() {
    let mut cluster = SimulatedCluster::new(2);

    // Node 0: counter += 10
    let mut tx0 = AlgebraicTransaction::new();
    tx0.add_operation(add_op("counter", 10));
    cluster.commit_on_node(0, tx0).unwrap();

    // Node 1: counter += 20
    let mut tx1 = AlgebraicTransaction::new();
    tx1.add_operation(add_op("counter", 20));
    cluster.commit_on_node(1, tx1).unwrap();

    // Before propagation: different states
    assert_eq!(
        cluster.get_node_state(0, "counter").unwrap().as_integer(),
        Some(10)
    );
    assert_eq!(
        cluster.get_node_state(1, "counter").unwrap().as_integer(),
        Some(20)
    );

    // Propagate
    cluster.propagate_all();

    // After propagation: same state (10 + 20 = 30)
    assert!(cluster.verify_convergence());
    assert_eq!(
        cluster.get_node_state(0, "counter").unwrap().as_integer(),
        Some(30)
    );
    assert_eq!(
        cluster.get_node_state(1, "counter").unwrap().as_integer(),
        Some(30)
    );
}

#[test]
fn test_two_nodes_converge_max() {
    let mut cluster = SimulatedCluster::new(2);

    // Node 0: timestamp = max(100)
    let mut tx0 = AlgebraicTransaction::new();
    tx0.add_operation(max_op("timestamp", 100));
    cluster.commit_on_node(0, tx0).unwrap();

    // Node 1: timestamp = max(200)
    let mut tx1 = AlgebraicTransaction::new();
    tx1.add_operation(max_op("timestamp", 200));
    cluster.commit_on_node(1, tx1).unwrap();

    cluster.propagate_all();

    // Both should have max(100, 200) = 200
    assert!(cluster.verify_convergence());
    assert_eq!(
        cluster.get_node_state(0, "timestamp").unwrap().as_integer(),
        Some(200)
    );
}

#[test]
fn test_two_nodes_converge_union() {
    let mut cluster = SimulatedCluster::new(2);

    // Node 0: tags = {"a", "b"}
    let mut tx0 = AlgebraicTransaction::new();
    tx0.add_operation(union_op("tags", &["a", "b"]));
    cluster.commit_on_node(0, tx0).unwrap();

    // Node 1: tags = {"b", "c"}
    let mut tx1 = AlgebraicTransaction::new();
    tx1.add_operation(union_op("tags", &["b", "c"]));
    cluster.commit_on_node(1, tx1).unwrap();

    cluster.propagate_all();

    // Both should have {"a", "b", "c"}
    assert!(cluster.verify_convergence());

    if let Some(AlgebraicValue::StringSet(tags)) = cluster.get_node_state(0, "tags") {
        assert_eq!(tags.len(), 3);
        assert!(tags.contains("a"));
        assert!(tags.contains("b"));
        assert!(tags.contains("c"));
    } else {
        panic!("Expected StringSet");
    }
}

// ============ Five Node Convergence ============

#[test]
fn test_five_nodes_converge() {
    let mut cluster = SimulatedCluster::new(5);

    // Each node increments counter by (i+1)*10
    for i in 0..5 {
        let mut tx = AlgebraicTransaction::new();
        tx.add_operation(add_op("counter", ((i + 1) * 10) as i64));
        cluster.commit_on_node(i, tx).unwrap();
    }

    cluster.propagate_all();

    // All should equal 10 + 20 + 30 + 40 + 50 = 150
    assert!(cluster.verify_convergence());
    for i in 0..5 {
        assert_eq!(
            cluster.get_node_state(i, "counter").unwrap().as_integer(),
            Some(150),
            "Node {} has wrong value",
            i
        );
    }
}

#[test]
fn test_five_nodes_multiple_keys() {
    let mut cluster = SimulatedCluster::new(5);

    // Each node updates multiple keys
    for i in 0..5 {
        let mut tx = AlgebraicTransaction::new();
        tx.add_operation(add_op("total", ((i + 1) * 10) as i64));
        tx.add_operation(max_op("max_id", (i * 100) as i64));
        tx.add_operation(union_op("nodes", &[&format!("node-{}", i)]));
        cluster.commit_on_node(i, tx).unwrap();
    }

    cluster.propagate_all();

    assert!(cluster.verify_convergence());

    // Verify each key
    for i in 0..5 {
        // total = 10 + 20 + 30 + 40 + 50 = 150
        assert_eq!(
            cluster.get_node_state(i, "total").unwrap().as_integer(),
            Some(150)
        );

        // max_id = max(0, 100, 200, 300, 400) = 400
        assert_eq!(
            cluster.get_node_state(i, "max_id").unwrap().as_integer(),
            Some(400)
        );

        // nodes = {"node-0", "node-1", "node-2", "node-3", "node-4"}
        if let Some(AlgebraicValue::StringSet(nodes)) = cluster.get_node_state(i, "nodes") {
            assert_eq!(nodes.len(), 5);
        }
    }
}

// ============ Network Partition Tests ============

#[test]
fn test_partition_prevents_propagation() {
    let mut cluster = SimulatedCluster::new(2);

    // Partition nodes 0 and 1
    cluster.partition(0, 1);

    // Each node commits
    let mut tx0 = AlgebraicTransaction::new();
    tx0.add_operation(add_op("counter", 10));
    cluster.commit_on_node(0, tx0).unwrap();

    let mut tx1 = AlgebraicTransaction::new();
    tx1.add_operation(add_op("counter", 20));
    cluster.commit_on_node(1, tx1).unwrap();

    // Propagate (should not work due to partition)
    cluster.propagate_all();

    // They should NOT have converged
    assert!(!cluster.verify_convergence());
    assert_eq!(
        cluster.get_node_state(0, "counter").unwrap().as_integer(),
        Some(10)
    );
    assert_eq!(
        cluster.get_node_state(1, "counter").unwrap().as_integer(),
        Some(20)
    );
}

#[test]
fn test_partition_heal_then_converge() {
    let mut cluster = SimulatedCluster::new(2);

    // Partition nodes
    cluster.partition(0, 1);

    // Commit on both
    let mut tx0 = AlgebraicTransaction::new();
    tx0.add_operation(add_op("counter", 10));
    cluster.commit_on_node(0, tx0).unwrap();

    let mut tx1 = AlgebraicTransaction::new();
    tx1.add_operation(add_op("counter", 20));
    cluster.commit_on_node(1, tx1).unwrap();

    // Try to propagate (fails due to partition)
    cluster.propagate_round();
    assert!(!cluster.verify_convergence());

    // Heal partition and re-queue updates for gossip
    cluster.heal_partitions();
    cluster.requeue_all_updates();

    // Now propagate
    cluster.propagate_all();

    // Should converge
    assert!(cluster.verify_convergence());
    assert_eq!(
        cluster.get_node_state(0, "counter").unwrap().as_integer(),
        Some(30)
    );
}

#[test]
fn test_partial_partition() {
    // 3 nodes: 0 <-> 1 (ok), 1 <-> 2 (ok), 0 <-> 2 (partitioned)
    let mut cluster = SimulatedCluster::new(3);
    cluster.partition(0, 2);

    // Each node commits
    for i in 0..3 {
        let mut tx = AlgebraicTransaction::new();
        tx.add_operation(add_op("counter", ((i + 1) * 10) as i64));
        cluster.commit_on_node(i, tx).unwrap();
    }

    // Propagate - node 1 acts as bridge
    cluster.propagate_all();

    // All should converge (via node 1)
    assert!(cluster.verify_convergence());
    assert_eq!(
        cluster.get_node_state(0, "counter").unwrap().as_integer(),
        Some(60) // 10 + 20 + 30
    );
}

// ============ Commutativity Tests ============

#[test]
fn test_order_independence_add() {
    // Create two clusters with same operations in different order
    let mut cluster_ab = SimulatedCluster::new(2);
    let mut cluster_ba = SimulatedCluster::new(2);

    // Cluster AB: node 0 first, then node 1
    let mut tx0 = AlgebraicTransaction::new();
    tx0.add_operation(add_op("x", 5));
    cluster_ab.commit_on_node(0, tx0).unwrap();

    let mut tx1 = AlgebraicTransaction::new();
    tx1.add_operation(add_op("x", 3));
    cluster_ab.commit_on_node(1, tx1).unwrap();

    // Cluster BA: node 1 first, then node 0
    let mut tx1b = AlgebraicTransaction::new();
    tx1b.add_operation(add_op("x", 3));
    cluster_ba.commit_on_node(1, tx1b).unwrap();

    let mut tx0b = AlgebraicTransaction::new();
    tx0b.add_operation(add_op("x", 5));
    cluster_ba.commit_on_node(0, tx0b).unwrap();

    // Propagate both
    cluster_ab.propagate_all();
    cluster_ba.propagate_all();

    // Both should converge to same value (5 + 3 = 8)
    assert!(cluster_ab.verify_convergence());
    assert!(cluster_ba.verify_convergence());

    let val_ab = cluster_ab.get_node_state(0, "x").unwrap().as_integer();
    let val_ba = cluster_ba.get_node_state(0, "x").unwrap().as_integer();

    assert_eq!(val_ab, val_ba);
    assert_eq!(val_ab, Some(8));
}

#[test]
fn test_order_independence_complex() {
    // Test with 5 nodes, each contributing different values
    let values = [7, 13, 29, 41, 53]; // Prime numbers for variety

    // Run simulation in forward order
    let mut cluster_forward = SimulatedCluster::new(5);
    for (i, &val) in values.iter().enumerate() {
        let mut tx = AlgebraicTransaction::new();
        tx.add_operation(add_op("sum", val));
        cluster_forward.commit_on_node(i, tx).unwrap();
    }
    cluster_forward.propagate_all();

    // Run simulation in reverse order
    let mut cluster_reverse = SimulatedCluster::new(5);
    for (i, &val) in values.iter().enumerate().rev() {
        let mut tx = AlgebraicTransaction::new();
        tx.add_operation(add_op("sum", val));
        cluster_reverse.commit_on_node(i, tx).unwrap();
    }
    cluster_reverse.propagate_all();

    // Both should have same result
    let expected_sum: i64 = values.iter().sum(); // 143
    assert_eq!(
        cluster_forward.get_node_state(0, "sum").unwrap().as_integer(),
        Some(expected_sum)
    );
    assert_eq!(
        cluster_reverse.get_node_state(0, "sum").unwrap().as_integer(),
        Some(expected_sum)
    );
}

// ============ Associativity Tests ============

#[test]
fn test_associativity_grouping() {
    // Test that ((A + B) + C) == (A + (B + C))
    let values = [10, 20, 30];

    // Group left: ((10 + 20) + 30)
    let mut cluster_left = SimulatedCluster::new(3);
    for (i, &val) in values.iter().enumerate() {
        let mut tx = AlgebraicTransaction::new();
        tx.add_operation(add_op("x", val));
        cluster_left.commit_on_node(i, tx).unwrap();
    }
    // Propagate 0->1 first, then result->2
    cluster_left.propagate_all();

    // Group right: (10 + (20 + 30))
    let mut cluster_right = SimulatedCluster::new(3);
    // Start with nodes 1 and 2
    for i in [1, 2, 0] {
        let mut tx = AlgebraicTransaction::new();
        tx.add_operation(add_op("x", values[i]));
        cluster_right.commit_on_node(i, tx).unwrap();
    }
    cluster_right.propagate_all();

    // Both should equal 60
    assert_eq!(
        cluster_left.get_node_state(0, "x").unwrap().as_integer(),
        Some(60)
    );
    assert_eq!(
        cluster_right.get_node_state(0, "x").unwrap().as_integer(),
        Some(60)
    );
}

// ============ Builder Tests ============

#[test]
fn test_simulation_builder() {
    let mut tx0 = AlgebraicTransaction::new();
    tx0.add_operation(add_op("count", 100));

    let mut tx1 = AlgebraicTransaction::new();
    tx1.add_operation(add_op("count", 200));

    let cluster = SimulationBuilder::new(2)
        .max_rounds(50)
        .with_operation(0, tx0)
        .with_operation(1, tx1)
        .run()
        .unwrap();

    assert!(cluster.verify_convergence());
    assert_eq!(
        cluster.get_node_state(0, "count").unwrap().as_integer(),
        Some(300)
    );
}

// ============ Statistics Tests ============

#[test]
fn test_simulation_stats() {
    let mut cluster = SimulatedCluster::new(3);

    for i in 0..3 {
        let mut tx = AlgebraicTransaction::new();
        tx.add_operation(add_op("x", (i + 1) as i64));
        cluster.commit_on_node(i, tx).unwrap();
    }

    cluster.propagate_all();

    let stats = cluster.get_stats();
    assert_eq!(stats.operations_committed, 3);
    assert!(stats.messages_sent > 0);
    assert!(stats.messages_delivered > 0);
}

// ============ Edge Cases ============

#[test]
fn test_empty_transaction() {
    let mut cluster = SimulatedCluster::new(2);

    let tx = AlgebraicTransaction::new();
    let result = cluster.commit_on_node(0, tx);

    // Empty transaction should fail
    assert!(result.is_err());
}

#[test]
fn test_single_node_cluster() {
    let mut cluster = SimulatedCluster::new(1);

    let mut tx = AlgebraicTransaction::new();
    tx.add_operation(add_op("x", 42));
    cluster.commit_on_node(0, tx).unwrap();

    cluster.propagate_all();

    assert!(cluster.verify_convergence());
    assert_eq!(
        cluster.get_node_state(0, "x").unwrap().as_integer(),
        Some(42)
    );
}

#[test]
fn test_many_operations_same_key() {
    let mut cluster = SimulatedCluster::new(2);

    // Node 0: multiple increments
    for _ in 0..10 {
        let mut tx = AlgebraicTransaction::new();
        tx.add_operation(add_op("counter", 1));
        cluster.commit_on_node(0, tx).unwrap();
    }

    // Node 1: multiple increments
    for _ in 0..10 {
        let mut tx = AlgebraicTransaction::new();
        tx.add_operation(add_op("counter", 2));
        cluster.commit_on_node(1, tx).unwrap();
    }

    cluster.propagate_all();

    // 10*1 + 10*2 = 30
    assert!(cluster.verify_convergence());
    assert_eq!(
        cluster.get_node_state(0, "counter").unwrap().as_integer(),
        Some(30)
    );
}

// ============ Real-World Scenario Tests ============

#[test]
fn test_ecommerce_scenario() {
    // Simulate an e-commerce scenario with page views, cart items, and timestamps
    let mut cluster = SimulatedCluster::new(3); // 3 data centers

    // SF: 100 page views, cart items, recent timestamp
    let mut tx_sf = AlgebraicTransaction::new();
    tx_sf.add_operation(add_op("page_views", 100));
    tx_sf.add_operation(union_op("cart_items", &["item-a", "item-b"]));
    tx_sf.add_operation(max_op("last_activity", 1000));
    cluster.commit_on_node(0, tx_sf).unwrap();

    // Tokyo: 50 page views, different cart items, older timestamp
    let mut tx_tokyo = AlgebraicTransaction::new();
    tx_tokyo.add_operation(add_op("page_views", 50));
    tx_tokyo.add_operation(union_op("cart_items", &["item-c"]));
    tx_tokyo.add_operation(max_op("last_activity", 800));
    cluster.commit_on_node(1, tx_tokyo).unwrap();

    // London: 75 page views, overlapping cart items, newest timestamp
    let mut tx_london = AlgebraicTransaction::new();
    tx_london.add_operation(add_op("page_views", 75));
    tx_london.add_operation(union_op("cart_items", &["item-b", "item-d"]));
    tx_london.add_operation(max_op("last_activity", 1200));
    cluster.commit_on_node(2, tx_london).unwrap();

    cluster.propagate_all();

    // Verify convergence
    assert!(cluster.verify_convergence());

    // page_views = 100 + 50 + 75 = 225
    assert_eq!(
        cluster.get_node_state(0, "page_views").unwrap().as_integer(),
        Some(225)
    );

    // last_activity = max(1000, 800, 1200) = 1200
    assert_eq!(
        cluster
            .get_node_state(0, "last_activity")
            .unwrap()
            .as_integer(),
        Some(1200)
    );

    // cart_items = {item-a, item-b, item-c, item-d}
    if let Some(AlgebraicValue::StringSet(items)) = cluster.get_node_state(0, "cart_items") {
        assert_eq!(items.len(), 4);
        assert!(items.contains("item-a"));
        assert!(items.contains("item-b"));
        assert!(items.contains("item-c"));
        assert!(items.contains("item-d"));
    }
}

// ============ Transitive Requeue Tests ============

#[test]
fn test_requeue_includes_transitively_received_updates() {
    // 3 nodes: Node 0 and Node 2 are partitioned from each other.
    // Node 1 bridges them. After partition healing, requeue must
    // include updates Node 1 received transitively from Node 0
    // so that Node 2 can get them.
    let mut cluster = SimulatedCluster::new(3);

    // Partition Node 0 from Node 2 (Node 1 bridges)
    cluster.partition(0, 2);

    // Node 0 commits (only Node 1 can receive this)
    let mut tx0 = AlgebraicTransaction::new();
    tx0.add_operation(add_op("counter", 10));
    cluster.commit_on_node(0, tx0).unwrap();

    // Node 2 commits (only Node 1 can receive this)
    let mut tx2 = AlgebraicTransaction::new();
    tx2.add_operation(add_op("counter", 30));
    cluster.commit_on_node(2, tx2).unwrap();

    // Propagate: Node 1 receives both updates via gossip
    cluster.propagate_all();

    // Node 1 should have both (10 + 30 = 40)
    assert_eq!(
        cluster.get_node_state(1, "counter").unwrap().as_integer(),
        Some(40)
    );

    // Now: partition Node 1 from Node 0, heal Node 0 <-> Node 2
    // Node 2 has only its own update (30). It needs Node 0's update (10)
    // which was transitively received by Node 1.
    cluster.config.partitions.clear();
    cluster.partition(0, 1);
    cluster.partition(1, 2);
    // Only Node 0 <-> Node 2 is open now

    // Requeue all - Node 0 should re-send its local update to Node 2
    cluster.requeue_all_updates();
    cluster.propagate_all();

    // Node 2 should now have counter = 40 (received Node 0's update)
    assert_eq!(
        cluster.get_node_state(2, "counter").unwrap().as_integer(),
        Some(40)
    );
    // Node 0 should also have counter = 40 (received Node 2's update)
    assert_eq!(
        cluster.get_node_state(0, "counter").unwrap().as_integer(),
        Some(40)
    );
}

#[test]
fn test_requeue_bridge_node_relays_after_heal() {
    // 4 nodes split into two groups: {0,1} and {2,3}
    // After full heal + requeue, all should converge.
    let mut cluster = SimulatedCluster::new(4);

    // Partition all cross-group pairs
    cluster.partition(0, 2);
    cluster.partition(0, 3);
    cluster.partition(1, 2);
    cluster.partition(1, 3);

    // Each node commits
    for i in 0..4 {
        let mut tx = AlgebraicTransaction::new();
        tx.add_operation(add_op("total", ((i + 1) * 10) as i64));
        cluster.commit_on_node(i, tx).unwrap();
    }

    // Propagate: 0 <-> 1 share, 2 <-> 3 share (cross-group blocked)
    cluster.propagate_all();

    // Node 0 has 10+20=30, Node 3 has 30+40=70
    assert_eq!(
        cluster.get_node_state(0, "total").unwrap().as_integer(),
        Some(30)
    );
    assert_eq!(
        cluster.get_node_state(3, "total").unwrap().as_integer(),
        Some(70)
    );
    assert!(!cluster.verify_convergence());

    // Full heal + requeue
    cluster.heal_partitions();
    cluster.requeue_all_updates();
    cluster.propagate_all();

    // All should converge: 10+20+30+40 = 100
    assert!(cluster.verify_convergence());
    for i in 0..4 {
        assert_eq!(
            cluster.get_node_state(i, "total").unwrap().as_integer(),
            Some(100),
            "Node {} has wrong value",
            i
        );
    }
}

#[test]
fn test_requeue_multi_hop_transitive() {
    // 5 nodes in a chain: 0 -- 1 -- 2 -- 3 -- 4
    // Only adjacent nodes can communicate.
    // Node 0 commits, update must reach Node 4 via 3 hops.
    let mut cluster = SimulatedCluster::new(5);

    // Partition all non-adjacent pairs
    for i in 0..5 {
        for j in (i + 2)..5 {
            cluster.partition(i, j);
        }
    }

    // Only Node 0 commits
    let mut tx = AlgebraicTransaction::new();
    tx.add_operation(add_op("signal", 42));
    cluster.commit_on_node(0, tx).unwrap();

    // Propagate through chain
    cluster.propagate_all();

    // All should have signal=42 (gossip through chain)
    assert!(cluster.verify_convergence());
    assert_eq!(
        cluster.get_node_state(4, "signal").unwrap().as_integer(),
        Some(42)
    );
}

#[test]
fn test_requeue_after_cascading_partitions() {
    // Scenario: updates propagate partially, then a new partition
    // isolates the bridge. After heal+requeue, everything converges.
    let mut cluster = SimulatedCluster::new(3);

    // Node 0 commits
    let mut tx0 = AlgebraicTransaction::new();
    tx0.add_operation(add_op("x", 100));
    cluster.commit_on_node(0, tx0).unwrap();

    // Propagate freely - all nodes get x=100
    cluster.propagate_all();
    assert!(cluster.verify_convergence());

    // Now partition Node 2 from both 0 and 1
    cluster.partition(0, 2);
    cluster.partition(1, 2);

    // Node 0 and Node 1 commit new updates
    let mut tx0b = AlgebraicTransaction::new();
    tx0b.add_operation(add_op("x", 50));
    cluster.commit_on_node(0, tx0b).unwrap();

    let mut tx1 = AlgebraicTransaction::new();
    tx1.add_operation(add_op("x", 25));
    cluster.commit_on_node(1, tx1).unwrap();

    // Propagate: 0 and 1 converge to 175, Node 2 still at 100
    cluster.propagate_all();
    assert_eq!(
        cluster.get_node_state(0, "x").unwrap().as_integer(),
        Some(175)
    );
    assert_eq!(
        cluster.get_node_state(2, "x").unwrap().as_integer(),
        Some(100)
    );

    // Heal + requeue
    cluster.heal_partitions();
    cluster.requeue_all_updates();
    cluster.propagate_all();

    // All converge to 175
    assert!(cluster.verify_convergence());
    assert_eq!(
        cluster.get_node_state(2, "x").unwrap().as_integer(),
        Some(175)
    );
}

#[test]
fn test_requeue_deduplication_still_works() {
    // Ensure requeue doesn't cause double-application of updates.
    // With AbelianAdd, double-application would give wrong sum.
    let mut cluster = SimulatedCluster::new(2);

    let mut tx0 = AlgebraicTransaction::new();
    tx0.add_operation(add_op("counter", 10));
    cluster.commit_on_node(0, tx0).unwrap();

    let mut tx1 = AlgebraicTransaction::new();
    tx1.add_operation(add_op("counter", 20));
    cluster.commit_on_node(1, tx1).unwrap();

    // Propagate normally
    cluster.propagate_all();
    assert!(cluster.verify_convergence());
    assert_eq!(
        cluster.get_node_state(0, "counter").unwrap().as_integer(),
        Some(30)
    );

    // Requeue all updates and propagate again
    cluster.requeue_all_updates();
    cluster.propagate_all();

    // Should still be 30, not 60 (deduplication must prevent re-application)
    assert!(cluster.verify_convergence());
    assert_eq!(
        cluster.get_node_state(0, "counter").unwrap().as_integer(),
        Some(30)
    );
}

#[test]
fn test_distributed_counter_high_contention() {
    // Simulate high contention: 10 nodes all incrementing same counter
    let mut cluster = SimulatedCluster::new(10);

    for i in 0..10 {
        let mut tx = AlgebraicTransaction::new();
        tx.add_operation(add_op("global_counter", 1));
        cluster.commit_on_node(i, tx).unwrap();
    }

    cluster.propagate_all();

    // All should equal 10
    assert!(cluster.verify_convergence());
    for i in 0..10 {
        assert_eq!(
            cluster
                .get_node_state(i, "global_counter")
                .unwrap()
                .as_integer(),
            Some(10)
        );
    }
}

#[test]
fn node_receives_an_update_once() {
    let mut node = SimulatedNode::new(0);
    let mut clock = VectorClock::new();
    clock.set(&NodeId::new("node-7"), 1);
    let update = VersionedUpdate::new(vec![add_op("counter", 5)], clock, NodeId::new("node-7"));

    assert!(node.receive_update(&update));
    assert_eq!(node.get_state("counter").unwrap().as_integer(), Some(5));
    assert!(!node.receive_update(&update));
    assert_eq!(node.get_state("counter").unwrap().as_integer(), Some(5));
    assert_eq!(node.keys(), vec!["counter".to_string()]);
}

#[test]
fn node_update_id_names_origin_and_clock() {
    let node = SimulatedNode::new(3);
    let mut clock = VectorClock::new();
    clock.set(&NodeId::new("b"), 2);
    clock.set(&NodeId::new("a"), 1);
    let update = VersionedUpdate::new(vec![add_op("k", 1)], clock, NodeId::new("origin"));
    assert_eq!(node.generate_update_id(&update), "origin@a=1,b=2");
}

#[test]
fn node_keeps_the_old_value_when_a_merge_fails() {
    let mut node = SimulatedNode::new(0);
    let first = VersionedUpdate::new(vec![add_op("k", i64::MAX)], VectorClock::new(), NodeId::new("a"));
    let mut later = VectorClock::new();
    later.set(&NodeId::new("b"), 1);
    let second = VersionedUpdate::new(vec![add_op("k", 1)], later, NodeId::new("b"));
    assert!(node.receive_update(&first));
    assert!(node.receive_update(&second));
    assert_eq!(node.get_state("k").unwrap().as_integer(), Some(i64::MAX));
}

#[test]
fn cluster_partitions_are_symmetric() {
    let mut cluster = SimulatedCluster::new(3);
    cluster.partition(2, 0);
    assert!(cluster.is_partitioned(0, 2));
    assert!(cluster.is_partitioned(2, 0));
    assert!(!cluster.is_partitioned(0, 1));
    cluster.heal_partitions();
    assert!(!cluster.is_partitioned(0, 2));
}

#[test]
fn cluster_lists_all_keys_sorted() {
    let mut cluster = SimulatedCluster::new(2);
    let mut tx0 = AlgebraicTransaction::new();
    tx0.add_operation(add_op("zeta", 1));
    cluster.commit_on_node(0, tx0).unwrap();
    let mut tx1 = AlgebraicTransaction::new();
    tx1.add_operation(add_op("alpha", 1));
    cluster.commit_on_node(1, tx1).unwrap();
    assert_eq!(cluster.all_keys(), vec!["alpha".to_string(), "zeta".to_string()]);
    assert!(!cluster.verify_convergence());
}

#[test]
fn builder_with_partition_does_not_converge() {
    let mut tx0 = AlgebraicTransaction::new();
    tx0.add_operation(add_op("count", 1));
    let mut tx1 = AlgebraicTransaction::new();
    tx1.add_operation(add_op("count", 2));
    let cluster = SimulationBuilder::new(2)
        .with_partition(0, 1)
        .with_reordering()
        .with_operation(0, tx0)
        .with_operation(1, tx1)
        .run()
        .unwrap();
    assert!(!cluster.verify_convergence());
    assert!(cluster.config.randomize_order);
    assert_eq!(cluster.get_stats().operations_committed, 2);
    assert_eq!(cluster.get_stats().messages_sent, 0);
}

#[test]
fn node_deduplicates_by_the_explicit_id() {
    let mut node = SimulatedNode::new(0);
    let first = VersionedUpdate::with_id(vec![add_op("k", 1)], VectorClock::new(), NodeId::new("a"), "same");
    let second = VersionedUpdate::with_id(vec![add_op("k", 10)], VectorClock::new(), NodeId::new("b"), "same");
    assert_eq!(node.generate_update_id(&first), "same");
    assert!(node.receive_update(&first));
    assert!(!node.receive_update(&second));
    assert_eq!(node.get_state("k").unwrap().as_integer(), Some(1));
}

#[test]
fn broadcast_sends_to_every_reachable_peer_in_order() {
    let mut cluster = SimulatedCluster::new(4);
    cluster.partition(0, 2);
    let mut tx = AlgebraicTransaction::new();
    tx.add_operation(add_op("k", 1));
    cluster.commit_on_node(0, tx).unwrap();
    let mut tx = AlgebraicTransaction::new();
    tx.add_operation(add_op("k", 2));
    cluster.commit_on_node(3, tx).unwrap();

    cluster.broadcast_all();
    let routes: Vec<(usize, usize)> = cluster.messages.iter().map(|m| (m.from, m.to)).collect();
    assert_eq!(routes, vec![(0, 1), (0, 3), (3, 0), (3, 1), (3, 2)]);
    assert!(cluster.messages.iter().all(|m| m.delay == 0));
    assert_eq!(cluster.get_stats().messages_sent, 5);
    assert!(cluster.nodes.iter().all(|n| n.outbox.is_empty()));
    assert_eq!(cluster.round, 0);
}

#[test]
fn delivery_drops_what_a_partition_cuts_off() {
    let mut cluster = SimulatedCluster::new(2);
    let mut tx = AlgebraicTransaction::new();
    tx.add_operation(add_op("k", 1));
    cluster.commit_on_node(0, tx).unwrap();
    cluster.broadcast_all();
    cluster.partition(1, 0);
    cluster.deliver_messages();
    assert!(cluster.messages.is_empty());
    assert_eq!(cluster.get_stats().messages_delivered, 0);
    assert_eq!(cluster.get_stats().messages_dropped, 1);
    assert!(cluster.get_node_state(1, "k").is_none());
}

#[test]
fn a_received_update_is_queued_for_relay() {
    let mut cluster = SimulatedCluster::new(2);
    let mut tx = AlgebraicTransaction::new();
    tx.add_operation(add_op("k", 1));
    cluster.commit_on_node(0, tx).unwrap();
    cluster.propagate_round();
    assert_eq!(cluster.round, 1);
    assert_eq!(cluster.nodes[1].outbox.len(), 1);
    assert_eq!(cluster.nodes[1].all_updates.len(), 1);
    assert!(cluster.nodes[1].local_updates.is_empty());
    assert_eq!(cluster.get_stats().messages_delivered, 1);

    cluster.propagate_round();
    assert_eq!(cluster.get_stats().messages_sent, 2);
    assert_eq!(cluster.get_stats().messages_delivered, 2);
    assert_eq!(cluster.get_node_state(0, "k").unwrap().as_integer(), Some(1));
    assert!(cluster.nodes[0].outbox.is_empty());
}

#[test]
fn propagation_records_the_round_of_convergence() {
    let mut cluster = SimulatedCluster::new(2);
    let mut tx = AlgebraicTransaction::new();
    tx.add_operation(add_op("k", 1));
    cluster.commit_on_node(0, tx).unwrap();
    cluster.propagate_all();
    assert_eq!(cluster.get_stats().rounds_to_converge, Some(3));
    assert_eq!(cluster.round, 3);

    let mut idle = SimulatedCluster::new(2);
    idle.propagate_all();
    assert_eq!(idle.get_stats().rounds_to_converge, Some(1));

    let mut stuck = SimulatedCluster::new(2);
    stuck.partition(0, 1);
    stuck.config.max_rounds = 5;
    let mut tx = AlgebraicTransaction::new();
    tx.add_operation(add_op("k", 1));
    stuck.commit_on_node(0, tx).unwrap();
    stuck.propagate_all();
    assert_eq!(stuck.get_stats().rounds_to_converge, None);
    assert_eq!(stuck.round, 5);
}

#[test]
fn commit_advances_the_clock_of_the_node() {
    let mut node = SimulatedNode::new(2);
    let mut tx = AlgebraicTransaction::new();
    tx.add_operation(add_op("k", 1));
    let update = node.commit(tx).unwrap();
    assert_eq!(update.origin_node().as_str(), "node-2");
    assert_eq!(update.clock().get(&NodeId::new("node-2")), 1);
    assert_eq!(node.generate_update_id(&update), "node-2@node-2=1");
    assert!(node.applied_updates.contains("node-2@node-2=1"));
    assert!(!node.receive_update(&update));
    assert_eq!(node.get_state("k").unwrap().as_integer(), Some(1));
    assert_eq!(node.local_updates.len(), 1);
}
