use consistent_hashing::vnode_label;
use consistent_hashing::ConsistentHashing;

fn nodes(names: &[&str]) -> Vec<String> {
    names.iter().map(|n| n.to_string()).collect()
}

fn sample_keys(n: usize) -> Vec<String> {
    (0..n).map(|i| format!("Key{}", i)).collect()
}

#[test]
fn composite_labels() {
    assert_eq!(vnode_label("Node1", 2), "Node1_2");
    assert_eq!(vnode_label("N", 10), "N_10");
    assert_eq!(vnode_label("x", 0), "x_0");
    assert_eq!(vnode_label("a", 905), "a_905");
    assert_eq!(vnode_label("", 7), "_7");
}

#[test]
fn empty_ring_answers_nothing() {
    let ring = ConsistentHashing::new(&nodes(&[]), 1);
    assert_eq!(ring.position_count(), 0);
    assert_eq!(ring.get_node(&"Data1".to_string()), None);
    assert_eq!(ring.get_node(&"".to_string()), None);
}

#[test]
fn fully_drained_ring_answers_nothing() {
    let mut ring = ConsistentHashing::new(&nodes(&["A", "B"]), 3);
    ring.remove_node(&"A".to_string());
    ring.remove_node(&"B".to_string());
    assert_eq!(ring.position_count(), 0);
    for key in sample_keys(20) {
        assert_eq!(ring.get_node(&key), None);
    }
}

#[test]
fn occupies_one_position_per_virtual_node() {
    // Would fail if the digest collapsed all labels to one position.
    let ring = ConsistentHashing::new(&nodes(&["Node1", "Node2"]), 2);
    assert_eq!(ring.position_count(), 4);
    assert_eq!(ring.virtual_node_count(), 2);
}

#[test]
fn deterministic_lookups() {
    let ring_a = ConsistentHashing::new(&nodes(&["Node1", "Node2", "Node3"]), 3);
    let ring_b = ConsistentHashing::new(&nodes(&["Node1", "Node2", "Node3"]), 3);
    for key in sample_keys(50) {
        let first = ring_a.get_node(&key);
        assert_eq!(first, ring_a.get_node(&key));
        assert_eq!(first, ring_b.get_node(&key));
    }
}

#[test]
fn lookup_returns_physical_node() {
    let names = ["Node1", "Node2", "Node3"];
    let ring = ConsistentHashing::new(&nodes(&names), 3);
    for key in sample_keys(50) {
        let owner = ring.get_node(&key).expect("non-empty ring");
        assert!(names.contains(&owner.as_str()));
    }
}

#[test]
fn scenario_three_nodes() {
    let names = ["Node1", "Node2", "Node3"];
    let mut ring = ConsistentHashing::new(&nodes(&names), 3);
    let data = ["Data1", "Data2", "Data3"];
    for key in data {
        let owner = ring.get_node(&key.to_string()).expect("non-empty ring");
        assert!(names.contains(&owner.as_str()));
        // Consistent across repeated calls.
        assert_eq!(Some(owner), ring.get_node(&key.to_string()));
    }

    ring.remove_node(&"Node1".to_string());
    for key in data {
        let owner = ring.get_node(&key.to_string()).expect("non-empty ring");
        assert_ne!(owner, "Node1");
    }

    ring.add_node(&"Node0".to_string());
    ring.remove_node(&"Node0".to_string());
    ring.remove_node(&"Node2".to_string());
    for key in data {
        assert_eq!(ring.get_node(&key.to_string()), Some("Node3".to_string()));
    }

    ring.remove_node(&"Node3".to_string());
    for key in data {
        assert_eq!(ring.get_node(&key.to_string()), None);
    }
}

#[test]
fn add_then_remove_restores_assignments() {
    let keys = sample_keys(100);
    let mut ring = ConsistentHashing::new(&nodes(&["A", "B"]), 3);
    let reference = ConsistentHashing::new(&nodes(&["A", "B"]), 3);
    let before: Vec<_> = keys.iter().map(|k| ring.get_node(k)).collect();
    let count_before = ring.position_count();

    ring.add_node(&"C".to_string());
    ring.remove_node(&"C".to_string());

    assert_eq!(ring.position_count(), count_before);
    for (key, owner_before) in keys.iter().zip(before.iter()) {
        assert_eq!(&ring.get_node(key), owner_before);
        assert_eq!(ring.get_node(key), reference.get_node(key));
    }
}

#[test]
fn bounded_disruption_on_removal() {
    let keys = sample_keys(200);
    let mut ring = ConsistentHashing::new(&nodes(&["A", "B", "C"]), 3);
    let before: Vec<_> = keys
        .iter()
        .map(|k| ring.get_node(k).expect("non-empty ring"))
        .collect();

    ring.remove_node(&"B".to_string());
    let mut moved = 0;
    for (key, owner_before) in keys.iter().zip(before.iter()) {
        let owner_after = ring.get_node(key).expect("two nodes remain");
        assert_ne!(owner_after, "B");
        if owner_before == "B" {
            moved += 1;
            assert!(owner_after == "A" || owner_after == "C");
        } else {
            // A key not owned by the removed node keeps its owner.
            assert_eq!(&owner_after, owner_before);
        }
    }
    // Only the removed node's keys were reassigned.
    assert!(moved < keys.len());
}

#[test]
fn idempotent_removal() {
    let keys = sample_keys(100);
    let mut once = ConsistentHashing::new(&nodes(&["A", "B", "C"]), 3);
    let mut twice = ConsistentHashing::new(&nodes(&["A", "B", "C"]), 3);
    once.remove_node(&"B".to_string());
    twice.remove_node(&"B".to_string());
    twice.remove_node(&"B".to_string());

    assert_eq!(once.position_count(), twice.position_count());
    for key in &keys {
        assert_eq!(once.get_node(key), twice.get_node(key));
    }
}

#[test]
fn removing_absent_node_is_a_no_op() {
    let keys = sample_keys(50);
    let mut ring = ConsistentHashing::new(&nodes(&["A", "B"]), 3);
    let before: Vec<_> = keys.iter().map(|k| ring.get_node(k)).collect();
    let count_before = ring.position_count();

    ring.remove_node(&"Z".to_string());

    assert_eq!(ring.position_count(), count_before);
    for (key, owner_before) in keys.iter().zip(before.iter()) {
        assert_eq!(&ring.get_node(key), owner_before);
    }
}

#[test]
fn added_node_serves_lookups() {
    let mut ring = ConsistentHashing::new(&nodes(&["A"]), 3);
    ring.add_node(&"B".to_string());
    assert_eq!(ring.position_count(), 6);
    let keys = sample_keys(200);
    let mut seen_b = false;
    for key in &keys {
        let owner = ring.get_node(key).expect("non-empty ring");
        assert!(owner == "A" || owner == "B");
        if owner == "B" {
            seen_b = true;
        }
    }
    // With six positions over 200 keys the new node owns some of them.
    assert!(seen_b);
}
