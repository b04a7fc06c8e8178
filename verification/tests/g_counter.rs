use crdts::crdt::g_counter::{GCounter, GCounterReplica};
use crdts::crdt::Crdt;
use uuid::Uuid;

#[test]
fn test_raw_gcounter_sync() {
    let g1_node = Uuid::new_v4().to_string();
    let mut g1 = GCounter::new();

    let g2_node = Uuid::new_v4().to_string();
    let mut g2 = GCounter::new();

    let g1_update = 10;
    let g2_update = 12;

    g1.inc(&g1_node, g1_update);
    g2.inc(&g2_node, g2_update);

    g1.merge(&g2);
    g2.merge(&g1);

    assert_eq!(g1.value(), g1_update + g2_update);
    assert_eq!(g2.value(), g1_update + g2_update);
}

#[test]
fn test_gcounter_replica_sync() {
    let mut g1 = GCounterReplica::new();
    let mut g2 = GCounterReplica::new();

    let g1_update = 10;
    let g2_update = 12;

    g1.inc(g1_update);
    g2.inc(g2_update);

    g1.merge(&g2.crdt);
    g2.merge(&g1.crdt);

    assert_eq!(g1.value(), g1_update + g2_update);
    assert_eq!(g2.value(), g1_update + g2_update);
}

#[test]
fn gcounter_inc_same_node_accumulates() {
    let mut g = GCounter::new();
    g.inc("a", 3);
    g.inc("a", 4);
    g.inc("b", 5);
    assert_eq!(g.get("a"), 7);
    assert_eq!(g.get("b"), 5);
    assert_eq!(g.get("c"), 0);
    assert_eq!(g.value(), 12);
}

#[test]
fn gcounter_merge_takes_maximum_per_node() {
    let mut a = GCounter::new();
    a.inc("x", 5);
    a.inc("y", 1);
    let mut b = GCounter::new();
    b.inc("x", 2);
    b.inc("y", 9);
    a.merge(&b);
    assert_eq!(a.get("x"), 5);
    assert_eq!(a.get("y"), 9);
    assert_eq!(a.value(), 14);
}

#[test]
fn gcounter_merge_is_commutative_and_idempotent() {
    let mut a = GCounter::new();
    a.inc("x", 5);
    let mut b = GCounter::new();
    b.inc("x", 2);
    b.inc("z", 7);
    let mut ab = a.clone();
    ab.merge(&b);
    let mut ba = b.clone();
    ba.merge(&a);
    assert_eq!(ab.value(), ba.value());
    let before = ab.value();
    let copy = ab.clone();
    ab.merge(&copy);
    assert_eq!(ab.value(), before);
    assert_eq!(ab.value(), 12);
}

#[test]
fn gcounter_checked_value_overflow() {
    let mut g = GCounter::new();
    g.inc("a", u64::MAX);
    g.inc("b", 1);
    assert_eq!(g.checked_value(), None);
    let mut h = GCounter::new();
    h.inc("a", u64::MAX);
    assert_eq!(h.checked_value(), Some(u64::MAX));
}

#[test]
fn gcounter_entries_round_trip() {
    let mut g = GCounter::new();
    g.inc("a", 2);
    g.inc("b", 3);
    let entries = g.to_entries();
    let back = GCounter::from_entries(entries).unwrap();
    assert_eq!(back.get("a"), 2);
    assert_eq!(back.get("b"), 3);
    let dup = vec![("a".to_string(), 1u64), ("a".to_string(), 2u64)];
    assert!(GCounter::from_entries(dup).is_none());
}

#[test]
fn gcounter_merge_is_associative() {
    let mut a = GCounter::new();
    a.inc("x", 1);
    let mut b = GCounter::new();
    b.inc("x", 4);
    b.inc("y", 2);
    let mut c = GCounter::new();
    c.inc("y", 3);
    c.inc("z", 5);
    let mut left = a.clone();
    left.merge(&b);
    left.merge(&c);
    let mut bc = b.clone();
    bc.merge(&c);
    let mut right = a.clone();
    right.merge(&bc);
    for n in ["x", "y", "z"] {
        assert_eq!(left.get(n), right.get(n));
    }
    assert_eq!(left.value(), 12);
}

#[test]
fn gcounter_replica_ids_are_fresh_uuids() {
    let a = GCounterReplica::new();
    let b = GCounterReplica::new();
    assert_eq!(a.id.len(), 36);
    assert_ne!(a.id, b.id);
}
