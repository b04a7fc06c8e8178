use crdts::crdt::or_set::{ORSet, ORSetReplica, Tag};
use crdts::crdt::Crdt;

#[test]
fn test_basic_add_and_remove() {
    let mut replica = ORSetReplica::new();
    let item = "apple".to_string();

    replica.add(item.clone());
    assert!(replica.members().contains(&item));

    replica.remove(&item);
    assert!(!replica.members().contains(&item));
}

#[test]
fn test_readd_after_remove() {
    let mut replica = ORSetReplica::new();
    let item = "banana".to_string();

    replica.add(item.clone());
    replica.remove(&item);
    assert!(!replica.members().contains(&item));

    replica.add(item.clone());
    assert!(replica.members().contains(&item));
}

#[test]
fn test_concurrent_add_wins() {
    let mut replica_a = ORSetReplica::new();
    let mut replica_b = ORSetReplica::new();
    let item = "cherry".to_string();

    replica_a.add(item.clone());
    replica_b.add(item.clone());

    replica_a.remove(&item);
    assert!(!replica_a.members().contains(&item));

    replica_a.merge(&replica_b.crdt);

    assert!(replica_a.members().contains(&item));
}

#[test]
fn test_merge_commutativity() {
    let mut replica_a = ORSetReplica::new();
    let mut replica_b = ORSetReplica::new();
    let item1 = "mango".to_string();
    let item2 = "kiwi".to_string();

    replica_a.add(item1.clone());
    replica_b.add(item2.clone());

    let mut merged_a = replica_a.clone();
    merged_a.merge(&replica_b.crdt);

    let mut merged_b = replica_b.clone();
    merged_b.merge(&replica_a.crdt);

    assert_eq!(merged_a.members(), merged_b.members());
    assert!(merged_a.members().contains(&item1));
    assert!(merged_a.members().contains(&item2));
}

#[test]
fn test_idempotent_merge() {
    let mut replica_a = ORSetReplica::new();
    let item = "grape".to_string();

    replica_a.add(item.clone());

    replica_a.merge(&replica_a.crdt.clone());

    assert!(replica_a.members().contains(&item));
    assert_eq!(replica_a.members().len(), 1);
}

#[test]
fn orset_replica_counter_counts_additions() {
    let mut r = ORSetReplica::new();
    r.add("a".to_string());
    r.add("b".to_string());
    r.add("a".to_string());
    assert_eq!(r.counter, 3);
    assert_eq!(r.members().len(), 2);
}

#[test]
fn orset_remove_of_absent_element_changes_nothing() {
    let mut s: ORSet<String> = ORSet::new();
    s.remove(&"ghost".to_string());
    assert!(s.removed_entries().is_empty());
    assert!(!s.is_member(&"ghost".to_string()));
}

#[test]
fn orset_raw_tags() {
    let mut s: ORSet<u64> = ORSet::new();
    s.add(5, Tag { uuid: "r1".to_string(), counter: 1 });
    assert!(s.is_member(&5));
    s.remove(&5);
    assert!(!s.is_member(&5));
    // the same tag again stays removed
    s.add(5, Tag { uuid: "r1".to_string(), counter: 1 });
    assert!(!s.is_member(&5));
    // a new tag revives it
    s.add(5, Tag { uuid: "r1".to_string(), counter: 2 });
    assert!(s.is_member(&5));
    let back = ORSet::from_entries(s.element_entries(), s.removed_entries()).unwrap();
    assert!(back.is_member(&5));
}

#[test]
fn orset_members_equality_ignores_order() {
    let mut a: ORSet<String> = ORSet::new();
    a.add("x".to_string(), Tag { uuid: "p".to_string(), counter: 1 });
    a.add("y".to_string(), Tag { uuid: "p".to_string(), counter: 2 });
    let mut b: ORSet<String> = ORSet::new();
    b.add("y".to_string(), Tag { uuid: "q".to_string(), counter: 1 });
    b.add("x".to_string(), Tag { uuid: "q".to_string(), counter: 2 });
    assert_eq!(a.members(), b.members());
    b.add("z".to_string(), Tag { uuid: "q".to_string(), counter: 3 });
    assert_ne!(a.members(), b.members());
}

#[test]
fn orset_merge_is_associative() {
    let mut a = ORSetReplica::new();
    let mut b = ORSetReplica::new();
    let mut c = ORSetReplica::new();
    a.add("p".to_string());
    b.add("q".to_string());
    c.add("p".to_string());
    a.remove(&"p".to_string());
    let mut left = a.crdt.clone();
    left.merge(&b.crdt);
    left.merge(&c.crdt);
    let mut bc = b.crdt.clone();
    bc.merge(&c.crdt);
    let mut right = a.crdt.clone();
    right.merge(&bc);
    assert_eq!(left.members(), right.members());
    assert!(left.is_member(&"p".to_string()));
    assert_eq!(left.members().len(), 2);
}

#[test]
fn orset_replica_ids_are_fresh_uuids() {
    let r: ORSetReplica<String> = ORSetReplica::new();
    assert_eq!(r.id.len(), 36);
    assert_eq!(r.counter, 0);
}
