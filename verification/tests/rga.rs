use crdts::crdt::rga::{RGAReplica, RGA};
use crdts::crdt::Crdt;
use std::sync::Arc;
use uhlc::HLC;

#[test]
fn test_rga_insert_and_to_vec() {
    let hlc = Arc::new(HLC::default());
    let mut replica = RGAReplica::new(hlc);

    let id1 = replica.insert(None, "A");
    let id2 = replica.insert(Some(id1.clone()), "B");
    let _id3 = replica.insert(Some(id2.clone()), "C");

    let vec = replica.to_vec();
    assert_eq!(vec.len(), 3);
    assert_eq!(vec[0].1, "A");
    assert_eq!(vec[1].1, "B");
    assert_eq!(vec[2].1, "C");
}

#[test]
fn test_rga_concurrent_insert() {
    let hlc1 = Arc::new(HLC::default());
    let hlc2 = Arc::new(HLC::default());

    let mut replica1 = RGAReplica::new(hlc1);
    let mut replica2 = RGAReplica::new(hlc2);

    let id_root = replica1.insert(None, "Root");
    replica2.merge(&replica1.crdt);

    // Concurrent inserts after Root
    let _id1 = replica1.insert(Some(id_root.clone()), "A");
    let _id2 = replica2.insert(Some(id_root.clone()), "B");

    replica1.merge(&replica2.crdt);
    replica2.merge(&replica1.crdt);

    let vec1 = replica1.to_vec();
    let vec2 = replica2.to_vec();

    assert_eq!(vec1.len(), 3);
    assert_eq!(vec2.len(), 3);

    // They must converge to the same order
    assert_eq!(vec1[1].1, vec2[1].1);
    assert_eq!(vec1[2].1, vec2[2].1);
}

#[test]
fn test_rga_remove() {
    let hlc = Arc::new(HLC::default());
    let mut replica = RGAReplica::new(hlc);

    let id1 = replica.insert(None, "A");
    let id2 = replica.insert(Some(id1.clone()), "B");
    let _id3 = replica.insert(Some(id2.clone()), "C");

    replica.remove(&id2);

    let vec = replica.to_vec();
    assert_eq!(vec.len(), 2);
    assert_eq!(vec[0].1, "A");
    assert_eq!(vec[1].1, "C");
}

#[test]
fn rga_siblings_latest_identifier_first() {
    let mut a: RGA<u64> = RGA::new();
    a.insert(None, "b".to_string(), 2);
    a.insert(None, "a".to_string(), 1);
    a.insert(None, "c".to_string(), 3);
    a.insert(Some("a".to_string()), "a1".to_string(), 11);
    let v = a.to_vec();
    let ids: Vec<&str> = v.iter().map(|e| e.0.as_str()).collect();
    assert_eq!(ids, vec!["c", "b", "a", "a1"]);
    let vals: Vec<u64> = v.iter().map(|e| e.1).collect();
    assert_eq!(vals, vec![3, 2, 1, 11]);
}

#[test]
fn rga_insert_existing_id_is_ignored() {
    let mut a: RGA<u64> = RGA::new();
    a.insert(None, "n".to_string(), 1);
    a.insert(None, "n".to_string(), 2);
    let v = a.to_vec();
    assert_eq!(v, vec![("n".to_string(), 1)]);
}

#[test]
fn rga_orphans_and_removed_parents() {
    let mut a: RGA<u64> = RGA::new();
    a.insert(Some("missing".to_string()), "orphan".to_string(), 9);
    a.insert(None, "p".to_string(), 1);
    a.insert(Some("p".to_string()), "q".to_string(), 2);
    a.remove("p");
    a.remove("absent");
    // a removed node is hidden but its children stay; an orphan is never reached
    assert_eq!(a.to_vec(), vec![("q".to_string(), 2)]);
}

#[test]
fn rga_merge_propagates_tombstones() {
    let mut a: RGA<u64> = RGA::new();
    a.insert(None, "x".to_string(), 1);
    a.insert(None, "y".to_string(), 2);
    let mut b = a.clone();
    b.remove("x");
    b.insert(None, "z".to_string(), 3);
    a.merge(&b);
    assert_eq!(a.to_vec(), vec![("z".to_string(), 3), ("y".to_string(), 2)]);
    // merging back keeps b unchanged
    let before = b.to_vec();
    b.merge(&a);
    assert_eq!(b.to_vec(), before);
}

#[test]
fn rga_replica_ids_are_hex_time_then_replica() {
    let hlc = Arc::new(HLC::default());
    let mut r = RGAReplica::new(hlc);
    assert_eq!(r.id.len(), 8);
    let id = r.insert(None, "v");
    assert_eq!(id.len(), 16 + 1 + 8);
    assert!(id[..16].chars().all(|c| c.is_ascii_hexdigit() && !c.is_ascii_uppercase()));
    assert_eq!(&id[16..17], "-");
    assert_eq!(&id[17..], r.id.as_str());
    let id2 = r.insert(None, "w");
    assert!(id2 > id);
    // the later node comes first among siblings
    assert_eq!(r.to_vec()[0].1, "w");
}

#[test]
fn rga_nodes_round_trip() {
    let mut a: RGA<u64> = RGA::new();
    a.insert(None, "k".to_string(), 4);
    let nodes = a.nodes();
    let b = RGA::from_nodes(nodes).unwrap();
    assert_eq!(b.to_vec(), vec![("k".to_string(), 4)]);
    let mut bad = a.nodes();
    bad[0].0 = "other".to_string();
    assert!(RGA::from_nodes(bad).is_none());
}

#[test]
fn rga_deep_chain_is_listed_whole() {
    let mut a: RGA<u64> = RGA::new();
    let mut parent: Option<String> = None;
    for i in 0..60u64 {
        let id = format!("n{:03}", i);
        a.insert(parent.clone(), id.clone(), i);
        parent = Some(id);
    }
    let v = a.to_vec();
    assert_eq!(v.len(), 60);
    assert_eq!(v.iter().map(|e| e.1).collect::<Vec<_>>(), (0..60).collect::<Vec<_>>());
}

#[test]
fn rga_cycle_unreachable_from_head_is_not_listed() {
    let mut a: RGA<u64> = RGA::new();
    a.insert(Some("y".to_string()), "x".to_string(), 1);
    a.insert(Some("x".to_string()), "y".to_string(), 2);
    a.insert(None, "h".to_string(), 3);
    assert_eq!(a.to_vec(), vec![("h".to_string(), 3)]);
}

#[test]
fn rga_merge_is_associative_and_idempotent() {
    let mut a: RGA<u64> = RGA::new();
    a.insert(None, "a".to_string(), 1);
    let mut b: RGA<u64> = RGA::new();
    b.insert(None, "b".to_string(), 2);
    b.insert(None, "a".to_string(), 1);
    b.remove("a");
    let mut c: RGA<u64> = RGA::new();
    c.insert(Some("a".to_string()), "c".to_string(), 3);
    let mut left = a.clone();
    left.merge(&b);
    left.merge(&c);
    let mut bc = b.clone();
    bc.merge(&c);
    let mut right = a.clone();
    right.merge(&bc);
    assert_eq!(left.to_vec(), right.to_vec());
    assert_eq!(left.to_vec(), vec![("b".to_string(), 2), ("c".to_string(), 3)]);
    let copy = left.clone();
    left.merge(&copy);
    assert_eq!(left.to_vec(), right.to_vec());
}

#[test]
fn rga_insert_at_names_node_from_reading() {
    let mut r = RGAReplica::new(Arc::new(HLC::default()));
    let id = r.insert_at(255, None, "a");
    assert_eq!(id, format!("00000000000000ff-{}", r.id));
    let id2 = r.insert_at(256, Some(id.clone()), "b");
    assert_eq!(id2, format!("0000000000000100-{}", r.id));
    let listed: Vec<&str> = r.to_vec().iter().map(|(_, v)| *v).collect();
    assert_eq!(listed, vec!["a", "b"]);
}

#[test]
fn rga_insert_lands_right_after_parent() {
    let mut r = RGAReplica::new(Arc::new(HLC::default()));
    let a = r.insert_at(1, None, "a");
    let b = r.insert_at(2, Some(a.clone()), "b");
    let _c = r.insert_at(3, Some(b.clone()), "c");
    // a new first child of `a` goes right after `a`, before `a`'s older subtree
    let _d = r.insert_at(4, Some(a.clone()), "d");
    let listed: Vec<&str> = r.to_vec().iter().map(|(_, v)| *v).collect();
    assert_eq!(listed, vec!["a", "d", "b", "c"]);
}

#[test]
fn rga_remove_keeps_others_in_order() {
    let mut r = RGAReplica::new(Arc::new(HLC::default()));
    let a = r.insert_at(1, None, "a");
    let b = r.insert_at(2, Some(a.clone()), "b");
    let _c = r.insert_at(3, Some(b.clone()), "c");
    let _d = r.insert_at(4, None, "d");
    r.remove(&b);
    let listed: Vec<&str> = r.to_vec().iter().map(|(_, v)| *v).collect();
    assert_eq!(listed, vec!["d", "a", "c"]);
}

#[test]
fn rga_replica_inserts_get_distinct_ids() {
    let mut r = RGAReplica::new(Arc::new(HLC::default()));
    let a = r.insert(None, "a");
    let b = r.insert(None, "b");
    let c = r.insert(None, "c");
    assert!(a < b && b < c);
    assert_eq!(r.to_vec().len(), 3);
}
