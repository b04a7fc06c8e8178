use crdts::crdt::enums::{AnyCrdt, AnyReplica};
use crdts::crdt::g_counter::GCounter;
use crdts::crdt::lww_set::LwwBias;
use crdts::crdt::CrdtKind;
use crdts::store::{CountOverflow, ReplicaStore};
use std::sync::Arc;
use uhlc::HLC;

fn hlc() -> Arc<HLC> {
    Arc::new(HLC::default())
}

fn counter_with(node: &str, n: u64) -> AnyCrdt {
    let mut g = GCounter::new();
    g.inc(node, n);
    AnyCrdt::GCounter(g)
}

fn counter_total(c: &AnyCrdt) -> u64 {
    match c {
        AnyCrdt::GCounter(g) => g.value(),
        _ => panic!("not a counter"),
    }
}

#[test]
fn store_add_new_refuses_taken_name() {
    let mut store = ReplicaStore::new();
    let h = hlc();
    let first = store.add_new("c".to_string(), AnyReplica::new_of_kind(CrdtKind::GCounter, h.clone()));
    assert!(first.is_some());
    let second = store.add_new("c".to_string(), AnyReplica::new_of_kind(CrdtKind::ORSet, h));
    assert!(second.is_none());
    assert_eq!(store.kind_of("c"), Some(CrdtKind::GCounter));
    assert_eq!(store.kind_of("d"), None);
    assert!(store.contains("c"));
    assert!(!store.contains("d"));
}

#[test]
fn store_list_names_each_variable_once() {
    let mut store = ReplicaStore::new();
    let h = hlc();
    store.insert("a".to_string(), AnyReplica::new_of_kind(CrdtKind::GCounter, h.clone()));
    store.insert("b".to_string(), AnyReplica::new_of_kind(CrdtKind::RGA, h.clone()));
    store.insert("a".to_string(), AnyReplica::new_of_kind(CrdtKind::LWWSet, h));
    let mut list = store.list();
    list.sort_by(|x, y| x.0.cmp(&y.0));
    assert_eq!(list, vec![("a".to_string(), CrdtKind::LWWSet), ("b".to_string(), CrdtKind::RGA)]);
    assert_eq!(store.snapshot_all().len(), 2);
}

#[test]
fn store_counter_ops() {
    let mut store = ReplicaStore::new();
    store.insert("n".to_string(), AnyReplica::new_of_kind(CrdtKind::GCounter, hlc()));
    let snap = store.counter_inc("n", 4).unwrap();
    assert_eq!(counter_total(&snap.unwrap()), 4);
    store.counter_inc("n", 6).unwrap();
    assert_eq!(store.counter_value("n"), Some(10));
    assert_eq!(store.counter_value("missing"), Some(0));
    assert!(matches!(store.counter_inc("missing", 1), Ok(None)));
    assert!(matches!(store.counter_inc("n", u64::MAX), Err(CountOverflow)));
    assert_eq!(store.counter_value("n"), Some(10));
}

#[test]
fn store_counter_op_on_other_kind_leaves_it() {
    let mut store = ReplicaStore::new();
    store.insert("s".to_string(), AnyReplica::new_of_kind(CrdtKind::ORSet, hlc()));
    let r = store.counter_inc("s", 3).unwrap();
    assert!(matches!(r, Some(AnyCrdt::ORSet(_))));
    assert_eq!(store.counter_value("s"), Some(0));
}

#[test]
fn store_set_ops_for_both_set_kinds() {
    let mut store = ReplicaStore::new();
    let h = hlc();
    store.insert("lww".to_string(), AnyReplica::new_of_kind(CrdtKind::LWWSet, h.clone()));
    store.insert("or".to_string(), AnyReplica::new_of_kind(CrdtKind::ORSet, h));
    for name in ["lww", "or"] {
        store.set_add(name, "apple".to_string()).unwrap();
        store.set_add(name, "pear".to_string()).unwrap();
        assert_eq!(store.set_members(name).len(), 2);
        store.set_remove(name, "apple".to_string());
        let m = store.set_members(name);
        assert!(!m.contains(&"apple".to_string()));
        assert!(m.contains(&"pear".to_string()));
    }
    assert_eq!(store.set_members("missing").len(), 0);
}

#[test]
fn store_array_ops() {
    let mut store = ReplicaStore::new();
    store.insert("arr".to_string(), AnyReplica::new_of_kind(CrdtKind::RGA, hlc()));
    let (snap, id) = store.array_insert("arr", None, "hello".to_string());
    assert!(snap.is_some());
    let id = id.unwrap();
    let (_, id2) = store.array_insert("arr", Some(id.clone()), "world".to_string());
    let v = store.array_to_vec("arr");
    assert_eq!(v.iter().map(|e| e.1.as_str()).collect::<Vec<_>>(), vec!["hello", "world"]);
    store.array_remove("arr", id);
    let v = store.array_to_vec("arr");
    assert_eq!(v, vec![(id2.unwrap(), "world".to_string())]);
    let (snap, none) = store.array_insert("nothing", None, "x".to_string());
    assert!(snap.is_none() && none.is_none());
}

#[test]
fn store_merge_or_insert_refuses_other_kind() {
    let mut store = ReplicaStore::new();
    let h = hlc();
    let r = store.merge_or_insert("v".to_string(), counter_with("a", 3), h.clone());
    assert_eq!(counter_total(&r.ok().unwrap()), 3);
    let r = store.merge_or_insert("v".to_string(), counter_with("b", 4), h.clone());
    assert_eq!(counter_total(&r.ok().unwrap()), 7);
    let wrong = AnyCrdt::RGA(crdts::crdt::rga::RGA::new());
    let r = store.merge_or_insert("v".to_string(), wrong, h);
    assert!(matches!(r, Err(AnyCrdt::RGA(_))));
    assert_eq!(store.counter_value("v"), Some(7));
}

#[test]
fn store_merge_received_replaces_other_kind() {
    let mut store = ReplicaStore::new();
    let h = hlc();
    store.merge_received("v".to_string(), counter_with("a", 3), h.clone());
    store.merge_received("v".to_string(), counter_with("a", 2), h.clone());
    assert_eq!(store.counter_value("v"), Some(3));
    let lww = AnyCrdt::LWWSet(crdts::crdt::lww_set::LWWSet::new(LwwBias::Remove));
    store.merge_received("v".to_string(), lww, h);
    assert_eq!(store.kind_of("v"), Some(CrdtKind::LWWSet));
}

#[test]
fn any_replica_merge_by_kind() {
    let h = hlc();
    let mut rep = AnyReplica::from_crdt(counter_with("a", 1), h);
    assert!(rep.merge(counter_with("b", 2)).is_ok());
    assert_eq!(counter_total(&rep.as_any_crdt()), 3);
    assert_eq!(rep.kind(), CrdtKind::GCounter);
    let back = rep.merge(AnyCrdt::RGA(crdts::crdt::rga::RGA::new()));
    assert!(matches!(back, Err(AnyCrdt::RGA(_))));
}

#[test]
fn replica_label_names_its_kind() {
    let h = hlc();
    assert_eq!(AnyReplica::new_of_kind(CrdtKind::GCounter, h.clone()).label(), "GCounter");
    assert_eq!(AnyReplica::new_of_kind(CrdtKind::LWWSet, h.clone()).label(), "LWWSet");
    assert_eq!(AnyReplica::new_of_kind(CrdtKind::ORSet, h.clone()).label(), "ORSet");
    assert_eq!(AnyReplica::new_of_kind(CrdtKind::RGA, h).label(), "RGA");
    assert_eq!(CrdtKind::RGA.name(), "RGA");
}

#[test]
fn any_replica_merge_keeps_identifier_and_count() {
    let h = hlc();
    let mut rep = AnyReplica::new_of_kind(CrdtKind::ORSet, h.clone());
    let (id, counter) = match &mut rep {
        AnyReplica::ORSet(o) => {
            o.add("x".to_string());
            o.add("y".to_string());
            (o.id.clone(), o.counter)
        }
        _ => panic!("not an observed-remove set"),
    };
    assert_eq!(counter, 2);
    let other = AnyReplica::new_of_kind(CrdtKind::ORSet, h.clone()).as_any_crdt();
    assert!(rep.merge(other).is_ok());
    match &rep {
        AnyReplica::ORSet(o) => {
            assert_eq!(o.id, id);
            assert_eq!(o.counter, 2);
        }
        _ => panic!("kind changed"),
    }
    let refused = rep.merge(counter_with("n", 1));
    assert!(refused.is_err());
    assert_eq!(rep.kind(), CrdtKind::ORSet);
}

fn first_tag_counter(c: &AnyCrdt) -> u64 {
    match c {
        AnyCrdt::ORSet(s) => s.element_entries()[0].1.to_vec()[0].counter,
        _ => panic!("not an observed-remove set"),
    }
}

#[test]
fn store_replica_from_received_state_counts_from_zero() {
    let h = hlc();
    let mut store = ReplicaStore::new();
    let empty = AnyReplica::new_of_kind(CrdtKind::ORSet, h.clone()).as_any_crdt();
    assert!(store.merge_or_insert("s".to_string(), empty.clone(), h.clone()).is_ok());
    let snap = store.set_add("s", "x".to_string()).unwrap().unwrap();
    assert_eq!(first_tag_counter(&snap), 1);

    let mut client = ReplicaStore::new();
    client.merge_received("t".to_string(), empty, h);
    let snap = client.set_add("t", "y".to_string()).unwrap().unwrap();
    assert_eq!(first_tag_counter(&snap), 1);
}

#[test]
fn store_insert_keeps_the_given_replica() {
    let h = hlc();
    let mut rep = AnyReplica::new_of_kind(CrdtKind::ORSet, h.clone());
    if let AnyReplica::ORSet(o) = &mut rep {
        o.add("a".to_string());
        o.add("b".to_string());
    }
    let mut store = ReplicaStore::new();
    store.insert("s".to_string(), rep);
    let snap = store.set_add("s", "c".to_string()).unwrap().unwrap();
    match &snap {
        AnyCrdt::ORSet(s) => {
            let mut counters: Vec<u64> = s
                .element_entries()
                .iter()
                .flat_map(|(_, tags)| tags.to_vec().into_iter().map(|t| t.counter))
                .collect();
            counters.sort();
            assert_eq!(counters, vec![1, 2, 3]);
        }
        _ => panic!("not an observed-remove set"),
    }
}
