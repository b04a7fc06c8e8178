use crdts::crdt::lww_set::{LWWSet, LWWSetReplica, LwwBias};
use crdts::crdt::Crdt;
use crdts::ids::{Clock, Stamp};
use std::sync::Arc;
use uhlc::HLC;

fn stamp(ts: uhlc::Timestamp) -> Stamp {
    Stamp::new(ts.get_time().as_u64(), u128::from_be_bytes(ts.get_id().to_le_bytes()))
}

#[test]
fn test_add_and_is_member() {
    let mut set = LWWSet::new(LwwBias::Add);
    let hlc = HLC::default();

    let ts = stamp(hlc.new_timestamp());
    set.add(1, ts);

    assert!(set.is_member(&1));
    assert!(!set.is_member(&2));

    let members = set.members();
    assert_eq!(members.len(), 1);
    assert!(members.contains(&1));
}

#[test]
fn test_remove_higher_timestamp() {
    let mut set = LWWSet::new(LwwBias::Add);
    let hlc = HLC::default();

    let ts1 = stamp(hlc.new_timestamp());
    let ts2 = stamp(hlc.new_timestamp());

    set.add(1, ts1);
    set.remove(1, ts2);

    assert!(
        !set.is_member(&1),
        "Remove should win with a higher timestamp"
    );
}

#[test]
fn test_add_higher_timestamp() {
    let mut set = LWWSet::new(LwwBias::Add);
    let hlc = HLC::default();

    let ts1 = stamp(hlc.new_timestamp());
    let ts2 = stamp(hlc.new_timestamp());

    set.remove(1, ts1);
    set.add(1, ts2);

    assert!(set.is_member(&1), "Add should win with a higher timestamp");
}

#[test]
fn test_add_bias_resolution() {
    let mut set = LWWSet::new(LwwBias::Add);
    let hlc = HLC::default();

    let ts = stamp(hlc.new_timestamp());
    set.add(1, ts);
    set.remove(1, ts);

    assert!(
        set.is_member(&1),
        "Set is Add-biased; element should be a member on a tie"
    );
}

#[test]
fn test_remove_bias_resolution() {
    let mut set = LWWSet::new(LwwBias::Remove);
    let hlc = HLC::default();

    let ts = stamp(hlc.new_timestamp());
    set.add(1, ts);
    set.remove(1, ts);

    assert!(
        !set.is_member(&1),
        "Set is Remove-biased; element should NOT be a member on a tie"
    );
}

#[test]
fn test_merge_disjoint_sets() {
    let mut set1 = LWWSet::new(LwwBias::Add);
    let mut set2 = LWWSet::new(LwwBias::Add);
    let hlc = HLC::default();

    set1.add(1, stamp(hlc.new_timestamp()));
    set2.add(2, stamp(hlc.new_timestamp()));
    set1.merge(&set2);

    assert!(set1.is_member(&1));
    assert!(
        set1.is_member(&2),
        "Set 1 should have merged the disjoint element from Set 2"
    );
}

#[test]
fn test_merge_conflict_resolution() {
    let mut set1 = LWWSet::new(LwwBias::Add);
    let mut set2 = LWWSet::new(LwwBias::Add);
    let hlc = HLC::default();

    let ts_early = stamp(hlc.new_timestamp());
    let ts_late = stamp(hlc.new_timestamp());

    set1.add(1, ts_early);
    set2.remove(1, ts_late);
    set1.merge(&set2);

    assert!(
        !set1.is_member(&1),
        "The later removal timestamp from Node 2 should win"
    );
}

#[test]
fn test_replica_sync() {
    let hlc1 = Arc::new(HLC::default());
    let hlc2 = Arc::new(HLC::default());

    let mut replica1 = LWWSetReplica::new(hlc1, LwwBias::Remove);
    let mut replica2 = LWWSetReplica::new(hlc2, LwwBias::Remove);

    replica1.add(100);
    replica2.add(200);

    assert!(replica1.members().contains(&100));
    assert!(!replica1.members().contains(&200));

    replica1.merge(&replica2.lww_set);

    let merged_members = replica1.members();

    assert!(merged_members.contains(&100));
    assert!(
        merged_members.contains(&200),
        "Replica 1 should contain Replica 2's state after merge"
    );
}

#[test]
fn lww_add_overwrites_older_stamp_without_max() {
    // An addition replaces the recorded stamp even when it is earlier.
    let mut set = LWWSet::new(LwwBias::Add);
    set.add("e".to_string(), Stamp::new(10, 1));
    set.remove("e".to_string(), Stamp::new(5, 1));
    assert!(set.is_member(&"e".to_string()));
    set.add("e".to_string(), Stamp::new(3, 1));
    assert!(!set.is_member(&"e".to_string()));
}

#[test]
fn lww_merge_keeps_latest_stamps() {
    let mut a = LWWSet::new(LwwBias::Add);
    a.add(7u64, Stamp::new(10, 2));
    let mut b = LWWSet::new(LwwBias::Add);
    b.add(7u64, Stamp::new(10, 1));
    b.remove(7u64, Stamp::new(10, 3));
    a.merge(&b);
    // adds: max((10,2),(10,1)) = (10,2); removes: (10,3) > (10,2)
    assert!(!a.is_member(&7));
    let adds = a.add_entries();
    assert_eq!(adds.len(), 1);
    assert_eq!(adds[0].1, Stamp::new(10, 2));
}

#[test]
fn lww_stamp_order_ties_broken_by_clock_id() {
    assert!(Stamp::new(1, 5).before(&Stamp::new(2, 0)));
    assert!(Stamp::new(1, 5).before(&Stamp::new(1, 6)));
    assert!(!Stamp::new(1, 6).before(&Stamp::new(1, 6)));
    assert!(!Stamp::new(2, 0).before(&Stamp::new(1, 9)));
}

#[test]
fn lww_entries_round_trip_and_duplicates_refused() {
    let mut a = LWWSet::new(LwwBias::Remove);
    a.add(1i32, Stamp::new(4, 0));
    a.remove(2i32, Stamp::new(5, 0));
    let back = LWWSet::from_entries(a.bias(), a.add_entries(), a.remove_entries()).unwrap();
    assert!(back.is_member(&1));
    assert!(!back.is_member(&2));
    assert_eq!(back.bias(), LwwBias::Remove);
    let dup = vec![(1i32, Stamp::new(1, 0)), (1i32, Stamp::new(2, 0))];
    assert!(LWWSet::from_entries(LwwBias::Add, dup, Vec::new()).is_none());
}

#[test]
fn lww_merge_commutes_associates_and_is_idempotent() {
    let mut a = LWWSet::new(LwwBias::Add);
    a.add(1u32, Stamp::new(1, 0));
    a.remove(2u32, Stamp::new(4, 0));
    let mut b = LWWSet::new(LwwBias::Add);
    b.add(2u32, Stamp::new(3, 0));
    b.remove(1u32, Stamp::new(2, 0));
    let mut c = LWWSet::new(LwwBias::Add);
    c.add(1u32, Stamp::new(5, 0));
    let members = |s: &LWWSet<u32>| {
        let mut v = s.members().into_vec();
        v.sort();
        v
    };
    let mut ab = a.clone();
    ab.merge(&b);
    let mut ba = b.clone();
    ba.merge(&a);
    assert_eq!(members(&ab), members(&ba));
    assert_eq!(members(&ab), Vec::<u32>::new());
    let mut ab_c = ab.clone();
    ab_c.merge(&c);
    let mut bc = b.clone();
    bc.merge(&c);
    let mut a_bc = a.clone();
    a_bc.merge(&bc);
    assert_eq!(members(&ab_c), members(&a_bc));
    assert_eq!(members(&ab_c), vec![1]);
    let copy = ab_c.clone();
    ab_c.merge(&copy);
    assert_eq!(members(&ab_c), vec![1]);
}

#[test]
fn lww_replica_later_removal_wins_in_either_bias() {
    for bias in [LwwBias::Add, LwwBias::Remove] {
        let mut r = LWWSetReplica::new(Arc::new(HLC::default()), bias);
        r.add(7);
        r.remove(7);
        assert!(!r.members().contains(&7));
        r.add(7);
        assert!(r.members().contains(&7));
    }
}

#[test]
fn clock_stamps_increase_and_carry_clock_id() {
    let hlc = Arc::new(HLC::default());
    let mut a = Clock::new(hlc.clone());
    let mut b = Clock::new(hlc);
    let s1 = a.stamp();
    let s2 = b.stamp();
    let s3 = a.stamp();
    assert!(s1.before(&s2) && s2.before(&s3));
    assert_eq!(s1.id, s3.id);
    assert_eq!(s1.id, s2.id);
}
