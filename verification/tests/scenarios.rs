//! The concrete reconciliation scenarios the library documents, plus
//! checks of the small building blocks.

use crdt::pn::Pn;
use crdt::Crdt;
use crdt::GCounter;
use crdt::LwwRegister;
use crdt::LwwSet;
use crdt::PnCounter;
use crdt::PnSet;
use crdt::ReplicaId;
use crdt::TpSet;
use crdt::TransactionId;

#[test]
fn gcounter_mutual_merge() {
    let mut replica1 = GCounter::new(ReplicaId::from(1));
    let mut replica2 = GCounter::new(ReplicaId::from(2));
    replica1.increment(13);
    replica2.increment(17);
    replica1.merge(replica2.clone());
    replica2.merge(replica1.clone());
    assert_eq!(replica1.count(), 30);
    assert_eq!(replica2.count(), 30);
}

#[test]
fn pncounter_merge_offsets() {
    let mut replica1 = PnCounter::new(ReplicaId::from(1));
    let mut replica2 = PnCounter::new(ReplicaId::from(2));
    replica1.increment(-12);
    replica2.increment(13);
    replica1.merge(replica2.clone());
    assert_eq!(replica1.count(), 1);
}

#[test]
fn lwwregister_remote_write_wins() {
    let mut local = LwwRegister::new(String::from("local"), TransactionId::from(1));
    let remote = LwwRegister::new(String::from("remote"), TransactionId::from(2));
    local.merge(remote);
    assert_eq!(local.get().as_str(), "remote");
}

#[test]
fn tpset_removal_dominates_merge() {
    let mut local: TpSet<u32> = TpSet::new();
    let mut remote: TpSet<u32> = TpSet::new();
    local.insert(1);
    remote.insert(1);
    remote.insert(2);
    remote.remove(1);
    local.merge(remote);
    assert!(local.contains(&2));
    assert!(!local.contains(&1));
    assert_eq!(local.len(), 1);
}

#[test]
fn lwwset_later_removal_wins_merge() {
    let mut local: LwwSet<u32> = LwwSet::new();
    let mut remote: LwwSet<u32> = LwwSet::new();
    local.insert(1, 0);
    remote.insert(1, 1);
    remote.insert(2, 2);
    remote.remove(1, 3);
    local.merge(remote);
    assert!(local.contains(&2));
    assert!(!local.contains(&1));
    assert_eq!(local.len(), 1);
}

#[test]
fn pnset_remote_removal_cancels_only_its_own_insert() {
    let mut local: PnSet<u32> = PnSet::new(ReplicaId::from(0));
    let mut remote: PnSet<u32> = PnSet::new(ReplicaId::from(1));
    local.insert(1);
    remote.insert(1);
    remote.insert(2);
    remote.remove(1);
    local.merge(remote);
    assert!(local.contains(&1));
    assert!(local.contains(&2));
    assert_eq!(local.len(), 2);
}

#[test]
fn pn_accumulator_counts_and_merges() {
    let mut pn = Pn::new();
    assert_eq!(pn.count(), 0);
    pn.increment(7);
    pn.increment(-3);
    assert_eq!(pn.count(), 4);
    assert_eq!(pn.p, 7);
    assert_eq!(pn.n, 3);
    let mut other = Pn::new();
    other.increment(2);
    other.increment(-5);
    pn.merge(other);
    assert_eq!(pn.p, 7);
    assert_eq!(pn.n, 5);
    assert_eq!(pn.count(), 2);
    let snapshot = pn;
    pn.merge(snapshot);
    assert_eq!(pn, snapshot);
}

#[test]
fn replica_and_transaction_ids_round_trip() {
    let rid = ReplicaId::from(42);
    assert_eq!(rid.id(), 42);
    let tid = TransactionId::from(7);
    assert_eq!(tid.id(), 7);
    assert!(TransactionId::from(3) < TransactionId::from(4));
    assert_eq!(ReplicaId::from(5), ReplicaId::from(5));
}

#[test]
fn pn_increment_extreme_magnitude() {
    let mut pn = Pn::new();
    pn.increment(i64::MIN);
    assert_eq!(pn.p, 0);
    assert_eq!(pn.n, 9223372036854775808);
    let mut pos = Pn::new();
    pos.increment(i64::MAX);
    assert_eq!(pos.p, 9223372036854775807);
    assert_eq!(pos.count(), i64::MAX);
}

#[test]
fn gcounter_single_increment_of_max() {
    let mut counter = GCounter::new(ReplicaId::from(1));
    counter.increment(u64::MAX);
    assert_eq!(counter.count(), u64::MAX);
}

#[test]
fn lwwregister_equal_tid_compares_equal() {
    let a = LwwRegister::new(1u32, TransactionId::from(5));
    let b = LwwRegister::new(2u32, TransactionId::from(5));
    assert!(a == b);
    assert_eq!(a.partial_cmp(&b), Some(std::cmp::Ordering::Equal));
    assert_ne!(*a.get(), *b.get());
}
