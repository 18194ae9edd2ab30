use crdt::Crdt;
use crdt::PnSet;
use crdt::ReplicaId;

fn sample_sets() -> (PnSet<u32>, PnSet<u32>) {
    let mut a: PnSet<u32> = PnSet::new(ReplicaId::from(1));
    let mut b: PnSet<u32> = PnSet::new(ReplicaId::from(2));
    a.insert(1);
    a.insert(2);
    b.insert(2);
    b.insert(3);
    b.remove(2);
    (a, b)
}

#[test]
fn pnset_check_apply_is_commutative() {
    let mut source1: PnSet<u32> = PnSet::new(ReplicaId::from(1));
    let mut source2: PnSet<u32> = PnSet::new(ReplicaId::from(2));
    let ops = vec![
        source1.insert(10),
        source2.insert(10),
        source1.insert(20),
        source2.remove(10),
    ];
    let start: PnSet<u32> = PnSet::new(ReplicaId::from(9));
    let mut in_order = start.clone();
    for op in ops.iter() {
        in_order.apply(op.clone());
    }
    let mut reordered = start.clone();
    for op in [ops[3].clone(), ops[2].clone(), ops[1].clone(), ops[0].clone()].iter() {
        reordered.apply(op.clone());
    }
    assert!(in_order == reordered);
    assert!(in_order.contains(&10));
    assert!(in_order.contains(&20));
    let mut twice = in_order.clone();
    for op in ops.iter() {
        twice.apply(op.clone());
    }
    assert!(twice == in_order);
}

#[test]
fn pnset_check_merge_is_commutative() {
    let (a, b) = sample_sets();
    let start: PnSet<u32> = PnSet::new(ReplicaId::from(9));
    let mut in_order = start.clone();
    in_order.merge(a.clone());
    in_order.merge(b.clone());
    let mut reordered = start.clone();
    reordered.merge(b.clone());
    reordered.merge(a.clone());
    assert!(in_order == reordered);
    assert!(in_order.contains(&1));
    assert!(in_order.contains(&2));
    assert!(in_order.contains(&3));
}

#[test]
fn pnset_check_ordering_lte() {
    let (mut a, b) = sample_sets();
    a.merge(b.clone());
    assert!(a >= b);
    assert!(b <= a);
}

#[test]
fn pnset_check_ordering_equality() {
    let (mut a, mut b) = sample_sets();
    a.merge(b.clone());
    b.merge(a.clone());
    assert!(a == b);
    assert!(b == a);
    assert_eq!(a.partial_cmp(&b), Some(std::cmp::Ordering::Equal));
    assert_eq!(b.partial_cmp(&a), Some(std::cmp::Ordering::Equal));
}

#[test]
fn pnset_local_remove_cancels_local_insert() {
    let mut set: PnSet<u32> = PnSet::new(ReplicaId::from(1));
    set.insert(1);
    assert!(set.contains(&1));
    set.remove(1);
    assert!(!set.contains(&1));
    assert_eq!(set.len(), 0);
    assert!(set.is_empty());
}

#[test]
fn pnset_double_insert_needs_double_remove() {
    let mut set: PnSet<u32> = PnSet::new(ReplicaId::from(1));
    set.insert(1);
    set.insert(1);
    set.remove(1);
    assert!(set.contains(&1));
    set.remove(1);
    assert!(!set.contains(&1));
}

#[test]
fn pnset_iter_lists_members() {
    let (a, _) = sample_sets();
    let mut members = a.iter();
    members.sort();
    assert_eq!(members, vec![1, 2]);
}

#[test]
fn pnset_subset_and_disjoint() {
    let (a, b) = sample_sets();
    let mut union = a.clone();
    union.merge(b.clone());
    assert!(a.is_subset(&union));
    assert!(b.is_subset(&union));
    assert!(!a.is_disjoint(&union));
    let mut c: PnSet<u32> = PnSet::new(ReplicaId::from(5));
    c.insert(99);
    assert!(a.is_disjoint(&c));
}
