use crdt::Crdt;
use crdt::TpSet;

fn sample_sets() -> (TpSet<u32>, TpSet<u32>) {
    let mut a: TpSet<u32> = TpSet::new();
    let mut b: TpSet<u32> = TpSet::new();
    a.insert(1);
    a.insert(2);
    a.remove(2);
    b.insert(2);
    b.insert(3);
    (a, b)
}

#[test]
fn tpset_check_apply_is_commutative() {
    let mut source: TpSet<u32> = TpSet::new();
    let op1 = source.insert(10).expect("never seen");
    let op2 = source.insert(20).expect("never seen");
    let op3 = source.remove(10).expect("currently present");
    let start: TpSet<u32> = TpSet::new();
    let mut in_order = start.clone();
    in_order.apply(op1.clone());
    in_order.apply(op2.clone());
    in_order.apply(op3.clone());
    let mut reordered = start.clone();
    reordered.apply(op3.clone());
    reordered.apply(op2.clone());
    reordered.apply(op1.clone());
    assert!(in_order == reordered);
    assert!(!in_order.contains(&10));
    assert!(in_order.contains(&20));
    let mut twice = in_order.clone();
    twice.apply(op1.clone());
    twice.apply(op3.clone());
    assert!(twice == in_order);
}

#[test]
fn tpset_check_merge_is_commutative() {
    let (a, b) = sample_sets();
    let start: TpSet<u32> = TpSet::new();
    let mut in_order = start.clone();
    in_order.merge(a.clone());
    in_order.merge(b.clone());
    let mut reordered = start.clone();
    reordered.merge(b.clone());
    reordered.merge(a.clone());
    assert!(in_order == reordered);
    assert!(in_order.contains(&1));
    assert!(!in_order.contains(&2));
    assert!(in_order.contains(&3));
}

#[test]
fn tpset_check_ordering_lte() {
    let (mut a, b) = sample_sets();
    a.merge(b.clone());
    assert!(a >= b);
    assert!(b <= a);
}

#[test]
fn tpset_check_ordering_equality() {
    let (mut a, mut b) = sample_sets();
    a.merge(b.clone());
    b.merge(a.clone());
    assert!(a == b);
    assert!(b == a);
    assert_eq!(a.partial_cmp(&b), Some(std::cmp::Ordering::Equal));
    assert_eq!(b.partial_cmp(&a), Some(std::cmp::Ordering::Equal));
}

#[test]
fn tpset_insert_once_remove_once() {
    let mut set: TpSet<u32> = TpSet::new();
    assert!(set.insert(1).is_some());
    assert!(set.insert(1).is_none());
    assert!(set.contains(&1));
    assert!(set.remove(1).is_some());
    assert!(!set.contains(&1));
    assert!(set.remove(1).is_none());
    assert!(set.insert(1).is_none());
    assert!(!set.contains(&1));
    assert_eq!(set.len(), 0);
    assert!(set.is_empty());
}

#[test]
fn tpset_remove_unseen_is_permanent() {
    let mut set: TpSet<u32> = TpSet::new();
    assert!(set.remove(5).is_some());
    assert!(set.insert(5).is_none());
    assert!(!set.contains(&5));
}

#[test]
fn tpset_subset_and_disjoint() {
    let (a, b) = sample_sets();
    assert!(!a.is_subset(&b));
    assert!(a.is_disjoint(&b));
    let mut union = a.clone();
    union.merge(b.clone());
    assert!(a.is_subset(&union));
    assert!(!b.is_disjoint(&union));
    let mut c: TpSet<u32> = TpSet::new();
    c.insert(99);
    assert!(a.is_disjoint(&c));
}
