use crdt::Crdt;
use crdt::LwwSet;

fn sample_sets() -> (LwwSet<u32>, LwwSet<u32>) {
    let mut a: LwwSet<u32> = LwwSet::new();
    let mut b: LwwSet<u32> = LwwSet::new();
    a.insert(1, 1);
    a.insert(2, 2);
    b.insert(2, 5);
    b.remove(1, 4);
    b.insert(3, 3);
    (a, b)
}

#[test]
fn lwwset_check_apply_is_commutative() {
    let mut source: LwwSet<u32> = LwwSet::new();
    let op1 = source.insert(10, 1).expect("accepted");
    let op2 = source.insert(20, 2).expect("accepted");
    let op3 = source.remove(10, 3).expect("accepted");
    let start: LwwSet<u32> = LwwSet::new();
    let mut in_order = start.clone();
    in_order.apply(op1.clone());
    in_order.apply(op2.clone());
    in_order.apply(op3.clone());
    let mut reordered = start.clone();
    reordered.apply(op3.clone());
    reordered.apply(op1.clone());
    reordered.apply(op2.clone());
    assert!(in_order == reordered);
    assert!(!in_order.contains(&10));
    assert!(in_order.contains(&20));
    let mut twice = in_order.clone();
    twice.apply(op1.clone());
    assert!(twice == in_order);
}

#[test]
fn lwwset_check_merge_is_commutative() {
    let (a, b) = sample_sets();
    let start: LwwSet<u32> = LwwSet::new();
    let mut in_order = start.clone();
    in_order.merge(a.clone());
    in_order.merge(b.clone());
    let mut reordered = start.clone();
    reordered.merge(b.clone());
    reordered.merge(a.clone());
    assert!(in_order == reordered);
    assert!(!in_order.contains(&1));
    assert!(in_order.contains(&2));
    assert!(in_order.contains(&3));
}

#[test]
fn lwwset_check_ordering_lte() {
    let (mut a, b) = sample_sets();
    a.merge(b.clone());
    assert!(a >= b);
    assert!(b <= a);
}

#[test]
fn lwwset_check_ordering_equality() {
    let (mut a, mut b) = sample_sets();
    a.merge(b.clone());
    b.merge(a.clone());
    assert!(a == b);
    assert!(b == a);
    assert_eq!(a.partial_cmp(&b), Some(std::cmp::Ordering::Equal));
    assert_eq!(b.partial_cmp(&a), Some(std::cmp::Ordering::Equal));
}

#[test]
fn lwwset_tie_goes_to_insert() {
    let mut set: LwwSet<u32> = LwwSet::new();
    assert!(set.insert(1, 5).is_some());
    assert!(set.remove(1, 5).is_none());
    assert!(set.contains(&1));
    assert!(set.insert(1, 5).is_some());
    assert!(set.contains(&1));
    assert!(set.remove(1, 6).is_some());
    assert!(!set.contains(&1));
    assert!(set.insert(1, 6).is_some());
    assert!(set.contains(&1));
}

#[test]
fn lwwset_stale_insert_rejected() {
    let mut set: LwwSet<u32> = LwwSet::new();
    set.insert(1, 8);
    assert!(set.insert(1, 7).is_none());
    assert!(set.remove(1, 7).is_none());
    assert!(set.contains(&1));
    assert_eq!(set.len(), 1);
}

#[test]
fn lwwset_remove_unseen_succeeds() {
    let mut set: LwwSet<u32> = LwwSet::new();
    assert!(set.remove(4, 0).is_some());
    assert!(!set.contains(&4));
    assert!(set.is_empty());
    assert!(set.insert(4, 0).is_some());
    assert!(set.contains(&4));
}

#[test]
fn lwwset_subset_and_disjoint() {
    let (a, b) = sample_sets();
    let mut union = a.clone();
    union.merge(b.clone());
    assert!(b.is_subset(&union));
    assert!(!a.is_disjoint(&b));
    let mut c: LwwSet<u32> = LwwSet::new();
    c.insert(99, 0);
    assert!(a.is_disjoint(&c));
}
