use crdt::Crdt;
use crdt::GSet;

fn sample_sets() -> (GSet<u32>, GSet<u32>) {
    let mut a: GSet<u32> = GSet::new();
    let mut b: GSet<u32> = GSet::new();
    a.insert(1);
    a.insert(2);
    b.insert(2);
    b.insert(3);
    (a, b)
}

#[test]
fn gset_check_apply_is_commutative() {
    let mut source: GSet<u32> = GSet::new();
    let op1 = source.insert(10).expect("fresh element");
    let op2 = source.insert(20).expect("fresh element");
    let op3 = source.insert(30).expect("fresh element");
    let start: GSet<u32> = GSet::new();
    let mut in_order = start.clone();
    in_order.apply(op1.clone());
    in_order.apply(op2.clone());
    in_order.apply(op3.clone());
    let mut reordered = start.clone();
    reordered.apply(op3.clone());
    reordered.apply(op1.clone());
    reordered.apply(op2.clone());
    assert!(in_order == reordered);
    assert_eq!(in_order.len(), 3);
    let mut twice = in_order.clone();
    twice.apply(op2.clone());
    assert!(twice == in_order);
}

#[test]
fn gset_check_merge_is_commutative() {
    let (a, b) = sample_sets();
    let start: GSet<u32> = GSet::new();
    let mut in_order = start.clone();
    in_order.merge(a.clone());
    in_order.merge(b.clone());
    let mut reordered = start.clone();
    reordered.merge(b.clone());
    reordered.merge(a.clone());
    assert!(in_order == reordered);
    assert_eq!(in_order.len(), 3);
}

#[test]
fn gset_check_ordering_lte() {
    let (mut a, b) = sample_sets();
    a.merge(b.clone());
    assert!(a >= b);
    assert!(b <= a);
}

#[test]
fn gset_check_ordering_equality() {
    let (mut a, mut b) = sample_sets();
    a.merge(b.clone());
    b.merge(a.clone());
    assert!(a == b);
    assert!(b == a);
    assert_eq!(a.partial_cmp(&b), Some(std::cmp::Ordering::Equal));
    assert_eq!(b.partial_cmp(&a), Some(std::cmp::Ordering::Equal));
}

#[test]
fn gset_insert_twice_returns_none() {
    let mut set: GSet<u32> = GSet::new();
    assert!(set.insert(7).is_some());
    assert!(set.insert(7).is_none());
    assert_eq!(set.len(), 1);
    assert!(set.contains(&7));
    assert!(!set.contains(&8));
}

#[test]
fn gset_subset_and_disjoint() {
    let (a, b) = sample_sets();
    let mut union = a.clone();
    union.merge(b.clone());
    assert!(a.is_subset(&union));
    assert!(b.is_subset(&union));
    assert!(!a.is_subset(&b));
    assert!(!a.is_disjoint(&b));
    let mut c: GSet<u32> = GSet::new();
    c.insert(99);
    assert!(a.is_disjoint(&c));
    let empty: GSet<u32> = GSet::new();
    assert!(empty.is_empty());
    assert!(empty.is_subset(&a));
    assert!(empty.is_disjoint(&a));
    assert!(!union.is_empty());
}
