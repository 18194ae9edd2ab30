use crdt::Crdt;
use crdt::GCounter;
use crdt::ReplicaId;

fn sample_counters() -> (GCounter, GCounter) {
    let mut a = GCounter::new(ReplicaId::from(1));
    let mut b = GCounter::new(ReplicaId::from(2));
    a.increment(5);
    a.increment(2);
    b.increment(11);
    (a, b)
}

#[test]
fn gcounter_check_apply_is_commutative() {
    let mut source1 = GCounter::new(ReplicaId::from(1));
    let mut source2 = GCounter::new(ReplicaId::from(2));
    let ops = vec![
        source1.increment(5),
        source2.increment(3),
        source1.increment(2),
        source2.increment(11),
    ];
    let start = GCounter::new(ReplicaId::from(9));
    let mut in_order = start.clone();
    for op in ops.iter() {
        in_order.apply(*op);
    }
    let mut reordered = start.clone();
    for op in [ops[3], ops[1], ops[0], ops[2]].iter() {
        reordered.apply(*op);
    }
    assert_eq!(in_order.count(), 21);
    assert!(in_order == reordered);
    let mut twice = in_order.clone();
    for op in ops.iter() {
        twice.apply(*op);
    }
    assert!(twice == in_order);
}

#[test]
fn gcounter_check_merge_is_commutative() {
    let (a, b) = sample_counters();
    let mut c = GCounter::new(ReplicaId::from(3));
    c.increment(100);
    let start = GCounter::new(ReplicaId::from(9));
    let mut in_order = start.clone();
    in_order.merge(a.clone());
    in_order.merge(b.clone());
    in_order.merge(c.clone());
    let mut reordered = start.clone();
    reordered.merge(c.clone());
    reordered.merge(a.clone());
    reordered.merge(b.clone());
    assert!(in_order == reordered);
    assert_eq!(in_order.count(), 118);
}

#[test]
fn gcounter_check_ordering_lte() {
    let (mut a, b) = sample_counters();
    a.merge(b.clone());
    assert!(a >= b);
    assert!(b <= a);
}

#[test]
fn gcounter_check_ordering_equality() {
    let (mut a, mut b) = sample_counters();
    a.merge(b.clone());
    b.merge(a.clone());
    assert!(a == b);
    assert!(b == a);
    assert_eq!(a.partial_cmp(&b), Some(std::cmp::Ordering::Equal));
    assert_eq!(b.partial_cmp(&a), Some(std::cmp::Ordering::Equal));
}

#[test]
fn gcounter_ordering_none_after_divergence() {
    let (mut a, mut b) = sample_counters();
    a.increment(1);
    b.increment(1);
    assert_eq!(a.partial_cmp(&b), None);
    assert_eq!(b.partial_cmp(&a), None);
}

#[test]
fn gcounter_new_is_zero() {
    let counter: GCounter = GCounter::new(ReplicaId::from(42));
    assert_eq!(counter.count(), 0);
    assert_eq!(counter.replica_id().id(), 42);
}
