use crdt::Crdt;
use crdt::LwwRegister;
use crdt::TransactionId;

#[test]
fn lwwregister_check_apply_is_commutative() {
    let ops = vec![
        LwwRegister::new(10u32, TransactionId::from(1)),
        LwwRegister::new(20u32, TransactionId::from(4)),
        LwwRegister::new(30u32, TransactionId::from(2)),
    ];
    let start = LwwRegister::new(0u32, TransactionId::from(0));
    let mut in_order = start.clone();
    for op in ops.iter() {
        in_order.apply(op.clone());
    }
    let mut reordered = start.clone();
    for op in [ops[1].clone(), ops[2].clone(), ops[0].clone()].iter() {
        reordered.apply(op.clone());
    }
    assert!(in_order == reordered);
    assert_eq!(*in_order.get(), 20);
    assert_eq!(in_order.transaction_id().id(), 4);
    let mut twice = in_order.clone();
    for op in ops.iter() {
        twice.apply(op.clone());
    }
    assert!(twice == in_order);
    assert_eq!(*twice.get(), 20);
}

#[test]
fn lwwregister_check_merge_is_commutative() {
    let a = LwwRegister::new(1u32, TransactionId::from(3));
    let b = LwwRegister::new(2u32, TransactionId::from(7));
    let start = LwwRegister::new(0u32, TransactionId::from(0));
    let mut in_order = start.clone();
    in_order.merge(a.clone());
    in_order.merge(b.clone());
    let mut reordered = start.clone();
    reordered.merge(b.clone());
    reordered.merge(a.clone());
    assert!(in_order == reordered);
    assert_eq!(*in_order.get(), 2);
    assert_eq!(*reordered.get(), 2);
}

#[test]
fn lwwregister_check_ordering_lte() {
    let mut a = LwwRegister::new(1u32, TransactionId::from(3));
    let b = LwwRegister::new(2u32, TransactionId::from(7));
    a.merge(b.clone());
    assert!(a >= b);
    assert!(b <= a);
}

#[test]
fn lwwregister_check_ordering_equality() {
    let mut a = LwwRegister::new(1u32, TransactionId::from(3));
    let mut b = LwwRegister::new(2u32, TransactionId::from(7));
    a.merge(b.clone());
    b.merge(a.clone());
    assert!(a == b);
    assert!(b == a);
    assert_eq!(a.partial_cmp(&b), Some(std::cmp::Ordering::Equal));
    assert_eq!(b.partial_cmp(&a), Some(std::cmp::Ordering::Equal));
}

#[test]
fn lwwregister_set_rejects_older_write() {
    let mut register = LwwRegister::new(1u32, TransactionId::from(5));
    assert!(register.set(2, TransactionId::from(4)).is_none());
    assert_eq!(*register.get(), 1);
    assert_eq!(register.transaction_id().id(), 5);
}

#[test]
fn lwwregister_set_accepts_equal_tid() {
    let mut register = LwwRegister::new(1u32, TransactionId::from(5));
    let op = register.set(2, TransactionId::from(5));
    assert!(op.is_some());
    assert_eq!(*register.get(), 2);
    let op = op.unwrap();
    assert_eq!(*op.get(), 2);
    assert_eq!(op.transaction_id().id(), 5);
}
