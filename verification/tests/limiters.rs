use lru::{AddBehavior, CostLimited, Limiter, SizeLimited, Unlimited};

#[test]
fn size_limited_decisions() {
    let mut zero = SizeLimited::new(0);
    assert_eq!(zero.on_add(0, &1u32, &1u32), AddBehavior::Reject);
    let mut two = SizeLimited::new(2);
    assert_eq!(two.limit(), 2);
    assert_eq!(two.on_add(0, &1u32, &1u32), AddBehavior::Accept);
    assert_eq!(two.on_add(1, &1u32, &1u32), AddBehavior::Accept);
    assert_eq!(two.on_add(2, &1u32, &1u32), AddBehavior::Evict);
    assert!(Limiter::<u32, u32>::is_oversized(&two, 3));
    assert!(!Limiter::<u32, u32>::is_oversized(&two, 2));
    two.set_limit(5);
    assert_eq!(two.limit(), 5);
}

#[test]
fn unlimited_accepts() {
    let mut l = Unlimited;
    assert_eq!(l.on_add(1000, &1u32, &1u32), AddBehavior::Accept);
    assert!(!Limiter::<u32, u32>::is_oversized(&l, usize::MAX));
}

#[test]
fn cost_limited_total() {
    let mut l = CostLimited::with_func(10, (|k: &usize| *k, |v: &usize| *v));
    assert_eq!(l.limit(), 10);
    assert_eq!(l.current(), 0);
    assert_eq!(l.on_add(0, &1, &2), AddBehavior::Accept);
    assert_eq!(l.current(), 3);
    assert_eq!(l.on_add(1, &6, &5), AddBehavior::Reject);
    assert_eq!(l.current(), 3);
    assert_eq!(l.on_add(1, &4, &5), AddBehavior::Evict);
    assert_eq!(l.current(), 12);
    assert!(l.is_oversized(2));
    l.on_remove(1, &1, &2);
    assert_eq!(l.current(), 9);
    assert_eq!(l.on_update(1, &4, &5, None, Some(&1)), AddBehavior::Accept);
    assert_eq!(l.current(), 5);
}
