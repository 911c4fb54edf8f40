use rust_tcp_server::gate::{PermitPool, PERMIT_CAPACITY};

#[test]
fn configured_capacity_is_forty() {
    assert_eq!(PERMIT_CAPACITY, 40);
}

#[test]
fn pool_counts_outstanding_permits() {
    let mut p = PermitPool::new(PERMIT_CAPACITY);
    assert_eq!(p.permits_out(), 0);
    let mut i: u64 = 0;
    while i < PERMIT_CAPACITY {
        assert!(p.can_acquire());
        p.acquire();
        i += 1;
    }
    assert_eq!(p.permits_out(), PERMIT_CAPACITY);
    assert!(!p.can_acquire());
    p.release();
    assert!(p.can_acquire());
    assert_eq!(p.permits_out(), PERMIT_CAPACITY - 1);
}

#[test]
fn capacity_one_serializes_expensive_work() {
    let mut p = PermitPool::new(1);
    assert!(p.can_acquire());
    p.acquire();
    assert!(!p.can_acquire());
    p.release();
    assert!(p.can_acquire());
}
