use ospf_viz::tokens::{TokenPool, CAPACITY};
use ospf_viz::update::{CycleAction, UpdateState};

#[test]
fn pool_exhausts_at_capacity() {
    let mut p = TokenPool::with_capacity(3);
    assert_eq!(p.try_acquire(), Some(0));
    assert_eq!(p.try_acquire(), Some(1));
    assert_eq!(p.try_acquire(), Some(2));
    assert_eq!(p.try_acquire(), None);
    assert!(p.release(1));
    assert_eq!(p.try_acquire(), Some(1));
    assert_eq!(p.try_acquire(), None);
}

#[test]
fn double_release_is_reported() {
    let mut p = TokenPool::with_capacity(2);
    let v = p.try_acquire().unwrap();
    assert!(p.release(v));
    assert!(!p.release(v));
    assert_eq!(p.try_acquire(), Some(0));
}

#[test]
fn acquire_release_never_exhausts() {
    let mut p = TokenPool::with_capacity(5);
    for _ in 0..5 {
        let v = p.try_acquire().unwrap();
        assert_eq!(v, 0);
        assert!(p.release(v));
    }
    assert!(p.try_acquire().is_some());
}

#[test]
fn full_pool_capacity() {
    let mut p = TokenPool::new();
    assert_eq!(p.capacity(), CAPACITY);
    let mut last = 0;
    for _ in 0..CAPACITY {
        last = p.try_acquire().unwrap();
    }
    assert_eq!(last, 65533);
    assert_eq!(p.try_acquire(), None);
    let mut empty = TokenPool::with_capacity(0);
    assert_eq!(empty.try_acquire(), None);
}

#[test]
fn same_snapshot_is_not_resent() {
    let mut s = UpdateState::new();
    s.on_acquire(7);
    assert_eq!(s.cycle(Some(42), 0), CycleAction::Distribute(7));
    assert_eq!(s.cycle(Some(42), 0), CycleAction::KeepAlive);
    assert_eq!(s.cycle(Some(43), 5), CycleAction::Distribute(7));
    assert_eq!(s.cycle(None, 0), CycleAction::KeepAlive);
}

#[test]
fn new_viewer_forces_distribution() {
    let mut s = UpdateState::new();
    s.on_acquire(1);
    assert_eq!(s.cycle(Some(9), 0), CycleAction::Distribute(1));
    s.on_acquire(2);
    assert_eq!(s.cycle(Some(9), 1), CycleAction::Distribute(2));
    assert_eq!(s.viewers, vec![1, 2]);
}

#[test]
fn snapshot_held_back_without_viewers() {
    let mut s = UpdateState::new();
    assert_eq!(s.cycle(Some(9), 0), CycleAction::WaitForViewer);
    assert_eq!(s.last_hash, None);
    assert_eq!(s.cycle(None, 0), CycleAction::Idle);
    s.on_acquire(4);
    s.on_release(4);
    assert!(s.viewers.is_empty());
    s.on_acquire(3);
    assert_eq!(s.cycle(Some(9), 0), CycleAction::Distribute(3));
    s.on_release(3);
    assert_eq!(s.cycle(Some(9), 0), CycleAction::Idle);
}

#[test]
fn payload_hash_decides_change() {
    let mut s = UpdateState::new();
    s.on_acquire(0);
    assert_eq!(s.cycle_payload(Some("{\"nodes\":[]}"), 0), CycleAction::Distribute(0));
    assert_eq!(s.cycle_payload(Some("{\"nodes\":[]}"), 0), CycleAction::KeepAlive);
    assert_eq!(s.cycle_payload(Some("{\"nodes\":[1]}"), 0), CycleAction::Distribute(0));
}
