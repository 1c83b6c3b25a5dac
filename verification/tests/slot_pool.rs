use p2p_all_to_all::slot_pool::{SlotClaim, SlotPool};

#[test]
fn slot_pool_tracks_explicit_and_automatic_slots() {
    let mut pool = SlotPool::new(2);

    assert!(pool.acquire_specific(1));
    assert!(!pool.acquire_specific(2));
    assert_eq!(pool.acquire(), 0);

    pool.release(1);
    assert!(pool.acquire_specific(1));
    pool.release(1);
    pool.release(1);

    assert_eq!(pool.acquire(), 1);
}

#[test]
fn released_slots_go_to_the_end_of_the_queue() {
    let mut pool = SlotPool::new(3);
    assert_eq!(pool.len(), 3);
    assert_eq!(pool.acquire(), 0);
    assert_eq!(pool.acquire(), 1);
    assert!(pool.release(1));
    assert!(pool.release(0));
    assert_eq!(pool.acquire(), 2);
    assert_eq!(pool.acquire(), 1);
    assert_eq!(pool.acquire(), 0);
    assert_eq!(pool.try_acquire(), None);
}

#[test]
fn claims_tell_busy_slots_from_missing_ones() {
    let mut pool = SlotPool::new(2);
    assert_eq!(pool.try_acquire_specific(0), SlotClaim::Acquired);
    assert_eq!(pool.try_acquire_specific(0), SlotClaim::Busy);
    assert_eq!(pool.try_acquire_specific(2), SlotClaim::Missing);
    assert_eq!(pool.try_acquire(), Some(1));
}

#[test]
fn only_slots_in_use_are_freed() {
    let mut pool = SlotPool::new(2);
    assert!(!pool.release(0));
    assert!(!pool.release(5));
    assert_eq!(pool.acquire(), 0);
    assert!(pool.release(0));
    assert!(!pool.release(0));
    assert_eq!(pool.acquire(), 1);
    assert_eq!(pool.acquire(), 0);
}

#[test]
fn empty_pool_has_no_slot() {
    let mut pool = SlotPool::new(0);
    assert_eq!(pool.try_acquire(), None);
    assert_eq!(pool.try_acquire_specific(0), SlotClaim::Missing);
}
