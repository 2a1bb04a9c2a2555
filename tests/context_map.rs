use context_map::{ContextError, ContextMap, Registry};

#[test]
fn scenario_overwrite_then_reject() {
    let mut m = ContextMap::new();
    assert_eq!(m.update_overwrite(1, 1, 100), Ok(()));
    assert_eq!(m.get(1, 1), Some(100));
    assert_eq!(m.get(1, 0), None);
    assert_eq!(m.update_overwrite(2, 2, 100), Ok(()));
    assert_eq!(m.get(1, 2), None);
    assert_eq!(m.get(2, 2), Some(100));
    assert_eq!(m.update_no_overwrite(3, 3, 100), Err(ContextError::ValueAlreadyOwned));
    assert_eq!(m.update_overwrite(1, 1, 200), Err(ContextError::NonMonotonicContext));
}

#[test]
fn unknown_key_reads_absent() {
    let m = ContextMap::new();
    assert_eq!(m.get(7, 0), None);
    assert_eq!(m.get(7, u64::MAX), None);
}

#[test]
fn repeated_or_earlier_context_is_refused_and_changes_nothing() {
    let mut m = ContextMap::new();
    assert_eq!(m.update_no_overwrite(1, 5, 10), Ok(()));
    assert_eq!(m.update_overwrite(1, 5, 11), Err(ContextError::NonMonotonicContext));
    assert_eq!(m.update_overwrite(1, 4, 11), Err(ContextError::NonMonotonicContext));
    assert_eq!(m.update_no_overwrite(1, 5, 11), Err(ContextError::NonMonotonicContext));
    assert_eq!(m.update_no_overwrite(1, 3, 12), Err(ContextError::NonMonotonicContext));
    assert_eq!(m.get(1, 5), Some(10));
    assert_eq!(m.get(1, u64::MAX), Some(10));
    // 11 was never bound, so it is still free for another key.
    assert_eq!(m.update_no_overwrite(2, 1, 11), Ok(()));
    assert_eq!(m.get(2, 1), Some(11));
}

#[test]
fn increasing_contexts_are_taken() {
    let mut m = ContextMap::new();
    assert_eq!(m.update_overwrite(1, 1, 10), Ok(()));
    assert_eq!(m.update_overwrite(1, 2, 11), Ok(()));
    assert_eq!(m.update_no_overwrite(1, 9, 12), Ok(()));
    assert_eq!(m.get(1, 1), Some(10));
    assert_eq!(m.get(1, 2), Some(11));
    assert_eq!(m.get(1, 8), Some(11));
    assert_eq!(m.get(1, 9), Some(12));
}

#[test]
fn floor_lookup_over_many_entries() {
    let mut m = ContextMap::new();
    let mut c: u64 = 10;
    while c <= 1000 {
        assert_eq!(m.update_overwrite(4, c, c * 2), Ok(()));
        c += 10;
    }
    assert_eq!(m.get(4, 0), None);
    assert_eq!(m.get(4, 9), None);
    assert_eq!(m.get(4, 10), Some(20));
    assert_eq!(m.get(4, 15), Some(20));
    assert_eq!(m.get(4, 19), Some(20));
    assert_eq!(m.get(4, 20), Some(40));
    assert_eq!(m.get(4, 555), Some(1100));
    assert_eq!(m.get(4, 999), Some(1980));
    assert_eq!(m.get(4, 1000), Some(2000));
    assert_eq!(m.get(4, u64::MAX), Some(2000));
}

#[test]
fn retraction_reads_absent_from_its_context_on() {
    let mut m = ContextMap::new();
    assert_eq!(m.update_overwrite(1, 1, 10), Ok(()));
    assert_eq!(m.update_overwrite(2, 5, 10), Ok(()));
    assert_eq!(m.get(1, 1), Some(10));
    assert_eq!(m.get(1, 4), Some(10));
    assert_eq!(m.get(1, 5), None);
    assert_eq!(m.get(1, 100), None);
    assert_eq!(m.get(2, 4), None);
    assert_eq!(m.get(2, 5), Some(10));
}

#[test]
fn no_two_keys_hold_one_value() {
    let mut m = ContextMap::new();
    assert_eq!(m.update_overwrite(1, 1, 10), Ok(()));
    assert_eq!(m.update_overwrite(2, 2, 10), Ok(()));
    assert_eq!(m.update_overwrite(3, 3, 10), Ok(()));
    assert_eq!(m.get(1, 3), None);
    assert_eq!(m.get(2, 3), None);
    assert_eq!(m.get(3, 3), Some(10));
    assert_eq!(m.update_no_overwrite(1, 4, 10), Err(ContextError::ValueAlreadyOwned));
    assert_eq!(m.get(1, 4), None);
}

#[test]
fn overwrite_moves_value_between_keys() {
    let mut m = ContextMap::new();
    assert_eq!(m.update_no_overwrite(1, 3, 42), Ok(()));
    assert_eq!(m.update_overwrite(2, 7, 42), Ok(()));
    assert_eq!(m.get(1, 7), None);
    assert_eq!(m.get(2, 7), Some(42));
    assert_eq!(m.get(1, 6), Some(42));
}

#[test]
fn failed_overwrite_changes_nothing() {
    let mut m = ContextMap::new();
    assert_eq!(m.update_overwrite(1, 10, 42), Ok(()));
    assert_eq!(m.update_overwrite(2, 20, 7), Ok(()));
    // The holder of 42 cannot take a retraction at 5.
    assert_eq!(m.update_overwrite(3, 5, 42), Err(ContextError::NonMonotonicContext));
    assert_eq!(m.get(1, 10), Some(42));
    assert_eq!(m.get(1, u64::MAX), Some(42));
    assert_eq!(m.get(3, u64::MAX), None);
    // The writing key cannot take 15, though the holder could.
    assert_eq!(m.update_overwrite(2, 15, 42), Err(ContextError::NonMonotonicContext));
    assert_eq!(m.get(1, 15), Some(42));
    assert_eq!(m.get(2, 20), Some(7));
    // No partial retraction was left behind.
    assert_eq!(m.update_overwrite(1, 11, 43), Ok(()));
    assert_eq!(m.get(1, 11), Some(43));
}

#[test]
fn no_overwrite_refuses_held_value_and_changes_nothing() {
    let mut m = ContextMap::new();
    assert_eq!(m.update_overwrite(1, 1, 10), Ok(()));
    assert_eq!(m.update_overwrite(2, 1, 20), Ok(()));
    assert_eq!(m.update_no_overwrite(2, 2, 10), Err(ContextError::ValueAlreadyOwned));
    assert_eq!(m.update_no_overwrite(1, 2, 10), Err(ContextError::ValueAlreadyOwned));
    assert_eq!(m.update_no_overwrite(3, 0, 10), Err(ContextError::ValueAlreadyOwned));
    assert_eq!(m.get(1, 2), Some(10));
    assert_eq!(m.get(2, 2), Some(20));
    assert_eq!(m.get(3, 2), None);
    // Both kinds of refusal apply: the held value decides.
    assert_eq!(m.update_no_overwrite(1, 0, 20), Err(ContextError::ValueAlreadyOwned));
}

#[test]
fn holder_rewrites_its_own_value() {
    let mut m = ContextMap::new();
    assert_eq!(m.update_overwrite(1, 1, 10), Ok(()));
    assert_eq!(m.update_overwrite(1, 2, 10), Ok(()));
    assert_eq!(m.get(1, 1), Some(10));
    assert_eq!(m.get(1, 2), Some(10));
    assert_eq!(m.get(1, 3), Some(10));
    assert_eq!(m.update_no_overwrite(2, 3, 10), Err(ContextError::ValueAlreadyOwned));
}

#[test]
fn rebinding_a_key_keeps_its_earlier_value_owned() {
    let mut m = ContextMap::new();
    assert_eq!(m.update_no_overwrite(1, 1, 10), Ok(()));
    assert_eq!(m.update_no_overwrite(1, 2, 11), Ok(()));
    // Key 1 still owns 10, though its latest entry binds 11.
    assert_eq!(m.update_no_overwrite(2, 3, 10), Err(ContextError::ValueAlreadyOwned));
    assert_eq!(m.get(2, 3), None);
    assert_eq!(m.get(1, 3), Some(11));
    // Taking 10 from key 1 retracts key 1's history.
    assert_eq!(m.update_overwrite(3, 4, 10), Ok(()));
    assert_eq!(m.get(1, 3), Some(11));
    assert_eq!(m.get(1, 4), None);
    assert_eq!(m.get(3, 4), Some(10));
    // 11 stays owned by key 1 until an overwrite takes it.
    assert_eq!(m.update_no_overwrite(2, 5, 11), Err(ContextError::ValueAlreadyOwned));
    assert_eq!(m.update_overwrite(2, 5, 11), Ok(()));
    assert_eq!(m.get(1, 5), None);
    assert_eq!(m.get(2, 5), Some(11));
    assert_eq!(m.get(3, 5), Some(10));
}

#[test]
fn extreme_contexts() {
    let mut m = ContextMap::new();
    assert_eq!(m.update_overwrite(1, 0, 5), Ok(()));
    assert_eq!(m.get(1, 0), Some(5));
    assert_eq!(m.update_overwrite(1, u64::MAX, 6), Ok(()));
    assert_eq!(m.get(1, u64::MAX - 1), Some(5));
    assert_eq!(m.get(1, u64::MAX), Some(6));
    assert_eq!(m.update_overwrite(1, u64::MAX, 7), Err(ContextError::NonMonotonicContext));
}

#[test]
fn registry_empty_reads_absent() {
    let r = Registry::new();
    assert_eq!(r.get(0), None);
    assert_eq!(r.get(u64::MAX), None);
    assert_eq!(r.floor(0), None);
    assert_eq!(r.latest(), None);
    assert!(r.accepts(0));
}

#[test]
fn registry_tells_retraction_from_nothing_recorded() {
    let mut r = Registry::new();
    assert_eq!(r.update(3, Some(8)), Ok(()));
    assert_eq!(r.update(6, None), Ok(()));
    assert_eq!(r.floor(2), None);
    assert_eq!(r.floor(3), Some(Some(8)));
    assert_eq!(r.floor(5), Some(Some(8)));
    assert_eq!(r.floor(6), Some(None));
    assert_eq!(r.floor(9), Some(None));
    assert_eq!(r.get(2), None);
    assert_eq!(r.get(4), Some(8));
    assert_eq!(r.get(6), None);
    assert_eq!(r.latest(), None);
}

#[test]
fn registry_refuses_non_increasing_context() {
    let mut r = Registry::new();
    assert_eq!(r.update(4, Some(1)), Ok(()));
    assert!(!r.accepts(4));
    assert!(r.accepts(5));
    assert_eq!(r.update(4, Some(2)), Err(ContextError::NonMonotonicContext));
    assert_eq!(r.update(1, None), Err(ContextError::NonMonotonicContext));
    assert_eq!(r.get(u64::MAX), Some(1));
    assert_eq!(r.latest(), Some(1));
    assert_eq!(r.update(5, Some(2)), Ok(()));
    assert_eq!(r.latest(), Some(2));
    assert_eq!(r.get(4), Some(1));
}
