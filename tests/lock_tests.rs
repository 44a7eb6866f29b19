use rucene::lock_registry::{close_result, validity_result, LockError, LockRegistry};

#[test]
fn registry_tracks_held_paths() {
    let mut r = LockRegistry::new();
    assert!(!r.contains(b"/idx/write.lock"));
    assert!(r.insert(b"/idx/write.lock"));
    assert!(!r.insert(b"/idx/write.lock"));
    assert!(r.insert(b"/other/write.lock"));
    assert!(r.contains(b"/idx/write.lock"));
    assert!(r.remove(b"/idx/write.lock"));
    assert!(!r.contains(b"/idx/write.lock"));
    assert!(!r.remove(b"/idx/write.lock"));
    assert!(r.contains(b"/other/write.lock"));
}

#[test]
fn lock_checks_report_each_error() {
    assert_eq!(close_result(true), Ok(()));
    assert_eq!(close_result(false), Err(LockError::NeverHeld));
    assert_eq!(validity_result(true, 0), Ok(()));
    assert_eq!(validity_result(false, 0), Err(LockError::ClearedFromMap));
    assert_eq!(validity_result(true, 3), Err(LockError::UnexpectedSize));
}
