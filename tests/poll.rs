use runtime_with_waker::poll::{max_events, os_result, wait_timeout, OsError, Poll};

#[test]
fn created_queue_keeps_its_descriptor() {
    let p = match Poll::from_created(7, 0) {
        Ok(p) => p,
        Err(_) => panic!("expected a queue"),
    };
    assert_eq!(p.registry().raw_fd(), 7);
}

#[test]
fn failed_create_carries_the_os_error() {
    assert!(matches!(Poll::from_created(-1, 24), Err(OsError { code: 24 })));
}

#[test]
fn syscall_results_are_read_by_sign() {
    assert!(os_result(-1, 9) == Err(OsError { code: 9 }));
    assert!(os_result(0, 9) == Ok(0));
    assert!(os_result(5, 9) == Ok(5));
}

#[test]
fn no_timeout_blocks_indefinitely() {
    assert_eq!(wait_timeout(None), -1);
    assert_eq!(wait_timeout(Some(250)), 250);
}

#[test]
fn capacity_is_capped_at_i32() {
    assert_eq!(max_events(100), 100);
    assert_eq!(max_events(usize::MAX), i32::MAX);
}
