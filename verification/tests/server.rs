use io_uring_echo::server::{Action, OpType, ServerCore, ECONNRESET, RECV_BUF_LEN};

/// The whole scenario: capacity 2, two clients accepted immediately, a third
/// only after a credit is replenished; client A's two bytes are echoed back
/// on A's descriptor alone.
#[test]
fn concrete_scenario_capacity_two() {
    let mut core = ServerCore::new(2);
    assert_eq!(core.count(), 2);
    assert_eq!(core.in_flight_accepts(), 0);

    // The shell enqueues both accepts; the credits are spent.
    core.on_accept_pushed();
    core.on_accept_pushed();
    assert_eq!(core.count(), 0);
    assert_eq!(core.in_flight_accepts(), 2);
    // With no credit left, a third connection cannot be accepted now.

    // Client A is accepted (descriptor 10): a new handle polls it and one
    // credit comes back, so a third client can be accepted from now on.
    let act = core.on_completion(0, 10);
    assert_eq!(act, Action::SubmitPoll { fd: 10, token: 1 });
    assert_eq!(core.count(), 1);
    assert_eq!(core.in_flight_accepts(), 1);

    // Client B is accepted (descriptor 11) under its own handle.
    let act = core.on_completion(0, 11);
    assert_eq!(act, Action::SubmitPoll { fd: 11, token: 2 });
    assert_eq!(core.count(), 2);
    assert_eq!(core.in_flight_accepts(), 0);

    // A becomes readable: a receive is submitted into a fresh buffer.
    let act = core.on_completion(1, 1);
    assert_eq!(act, Action::SubmitRecv { fd: 10, token: 1 });
    match core.op(1) {
        Some(OpType::Read { fd, buf }) => {
            assert_eq!(*fd, 10);
            assert_eq!(buf.len(), RECV_BUF_LEN);
        },
        _ => panic!("handle 1 should be reading"),
    }

    // A sent "hi": two bytes arrive; exactly those two bytes are sent back
    // on A's descriptor and no other.
    let act = core.on_completion(1, 2);
    assert_eq!(act, Action::SubmitSend { fd: 10, token: 1, offset: 0, len: 2 });
    match core.op(1) {
        Some(OpType::Write { fd, offset, len, .. }) => {
            assert_eq!((*fd, *offset, *len), (10, 0, 2));
        },
        _ => panic!("handle 1 should be writing"),
    }

    // The echo is acknowledged in full: A goes back to being polled, still
    // under the same handle; B is untouched throughout.
    let act = core.on_completion(1, 2);
    assert_eq!(act, Action::SubmitPoll { fd: 10, token: 1 });
    match core.op(2) {
        Some(OpType::Poll { fd }) => assert_eq!(*fd, 11),
        _ => panic!("handle 2 should still be polling"),
    }
}

/// A partial send resumes from the first unacknowledged byte until the whole
/// message is out.
#[test]
fn partial_send_resumes() {
    let mut core = ServerCore::new(2);
    core.on_accept_pushed();
    assert_eq!(core.on_completion(0, 5), Action::SubmitPoll { fd: 5, token: 1 });
    assert_eq!(core.on_completion(1, 1), Action::SubmitRecv { fd: 5, token: 1 });
    // Ten bytes arrive; the send is acknowledged in chunks of 4, 4 and 2.
    assert_eq!(core.on_completion(1, 10), Action::SubmitSend { fd: 5, token: 1, offset: 0, len: 10 });
    assert_eq!(core.on_completion(1, 4), Action::SubmitSend { fd: 5, token: 1, offset: 4, len: 10 });
    assert_eq!(core.on_completion(1, 4), Action::SubmitSend { fd: 5, token: 1, offset: 8, len: 10 });
    assert_eq!(core.on_completion(1, 2), Action::SubmitPoll { fd: 5, token: 1 });
}

/// Multi-message round trip: several sequential messages on one connection,
/// each echoed before the next, with the connection open in between.
#[test]
fn multi_message_round_trip() {
    let mut core = ServerCore::new(2);
    core.on_accept_pushed();
    assert_eq!(core.on_completion(0, 9), Action::SubmitPoll { fd: 9, token: 1 });
    for n in 1..=5i32 {
        assert_eq!(core.on_completion(1, 1), Action::SubmitRecv { fd: 9, token: 1 });
        let len = n as usize;
        assert_eq!(
            core.on_completion(1, n),
            Action::SubmitSend { fd: 9, token: 1, offset: 0, len }
        );
        assert_eq!(core.on_completion(1, n), Action::SubmitPoll { fd: 9, token: 1 });
        // The connection stays open under the same handle.
        assert!(matches!(core.op(1), Some(OpType::Poll { fd: 9 })));
    }
}

/// Clean teardown on end of stream: the descriptor is closed, the handle is
/// freed, and the next insertion reuses that very handle.
#[test]
fn clean_teardown_on_eof() {
    let mut core = ServerCore::new(2);
    core.on_accept_pushed();
    core.on_accept_pushed();
    assert_eq!(core.on_completion(0, 7), Action::SubmitPoll { fd: 7, token: 1 });
    assert_eq!(core.on_completion(1, 1), Action::SubmitRecv { fd: 7, token: 1 });
    assert_eq!(core.on_completion(1, 3), Action::SubmitSend { fd: 7, token: 1, offset: 0, len: 3 });
    assert_eq!(core.on_completion(1, 3), Action::SubmitPoll { fd: 7, token: 1 });
    assert_eq!(core.on_completion(1, 1), Action::SubmitRecv { fd: 7, token: 1 });

    // The peer closes its write side: a zero-length read.
    assert_eq!(core.on_completion(1, 0), Action::Eof { fd: 7 });
    assert!(core.op(1).is_none());

    // An unrelated acceptance reuses the freed handle value.
    assert_eq!(core.on_completion(0, 8), Action::SubmitPoll { fd: 8, token: 1 });
    assert!(matches!(core.op(1), Some(OpType::Poll { fd: 8 })));
}

/// A negative completion tears only that connection down; a reset by the
/// peer stays quiet, any other error asks for a diagnostic.
#[test]
fn errors_close_one_connection() {
    let mut core = ServerCore::new(2);
    core.on_accept_pushed();
    core.on_accept_pushed();
    assert_eq!(core.on_completion(0, 20), Action::SubmitPoll { fd: 20, token: 1 });
    assert_eq!(core.on_completion(0, 21), Action::SubmitPoll { fd: 21, token: 2 });

    // Client on handle 1 resets: quiet close, handle freed.
    assert_eq!(
        core.on_completion(1, -ECONNRESET),
        Action::CloseConn { fd: 20, reset: true }
    );
    assert!(core.op(1).is_none());

    // Client on handle 2 hits another error: loud close.
    assert_eq!(core.on_completion(2, -5), Action::CloseConn { fd: 21, reset: false });
    assert!(core.op(2).is_none());

    // The server keeps running and accepting.
    assert_eq!(core.on_completion(0, 22), Action::SubmitPoll { fd: 22, token: 1 });
}

/// A completion for a handle with no registered state is logged and skipped.
#[test]
fn stale_handle_is_skipped() {
    let mut core = ServerCore::new(2);
    core.on_accept_pushed();
    assert_eq!(core.on_completion(0, 4), Action::SubmitPoll { fd: 4, token: 1 });
    assert_eq!(core.on_completion(1, -1), Action::CloseConn { fd: 4, reset: false });
    // The handle is now free: both outcomes for it are skipped.
    assert_eq!(core.on_completion(1, 3), Action::Ignore);
    assert_eq!(core.on_completion(1, -3), Action::Ignore);
}

/// A failed acceptance leaves the sentinel in place: accepting goes on.
#[test]
fn failed_accept_keeps_sentinel() {
    let mut core = ServerCore::new(2);
    core.on_accept_pushed();
    assert_eq!(core.on_completion(0, -11), Action::AcceptFailed);
    // The sentinel still dispatches acceptances.
    assert_eq!(core.on_completion(0, 6), Action::SubmitPoll { fd: 6, token: 1 });
}

/// Accept capacity bound: credit plus accepts in flight never exceed the
/// configured capacity, at every step of a busy run.
#[test]
fn accept_capacity_bound() {
    let cap = 4u16;
    let mut core = ServerCore::new(cap);
    assert!(core.count() + core.in_flight_accepts() <= cap);
    for _ in 0..cap {
        core.on_accept_pushed();
        assert!(core.count() + core.in_flight_accepts() <= cap);
    }
    assert_eq!(core.count(), 0);
    for fd in 0..cap as i32 {
        core.on_completion(0, 30 + fd);
        assert!(core.count() + core.in_flight_accepts() <= cap);
    }
    assert_eq!(core.count(), cap);
    assert_eq!(core.in_flight_accepts(), 0);
}

/// A receive result can never exceed the buffer, so a result claiming more
/// is clamped to the buffer's size.
#[test]
fn oversized_read_result_is_clamped() {
    let mut core = ServerCore::new(2);
    core.on_accept_pushed();
    assert_eq!(core.on_completion(0, 3), Action::SubmitPoll { fd: 3, token: 1 });
    assert_eq!(core.on_completion(1, 1), Action::SubmitRecv { fd: 3, token: 1 });
    assert_eq!(
        core.on_completion(1, 5000),
        Action::SubmitSend { fd: 3, token: 1, offset: 0, len: RECV_BUF_LEN }
    );
}
