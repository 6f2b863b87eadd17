use zkcore::codec::Op;
use zkcore::errors::Error;
use zkcore::session::SessionManager;

fn connected_session() -> SessionManager {
    let mut s = SessionManager::new(3, 10_000);
    let (_endpoint, hello) = s.connect_begin(0);
    match hello.op {
        Op::Connect { session_id, .. } => assert_eq!(session_id, 0),
        other => panic!("expected a connect frame, got {:?}", other),
    }
    s.handshake_ok(42, 10_000, b"secret".to_vec(), 100);
    s
}

#[test]
fn handshake_reaches_connected() {
    let s = connected_session();
    let _ = s;
}

#[test]
fn connection_failure_resolves_inflight_with_connection_loss() {
    // Requests sent before the failure but unacknowledged all resolve
    // with ConnectionLoss; after reconnection, submissions succeed again.
    let mut s = connected_session();
    let f1 = s.submit(Op::Exists { path: b"/a".to_vec(), watch: false }).unwrap();
    let f2 = s.submit(Op::GetData { path: b"/b".to_vec(), watch: false }).unwrap();
    assert_eq!(f1.xid, 1);
    assert_eq!(f2.xid, 2);

    // Failure well before the 10 s deadline.
    let failed = s.on_connection_failed(2_000);
    assert_eq!(failed, vec![(1, Error::ConnectionLoss), (2, Error::ConnectionLoss)]);

    // While reconnecting, new submissions surface the outage.
    assert_eq!(
        s.submit(Op::Ping),
        Err(Error::ConnectionLoss)
    );

    // The reconnect handshake presents the same session identity.
    let (_endpoint, resume) = s.reconnect_attempt();
    match resume.op {
        Op::Connect { session_id, ref password, .. } => {
            assert_eq!(session_id, 42);
            assert_eq!(password, &b"secret".to_vec());
        },
        other => panic!("expected a connect frame, got {:?}", other),
    }
    s.handshake_ok(42, 10_000, b"secret".to_vec(), 3_000);

    // Once Connected again, requests succeed, with ids never reused.
    let f3 = s.submit(Op::SetData { path: b"/a".to_vec(), data: vec![1], version: -1 }).unwrap();
    assert_eq!(f3.xid, 3);
}

#[test]
fn session_expires_when_no_endpoint_succeeds_in_time() {
    // With no successful contact before the timeout elapses, the session
    // is terminally expired and every further call fails SessionExpired.
    let mut s = connected_session();
    let _f = s.submit(Op::Exists { path: b"/a".to_vec(), watch: true }).unwrap();
    let failed = s.on_connection_failed(100 + 10_000);
    assert_eq!(failed, vec![(1, Error::SessionExpired)]);
    assert_eq!(s.submit(Op::Ping), Err(Error::SessionExpired));
    assert_eq!(
        s.submit(Op::GetChildren { path: b"/".to_vec(), watch: false }),
        Err(Error::SessionExpired)
    );
}

#[test]
fn deadline_check_expires_a_stalled_reconnect() {
    let mut s = connected_session();
    let _ = s.on_connection_failed(200);
    s.check_deadline(500); // still inside the window: nothing happens
    assert_eq!(s.submit(Op::Ping), Err(Error::ConnectionLoss));
    s.check_deadline(100 + 10_000);
    assert_eq!(s.submit(Op::Ping), Err(Error::SessionExpired));
}

#[test]
fn responses_complete_their_own_request() {
    let mut s = connected_session();
    let f1 = s.submit(Op::Exists { path: b"/a".to_vec(), watch: false }).unwrap();
    let opc = s.complete_response(f1.xid, 200).unwrap();
    assert_eq!(opc, zkcore::codec::OP_EXISTS);
    // The same id again is unknown: a protocol error.
    assert_eq!(s.complete_response(f1.xid, 300), Err(Error::ProtocolError));
}

#[test]
fn close_sends_goodbye_only_when_connected() {
    let mut s = connected_session();
    let _f = s.submit(Op::Ping).unwrap();
    let (frame, failed) = s.close();
    match frame {
        Some(f) => assert!(matches!(f.op, Op::CloseSession)),
        None => panic!("a connected session sends a close frame"),
    }
    assert_eq!(failed, vec![(1, Error::ConnectionLoss)]);

    let mut fresh = SessionManager::new(1, 1_000);
    let (frame2, failed2) = fresh.close();
    assert!(frame2.is_none());
    assert!(failed2.is_empty());
}

#[test]
fn submit_before_connecting_reports_connection_loss() {
    let mut s = SessionManager::new(1, 1_000);
    assert_eq!(s.submit(Op::Ping), Err(Error::ConnectionLoss));
    let (_e, _hello) = s.connect_begin(0);
    assert_eq!(s.submit(Op::Ping), Err(Error::ConnectionLoss));
}
