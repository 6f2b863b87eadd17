use zkcore::codec::{WatchKind, OP_EXISTS, OP_GET_DATA, OP_SET_DATA};
use zkcore::errors::Error;
use zkcore::queue::RequestQueue;
use zkcore::watch::WatchRegistry;

#[test]
fn watch_fires_exactly_once() {
    let mut reg = WatchRegistry::new();
    reg.register(b"/a".to_vec(), WatchKind::Data, 7);
    assert_eq!(reg.dispatch(&b"/a".to_vec(), WatchKind::Data), Some(7));
    // A second event for the same registration is dropped, not an error.
    assert_eq!(reg.dispatch(&b"/a".to_vec(), WatchKind::Data), None);
}

#[test]
fn dispatch_for_unregistered_key_is_noop() {
    let mut reg = WatchRegistry::new();
    assert_eq!(reg.dispatch(&b"/nowhere".to_vec(), WatchKind::Children), None);
    reg.register(b"/a".to_vec(), WatchKind::Data, 1);
    // Same path, different kind: no match.
    assert_eq!(reg.dispatch(&b"/a".to_vec(), WatchKind::Children), None);
    // The data watch is still armed.
    assert_eq!(reg.dispatch(&b"/a".to_vec(), WatchKind::Data), Some(1));
}

#[test]
fn register_replaces_entry_for_same_key() {
    let mut reg = WatchRegistry::new();
    reg.register(b"/a".to_vec(), WatchKind::Exists, 1);
    reg.register(b"/a".to_vec(), WatchKind::Exists, 2);
    assert_eq!(reg.dispatch(&b"/a".to_vec(), WatchKind::Exists), Some(2));
    assert_eq!(reg.dispatch(&b"/a".to_vec(), WatchKind::Exists), None);
}

#[test]
fn watches_on_different_paths_are_independent() {
    let mut reg = WatchRegistry::new();
    reg.register(b"/a".to_vec(), WatchKind::Data, 1);
    reg.register(b"/b".to_vec(), WatchKind::Data, 2);
    assert_eq!(reg.dispatch(&b"/b".to_vec(), WatchKind::Data), Some(2));
    assert_eq!(reg.dispatch(&b"/a".to_vec(), WatchKind::Data), Some(1));
}

#[test]
fn xids_start_at_one_and_strictly_increase() {
    let mut q = RequestQueue::new();
    assert_eq!(q.submit(OP_EXISTS), 1);
    assert_eq!(q.submit(OP_GET_DATA), 2);
    assert_eq!(q.submit(OP_SET_DATA), 3);
    assert_eq!(q.outstanding(), 3);
}

#[test]
fn complete_matches_the_single_pending_entry() {
    let mut q = RequestQueue::new();
    let x1 = q.submit(OP_EXISTS);
    let x2 = q.submit(OP_SET_DATA);
    assert_eq!(q.complete(x2), Ok(OP_SET_DATA));
    assert_eq!(q.complete(x1), Ok(OP_EXISTS));
    assert_eq!(q.outstanding(), 0);
}

#[test]
fn unknown_response_id_is_a_protocol_error() {
    let mut q = RequestQueue::new();
    let x1 = q.submit(OP_EXISTS);
    assert_eq!(q.complete(x1 + 100), Err(Error::ProtocolError));
    // The pending entry is untouched and still completes.
    assert_eq!(q.complete(x1), Ok(OP_EXISTS));
    // An id is not reusable once its entry is gone.
    assert_eq!(q.complete(x1), Err(Error::ProtocolError));
}

#[test]
fn fail_all_drains_in_submission_order_without_reusing_ids() {
    let mut q = RequestQueue::new();
    let x1 = q.submit(OP_EXISTS);
    let x2 = q.submit(OP_GET_DATA);
    let drained = q.fail_all();
    assert_eq!(drained, vec![(x1, OP_EXISTS), (x2, OP_GET_DATA)]);
    assert_eq!(q.outstanding(), 0);
    // Ids keep increasing after the loss: nothing is ever reissued.
    let x3 = q.submit(OP_SET_DATA);
    assert!(x3 > x2);
}
