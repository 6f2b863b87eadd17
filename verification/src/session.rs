//! Session manager: one logical session over a changing set of
//! connections.
//!
//! The manager is a pure state machine: the caller's I/O loop feeds in
//! events (handshake outcome, connection failure, frames, the clock) and
//! carries the returned frames to the wire.  Requests get strictly
//! increasing transaction ids; on a connection failure every request in
//! flight resolves with `ConnectionLoss` and is never silently retried;
//! when no endpoint succeeds before the session timeout elapses since
//! the last successful contact, the session expires terminally and
//! every further operation fails with `SessionExpired`.

use vstd::prelude::*;
use crate::codec::{Frame, Op, OpV, WatchKind, opcode_of};
use crate::errors::Error;
use crate::queue::RequestQueue;
use crate::watch::WatchRegistry;

verus! {

/// Lifecycle of a session.
#[derive(Clone, Copy, Debug, PartialEq, Eq, Structural)]
pub enum SessionState {
    /// Fresh handle, no connection attempted yet.
    Disconnected,
    /// A connection and handshake are in progress.
    Connecting,
    /// A healthy connection carries traffic.
    Connected,
    /// The connection was lost; another endpoint is being tried with the
    /// same session identity.
    Reconnecting,
    /// The session timeout elapsed without contact; terminal.
    Expired,
    /// Closed by the caller; terminal.
    Closed,
}

/// Whether an operation may be submitted as a request in this state's
/// place in the protocol: the handshake and server-pushed frames are not
/// requests.
pub open spec fn is_request_op(op: OpV) -> bool {
    !(op is Connect || op is ConnectReply || op is WatcherEvent)
}

/// The session manager: identity, timing, the active state, the pending
/// requests and the watch registrations.
pub struct SessionManager {
    state: SessionState,
    session_id: i64,
    password: Vec<u8>,
    timeout_ms: i32,
    ensemble_len: usize,
    next_endpoint: usize,
    last_contact_ms: i64,
    queue: RequestQueue,
    watches: WatchRegistry,
}

impl SessionManager {
    pub closed spec fn state_spec(self) -> SessionState {
        self.state
    }

    /// The request queue, for contracts over pending requests and ids.
    pub closed spec fn queue_spec(self) -> RequestQueue {
        self.queue
    }

    /// The watch registry, for contracts over registrations.
    pub closed spec fn watches_spec(self) -> WatchRegistry {
        self.watches
    }

    pub closed spec fn session_id_spec(self) -> i64 {
        self.session_id
    }

    pub closed spec fn password_spec(self) -> Seq<u8> {
        self.password@
    }

    pub closed spec fn timeout_spec(self) -> i32 {
        self.timeout_ms
    }

    pub closed spec fn last_contact_spec(self) -> i64 {
        self.last_contact_ms
    }

    pub closed spec fn ensemble_len_spec(self) -> int {
        self.ensemble_len as int
    }

    /// Whether the session timeout has elapsed at time `now` since the
    /// last successful server contact.
    pub open spec fn deadline_passed(self, now: i64) -> bool {
        now - self.last_contact_spec() >= self.timeout_spec()
    }

    /// The sub-structures are well formed, timing fields are sane, and
    /// the endpoint cursor stays inside the ensemble.
    pub closed spec fn wf(self) -> bool {
        &&& self.queue.wf()
        &&& self.watches.wf()
        &&& 0 < self.timeout_ms
        &&& 0 <= self.last_contact_ms
        &&& 1 <= self.ensemble_len
        &&& self.next_endpoint < self.ensemble_len
    }

    /// A fresh handle for an ensemble of `ensemble_len` endpoints and the
    /// given session timeout; nothing is connected yet.
    pub fn new(ensemble_len: usize, timeout_ms: i32) -> (r: Self)
        requires
            ensemble_len >= 1,
            timeout_ms > 0,
        ensures
            r.wf(),
            r.state_spec() == SessionState::Disconnected,
            r.timeout_spec() == timeout_ms,
            r.ensemble_len_spec() == ensemble_len,
            r.queue_spec().pending_seq() == Seq::<(i32, u32)>::empty(),
            r.watches_spec().as_map() == Map::<(Seq<u8>, WatchKind), u64>::empty(),
    {
        SessionManager {
            state: SessionState::Disconnected,
            session_id: 0,
            password: Vec::new(),
            timeout_ms,
            ensemble_len,
            next_endpoint: 0,
            last_contact_ms: 0,
            queue: RequestQueue::new(),
            watches: WatchRegistry::new(),
        }
    }

    /// Starts connecting a fresh session: returns the endpoint to try
    /// and the handshake frame, which presents session id zero to ask
    /// the server for a new session.
    pub fn connect_begin(&mut self, now: i64) -> (r: (usize, Frame))
        requires
            old(self).wf(),
            old(self).state_spec() == SessionState::Disconnected,
            now >= 0,
        ensures
            final(self).wf(),
            final(self).state_spec() == SessionState::Connecting,
            final(self).last_contact_spec() == now,
            final(self).queue_spec() == old(self).queue_spec(),
            final(self).watches_spec() == old(self).watches_spec(),
            r.0 < old(self).ensemble_len_spec(),
            r.1@.op == (OpV::Connect {
                protocol_version: 0,
                last_zxid: 0,
                timeout_ms: old(self).timeout_spec(),
                session_id: 0,
                password: Seq::<u8>::empty(),
            }),
    {
        self.state = SessionState::Connecting;
        self.last_contact_ms = now;
        let endpoint = self.next_endpoint;
        let frame = Frame {
            xid: 0,
            op: Op::Connect {
                protocol_version: 0,
                last_zxid: 0,
                timeout_ms: self.timeout_ms,
                session_id: 0,
                password: Vec::new(),
            },
        };
        proof {
            assert(frame@.op->Connect_password =~= Seq::<u8>::empty());
        }
        (endpoint, frame)
    }

    /// Records a successful handshake: the session identity and the
    /// negotiated timeout come from the server's connect reply.
    pub fn handshake_ok(&mut self, session_id: i64, negotiated_timeout_ms: i32, password: Vec<u8>, now: i64)
        requires
            old(self).wf(),
            old(self).state_spec() == SessionState::Connecting
                || old(self).state_spec() == SessionState::Reconnecting,
            negotiated_timeout_ms > 0,
            now >= 0,
        ensures
            final(self).wf(),
            final(self).state_spec() == SessionState::Connected,
            final(self).session_id_spec() == session_id,
            final(self).password_spec() == password@,
            final(self).timeout_spec() == negotiated_timeout_ms,
            final(self).last_contact_spec() == now,
            final(self).queue_spec() == old(self).queue_spec(),
            final(self).watches_spec() == old(self).watches_spec(),
    {
        self.state = SessionState::Connected;
        self.session_id = session_id;
        self.password = password;
        self.timeout_ms = negotiated_timeout_ms;
        self.last_contact_ms = now;
    }

    /// Notes traffic from the server, deferring the session deadline.
    pub fn record_contact(&mut self, now: i64)
        requires
            old(self).wf(),
            now >= old(self).last_contact_spec(),
        ensures
            final(self).wf(),
            final(self).last_contact_spec() == now,
            final(self).state_spec() == old(self).state_spec(),
            final(self).session_id_spec() == old(self).session_id_spec(),
            final(self).queue_spec() == old(self).queue_spec(),
            final(self).watches_spec() == old(self).watches_spec(),
    {
        self.last_contact_ms = now;
    }

    /// The connection failed.  Every request in flight resolves with
    /// `ConnectionLoss` — its outcome is unknown and it is never retried
    /// by the library.  If the session deadline has already passed the
    /// session expires instead, and the drained requests resolve with
    /// `SessionExpired`.
    pub fn on_connection_failed(&mut self, now: i64) -> (failed: Vec<(i32, Error)>)
        requires
            old(self).wf(),
            old(self).state_spec() == SessionState::Connecting
                || old(self).state_spec() == SessionState::Connected
                || old(self).state_spec() == SessionState::Reconnecting,
            now >= old(self).last_contact_spec(),
        ensures
            final(self).wf(),
            final(self).state_spec() == (if old(self).deadline_passed(now) {
                SessionState::Expired
            } else {
                SessionState::Reconnecting
            }),
            failed@.len() == old(self).queue_spec().pending_seq().len(),
            forall|k: int| 0 <= k < failed@.len() ==> (#[trigger] failed@[k])
                == (old(self).queue_spec().pending_seq()[k].0,
                    if old(self).deadline_passed(now) { Error::SessionExpired } else { Error::ConnectionLoss }),
            final(self).queue_spec().pending_seq() == Seq::<(i32, u32)>::empty(),
            final(self).queue_spec().next_spec() == old(self).queue_spec().next_spec(),
            final(self).session_id_spec() == old(self).session_id_spec(),
            final(self).watches_spec() == old(self).watches_spec(),
    {
        let expired = now - self.last_contact_ms >= self.timeout_ms as i64;
        self.state = if expired { SessionState::Expired } else { SessionState::Reconnecting };
        let err = if expired { Error::SessionExpired } else { Error::ConnectionLoss };
        let drained = self.queue.fail_all();
        let mut failed: Vec<(i32, Error)> = Vec::new();
        let mut i: usize = 0;
        while i < drained.len()
            invariant
                i <= drained@.len(),
                failed@.len() == i,
                forall|k: int| 0 <= k < i ==> (#[trigger] failed@[k]) == (drained@[k].0, err),
            decreases drained@.len() - i,
        {
            failed.push((drained[i].0, err));
            i = i + 1;
        }
        failed
    }

    /// Picks the next ensemble endpoint, round robin, and builds the
    /// handshake frame that presents the existing session id and
    /// password, asking the server to resume the same session.
    pub fn reconnect_attempt(&mut self) -> (r: (usize, Frame))
        requires
            old(self).wf(),
            old(self).state_spec() == SessionState::Reconnecting,
        ensures
            final(self).wf(),
            final(self).state_spec() == SessionState::Reconnecting,
            final(self).queue_spec() == old(self).queue_spec(),
            final(self).watches_spec() == old(self).watches_spec(),
            final(self).last_contact_spec() == old(self).last_contact_spec(),
            r.0 < old(self).ensemble_len_spec(),
            r.1@.op == (OpV::Connect {
                protocol_version: 0,
                last_zxid: 0,
                timeout_ms: old(self).timeout_spec(),
                session_id: old(self).session_id_spec(),
                password: old(self).password_spec(),
            }),
    {
        let endpoint = self.next_endpoint;
        self.next_endpoint = if self.next_endpoint + 1 < self.ensemble_len {
            self.next_endpoint + 1
        } else {
            0
        };
        let pw = crate::bytes::copy_bytes(&self.password);
        let frame = Frame {
            xid: 0,
            op: Op::Connect {
                protocol_version: 0,
                last_zxid: 0,
                timeout_ms: self.timeout_ms,
                session_id: self.session_id,
                password: pw,
            },
        };
        (endpoint, frame)
    }

    /// While connecting or reconnecting, checks the session deadline:
    /// once it passes without a successful handshake the session is
    /// expired, terminally.
    pub fn check_deadline(&mut self, now: i64)
        requires
            old(self).wf(),
            old(self).state_spec() == SessionState::Connecting
                || old(self).state_spec() == SessionState::Reconnecting,
            now >= old(self).last_contact_spec(),
        ensures
            final(self).wf(),
            old(self).deadline_passed(now) ==> final(self).state_spec() == SessionState::Expired,
            !old(self).deadline_passed(now) ==> *final(self) == *old(self),
    {
        if now - self.last_contact_ms >= self.timeout_ms as i64 {
            self.state = SessionState::Expired;
        }
    }

    /// Whether another transaction id can still be issued; callers
    /// outside verified code test this before submitting.
    pub fn can_submit(&self) -> (r: bool)
        ensures
            r <==> self.queue_spec().next_spec() < i32::MAX,
    {
        self.queue.next_below_max()
    }

    /// Submits a typed operation.  While Connected it is queued under a
    /// fresh, strictly increasing transaction id and the wire frame is
    /// returned for sending.  An expired or closed session fails every
    /// call with `SessionExpired`; during an outage the call fails with
    /// `ConnectionLoss`.  Nothing is ever retried silently.
    pub fn submit(&mut self, op: Op) -> (r: Result<Frame, Error>)
        requires
            old(self).wf(),
            old(self).queue_spec().next_spec() < i32::MAX,
            is_request_op(op@),
        ensures
            final(self).wf(),
            final(self).state_spec() == old(self).state_spec(),
            final(self).watches_spec() == old(self).watches_spec(),
            old(self).state_spec() == SessionState::Expired
                || old(self).state_spec() == SessionState::Closed ==> {
                &&& r == Err::<Frame, Error>(Error::SessionExpired)
                &&& *final(self) == *old(self)
            },
            old(self).state_spec() == SessionState::Disconnected
                || old(self).state_spec() == SessionState::Connecting
                || old(self).state_spec() == SessionState::Reconnecting ==> {
                &&& r == Err::<Frame, Error>(Error::ConnectionLoss)
                &&& *final(self) == *old(self)
            },
            old(self).state_spec() == SessionState::Connected ==> {
                &&& (r matches Ok(f) && f@.xid == old(self).queue_spec().next_spec()
                        && f@.op == op@)
                &&& final(self).queue_spec().next_spec() == old(self).queue_spec().next_spec() + 1
                &&& final(self).queue_spec().pending_seq() == old(self).queue_spec().pending_seq()
                        .push((old(self).queue_spec().next_spec(), opcode_of(op@)))
            },
    {
        match self.state {
            SessionState::Expired => Err(Error::SessionExpired),
            SessionState::Closed => Err(Error::SessionExpired),
            SessionState::Disconnected => Err(Error::ConnectionLoss),
            SessionState::Connecting => Err(Error::ConnectionLoss),
            SessionState::Reconnecting => Err(Error::ConnectionLoss),
            SessionState::Connected => {
                let opc = crate::codec::op_code_of(&op);
                let xid = self.queue.submit(opc);
                Ok(Frame { xid, op })
            },
        }
    }

    /// Routes a response to the single request with its transaction id,
    /// returning that request's opcode; an unknown id is a protocol
    /// violation.
    pub fn complete_response(&mut self, xid: i32, now: i64) -> (r: Result<u32, Error>)
        requires
            old(self).wf(),
            now >= old(self).last_contact_spec(),
        ensures
            final(self).wf(),
            final(self).state_spec() == old(self).state_spec(),
            final(self).last_contact_spec() == now,
            final(self).watches_spec() == old(self).watches_spec(),
            old(self).queue_spec().has_xid(xid) ==> {
                &&& r == Ok::<u32, Error>(old(self).queue_spec().pending_seq()[old(self).queue_spec().index_of(xid)].1)
                &&& final(self).queue_spec().pending_seq()
                        == old(self).queue_spec().pending_seq().remove(old(self).queue_spec().index_of(xid))
            },
            !old(self).queue_spec().has_xid(xid) ==> {
                &&& r == Err::<u32, Error>(Error::ProtocolError)
                &&& final(self).queue_spec().pending_seq() == old(self).queue_spec().pending_seq()
            },
    {
        self.last_contact_ms = now;
        self.queue.complete(xid)
    }

    /// Closes the session from any non-terminal state.  A graceful close
    /// frame is produced only while connected; anything still in flight
    /// resolves with `ConnectionLoss`.
    pub fn close(&mut self) -> (r: (Option<Frame>, Vec<(i32, Error)>))
        requires
            old(self).wf(),
            old(self).state_spec() != SessionState::Expired,
            old(self).state_spec() != SessionState::Closed,
        ensures
            final(self).wf(),
            final(self).state_spec() == SessionState::Closed,
            (r.0 is Some) <==> old(self).state_spec() == SessionState::Connected,
            r.0 matches Some(f) ==> f@.op is CloseSession,
            r.1@.len() == old(self).queue_spec().pending_seq().len(),
            forall|k: int| 0 <= k < r.1@.len() ==> (#[trigger] r.1@[k])
                == (old(self).queue_spec().pending_seq()[k].0, Error::ConnectionLoss),
            final(self).queue_spec().pending_seq() == Seq::<(i32, u32)>::empty(),
    {
        let was_connected = match self.state {
            SessionState::Connected => true,
            _ => false,
        };
        self.state = SessionState::Closed;
        let drained = self.queue.fail_all();
        let mut failed: Vec<(i32, Error)> = Vec::new();
        let mut i: usize = 0;
        while i < drained.len()
            invariant
                i <= drained@.len(),
                failed@.len() == i,
                forall|k: int| 0 <= k < i ==> (#[trigger] failed@[k]) == (drained@[k].0, Error::ConnectionLoss),
            decreases drained@.len() - i,
        {
            failed.push((drained[i].0, Error::ConnectionLoss));
            i = i + 1;
        }
        let frame = if was_connected {
            Some(Frame { xid: 0, op: Op::CloseSession })
        } else {
            None
        };
        (frame, failed)
    }
}

} // verus!
