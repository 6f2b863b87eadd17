//! Error taxonomy of the client core.
//!
//! Transport and protocol faults surface to callers only as
//! `ConnectionLoss` or `SessionExpired`; application-semantic errors
//! (`VersionMismatch`, `NodeExists`, ...) always propagate untouched.

use vstd::prelude::*;

verus! {

/// Every failure the client core can report.
#[derive(Clone, Copy, Debug, PartialEq, Eq, Structural)]
pub enum Error {
    /// Opening a connection did not finish within the allowed time.
    ConnectTimeout,
    /// The endpoint actively refused the connection.
    ConnectionRefused,
    /// The connection was lost with the outcome of a request unknown;
    /// never retried automatically.
    ConnectionLoss,
    /// The session timed out; terminal, a new session is required.
    SessionExpired,
    /// A codec or sequencing violation; fatal to the connection.
    ProtocolError,
    /// Optimistic-concurrency check failed on set or delete.
    VersionMismatch,
    /// The addressed znode does not exist.
    NodeNotFound,
    /// A znode already exists at the path being created.
    NodeExists,
    /// Delete was attempted on a znode that still has children.
    NotEmpty,
    /// A frame's length prefix exceeds the maximum or its payload under-reads.
    MalformedFrame,
}

} // verus!
