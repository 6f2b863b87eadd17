//! Session/watch-management core of a coordination-service client.
//!
//! The crate provides the pure, verifiable heart of such a client:
//! the wire codec, the one-shot watch registry, the request queue and
//! response demultiplexer, the session state machine with ensemble
//! failover, and a znode-tree model of the server-side semantics that
//! the client-facing operations are specified against.  Transport I/O
//! and clocks stay outside; callers feed events in and carry frames out.

pub mod errors;
pub mod codec;
pub mod bytes;
pub mod watch;
pub mod queue;
pub mod tree;
pub mod session;
