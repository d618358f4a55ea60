//! Core of a publish/subscribe messaging client: a connection engine that
//! multiplexes publishes and subscriptions over one broker connection,
//! buffers writes during outages, replays subscription state on reconnect,
//! and tracks liveness with a PING/PONG heartbeat.
//!
//! The engine here is the sequential heart of the client: every operation is
//! a state transition on plain values, verified against its contract. The
//! surrounding process — sockets, threads, locks and timers — drives these
//! transitions from outside the verified boundary.
use vstd::prelude::*;

pub mod buffer;
pub mod client;
pub mod jetstream;
pub mod proto;

verus! {

/// An error surfaced to a caller of the client.
#[derive(Clone, Copy, Debug, PartialEq, Eq, Structural)]
pub enum ClientError {
    /// The client has been shut down; terminal.
    NotConnected,
    /// The input cannot be sent, such as headers for a server without
    /// header support, or a response to a message without a reply subject.
    InvalidInput,
    /// The reconnect buffer saturated during a disconnected publish.
    BufferFull,
    /// A flush could not complete because the link was lost.
    ConnectionReset,
    /// A failure of an external collaborator passed through.
    Other,
}

/// Capacity of the buffered reader and writer wrapped around a stream.
pub const BUF_CAPACITY: usize = 32768;

/// Idle interval after which a heartbeat PING is sent, in milliseconds.
pub const PING_INTERVAL_MS: u64 = 120000;

/// Number of unanswered PINGs after which the connection is declared dead.
pub const MAX_PINGS_OUT: u8 = 2;

/// Minimum delay between two coalesced flushes, in milliseconds.
pub const MIN_FLUSH_BETWEEN_MS: u64 = 5;

} // verus!
