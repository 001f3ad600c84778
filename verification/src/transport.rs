//! The network-facing side of a node: transport errors, the gRPC status an
//! error is answered with, and the server handle.

use crate::error::{error_text, text_ends_outside, VajraError};
use crate::types::{node_id_text, NodeId};
use vstd::prelude::*;

verus! {

/// Transport errors.
#[derive(Debug)]
pub enum TransportError {
    /// Peer not found in configuration.
    UnknownPeer(NodeId),
    /// Channel to worker is closed.
    ChannelClosed(NodeId),
    /// Channel is full (backpressure).
    ChannelFull(NodeId),
    /// Connection failed.
    ConnectionFailed(NodeId, String),
}

/// The display text of a transport error.
pub open spec fn transport_error_text(e: TransportError) -> Seq<char> {
    match e {
        TransportError::UnknownPeer(id) => "Unknown peer: "@ + node_id_text(id),
        TransportError::ChannelClosed(id) => "Channel closed for peer: "@ + node_id_text(id),
        TransportError::ChannelFull(id) => "Channel full for peer: "@ + node_id_text(id),
        TransportError::ConnectionFailed(id, reason) => "Connection failed to "@ + node_id_text(id)
            + ": "@ + reason@,
    }
}

impl TransportError {
    /// The display text of this error.
    pub fn to_string(&self) -> (r: String)
        ensures
            r@ == transport_error_text(*self),
    {
        let mut s = String::new();
        match self {
            TransportError::UnknownPeer(id) => {
                s.append("Unknown peer: ");
                let t = id.to_string();
                s.append(t.as_str());
            },
            TransportError::ChannelClosed(id) => {
                s.append("Channel closed for peer: ");
                let t = id.to_string();
                s.append(t.as_str());
            },
            TransportError::ChannelFull(id) => {
                s.append("Channel full for peer: ");
                let t = id.to_string();
                s.append(t.as_str());
            },
            TransportError::ConnectionFailed(id, reason) => {
                s.append("Connection failed to ");
                let t = id.to_string();
                s.append(t.as_str());
                s.append(": ");
                s.append(reason.as_str());
            },
        }
        assert(s@ =~= transport_error_text(*self));
        s
    }
}

/// The gRPC status codes that errors are answered with.
#[derive(Debug, Clone, Copy, PartialEq, Eq, Structural)]
pub enum StatusCode {
    /// The client sent an invalid argument.
    InvalidArgument,
    /// The requested entity was not found.
    NotFound,
    /// The entity already exists.
    AlreadyExists,
    /// A resource has been exhausted.
    ResourceExhausted,
    /// The system is not in a state required for the operation.
    FailedPrecondition,
    /// The service is unavailable; retrying (elsewhere) may succeed.
    Unavailable,
    /// The deadline expired.
    DeadlineExceeded,
    /// The operation was aborted by a conflict.
    Aborted,
    /// The operation was cancelled.
    Cancelled,
    /// Unrecoverable data loss or corruption.
    DataLoss,
    /// An internal error.
    Internal,
}

/// The status code an error is answered with: invalid input, missing or
/// existing vectors, exhausted capacity and failed preconditions map to
/// their own codes; leadership and reachability errors to `Unavailable`;
/// conflicts to `Aborted`; storage corruption to `DataLoss`; the rest to
/// `Internal`.
pub open spec fn status_code_of(e: VajraError) -> StatusCode {
    match e {
        VajraError::DimensionMismatch { .. } => StatusCode::InvalidArgument,
        VajraError::InvalidSearchParams { .. } => StatusCode::InvalidArgument,
        VajraError::Configuration { .. } => StatusCode::InvalidArgument,
        VajraError::VectorNotFound { .. } => StatusCode::NotFound,
        VajraError::VectorAlreadyExists { .. } => StatusCode::AlreadyExists,
        VajraError::CapacityExceeded { .. } => StatusCode::ResourceExhausted,
        VajraError::EmptyIndex => StatusCode::FailedPrecondition,
        VajraError::LogCompacted { .. } => StatusCode::FailedPrecondition,
        VajraError::NotLeader { .. } => StatusCode::Unavailable,
        VajraError::NoQuorum { .. } => StatusCode::Unavailable,
        VajraError::NodeUnreachable { .. } => StatusCode::Unavailable,
        VajraError::ConnectionFailed { .. } => StatusCode::Unavailable,
        VajraError::Timeout { .. } => StatusCode::DeadlineExceeded,
        VajraError::TermOutdated { .. } => StatusCode::Aborted,
        VajraError::LogConflict { .. } => StatusCode::Aborted,
        VajraError::ProposalRejected { .. } => StatusCode::Aborted,
        VajraError::NodeIdConflict { .. } => StatusCode::Aborted,
        VajraError::Cancelled => StatusCode::Cancelled,
        VajraError::ShuttingDown => StatusCode::Cancelled,
        VajraError::WalCorruption { .. } => StatusCode::DataLoss,
        VajraError::ChecksumMismatch { .. } => StatusCode::DataLoss,
        VajraError::Io { .. } => StatusCode::Internal,
        VajraError::Serialization { .. } => StatusCode::Internal,
        VajraError::Snapshot { .. } => StatusCode::Internal,
        VajraError::Transport { .. } => StatusCode::Internal,
        VajraError::Internal { .. } => StatusCode::Internal,
    }
}

impl VajraError {
    /// The gRPC status code this error is answered with.
    pub fn status_code(&self) -> (r: StatusCode)
        ensures
            r == status_code_of(*self),
    {
        match self {
            VajraError::DimensionMismatch { .. } => StatusCode::InvalidArgument,
            VajraError::InvalidSearchParams { .. } => StatusCode::InvalidArgument,
            VajraError::Configuration { .. } => StatusCode::InvalidArgument,
            VajraError::VectorNotFound { .. } => StatusCode::NotFound,
            VajraError::VectorAlreadyExists { .. } => StatusCode::AlreadyExists,
            VajraError::CapacityExceeded { .. } => StatusCode::ResourceExhausted,
            VajraError::EmptyIndex => StatusCode::FailedPrecondition,
            VajraError::LogCompacted { .. } => StatusCode::FailedPrecondition,
            VajraError::NotLeader { .. } => StatusCode::Unavailable,
            VajraError::NoQuorum { .. } => StatusCode::Unavailable,
            VajraError::NodeUnreachable { .. } => StatusCode::Unavailable,
            VajraError::ConnectionFailed { .. } => StatusCode::Unavailable,
            VajraError::Timeout { .. } => StatusCode::DeadlineExceeded,
            VajraError::TermOutdated { .. } => StatusCode::Aborted,
            VajraError::LogConflict { .. } => StatusCode::Aborted,
            VajraError::ProposalRejected { .. } => StatusCode::Aborted,
            VajraError::NodeIdConflict { .. } => StatusCode::Aborted,
            VajraError::Cancelled => StatusCode::Cancelled,
            VajraError::ShuttingDown => StatusCode::Cancelled,
            VajraError::WalCorruption { .. } => StatusCode::DataLoss,
            VajraError::ChecksumMismatch { .. } => StatusCode::DataLoss,
            VajraError::Io { .. } => StatusCode::Internal,
            VajraError::Serialization { .. } => StatusCode::Internal,
            VajraError::Snapshot { .. } => StatusCode::Internal,
            VajraError::Transport { .. } => StatusCode::Internal,
            VajraError::Internal { .. } => StatusCode::Internal,
        }
    }
}

/// The status an error is answered with when it arose in `context`: the
/// error's code, and its text after the context and `": "`.
pub fn status_with_context_parts(err: &VajraError, context: &str) -> (r: (StatusCode, String))
    ensures
        r.0 == status_code_of(*err),
        !text_ends_outside(*err) ==> r.1@ == context@ + ": "@ + error_text(*err),
        text_ends_outside(*err) ==> (context@ + ": "@ + error_text(*err)).is_prefix_of(r.1@),
{
    let code = err.status_code();
    let mut s = String::new();
    s.append(context);
    s.append(": ");
    let ghost head = s@;
    let m = err.message();
    s.append(m.as_str());
    proof {
        assert(s@ =~= head + m@);
        if text_ends_outside(*err) {
            let p = error_text(*err);
            assert((head + p) =~= s@.subrange(0, (head + p).len() as int));
        }
    }
    (code, s)
}

/// The gRPC server handle.
pub struct VajraServer {
    _private: (),
}

impl VajraServer {
    /// The state of a server that has just been created.
    pub closed spec fn initial() -> Self {
        VajraServer { _private: () }
    }

    /// Create a new server.
    pub fn new() -> (r: Self)
        ensures
            r == VajraServer::initial(),
    {
        VajraServer { _private: () }
    }
}

impl Default for VajraServer {
    fn default() -> (r: Self)
        ensures
            r == VajraServer::initial(),
    {
        VajraServer::new()
    }
}

/// The delay before the next connection attempt: twice the current one, at
/// most `max_ms`.
pub fn next_backoff(current_ms: u64, max_ms: u64) -> (r: u64)
    ensures
        r == (if 2 * current_ms <= max_ms {
            2 * current_ms
        } else {
            max_ms as int
        }),
{
    if current_ms > max_ms / 2 {
        max_ms
    } else {
        current_ms * 2
    }
}

} // verus!
