//! The error type shared by every part of the system.

use crate::text::{decimal, hex, push_digits};
use crate::types::{node_id_text, vector_id_text, NodeId, VectorId};
use vstd::prelude::*;

verus! {

/// An I/O error from the standard library, carried by [`VajraError::Io`].
#[verifier::external_type_specification]
#[verifier::external_body]
pub struct ExIoError(std::io::Error);

/// The main error type for Vajra operations.
#[derive(Debug)]
#[allow(inconsistent_fields)]
pub enum VajraError {
    /// Vector dimension does not match the index configuration.
    DimensionMismatch { expected: usize, actual: usize },
    /// The requested vector was not found in the index.
    VectorNotFound { id: VectorId },
    /// The index has reached its maximum capacity.
    CapacityExceeded { current: usize, max: usize },
    /// A vector with this ID already exists.
    VectorAlreadyExists { id: VectorId },
    /// The index is empty and cannot perform searches.
    EmptyIndex,
    /// Invalid search parameters were provided.
    InvalidSearchParams { reason: String },
    /// WAL corruption detected at a specific offset.
    WalCorruption { offset: u64, reason: String },
    /// Checksum validation failed.
    ChecksumMismatch { expected: u32, actual: u32 },
    /// An I/O operation failed.
    Io { context: String, source: std::io::Error },
    /// Serialization/deserialization failed.
    Serialization { context: String, message: String },
    /// Snapshot operation failed.
    Snapshot { reason: String },
    /// This node is not the leader and cannot process write requests.
    NotLeader { leader: Option<NodeId> },
    /// The requested log entry has been compacted and is no longer available.
    LogCompacted { requested: u64, available: u64 },
    /// The term in the request is outdated.
    TermOutdated { current: u64, received: u64 },
    /// A proposal was rejected (e.g., due to leadership change).
    ProposalRejected { reason: String },
    /// Log entry conflict during replication.
    LogConflict { index: u64, expected_term: u64, actual_term: u64 },
    /// A node is unreachable after multiple attempts.
    NodeUnreachable { node_id: NodeId, attempts: u32 },
    /// Operation timed out.
    Timeout { duration: core::time::Duration },
    /// The cluster does not have enough nodes for quorum.
    NoQuorum { available: usize, required: usize },
    /// Connection to a peer failed.
    ConnectionFailed { endpoint: String, reason: String },
    /// Transport error.
    Transport { message: String },
    /// Invalid configuration.
    Configuration { message: String },
    /// Node ID conflict.
    NodeIdConflict { id: NodeId },
    /// An internal invariant was violated.
    Internal { message: String },
    /// The operation was cancelled.
    Cancelled,
    /// The system is shutting down.
    ShuttingDown,
}

/// Errors that indicate a condition worth retrying.
pub open spec fn spec_retriable(e: VajraError) -> bool {
    ||| e is NotLeader
    ||| e is NodeUnreachable
    ||| e is Timeout
    ||| e is NoQuorum
    ||| e is ConnectionFailed
}

/// Errors that indicate an unrecoverable condition.
pub open spec fn spec_fatal(e: VajraError) -> bool {
    ||| e is WalCorruption
    ||| e is ChecksumMismatch
    ||| e is Internal
}

/// The code under which an error is counted and logged.
pub open spec fn spec_error_code(e: VajraError) -> Seq<char> {
    match e {
        VajraError::DimensionMismatch { .. } => "DIMENSION_MISMATCH"@,
        VajraError::VectorNotFound { .. } => "VECTOR_NOT_FOUND"@,
        VajraError::CapacityExceeded { .. } => "CAPACITY_EXCEEDED"@,
        VajraError::VectorAlreadyExists { .. } => "VECTOR_EXISTS"@,
        VajraError::EmptyIndex => "EMPTY_INDEX"@,
        VajraError::InvalidSearchParams { .. } => "INVALID_PARAMS"@,
        VajraError::WalCorruption { .. } => "WAL_CORRUPTION"@,
        VajraError::ChecksumMismatch { .. } => "CHECKSUM_MISMATCH"@,
        VajraError::Io { .. } => "IO_ERROR"@,
        VajraError::Serialization { .. } => "SERIALIZATION_ERROR"@,
        VajraError::Snapshot { .. } => "SNAPSHOT_ERROR"@,
        VajraError::NotLeader { .. } => "NOT_LEADER"@,
        VajraError::LogCompacted { .. } => "LOG_COMPACTED"@,
        VajraError::TermOutdated { .. } => "TERM_OUTDATED"@,
        VajraError::ProposalRejected { .. } => "PROPOSAL_REJECTED"@,
        VajraError::LogConflict { .. } => "LOG_CONFLICT"@,
        VajraError::NodeUnreachable { .. } => "NODE_UNREACHABLE"@,
        VajraError::Timeout { .. } => "TIMEOUT"@,
        VajraError::NoQuorum { .. } => "NO_QUORUM"@,
        VajraError::ConnectionFailed { .. } => "CONNECTION_FAILED"@,
        VajraError::Transport { .. } => "TRANSPORT_ERROR"@,
        VajraError::Configuration { .. } => "CONFIG_ERROR"@,
        VajraError::NodeIdConflict { .. } => "NODE_ID_CONFLICT"@,
        VajraError::Internal { .. } => "INTERNAL_ERROR"@,
        VajraError::Cancelled => "CANCELLED"@,
        VajraError::ShuttingDown => "SHUTTING_DOWN"@,
    }
}

/// The position of an error's variant in the declaration, from 0.
pub open spec fn variant_index(e: VajraError) -> int {
    match e {
        VajraError::DimensionMismatch { .. } => 0,
        VajraError::VectorNotFound { .. } => 1,
        VajraError::CapacityExceeded { .. } => 2,
        VajraError::VectorAlreadyExists { .. } => 3,
        VajraError::EmptyIndex => 4,
        VajraError::InvalidSearchParams { .. } => 5,
        VajraError::WalCorruption { .. } => 6,
        VajraError::ChecksumMismatch { .. } => 7,
        VajraError::Io { .. } => 8,
        VajraError::Serialization { .. } => 9,
        VajraError::Snapshot { .. } => 10,
        VajraError::NotLeader { .. } => 11,
        VajraError::LogCompacted { .. } => 12,
        VajraError::TermOutdated { .. } => 13,
        VajraError::ProposalRejected { .. } => 14,
        VajraError::LogConflict { .. } => 15,
        VajraError::NodeUnreachable { .. } => 16,
        VajraError::Timeout { .. } => 17,
        VajraError::NoQuorum { .. } => 18,
        VajraError::ConnectionFailed { .. } => 19,
        VajraError::Transport { .. } => 20,
        VajraError::Configuration { .. } => 21,
        VajraError::NodeIdConflict { .. } => 22,
        VajraError::Internal { .. } => 23,
        VajraError::Cancelled => 24,
        VajraError::ShuttingDown => 25,
    }
}

/// A character that error codes are made of: `A` to `Z` and `_`.
pub open spec fn code_char(c: char) -> bool {
    ('A' <= c && c <= 'Z') || c == '_'
}

/// The length, first two and last characters of a code.
pub open spec fn code_signature(s: Seq<char>) -> (int, char, char, char) {
    (s.len() as int, s[0], s[1], s[s.len() - 1])
}

/// The signature of each variant's code.
spec fn variant_signature(e: VajraError) -> (int, char, char, char) {
    match e {
        VajraError::DimensionMismatch { .. } => (18, 'D', 'I', 'H'),
        VajraError::VectorNotFound { .. } => (16, 'V', 'E', 'D'),
        VajraError::CapacityExceeded { .. } => (17, 'C', 'A', 'D'),
        VajraError::VectorAlreadyExists { .. } => (13, 'V', 'E', 'S'),
        VajraError::EmptyIndex => (11, 'E', 'M', 'X'),
        VajraError::InvalidSearchParams { .. } => (14, 'I', 'N', 'S'),
        VajraError::WalCorruption { .. } => (14, 'W', 'A', 'N'),
        VajraError::ChecksumMismatch { .. } => (17, 'C', 'H', 'H'),
        VajraError::Io { .. } => (8, 'I', 'O', 'R'),
        VajraError::Serialization { .. } => (19, 'S', 'E', 'R'),
        VajraError::Snapshot { .. } => (14, 'S', 'N', 'R'),
        VajraError::NotLeader { .. } => (10, 'N', 'O', 'R'),
        VajraError::LogCompacted { .. } => (13, 'L', 'O', 'D'),
        VajraError::TermOutdated { .. } => (13, 'T', 'E', 'D'),
        VajraError::ProposalRejected { .. } => (17, 'P', 'R', 'D'),
        VajraError::LogConflict { .. } => (12, 'L', 'O', 'T'),
        VajraError::NodeUnreachable { .. } => (16, 'N', 'O', 'E'),
        VajraError::Timeout { .. } => (7, 'T', 'I', 'T'),
        VajraError::NoQuorum { .. } => (9, 'N', 'O', 'M'),
        VajraError::ConnectionFailed { .. } => (17, 'C', 'O', 'D'),
        VajraError::Transport { .. } => (15, 'T', 'R', 'R'),
        VajraError::Configuration { .. } => (12, 'C', 'O', 'R'),
        VajraError::NodeIdConflict { .. } => (16, 'N', 'O', 'T'),
        VajraError::Internal { .. } => (14, 'I', 'N', 'R'),
        VajraError::Cancelled => (9, 'C', 'A', 'D'),
        VajraError::ShuttingDown => (13, 'S', 'H', 'N'),
    }
}

proof fn lemma_code_shape(e: VajraError)
    ensures
        spec_error_code(e).len() >= 2,
        code_signature(spec_error_code(e)) == variant_signature(e),
        forall|i: int| 0 <= i < spec_error_code(e).len() ==> code_char(#[trigger] spec_error_code(e)[i]),
{
    match e {
        VajraError::DimensionMismatch { .. } => {
            reveal_strlit("DIMENSION_MISMATCH");
        },
        VajraError::VectorNotFound { .. } => {
            reveal_strlit("VECTOR_NOT_FOUND");
        },
        VajraError::CapacityExceeded { .. } => {
            reveal_strlit("CAPACITY_EXCEEDED");
        },
        VajraError::VectorAlreadyExists { .. } => {
            reveal_strlit("VECTOR_EXISTS");
        },
        VajraError::EmptyIndex => {
            reveal_strlit("EMPTY_INDEX");
        },
        VajraError::InvalidSearchParams { .. } => {
            reveal_strlit("INVALID_PARAMS");
        },
        VajraError::WalCorruption { .. } => {
            reveal_strlit("WAL_CORRUPTION");
        },
        VajraError::ChecksumMismatch { .. } => {
            reveal_strlit("CHECKSUM_MISMATCH");
        },
        VajraError::Io { .. } => {
            reveal_strlit("IO_ERROR");
        },
        VajraError::Serialization { .. } => {
            reveal_strlit("SERIALIZATION_ERROR");
        },
        VajraError::Snapshot { .. } => {
            reveal_strlit("SNAPSHOT_ERROR");
        },
        VajraError::NotLeader { .. } => {
            reveal_strlit("NOT_LEADER");
        },
        VajraError::LogCompacted { .. } => {
            reveal_strlit("LOG_COMPACTED");
        },
        VajraError::TermOutdated { .. } => {
            reveal_strlit("TERM_OUTDATED");
        },
        VajraError::ProposalRejected { .. } => {
            reveal_strlit("PROPOSAL_REJECTED");
        },
        VajraError::LogConflict { .. } => {
            reveal_strlit("LOG_CONFLICT");
        },
        VajraError::NodeUnreachable { .. } => {
            reveal_strlit("NODE_UNREACHABLE");
        },
        VajraError::Timeout { .. } => {
            reveal_strlit("TIMEOUT");
        },
        VajraError::NoQuorum { .. } => {
            reveal_strlit("NO_QUORUM");
        },
        VajraError::ConnectionFailed { .. } => {
            reveal_strlit("CONNECTION_FAILED");
        },
        VajraError::Transport { .. } => {
            reveal_strlit("TRANSPORT_ERROR");
        },
        VajraError::Configuration { .. } => {
            reveal_strlit("CONFIG_ERROR");
        },
        VajraError::NodeIdConflict { .. } => {
            reveal_strlit("NODE_ID_CONFLICT");
        },
        VajraError::Internal { .. } => {
            reveal_strlit("INTERNAL_ERROR");
        },
        VajraError::Cancelled => {
            reveal_strlit("CANCELLED");
        },
        VajraError::ShuttingDown => {
            reveal_strlit("SHUTTING_DOWN");
        },
    }
}

/// Law: an error's code depends on its variant alone, the variants have
/// distinct codes, and every code is a non-empty word of `A` to `Z` and `_`.
pub proof fn lemma_error_codes_distinct(e1: VajraError, e2: VajraError)
    ensures
        (spec_error_code(e1) == spec_error_code(e2)) <==> (variant_index(e1) == variant_index(e2)),
        spec_error_code(e1).len() > 0,
        forall|i: int| 0 <= i < spec_error_code(e1).len() ==> code_char(#[trigger] spec_error_code(e1)[i]),
{
    lemma_code_shape(e1);
    lemma_code_shape(e2);
    if spec_error_code(e1) == spec_error_code(e2) {
        assert(variant_signature(e1) == variant_signature(e2));
    }
}

impl VajraError {
    /// Create an IO error with context.
    pub fn io(context: String, source: std::io::Error) -> (r: Self)
        ensures
            r matches VajraError::Io { context: c, source: s } && c@ == context@ && s == source,
    {
        VajraError::Io { context, source }
    }

    /// Create a serialization error.
    pub fn serialization(context: String, message: String) -> (r: Self)
        ensures
            r matches VajraError::Serialization { context: c, message: m } && c@ == context@ && m@
                == message@,
    {
        VajraError::Serialization { context, message }
    }

    /// Create an internal error.
    pub fn internal(message: String) -> (r: Self)
        ensures
            r matches VajraError::Internal { message: m } && m@ == message@,
    {
        VajraError::Internal { message }
    }

    /// Check if this error indicates a retriable condition.
    pub fn is_retriable(&self) -> (r: bool)
        ensures
            r == spec_retriable(*self),
    {
        match self {
            VajraError::NotLeader { .. } | VajraError::NodeUnreachable { .. }
            | VajraError::Timeout { .. } | VajraError::NoQuorum { .. }
            | VajraError::ConnectionFailed { .. } => true,
            _ => false,
        }
    }

    /// Check if this error indicates a fatal/unrecoverable condition.
    pub fn is_fatal(&self) -> (r: bool)
        ensures
            r == spec_fatal(*self),
    {
        match self {
            VajraError::WalCorruption { .. } | VajraError::ChecksumMismatch { .. }
            | VajraError::Internal { .. } => true,
            _ => false,
        }
    }

    /// Get an error code suitable for metrics/logging.
    pub fn error_code(&self) -> (r: &'static str)
        ensures
            r@ == spec_error_code(*self),
    {
        match self {
            VajraError::DimensionMismatch { .. } => "DIMENSION_MISMATCH",
            VajraError::VectorNotFound { .. } => "VECTOR_NOT_FOUND",
            VajraError::CapacityExceeded { .. } => "CAPACITY_EXCEEDED",
            VajraError::VectorAlreadyExists { .. } => "VECTOR_EXISTS",
            VajraError::EmptyIndex => "EMPTY_INDEX",
            VajraError::InvalidSearchParams { .. } => "INVALID_PARAMS",
            VajraError::WalCorruption { .. } => "WAL_CORRUPTION",
            VajraError::ChecksumMismatch { .. } => "CHECKSUM_MISMATCH",
            VajraError::Io { .. } => "IO_ERROR",
            VajraError::Serialization { .. } => "SERIALIZATION_ERROR",
            VajraError::Snapshot { .. } => "SNAPSHOT_ERROR",
            VajraError::NotLeader { .. } => "NOT_LEADER",
            VajraError::LogCompacted { .. } => "LOG_COMPACTED",
            VajraError::TermOutdated { .. } => "TERM_OUTDATED",
            VajraError::ProposalRejected { .. } => "PROPOSAL_REJECTED",
            VajraError::LogConflict { .. } => "LOG_CONFLICT",
            VajraError::NodeUnreachable { .. } => "NODE_UNREACHABLE",
            VajraError::Timeout { .. } => "TIMEOUT",
            VajraError::NoQuorum { .. } => "NO_QUORUM",
            VajraError::ConnectionFailed { .. } => "CONNECTION_FAILED",
            VajraError::Transport { .. } => "TRANSPORT_ERROR",
            VajraError::Configuration { .. } => "CONFIG_ERROR",
            VajraError::NodeIdConflict { .. } => "NODE_ID_CONFLICT",
            VajraError::Internal { .. } => "INTERNAL_ERROR",
            VajraError::Cancelled => "CANCELLED",
            VajraError::ShuttingDown => "SHUTTING_DOWN",
        }
    }
}


/// Calls `ToString::to_string` on an I/O error. Nothing is claimed of the
/// text: for an error from the operating system it comes from the system.
#[verifier::external_body]
fn io_error_text(e: &std::io::Error) -> String {
    e.to_string()
}

/// Calls `format!("{:?}", d)`, the `Debug` text of a duration. Nothing is
/// claimed of the text.
#[verifier::external_body]
fn duration_text(d: &core::time::Duration) -> String {
    format!("{:?}", d)
}

/// The `Debug` text of a node id: `NodeId(` and its decimal value and `)`.
pub open spec fn node_id_debug(id: NodeId) -> Seq<char> {
    "NodeId("@ + decimal(id.0 as nat) + ")"@
}

/// The `Debug` text of an optional node id.
pub open spec fn leader_debug(l: Option<NodeId>) -> Seq<char> {
    match l {
        Some(id) => "Some("@ + node_id_debug(id) + ")"@,
        None => "None"@,
    }
}

/// Errors whose text ends with the text of a value from outside: the I/O
/// error's own text, or the debug text of the duration.
pub open spec fn text_ends_outside(e: VajraError) -> bool {
    e is Io || e is Timeout
}

/// The display text of an error; for those whose text ends with the text
/// of an outside value, the text before it.
pub open spec fn error_text(e: VajraError) -> Seq<char> {
    match e {
        VajraError::DimensionMismatch { expected, actual } => "vector dimension mismatch: expected "@
            + decimal(expected as nat) + ", got "@ + decimal(actual as nat),
        VajraError::VectorNotFound { id } => "vector not found: "@ + vector_id_text(id),
        VajraError::CapacityExceeded { current, max } => "index capacity exceeded: "@ + decimal(
            current as nat,
        ) + "/"@ + decimal(max as nat),
        VajraError::VectorAlreadyExists { id } => "vector already exists: "@ + vector_id_text(id),
        VajraError::EmptyIndex => "index is empty"@,
        VajraError::InvalidSearchParams { reason } => "invalid search parameters: "@ + reason@,
        VajraError::WalCorruption { offset, reason } => "WAL corruption at offset "@ + decimal(
            offset as nat,
        ) + ": "@ + reason@,
        VajraError::ChecksumMismatch { expected, actual } => "checksum mismatch: expected 0x"@ + hex(
            expected as nat,
        ) + ", got 0x"@ + hex(actual as nat),
        VajraError::Io { context, .. } => "IO error: "@ + context@ + ": "@,
        VajraError::Serialization { context, message } => "serialization error: "@ + context@
            + ": "@ + message@,
        VajraError::Snapshot { reason } => "snapshot error: "@ + reason@,
        VajraError::NotLeader { leader } => "not leader: current leader is "@ + leader_debug(leader),
        VajraError::LogCompacted { requested, available } => "log compacted: requested index "@
            + decimal(requested as nat) + ", first available "@ + decimal(available as nat),
        VajraError::TermOutdated { current, received } => "term outdated: current "@ + decimal(
            current as nat,
        ) + ", received "@ + decimal(received as nat),
        VajraError::ProposalRejected { reason } => "proposal rejected: "@ + reason@,
        VajraError::LogConflict { index, expected_term, actual_term } => "log conflict at index "@
            + decimal(index as nat) + ": expected term "@ + decimal(expected_term as nat)
            + ", got "@ + decimal(actual_term as nat),
        VajraError::NodeUnreachable { node_id, attempts } => "node unreachable: "@ + node_id_text(
            node_id,
        ) + " after "@ + decimal(attempts as nat) + " attempts"@,
        VajraError::Timeout { .. } => "request timeout after "@,
        VajraError::NoQuorum { available, required } => "cluster has no quorum: "@ + decimal(
            available as nat,
        ) + "/"@ + decimal(required as nat) + " nodes"@,
        VajraError::ConnectionFailed { endpoint, reason } => "connection failed to "@ + endpoint@
            + ": "@ + reason@,
        VajraError::Transport { message } => "transport error: "@ + message@,
        VajraError::Configuration { message } => "configuration error: "@ + message@,
        VajraError::NodeIdConflict { id } => "node ID "@ + node_id_text(id)
            + " already exists in cluster"@,
        VajraError::Internal { message } => "internal error: "@ + message@,
        VajraError::Cancelled => "operation cancelled"@,
        VajraError::ShuttingDown => "system shutting down"@,
    }
}

/// Append the decimal text of `n` to `s`.
fn push_dec(s: &mut String, n: u64)
    ensures
        final(s)@ == old(s)@ + decimal(n as nat),
{
    push_digits(s, n, 10);
}

/// Append the display text of a node id to `s`.
fn push_node_id(s: &mut String, id: NodeId)
    ensures
        final(s)@ == old(s)@ + node_id_text(id),
{
    let t = id.to_string();
    s.append(t.as_str());
}

impl VajraError {
    /// The display text of this error.
    pub fn message(&self) -> (r: String)
        ensures
            !text_ends_outside(*self) ==> r@ == error_text(*self),
            text_ends_outside(*self) ==> error_text(*self).is_prefix_of(r@),
    {
        let mut s = String::new();
        match self {
            VajraError::DimensionMismatch { expected, actual } => {
                s.append("vector dimension mismatch: expected ");
                push_dec(&mut s, *expected as u64);
                s.append(", got ");
                push_dec(&mut s, *actual as u64);
            },
            VajraError::VectorNotFound { id } => {
                s.append("vector not found: ");
                let t = id.to_string();
                s.append(t.as_str());
            },
            VajraError::CapacityExceeded { current, max } => {
                s.append("index capacity exceeded: ");
                push_dec(&mut s, *current as u64);
                s.append("/");
                push_dec(&mut s, *max as u64);
            },
            VajraError::VectorAlreadyExists { id } => {
                s.append("vector already exists: ");
                let t = id.to_string();
                s.append(t.as_str());
            },
            VajraError::EmptyIndex => {
                s.append("index is empty");
            },
            VajraError::InvalidSearchParams { reason } => {
                s.append("invalid search parameters: ");
                s.append(reason.as_str());
            },
            VajraError::WalCorruption { offset, reason } => {
                s.append("WAL corruption at offset ");
                push_dec(&mut s, *offset);
                s.append(": ");
                s.append(reason.as_str());
            },
            VajraError::ChecksumMismatch { expected, actual } => {
                s.append("checksum mismatch: expected 0x");
                push_digits(&mut s, *expected as u64, 16);
                s.append(", got 0x");
                push_digits(&mut s, *actual as u64, 16);
            },
            VajraError::Io { context, source } => {
                s.append("IO error: ");
                s.append(context.as_str());
                s.append(": ");
                let ghost before = s@;
                let t = io_error_text(source);
                s.append(t.as_str());
                assert(before.is_prefix_of(s@)) by {
                    assert(s@.subrange(0, before.len() as int) =~= before);
                }
            },
            VajraError::Serialization { context, message } => {
                s.append("serialization error: ");
                s.append(context.as_str());
                s.append(": ");
                s.append(message.as_str());
            },
            VajraError::Snapshot { reason } => {
                s.append("snapshot error: ");
                s.append(reason.as_str());
            },
            VajraError::NotLeader { leader } => {
                s.append("not leader: current leader is ");
                match leader {
                    Some(id) => {
                        s.append("Some(NodeId(");
                        push_dec(&mut s, id.0);
                        s.append("))");
                        proof {
                            reveal_strlit("Some(NodeId(");
                            reveal_strlit("))");
                            reveal_strlit("Some(");
                            reveal_strlit("NodeId(");
                            reveal_strlit(")");
                        }
                    },
                    None => {
                        s.append("None");
                    },
                }
            },
            VajraError::LogCompacted { requested, available } => {
                s.append("log compacted: requested index ");
                push_dec(&mut s, *requested);
                s.append(", first available ");
                push_dec(&mut s, *available);
            },
            VajraError::TermOutdated { current, received } => {
                s.append("term outdated: current ");
                push_dec(&mut s, *current);
                s.append(", received ");
                push_dec(&mut s, *received);
            },
            VajraError::ProposalRejected { reason } => {
                s.append("proposal rejected: ");
                s.append(reason.as_str());
            },
            VajraError::LogConflict { index, expected_term, actual_term } => {
                s.append("log conflict at index ");
                push_dec(&mut s, *index);
                s.append(": expected term ");
                push_dec(&mut s, *expected_term);
                s.append(", got ");
                push_dec(&mut s, *actual_term);
            },
            VajraError::NodeUnreachable { node_id, attempts } => {
                s.append("node unreachable: ");
                push_node_id(&mut s, *node_id);
                s.append(" after ");
                push_dec(&mut s, *attempts as u64);
                s.append(" attempts");
            },
            VajraError::Timeout { duration } => {
                s.append("request timeout after ");
                let ghost before = s@;
                let t = duration_text(duration);
                s.append(t.as_str());
                assert(before.is_prefix_of(s@)) by {
                    assert(s@.subrange(0, before.len() as int) =~= before);
                }
            },
            VajraError::NoQuorum { available, required } => {
                s.append("cluster has no quorum: ");
                push_dec(&mut s, *available as u64);
                s.append("/");
                push_dec(&mut s, *required as u64);
                s.append(" nodes");
            },
            VajraError::ConnectionFailed { endpoint, reason } => {
                s.append("connection failed to ");
                s.append(endpoint.as_str());
                s.append(": ");
                s.append(reason.as_str());
            },
            VajraError::Transport { message } => {
                s.append("transport error: ");
                s.append(message.as_str());
            },
            VajraError::Configuration { message } => {
                s.append("configuration error: ");
                s.append(message.as_str());
            },
            VajraError::NodeIdConflict { id } => {
                s.append("node ID ");
                push_node_id(&mut s, *id);
                s.append(" already exists in cluster");
            },
            VajraError::Internal { message } => {
                s.append("internal error: ");
                s.append(message.as_str());
            },
            VajraError::Cancelled => {
                s.append("operation cancelled");
            },
            VajraError::ShuttingDown => {
                s.append("system shutting down");
            },
        }
        assert(!text_ends_outside(*self) ==> s@ =~= error_text(*self));
        s
    }
}

} // verus!
