//! Raft consensus: state, messages, log and the node state machine.

pub mod cluster;
pub mod log;
pub mod matching;
pub mod messages;
pub mod node;
pub mod protocol;
pub mod replication;
pub mod state;

use vstd::prelude::*;

verus! {

/// Raft role.
#[derive(Debug, Clone, Copy, PartialEq, Eq, Structural)]
pub enum Role {
    /// Passive node that responds to RPCs from leaders and candidates.
    Follower,
    /// Node seeking election to become leader.
    Candidate,
    /// Active node that handles all client requests.
    Leader,
}

} // verus!
