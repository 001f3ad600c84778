//! Raft protocol messages.

use crate::types::NodeId;
use vstd::prelude::*;

verus! {

/// RequestVote RPC - sent by candidates to gather votes.
#[derive(Debug, Clone, Copy, PartialEq, Eq, Structural)]
pub struct RequestVote {
    /// Candidate's term.
    pub term: u64,
    /// Candidate requesting vote.
    pub candidate_id: NodeId,
    /// Index of candidate's last log entry.
    pub last_log_index: u64,
    /// Term of candidate's last log entry.
    pub last_log_term: u64,
}

/// RequestVote RPC response.
#[derive(Debug, Clone, Copy, PartialEq, Eq, Structural)]
pub struct RequestVoteResponse {
    /// Current term, for candidate to update itself.
    pub term: u64,
    /// True if candidate received vote.
    pub vote_granted: bool,
}

/// PreVote RPC - sent before RequestVote to check if an election would succeed.
#[derive(Debug, Clone, Copy, PartialEq, Eq, Structural)]
pub struct PreVote {
    /// Candidate's term (would be next term if elected).
    pub term: u64,
    /// Candidate requesting pre-vote.
    pub candidate_id: NodeId,
    /// Index of candidate's last log entry.
    pub last_log_index: u64,
    /// Term of candidate's last log entry.
    pub last_log_term: u64,
}

/// PreVote RPC response.
#[derive(Debug, Clone, Copy, PartialEq, Eq, Structural)]
pub struct PreVoteResponse {
    /// Current term.
    pub term: u64,
    /// True if candidate would receive vote.
    pub vote_granted: bool,
}

/// Log entry data for network transfer: the entry's term, index and layout.
#[derive(Debug)]
pub struct LogEntryData {
    /// The term when this entry was created.
    pub term: u64,
    /// The log index of this entry.
    pub index: u64,
    /// The entry's layout (see [`crate::wal::entry`]).
    pub data: Vec<u8>,
}

/// The value of a [`LogEntryData`].
pub struct LogEntryDataModel {
    pub term: u64,
    pub index: u64,
    pub data: Seq<u8>,
}

impl View for LogEntryData {
    type V = LogEntryDataModel;

    open spec fn view(&self) -> LogEntryDataModel {
        LogEntryDataModel { term: self.term, index: self.index, data: self.data@ }
    }
}

/// AppendEntries RPC - sent by the leader for log replication and heartbeats.
#[derive(Debug)]
pub struct AppendEntries {
    /// Leader's term.
    pub term: u64,
    /// Leader ID so follower can redirect clients.
    pub leader_id: NodeId,
    /// Index of log entry immediately preceding new ones.
    pub prev_log_index: u64,
    /// Term of prev_log_index entry.
    pub prev_log_term: u64,
    /// Log entries to store (empty for heartbeat).
    pub entries: Vec<LogEntryData>,
    /// Leader's commit index.
    pub leader_commit: u64,
}

/// The value of an [`AppendEntries`].
pub struct AppendEntriesModel {
    pub term: u64,
    pub leader_id: NodeId,
    pub prev_log_index: u64,
    pub prev_log_term: u64,
    pub entries: Seq<LogEntryDataModel>,
    pub leader_commit: u64,
}

impl View for AppendEntries {
    type V = AppendEntriesModel;

    open spec fn view(&self) -> AppendEntriesModel {
        AppendEntriesModel {
            term: self.term,
            leader_id: self.leader_id,
            prev_log_index: self.prev_log_index,
            prev_log_term: self.prev_log_term,
            entries: self.entries@.map_values(|d: LogEntryData| d@),
            leader_commit: self.leader_commit,
        }
    }
}

/// AppendEntries RPC response.
#[derive(Debug, Clone, Copy, PartialEq, Eq, Structural)]
pub struct AppendEntriesResponse {
    /// Current term, for leader to update itself.
    pub term: u64,
    /// True if follower contained entry matching prev_log_index and prev_log_term.
    pub success: bool,
    /// Last index replicated if success, or 0 on failure.
    pub match_index: u64,
}

/// Wrapper for all Raft messages.
#[derive(Debug)]
pub enum RaftMessage {
    /// RequestVote request.
    RequestVote(RequestVote),
    /// RequestVote response.
    RequestVoteResponse(RequestVoteResponse),
    /// PreVote request.
    PreVote(PreVote),
    /// PreVote response.
    PreVoteResponse(PreVoteResponse),
    /// AppendEntries request.
    AppendEntries(AppendEntries),
    /// AppendEntries response.
    AppendEntriesResponse(AppendEntriesResponse),
}

/// The value of a [`RaftMessage`].
pub enum RaftMessageModel {
    RequestVote(RequestVote),
    RequestVoteResponse(RequestVoteResponse),
    PreVote(PreVote),
    PreVoteResponse(PreVoteResponse),
    AppendEntries(AppendEntriesModel),
    AppendEntriesResponse(AppendEntriesResponse),
}

impl View for RaftMessage {
    type V = RaftMessageModel;

    open spec fn view(&self) -> RaftMessageModel {
        match self {
            RaftMessage::RequestVote(m) => RaftMessageModel::RequestVote(*m),
            RaftMessage::RequestVoteResponse(m) => RaftMessageModel::RequestVoteResponse(*m),
            RaftMessage::PreVote(m) => RaftMessageModel::PreVote(*m),
            RaftMessage::PreVoteResponse(m) => RaftMessageModel::PreVoteResponse(*m),
            RaftMessage::AppendEntries(m) => RaftMessageModel::AppendEntries(m@),
            RaftMessage::AppendEntriesResponse(m) => RaftMessageModel::AppendEntriesResponse(*m),
        }
    }
}

} // verus!
