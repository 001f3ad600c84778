//! The Raft node: leader election, log replication and commitment, as a
//! state machine driven by clock ticks and received messages.

use crate::config::RaftConfig;
use crate::error::VajraError;
use crate::clock::{elapsed_since, instant_now, whole_millis};
use crate::raft::log::RaftLog;
use crate::raft::matching::{accept_entries, accept_entry, holds_entry, lemma_cut_len, log_contents};
use crate::raft::messages::{
    AppendEntries, AppendEntriesResponse, LogEntryData, PreVote, PreVoteResponse, RaftMessage,
    RaftMessageModel, RequestVote, RequestVoteResponse,
};
use crate::raft::protocol::{
    append_entries_for, append_entries_post, append_entries_response_post, apply_commit, become_leader, request_vote_response_post, broadcast_messages, collected, decoded_entries, entry_data_of,
    alone, campaign, proposed, election_started, grants_pre_vote, grants_vote, leader_commit_entries, leader_committed, pre_vote_requests, pre_vote_response_post, pre_vote_started, index_after, log_extended, model_wf, quiet, quorum, reply,
    request_vote_post, request_votes, step_in_range, step_post, tick_post, timer_reset, RaftNodeModel, ReadyModel,
};
use crate::raft::state::{raised, LeaderState, PersistentState, VolatileState};
use crate::raft::Role;
use crate::types::NodeId;
use crate::wal::entry::{decode_entry, encode_entry, Command, LogEntry, LogEntryModel};
use crate::wal::frame::entries_model;
use crate::wal::log::{entry_for, index_map, last_index_of, WalConfig, WalState, WriteAheadLog};
use rand::Rng;
use vstd::prelude::*;

verus! {

// ---------------------------------------------------------------------------
// Outside calls: the clock and the random election timeout
// ---------------------------------------------------------------------------

/// Calls `rand::thread_rng().gen_range(lo..hi)`, which panics on an empty
/// range and otherwise returns a value in `lo..hi`; the contract claims only
/// that range.
#[verifier::external_body]
fn random_in_range(lo: u64, hi: u64) -> (r: u64)
    requires
        lo < hi,
    ensures
        lo <= r < hi,
{
    rand::thread_rng().gen_range(lo..hi)
}

// ---------------------------------------------------------------------------
// Ready and configuration
// ---------------------------------------------------------------------------

/// What a tick or a message asks the caller to do.
#[derive(Debug)]
pub struct Ready {
    /// Messages to send to other nodes.
    pub messages: Vec<(NodeId, RaftMessage)>,
    /// Entries that have been committed and should be applied.
    pub committed_entries: Vec<LogEntry>,
    /// State changed and should be persisted.
    pub persist_state: bool,
}

/// The values of addressed messages.
pub open spec fn messages_model(ms: Seq<(NodeId, RaftMessage)>) -> Seq<(NodeId, RaftMessageModel)> {
    ms.map_values(|p: (NodeId, RaftMessage)| (p.0, p.1@))
}

impl View for Ready {
    type V = ReadyModel;

    open spec fn view(&self) -> ReadyModel {
        ReadyModel {
            messages: messages_model(self.messages@),
            committed_entries: entries_model(self.committed_entries@),
            persist_state: self.persist_state,
        }
    }
}

impl Default for Ready {
    fn default() -> (r: Self)
        ensures
            r@.messages == Seq::<(NodeId, RaftMessageModel)>::empty(),
            r@.committed_entries == Seq::<LogEntryModel>::empty(),
            !r@.persist_state,
    {
        let r = Ready { messages: Vec::new(), committed_entries: Vec::new(), persist_state: false };
        assert(r@.messages =~= Seq::<(NodeId, RaftMessageModel)>::empty());
        assert(r@.committed_entries =~= Seq::<LogEntryModel>::empty());
        r
    }
}

/// Raft node configuration.
pub struct NodeConfig {
    /// This node's ID.
    pub id: NodeId,
    /// All node IDs in the cluster (including self).
    pub peers: Vec<NodeId>,
    /// Raft protocol configuration.
    pub raft_config: RaftConfig,
    /// WAL configuration.
    pub wal_config: WalConfig,
    /// Enable Pre-Vote extension.
    pub pre_vote_enabled: bool,
}

// ---------------------------------------------------------------------------
// The node and its model
// ---------------------------------------------------------------------------

/// The Raft node state machine.
pub struct RaftNode {
    id: NodeId,
    peers: Vec<NodeId>,
    role: Role,
    persistent: PersistentState,
    volatile: VolatileState,
    leader_state: Option<LeaderState>,
    log: RaftLog,
    election_timeout_min_ms: u64,
    election_timeout_max_ms: u64,
    heartbeat_interval_ms: u64,
    clock: std::time::Instant,
    last_heartbeat_ms: u64,
    election_timeout_ms: u64,
    pre_vote_enabled: bool,
    votes_received: Vec<NodeId>,
    pre_votes_received: Vec<NodeId>,
    leader_id: Option<NodeId>,
}

impl View for RaftNode {
    type V = RaftNodeModel;

    closed spec fn view(&self) -> RaftNodeModel {
        RaftNodeModel {
            id: self.id,
            peers: self.peers@,
            role: self.role,
            persistent: self.persistent,
            volatile: self.volatile,
            leader_state: match self.leader_state {
                Some(ls) => Some((ls.next_index@, ls.match_index@)),
                None => None,
            },
            log: self.log@,
            election_timeout_min_ms: self.election_timeout_min_ms,
            election_timeout_max_ms: self.election_timeout_max_ms,
            heartbeat_interval_ms: self.heartbeat_interval_ms,
            last_heartbeat_ms: self.last_heartbeat_ms,
            election_timeout_ms: self.election_timeout_ms,
            pre_vote_enabled: self.pre_vote_enabled,
            votes: self.votes_received@.to_set(),
            pre_votes: self.pre_votes_received@.to_set(),
            leader_id: self.leader_id,
        }
    }
}

impl RaftNode {
    /// The node's invariant.
    pub closed spec fn wf(&self) -> bool {
        &&& self.log.wf()
        &&& self.peers@.len() < usize::MAX
        &&& self.votes_received@.no_duplicates()
        &&& self.pre_votes_received@.no_duplicates()
        &&& model_wf(self@)
    }

    /// A follower at term 0 with no vote, over the log `wal`, whose election
    /// timeout is drawn from `[min, max)`.
    pub fn new(config: NodeConfig, wal: WriteAheadLog) -> (r: Self)
        requires
            config.raft_config.election_timeout_min_ms < config.raft_config.election_timeout_max_ms,
            config.peers@.len() < usize::MAX,
            wal.wf(),
        ensures
            r.wf(),
            r@.id == config.id,
            r@.peers == config.peers@.filter(|p: NodeId| p != config.id),
            r@.role == Role::Follower,
            r@.persistent == (PersistentState { current_term: 0, voted_for: None }),
            r@.volatile == (VolatileState { commit_index: 0, last_applied: 0 }),
            r@.leader_state is None,
            r@.log == wal@,
            r@.election_timeout_min_ms == config.raft_config.election_timeout_min_ms,
            r@.election_timeout_max_ms == config.raft_config.election_timeout_max_ms,
            r@.heartbeat_interval_ms == config.raft_config.heartbeat_interval_ms,
            r@.last_heartbeat_ms == 0,
            config.raft_config.election_timeout_min_ms <= r@.election_timeout_ms
                < config.raft_config.election_timeout_max_ms,
            r@.pre_vote_enabled == config.pre_vote_enabled,
            r@.votes == Set::<NodeId>::empty(),
            r@.pre_votes == Set::<NodeId>::empty(),
            r@.leader_id is None,
    {
        let mut peers: Vec<NodeId> = Vec::new();
        let mut i: usize = 0;
        while i < config.peers.len()
            invariant
                i <= config.peers@.len(),
                peers@ == config.peers@.subrange(0, i as int).filter(|p: NodeId| p != config.id),
            decreases config.peers.len() - i,
        {
            let p = config.peers[i];
            proof {
                let s1 = config.peers@.subrange(0, i + 1);
                assert(s1 =~= config.peers@.subrange(0, i as int).push(p));
                assert(s1.drop_last() =~= config.peers@.subrange(0, i as int));
                reveal(Seq::filter);
            }
            if p != config.id {
                peers.push(p);
            }
            i = i + 1;
        }
        assert(config.peers@.subrange(0, config.peers@.len() as int) =~= config.peers@);
        let timeout = random_in_range(
            config.raft_config.election_timeout_min_ms,
            config.raft_config.election_timeout_max_ms,
        );
        let node = RaftNode {
            id: config.id,
            peers,
            role: Role::Follower,
            persistent: PersistentState::new(),
            volatile: VolatileState::new(),
            leader_state: None,
            log: RaftLog::new(wal),
            election_timeout_min_ms: config.raft_config.election_timeout_min_ms,
            election_timeout_max_ms: config.raft_config.election_timeout_max_ms,
            heartbeat_interval_ms: config.raft_config.heartbeat_interval_ms,
            clock: instant_now(),
            last_heartbeat_ms: 0,
            election_timeout_ms: timeout,
            pre_vote_enabled: config.pre_vote_enabled,
            votes_received: Vec::new(),
            pre_votes_received: Vec::new(),
            leader_id: None,
        };
        assert(node.votes_received@.to_set() =~= Set::<NodeId>::empty());
        assert(node.pre_votes_received@.to_set() =~= Set::<NodeId>::empty());
        node
    }

    /// Milliseconds on this node's clock.
    fn now_ms(&self) -> u64 {
        let m = whole_millis(&elapsed_since(&self.clock));
        if m > u64::MAX as u128 {
            u64::MAX
        } else {
            m as u64
        }
    }

    /// A well-formed node's log index is ordered by log index.
    pub proof fn lemma_log_ordered(&self)
        requires
            self.wf(),
        ensures
            crate::wal::log::keys_increasing(self@.log.index),
    {
        self.log.lemma_index_ordered();
    }

    /// The current role.
    pub fn role(&self) -> (r: Role)
        ensures
            r == self@.role,
    {
        self.role
    }

    /// The current term.
    pub fn term(&self) -> (r: u64)
        ensures
            r == self@.persistent.current_term,
    {
        self.persistent.current_term
    }

    /// The leader this node knows of.
    pub fn leader(&self) -> (r: Option<NodeId>)
        ensures
            r == self@.leader_id,
    {
        self.leader_id
    }

    /// Whether this node is the leader.
    pub fn is_leader(&self) -> (r: bool)
        ensures
            r == (self@.role == Role::Leader),
    {
        self.role == Role::Leader
    }

    /// The node's log.
    pub fn log(&self) -> (r: &RaftLog)
        ensures
            r@ == self@.log,
    {
        &self.log
    }

    /// The node's volatile state (commit and apply progress).
    pub fn volatile_state(&self) -> (r: VolatileState)
        ensures
            r == self@.volatile,
    {
        self.volatile
    }

    /// Hand over the log entries appended since the last call, for durable
    /// storage.
    pub fn take_unpersisted(&mut self) -> (r: Vec<LogEntry>)
        requires
            old(self).wf(),
        ensures
            final(self).wf(),
            entries_model(r@) == old(self)@.log.unpersisted,
            final(self)@ == (RaftNodeModel {
                log: WalState { unpersisted: Seq::empty(), ..old(self)@.log },
                ..old(self)@
            }),
    {
        let r = self.log.take_unpersisted();
        proof {
            assert(self@.log =~= WalState { unpersisted: Seq::empty(), ..old(self)@.log });
        }
        r
    }

    /// Redraw the election timeout and restart the heartbeat timer at `now`.
    fn reset_election_timeout(&mut self, now: u64)
        requires
            old(self).wf(),
        ensures
            final(self).wf(),
            final(self)@ == (RaftNodeModel {
                last_heartbeat_ms: now,
                election_timeout_ms: final(self)@.election_timeout_ms,
                ..old(self)@
            }),
            timer_reset(final(self)@, now),
    {
        let timeout = random_in_range(self.election_timeout_min_ms, self.election_timeout_max_ms);
        self.election_timeout_ms = timeout;
        self.last_heartbeat_ms = now;
    }

    /// The AppendEntries for every peer, when leader.
    fn broadcast_append_entries(&self) -> (r: Vec<(NodeId, RaftMessage)>)
        requires
            self.wf(),
        ensures
            messages_model(r@) == broadcast_messages(self@),
    {
        let mut out: Vec<(NodeId, RaftMessage)> = Vec::new();
        match &self.leader_state {
            None => {
                assert(messages_model(out@) =~= broadcast_messages(
                    self@,
                ));
            },
            Some(ls) => {
                let term = self.persistent.current_term;
                let commit_index = self.volatile.commit_index;
                let last = self.log.last_index();
                let mut i: usize = 0;
                while i < self.peers.len()
                    invariant
                        self.wf(),
                        self.leader_state == Some(*ls),
                        term == self@.persistent.current_term,
                        commit_index == self@.volatile.commit_index,
                        last == last_index_of(self@.log.entries),
                        i <= self.peers@.len(),
                        out@.len() == i,
                        forall|j: int|
                            0 <= j < i ==> #[trigger] out@[j].0 == self.peers@[j] && out@[j].1@
                                == RaftMessageModel::AppendEntries(append_entries_for(self@, j)),
                    decreases self.peers.len() - i,
                {
                    let peer = self.peers[i];
                    let next_index = if i < ls.next_index.len() {
                        ls.next_index[i]
                    } else {
                        1
                    };
                    let prev_log_index = if next_index > 0 {
                        next_index - 1
                    } else {
                        0
                    };
                    let prev_log_term = match self.log.term_at(prev_log_index) {
                        Some(t) => t,
                        None => 0,
                    };
                    let entries = self.log.get_range(next_index, last);
                    let ghost em = entries_model(entries@);
                    let mut data: Vec<LogEntryData> = Vec::new();
                    let mut k: usize = 0;
                    while k < entries.len()
                        invariant
                            k <= entries@.len(),
                            em == entries_model(entries@),
                            data@.len() == k,
                            forall|j: int| 0 <= j < k ==> #[trigger] data@[j]@ == entry_data_of(em[j]),
                        decreases entries.len() - k,
                    {
                        let e = &entries[k];
                        let bytes = encode_entry(e);
                        let d = LogEntryData { term: e.term, index: e.index, data: bytes };
                        data.push(d);
                        k = k + 1;
                    }
                    proof {
                        assert(data@.map_values(|d: LogEntryData| d@) =~= em.map_values(
                            |e: LogEntryModel| entry_data_of(e),
                        ));
                    }
                    let ae = AppendEntries {
                        term,
                        leader_id: self.id,
                        prev_log_index,
                        prev_log_term,
                        entries: data,
                        leader_commit: commit_index,
                    };
                    proof {
                        assert(ae@.entries == append_entries_for(self@, i as int).entries);
                        assert(ae@ == append_entries_for(self@, i as int));
                    }
                    out.push((peer, RaftMessage::AppendEntries(ae)));
                    i = i + 1;
                }
                assert(messages_model(out@) =~= broadcast_messages(
                    self@,
                ));
            },
        }
        out
    }

    /// Tick the node at time `now_ms` on its clock: a leader commits what its
    /// match indices support and sends heartbeats once the heartbeat interval
    /// has passed; a follower or candidate whose election timeout has passed
    /// starts a pre-vote round when pre-vote is enabled, keeping its term,
    /// and an election otherwise. A node without peers wins both at once and
    /// leads.
    pub fn tick_at(&mut self, now_ms: u64) -> (r: Ready)
        requires
            old(self).wf(),
            old(self)@.persistent.current_term < u64::MAX,
            alone(old(self)@) ==> last_index_of(old(self)@.log.entries) < u64::MAX,
        ensures
            final(self).wf(),
            tick_post(old(self)@, final(self)@, now_ms, r@),
    {
        let elapsed = if now_ms >= self.last_heartbeat_ms {
            now_ms - self.last_heartbeat_ms
        } else {
            0
        };
        let mut ready = Ready::default();
        if self.role == Role::Leader {
            self.commit_as_leader(&mut ready);
            if elapsed >= self.heartbeat_interval_ms {
                ready.messages = self.broadcast_append_entries();
                self.last_heartbeat_ms = now_ms;
            }
        } else if elapsed >= self.election_timeout_ms {
            if self.pre_vote_enabled {
                self.start_pre_vote(now_ms, &mut ready);
            } else {
                self.start_election(now_ms, &mut ready);
            }
        }
        ready
    }

    /// As leader, commit what the match indices support when it is an entry
    /// of the current term, and hand out what that makes applied.
    fn commit_as_leader(&mut self, ready: &mut Ready)
        requires
            old(self).wf(),
            old(ready)@ == quiet(),
        ensures
            final(self).wf(),
            final(self)@ == leader_committed(old(self)@),
            final(ready)@ == (ReadyModel {
                committed_entries: leader_commit_entries(old(self)@),
                ..quiet()
            }),
    {
        let commit = self.volatile.commit_index;
        let term = self.persistent.current_term;
        let target = match &self.leader_state {
            Some(leader) => {
                let nc = leader.compute_commit_index(commit);
                proof {
                    crate::raft::state::lemma_majority_commit_member(leader.match_index@, commit);
                }
                nc
            },
            None => commit,
        };
        if target > commit {
            match self.log.term_at(target) {
                Some(t) => {
                    if t == term {
                        self.volatile.update_commit(target);
                        self.collect_committed_entries(ready);
                    }
                },
                None => {},
            }
        }
        proof {
            assert(ready@.committed_entries =~= Seq::<LogEntryModel>::empty() + ready@.committed_entries);
        }
    }

    /// Tick the node at the current time on its clock (see [`Self::tick_at`]).
    pub fn tick(&mut self) -> (r: Ready)
        requires
            old(self).wf(),
            old(self)@.persistent.current_term < u64::MAX,
            alone(old(self)@) ==> last_index_of(old(self)@.log.entries) < u64::MAX,
        ensures
            final(self).wf(),
            exists|now: u64| tick_post(old(self)@, final(self)@, now, r@),
    {
        let now = self.now_ms();
        self.tick_at(now)
    }

    /// Start a pre-vote round: term and role stay, the node counts its own
    /// pre-vote, resets its timer and sends PreVote to every peer.
    fn start_pre_vote(&mut self, now: u64, ready: &mut Ready)
        requires
            old(self).wf(),
            old(self)@.persistent.current_term < u64::MAX,
            old(self).role != Role::Leader,
            alone(old(self)@) ==> last_index_of(old(self)@.log.entries) < u64::MAX,
            old(ready)@ == quiet(),
        ensures
            final(self).wf(),
            pre_vote_started(old(self)@, final(self)@, now, final(ready)@),
    {
        if self.peers.len() == 0 {
            self.start_election(now, ready);
            return;
        }
        let ghost s0 = self@;
        self.pre_votes_received = Vec::new();
        self.pre_votes_received.push(self.id);
        proof {
            assert(self.pre_votes_received@[0] == self.id);
            assert(self.pre_votes_received@.to_set() =~= set![self.id]);
        }
        self.reset_election_timeout(now);
        let term = self.persistent.current_term + 1;
        let last_log_index = self.log.last_index();
        let last_log_term = self.log.last_term();
        assert(ready@.messages.len() == 0);
        let mut i: usize = 0;
        while i < self.peers.len()
            invariant
                i <= self.peers@.len(),
                self.peers@ == s0.peers,
                ready@.committed_entries == Seq::<LogEntryModel>::empty(),
                !ready.persist_state,
                ready.messages@.len() == i,
                forall|j: int|
                    0 <= j < i ==> #[trigger] ready.messages@[j].0 == self.peers@[j]
                        && ready.messages@[j].1@ == RaftMessageModel::PreVote(
                        PreVote { term, candidate_id: self.id, last_log_index, last_log_term },
                    ),
            decreases self.peers.len() - i,
        {
            let pv = PreVote { term, candidate_id: self.id, last_log_index, last_log_term };
            ready.messages.push((self.peers[i], RaftMessage::PreVote(pv)));
            i = i + 1;
        }
        proof {
            assert(ready@.messages =~= pre_vote_requests(s0));
        }
    }

    /// Count a PreVoteResponse: a higher term is adopted; during a pre-vote
    /// round a granted pre-vote is counted, and a quorum of them starts an
    /// election.
    fn handle_pre_vote_response(&mut self, now: u64, from: NodeId, pvr: PreVoteResponse) -> (r: Ready)
        requires
            old(self).wf(),
            old(self)@.persistent.current_term < u64::MAX,
            last_index_of(old(self)@.log.entries) < u64::MAX,
        ensures
            final(self).wf(),
            pre_vote_response_post(old(self)@, final(self)@, now, from, pvr, r@),
    {
        if self.role == Role::Leader {
            return Ready::default();
        }
        if pvr.term > self.persistent.current_term {
            self.persistent.update_term(pvr.term);
            self.role = Role::Follower;
            self.leader_id = None;
            self.pre_votes_received = Vec::new();
            assert(self.pre_votes_received@.to_set() =~= Set::<NodeId>::empty());
            let mut ready = Ready::default();
            ready.persist_state = true;
            return ready;
        }
        if pvr.vote_granted && holds_node(&self.pre_votes_received, self.id) {
            let ghost pv0 = self.pre_votes_received@;
            if !holds_node(&self.pre_votes_received, from) {
                self.pre_votes_received.push(from);
                proof {
                    pv0.lemma_push_to_set_commute(from);
                }
            } else {
                assert(pv0.to_set().insert(from) =~= pv0.to_set());
            }
            proof {
                self.pre_votes_received@.unique_seq_to_set();
            }
            let n = self.peers.len();
            let needed = n / 2 + n % 2 + 1;
            assert(needed == quorum(n as nat));
            let mut ready = Ready::default();
            if self.pre_votes_received.len() >= needed {
                self.start_election(now, &mut ready);
            }
            return ready;
        }
        Ready::default()
    }

    /// Start an election: a new term, a vote for itself, RequestVote to every
    /// peer; without peers its own vote is a quorum and it becomes leader.
    fn start_election(&mut self, now: u64, ready: &mut Ready)
        requires
            old(self).wf(),
            old(self).role != Role::Leader,
            old(self)@.persistent.current_term < u64::MAX,
            alone(old(self)@) ==> last_index_of(old(self)@.log.entries) < u64::MAX,
            old(ready)@.messages == Seq::<(NodeId, RaftMessageModel)>::empty(),
            old(ready)@.committed_entries == Seq::<LogEntryModel>::empty(),
        ensures
            final(self).wf(),
            election_started(old(self)@, final(self)@, now, final(ready)@),
    {
        let ghost s0 = self@;
        self.stand_for_election(now, ready);
        if self.peers.len() == 0 {
            self.become_leader(now);
        }
    }

    /// Stand as a candidate of the next term: a vote for itself, RequestVote
    /// to every peer.
    fn stand_for_election(&mut self, now: u64, ready: &mut Ready)
        requires
            old(self).wf(),
            old(self).role != Role::Leader,
            old(self)@.persistent.current_term < u64::MAX,
            old(ready)@.messages == Seq::<(NodeId, RaftMessageModel)>::empty(),
            old(ready)@.committed_entries == Seq::<LogEntryModel>::empty(),
        ensures
            final(self).wf(),
            final(self)@ == campaign(old(self)@, final(self)@.election_timeout_ms, now),
            old(self)@.election_timeout_min_ms <= final(self)@.election_timeout_ms
                < old(self)@.election_timeout_max_ms,
            final(ready)@ == (ReadyModel {
                messages: request_votes(final(self)@),
                committed_entries: Seq::empty(),
                persist_state: true,
            }),
    {
        self.persistent.current_term = self.persistent.current_term + 1;
        self.persistent.voted_for = Some(self.id);
        ready.persist_state = true;
        self.role = Role::Candidate;
        self.leader_id = None;
        self.votes_received = Vec::new();
        self.votes_received.push(self.id);
        self.pre_votes_received = Vec::new();
        proof {
            assert(self.votes_received@[0] == self.id);
            assert(self.votes_received@.to_set() =~= set![self.id]);
            assert(self.pre_votes_received@.to_set() =~= Set::<NodeId>::empty());
        }
        self.reset_election_timeout(now);
        let term = self.persistent.current_term;
        let last_log_index = self.log.last_index();
        let last_log_term = self.log.last_term();
        assert(ready@.messages.len() == 0);
        let mut i: usize = 0;
        while i < self.peers.len()
            invariant
                i <= self.peers@.len(),
                ready@.committed_entries == Seq::<LogEntryModel>::empty(),
                ready.persist_state,
                ready.messages@.len() == i,
                forall|j: int|
                    0 <= j < i ==> #[trigger] ready.messages@[j].0 == self.peers@[j]
                        && ready.messages@[j].1@ == RaftMessageModel::RequestVote(
                        RequestVote {
                            term,
                            candidate_id: self.id,
                            last_log_index,
                            last_log_term,
                        },
                    ),
            decreases self.peers.len() - i,
        {
            let rv = RequestVote { term, candidate_id: self.id, last_log_index, last_log_term };
            ready.messages.push((self.peers[i], RaftMessage::RequestVote(rv)));
            i = i + 1;
        }
        proof {
            assert(ready@.messages =~= request_votes(self@));
            assert(ready@.committed_entries =~= Seq::<LogEntryModel>::empty());
        }
    }

    /// Hand out every entry that is committed but not yet applied.
    fn collect_committed_entries(&mut self, ready: &mut Ready)
        requires
            old(self).wf(),
        ensures
            final(self).wf(),
            final(self)@ == (RaftNodeModel {
                volatile: VolatileState {
                    last_applied: if old(self)@.volatile.last_applied < old(
                        self,
                    )@.volatile.commit_index {
                        old(self)@.volatile.commit_index
                    } else {
                        old(self)@.volatile.last_applied
                    },
                    ..old(self)@.volatile
                },
                ..old(self)@
            }),
            final(ready)@ == (ReadyModel {
                committed_entries: old(ready)@.committed_entries + (if old(
                    self,
                )@.volatile.last_applied < old(self)@.volatile.commit_index {
                    collected(
                        old(self)@.log,
                        old(self)@.volatile.last_applied + 1,
                        old(self)@.volatile.commit_index + 1,
                    )
                } else {
                    Seq::empty()
                }),
                ..old(ready)@
            }),
    {
        let ghost ce0 = old(ready)@.committed_entries;
        match self.volatile.advance_applied() {
            Some(range) => {
                let start = range.start;
                let end = range.end;
                let mut k = start;
                assert(ce0 + collected(self@.log, start as int, k as int) =~= ce0);
                while k < end
                    invariant
                        self.log.wf(),
                        start <= k <= end,
                        entries_model(ready.committed_entries@) == ce0 + collected(
                            self@.log,
                            start as int,
                            k as int,
                        ),
                        ready.messages@ == old(ready).messages@,
                        ready.persist_state == old(ready).persist_state,
                    decreases end - k,
                {
                    let ghost before = ready.committed_entries@;
                    let ghost c_old = collected(self@.log, start as int, k as int);
                    assert(collected(self@.log, start as int, k + 1) == match entry_for(
                        self@.log,
                        k,
                    ) {
                        Some(m) => c_old.push(m),
                        None => c_old,
                    });
                    match self.log.get_entry(k) {
                        Some(e) => {
                            ready.committed_entries.push(e);
                            assert(entries_model(ready.committed_entries@) =~= entries_model(
                                before,
                            ).push(e.model()));
                            assert((ce0 + c_old).push(e.model()) =~= ce0 + c_old.push(e.model()));
                        },
                        None => {},
                    }
                    k = k + 1;
                }
            },
            None => {
                assert(ready@.committed_entries =~= old(ready)@.committed_entries + Seq::empty());
            },
        }
    }

    /// Answer a RequestVote.
    fn handle_request_vote(&mut self, now: u64, from: NodeId, rv: RequestVote) -> (r: Ready)
        requires
            old(self).wf(),
        ensures
            final(self).wf(),
            request_vote_post(old(self)@, final(self)@, now, from, rv, r@),
            (rv.term == old(self)@.persistent.current_term && old(self)@.persistent.voted_for is Some
                && old(self)@.persistent.voted_for != Some(rv.candidate_id)) ==> {
                &&& final(self)@ == old(self)@
                &&& r@.messages == seq![
                    (
                        from,
                        RaftMessageModel::RequestVoteResponse(
                            RequestVoteResponse { term: rv.term, vote_granted: false },
                        ),
                    ),
                ]
            },
    {
        let mut persist = false;
        if rv.term > self.persistent.current_term {
            self.persistent.update_term(rv.term);
            self.role = Role::Follower;
            self.leader_id = None;
            self.pre_votes_received = Vec::new();
            assert(self.pre_votes_received@.to_set() =~= Set::<NodeId>::empty());
            persist = true;
        }
        let mut granted = false;
        if rv.term >= self.persistent.current_term {
            let can_vote = match self.persistent.voted_for {
                None => true,
                Some(v) => v == rv.candidate_id,
            };
            let log_ok = self.log.is_up_to_date(rv.last_log_index, rv.last_log_term);
            if can_vote && log_ok {
                self.persistent.set_voted_for(rv.candidate_id);
                granted = true;
                persist = true;
                self.reset_election_timeout(now);
            }
        }
        let response = RequestVoteResponse {
            term: self.persistent.current_term,
            vote_granted: granted,
        };
        reply_ready(from, RaftMessage::RequestVoteResponse(response), persist)
    }

    /// Take the leadership: the leader state has a slot for each peer and one
    /// for the leader itself, and starts from the last log index; the
    /// heartbeat timer is set back so that the next tick sends
    /// heartbeats.
    fn become_leader(&mut self, now: u64)
        requires
            old(self).wf(),
            last_index_of(old(self)@.log.entries) < u64::MAX,
        ensures
            final(self).wf(),
            final(self)@ == become_leader(old(self)@, now),
    {
        self.role = Role::Leader;
        self.leader_id = Some(self.id);
        let n = self.peers.len();
        let last = self.log.last_index();
        let mut ls = LeaderState::new(n + 1, last);
        ls.update_match(n, last);
        self.leader_state = Some(ls);
        self.last_heartbeat_ms = if now >= self.heartbeat_interval_ms {
            now - self.heartbeat_interval_ms
        } else {
            0
        };
        proof {
            assert(self@.leader_state =~= become_leader(old(self)@, now).leader_state);
        }
    }

    /// Count a RequestVoteResponse; a candidate with a quorum of votes
    /// becomes leader.
    fn handle_request_vote_response(&mut self, now: u64, from: NodeId, rvr: RequestVoteResponse) -> (r:
        Ready)
        requires
            old(self).wf(),
            last_index_of(old(self)@.log.entries) < u64::MAX,
        ensures
            final(self).wf(),
            request_vote_response_post(old(self)@, final(self)@, now, from, rvr, r@),
    {
        if self.role != Role::Candidate {
            return Ready::default();
        }
        if rvr.term > self.persistent.current_term {
            self.persistent.update_term(rvr.term);
            self.role = Role::Follower;
            self.leader_id = None;
            self.pre_votes_received = Vec::new();
            assert(self.pre_votes_received@.to_set() =~= Set::<NodeId>::empty());
            let mut ready = Ready::default();
            ready.persist_state = true;
            return ready;
        }
        if rvr.vote_granted && rvr.term == self.persistent.current_term {
            let ghost votes0 = self.votes_received@;
            if !holds_node(&self.votes_received, from) {
                self.votes_received.push(from);
                proof {
                    votes0.lemma_push_to_set_commute(from);
                }
            } else {
                assert(votes0.to_set().insert(from) =~= votes0.to_set());
            }
            proof {
                self.votes_received@.unique_seq_to_set();
            }
            let n = self.peers.len();
            let needed = n / 2 + n % 2 + 1;
            assert(needed == quorum(n as nat));
            if self.votes_received.len() >= needed {
                self.become_leader(now);
            }
            return Ready::default();
        }
        Ready::default()
    }

    /// Answer a PreVote; nothing changes.
    fn handle_pre_vote(&self, now: u64, from: NodeId, pv: PreVote) -> (r: Ready)
        requires
            self.wf(),
        ensures
            r@ == reply(
                from,
                RaftMessageModel::PreVoteResponse(
                    PreVoteResponse {
                        term: self@.persistent.current_term,
                        vote_granted: grants_pre_vote(self@, now, pv),
                    },
                ),
                false,
            ),
    {
        let elapsed = if now >= self.last_heartbeat_ms {
            now - self.last_heartbeat_ms
        } else {
            0
        };
        let recent_leader = elapsed < self.election_timeout_min_ms;
        let mut granted = false;
        if !recent_leader && pv.term >= self.persistent.current_term {
            granted = self.log.is_up_to_date(pv.last_log_index, pv.last_log_term);
        }
        let response = PreVoteResponse { term: self.persistent.current_term, vote_granted: granted };
        reply_ready(from, RaftMessage::PreVoteResponse(response), false)
    }

    /// Take the entries whose layouts `data` holds, in order, skipping
    /// layouts that hold no entry: an entry whose index and term the log
    /// already holds is kept; any other replaces the log from its index on.
    fn append_decoded(&mut self, data: &Vec<LogEntryData>) -> (taken: usize)
        requires
            old(self).wf(),
        ensures
            final(self).wf(),
            taken == decoded_entries(data@.map_values(|d: LogEntryData| d@)).len(),
            log_contents(final(self)@.log) == accept_entries(
                log_contents(old(self)@.log),
                decoded_entries(data@.map_values(|d: LogEntryData| d@)),
            ),
            final(self)@.log.next_sequence == old(self)@.log.next_sequence,
            final(self)@ == (RaftNodeModel { log: final(self)@.log, ..old(self)@ }),
    {
        let ghost ds = data@.map_values(|d: LogEntryData| d@);
        let ghost log0 = self@.log;
        let mut i: usize = 0;
        let mut taken: usize = 0;
        assert(ds.subrange(0, 0) =~= Seq::<crate::raft::messages::LogEntryDataModel>::empty());
        while i < data.len()
            invariant
                self.wf(),
                i <= data@.len(),
                taken == decoded_entries(ds.subrange(0, i as int)).len(),
                taken <= i,
                ds == data@.map_values(|d: LogEntryData| d@),
                log_contents(self@.log) == accept_entries(
                    log_contents(log0),
                    decoded_entries(ds.subrange(0, i as int)),
                ),
                self@.log.next_sequence == log0.next_sequence,
                self@ == (RaftNodeModel { log: self@.log, ..old(self)@ }),
            decreases data.len() - i,
        {
            let ghost done = decoded_entries(ds.subrange(0, i as int));
            assert(ds.subrange(0, i + 1).drop_last() =~= ds.subrange(0, i as int));
            assert(ds.subrange(0, i + 1).last() == data@[i as int]@);
            match decode_entry(data[i].data.as_slice()) {
                Some(entry) => {
                    let ghost m = entry.model();
                    let ghost c = log_contents(self@.log);
                    let held = match self.log.term_at(entry.index) {
                        Some(t) => t == entry.term,
                        None => false,
                    };
                    assert(held == holds_entry(c, m));
                    if !held {
                        let ghost before = self@.log.entries;
                        self.log.truncate_from(entry.index);
                        proof {
                            lemma_cut_len(before, self@.log.entries, entry.index);
                        }
                        self.log.append(entry.term, entry.index, entry.command);
                    }
                    proof {
                        assert(done.push(m).drop_last() =~= done);
                        assert(log_contents(self@.log) == accept_entry(c, m));
                    }
                    taken = taken + 1;
                },
                None => {},
            }
            i = i + 1;
        }
        assert(ds.subrange(0, data@.len() as int) =~= ds);
        taken
    }

    /// Answer an AppendEntries: accept the leader of a term not behind this
    /// node's, and when the log holds the preceding entry, append the
    /// entries and follow the leader's commit index.
    fn handle_append_entries(&mut self, now: u64, from: NodeId, ae: AppendEntries) -> (r: Ready)
        requires
            old(self).wf(),
            step_in_range(old(self)@, RaftMessage::AppendEntries(ae)@),
        ensures
            final(self).wf(),
            append_entries_post(old(self)@, final(self)@, now, from, ae@, r@),
    {
        let mut persist = false;
        if ae.term > self.persistent.current_term {
            self.persistent.update_term(ae.term);
            self.role = Role::Follower;
            self.leader_id = None;
            self.pre_votes_received = Vec::new();
            assert(self.pre_votes_received@.to_set() =~= Set::<NodeId>::empty());
            persist = true;
        }
        let term = self.persistent.current_term;
        if ae.term < term {
            let response = AppendEntriesResponse { term, success: false, match_index: 0 };
            return reply_ready(from, RaftMessage::AppendEntriesResponse(response), false);
        }
        self.leader_id = Some(ae.leader_id);
        self.reset_election_timeout(now);
        self.role = Role::Follower;
        if !self.log.matches(ae.prev_log_index, ae.prev_log_term) {
            let response = AppendEntriesResponse { term, success: false, match_index: 0 };
            return reply_ready(from, RaftMessage::AppendEntriesResponse(response), persist);
        }
        let taken = self.append_decoded(&ae.entries);
        let acked = if (taken as u64) <= u64::MAX - ae.prev_log_index {
            ae.prev_log_index + taken as u64
        } else {
            u64::MAX
        };
        let last = self.log.last_index();
        let mut ready = Ready::default();
        ready.persist_state = persist;
        if ae.leader_commit > self.volatile.commit_index {
            let new_commit = if ae.leader_commit < last {
                ae.leader_commit
            } else {
                last
            };
            self.volatile.update_commit(new_commit);
            self.collect_committed_entries(&mut ready);
        }
        let response = AppendEntriesResponse { term, success: true, match_index: acked };
        let ghost msgs0 = ready.messages@;
        ready.messages.push((from, RaftMessage::AppendEntriesResponse(response)));
        proof {
            assert(ready@.messages =~= seq![(from, RaftMessage::AppendEntriesResponse(response)@)]);
            assert(ready@.committed_entries =~= Seq::<LogEntryModel>::empty() + ready@.committed_entries);
        }
        ready
    }

    /// Take a follower's answer to an AppendEntries: record its progress and
    /// commit what a majority holds from the current term, or step its next
    /// index back.
    fn handle_append_entries_response(&mut self, from: NodeId, aer: AppendEntriesResponse) -> (r:
        Ready)
        requires
            old(self).wf(),
            aer.match_index < u64::MAX,
        ensures
            final(self).wf(),
            append_entries_response_post(old(self)@, final(self)@, from, aer, r@),
    {
        if self.role != Role::Leader {
            return Ready::default();
        }
        let term = self.persistent.current_term;
        if aer.term > term {
            self.persistent.update_term(aer.term);
            self.role = Role::Follower;
            self.leader_state = None;
            self.leader_id = None;
            self.pre_votes_received = Vec::new();
            assert(self.pre_votes_received@.to_set() =~= Set::<NodeId>::empty());
            let mut ready = Ready::default();
            ready.persist_state = true;
            return ready;
        }
        let mut ready = Ready::default();
        proof {
            self.peers@.index_of_first_ensures(from);
        }
        match position_of(&self.peers, from) {
            None => {},
            Some(idx) => {
                let mut taken: Option<LeaderState> = None;
                core::mem::swap(&mut taken, &mut self.leader_state);
                match taken {
                    None => {},
                    Some(mut leader) => {
                        if aer.success {
                            leader.update_match(idx, aer.match_index);
                            leader.next_index.set(idx, aer.match_index + 1);
                            let commit = self.volatile.commit_index;
                            let new_commit = leader.compute_commit_index(commit);
                            self.leader_state = Some(leader);
                            proof {
                                crate::raft::state::lemma_majority_commit_member(
                                    self@.leader_state.unwrap().1,
                                    commit,
                                );
                            }
                            if new_commit > commit {
                                match self.log.term_at(new_commit) {
                                    Some(t) => {
                                        if t == term {
                                            self.volatile.update_commit(new_commit);
                                            self.collect_committed_entries(&mut ready);
                                        }
                                    },
                                    None => {},
                                }
                            }
                        } else {
                            leader.decrement_next(idx);
                            self.leader_state = Some(leader);
                        }
                    },
                }
            },
        }
        proof {
            assert(ready@.committed_entries =~= Seq::<LogEntryModel>::empty() + ready@.committed_entries);
        }
        ready
    }

    /// Handle a message `msg` from `from` at time `now_ms` on this node's clock.
    pub fn step_at(&mut self, now_ms: u64, from: NodeId, msg: RaftMessage) -> (r: Ready)
        requires
            old(self).wf(),
            step_in_range(old(self)@, msg@),
        ensures
            final(self).wf(),
            step_post(old(self)@, final(self)@, now_ms, from, msg@, r@),
    {
        match msg {
            RaftMessage::RequestVote(rv) => self.handle_request_vote(now_ms, from, rv),
            RaftMessage::RequestVoteResponse(rvr) => self.handle_request_vote_response(
                now_ms,
                from,
                rvr,
            ),
            RaftMessage::AppendEntries(ae) => self.handle_append_entries(now_ms, from, ae),
            RaftMessage::AppendEntriesResponse(aer) => self.handle_append_entries_response(
                from,
                aer,
            ),
            RaftMessage::PreVote(pv) => self.handle_pre_vote(now_ms, from, pv),
            RaftMessage::PreVoteResponse(pvr) => self.handle_pre_vote_response(now_ms, from, pvr),
        }
    }

    /// Handle a message `msg` from `from` at the current time on this node's
    /// clock (see [`Self::step_at`]).
    pub fn step(&mut self, from: NodeId, msg: RaftMessage) -> (r: Ready)
        requires
            old(self).wf(),
            step_in_range(old(self)@, msg@),
        ensures
            final(self).wf(),
            exists|now: u64| step_post(old(self)@, final(self)@, now, from, msg@, r@),
    {
        let now = self.now_ms();
        self.step_at(now, from, msg)
    }

    /// Append `command` to the log as leader, at the index after the last,
    /// in the current term, and record it in the leader's own slot of the
    /// leader state; the index is returned. A node that is not leader
    /// refuses with `NotLeader`, naming the leader it knows of.
    pub fn propose(&mut self, command: Command) -> (r: Result<u64, VajraError>)
        requires
            old(self).wf(),
            last_index_of(old(self)@.log.entries) < u64::MAX - 1,
        ensures
            final(self).wf(),
            old(self)@.role != Role::Leader ==> {
                &&& r == Err::<u64, VajraError>(
                    VajraError::NotLeader { leader: old(self)@.leader_id },
                )
                &&& final(self)@ == old(self)@
            },
            old(self)@.role == Role::Leader ==> {
                &&& r == Ok::<u64, VajraError>((last_index_of(old(self)@.log.entries) + 1) as u64)
                &&& proposed(old(self)@, final(self)@, command.model())
            },
    {
        if self.role != Role::Leader {
            return Err(VajraError::NotLeader { leader: self.leader_id });
        }
        let term = self.persistent.current_term;
        let index = self.log.last_index() + 1;
        let ghost m = LogEntryModel { term, index, command: command.model() };
        self.log.append(term, index, command);
        proof {
            assert(seq![m].drop_last() =~= Seq::<LogEntryModel>::empty());
            assert(old(self)@.log.entries + seq![m] =~= self@.log.entries);
            assert(old(self)@.log.unpersisted + seq![m] =~= self@.log.unpersisted);
        }
        let mut taken: Option<LeaderState> = None;
        core::mem::swap(&mut taken, &mut self.leader_state);
        match taken {
            Some(mut leader) => {
                let own = self.peers.len();
                leader.update_match(own, index);
                leader.next_index.set(own, index + 1);
                self.leader_state = Some(leader);
            },
            None => {},
        }
        proof {
            let m0 = index_map(old(self)@.log.index);
            let n = old(self)@.log.entries.len();
            assert(index_after(m0, n, Seq::<LogEntryModel>::empty()) == m0);
            assert(seq![m].last() == m);
            assert(index_map(self@.log.index) == index_after(m0, n, seq![m]));
        }
        Ok(index)
    }
}

/// Whether `v` holds `x`.
fn holds_node(v: &Vec<NodeId>, x: NodeId) -> (r: bool)
    ensures
        r == v@.contains(x),
{
    let mut i: usize = 0;
    while i < v.len()
        invariant
            i <= v@.len(),
            forall|j: int| 0 <= j < i ==> v@[j] != x,
        decreases v.len() - i,
    {
        if v[i] == x {
            assert(v@[i as int] == x);
            return true;
        }
        i = i + 1;
    }
    false
}

/// The position of the first `x` in `v`.
fn position_of(v: &Vec<NodeId>, x: NodeId) -> (r: Option<usize>)
    ensures
        match v@.index_of_first(x) {
            Some(i) => r matches Some(j) && j == i,
            None => r is None,
        },
{
    proof {
        v@.index_of_first_ensures(x);
    }
    let mut i: usize = 0;
    while i < v.len()
        invariant
            i <= v@.len(),
            forall|j: int| 0 <= j < i ==> v@[j] != x,
            match v@.index_of_first(x) {
                Some(k) => {
                    &&& 0 <= k < v@.len()
                    &&& v@[k] == x
                    &&& forall|j: int| 0 <= j < k ==> v@[j] != x
                },
                None => !v@.contains(x),
            },
        decreases v.len() - i,
    {
        if v[i] == x {
            assert(v@[i as int] == x);
            return Some(i);
        }
        i = i + 1;
    }
    None
}

/// A Ready that sends `m` to `to`.
fn reply_ready(to: NodeId, m: RaftMessage, persist: bool) -> (r: Ready)
    ensures
        r@ == reply(to, m@, persist),
{
    let mut messages: Vec<(NodeId, RaftMessage)> = Vec::new();
    messages.push((to, m));
    let r = Ready { messages, committed_entries: Vec::new(), persist_state: persist };
    assert(r@.messages =~= seq![(to, m@)]);
    assert(r@.committed_entries =~= Seq::<LogEntryModel>::empty());
    r
}

} // verus!
