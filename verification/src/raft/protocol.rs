//! The Raft protocol as a state machine on values: the state of a node,
//! what a tick or a message does to it, and the laws its transitions keep.

use crate::raft::log::{candidate_up_to_date, last_term_of, log_matches};
use crate::raft::matching::{
    accept_entries, holds_entry, lemma_accept_entries, lemma_accept_keeps_consistent, log_consistent,
    log_contents, rising,
};
use crate::raft::messages::{
    AppendEntriesModel, AppendEntriesResponse, LogEntryDataModel, PreVote, PreVoteResponse,
    RaftMessageModel, RequestVote, RequestVoteResponse,
};
use crate::raft::state::{majority_commit, raised, PersistentState, VolatileState};
use crate::raft::Role;
use crate::types::NodeId;
use crate::wal::entry::{enc_entry, entry_in, CommandModel, LogEntryModel};
use crate::wal::log::{entry_for, index_map, last_index_of, range_entries, WalState};
use vstd::prelude::*;

verus! {

/// The value of a [`crate::raft::node::Ready`].
pub struct ReadyModel {
    pub messages: Seq<(NodeId, RaftMessageModel)>,
    pub committed_entries: Seq<LogEntryModel>,
    pub persist_state: bool,
}


/// The state of a Raft node.
pub struct RaftNodeModel {
    pub id: NodeId,
    /// All peers (excluding self).
    pub peers: Seq<NodeId>,
    pub role: Role,
    pub persistent: PersistentState,
    pub volatile: VolatileState,
    /// The leader's `(next_index, match_index)`, when leader: one slot per
    /// peer, in peer order, and a last one for the leader itself.
    pub leader_state: Option<(Seq<u64>, Seq<u64>)>,
    pub log: WalState,
    pub election_timeout_min_ms: u64,
    pub election_timeout_max_ms: u64,
    pub heartbeat_interval_ms: u64,
    /// When the node last heard from a leader or granted a vote (ms on its clock).
    pub last_heartbeat_ms: u64,
    /// The current, randomized election timeout.
    pub election_timeout_ms: u64,
    pub pre_vote_enabled: bool,
    /// Votes received in the current election.
    pub votes: Set<NodeId>,
    /// Pre-votes received in the current pre-vote round (empty when none
    /// is under way).
    pub pre_votes: Set<NodeId>,
    /// The leader this node knows of.
    pub leader_id: Option<NodeId>,
}


/// Votes needed to win an election among `n_peers` peers and this node.
pub open spec fn quorum(n_peers: nat) -> nat {
    (n_peers + 1) / 2 + 1
}

/// Milliseconds from `since` to `now` (0 if the clock reads earlier).
pub open spec fn elapsed_ms(now: u64, since: u64) -> u64 {
    if now >= since {
        (now - since) as u64
    } else {
        0
    }
}

/// The model's well-formedness, as far as its value shows it.
pub open spec fn model_wf(s: RaftNodeModel) -> bool {
    &&& s.election_timeout_min_ms < s.election_timeout_max_ms
    &&& s.volatile.commit_index < u64::MAX
    &&& s.volatile.last_applied <= s.volatile.commit_index
    &&& match s.leader_state {
        Some((next, matched)) => {
            &&& next.len() == s.peers.len() + 1
            &&& matched.len() == s.peers.len() + 1
            &&& forall|i: int| 0 <= i < matched.len() ==> #[trigger] matched[i] < u64::MAX
        },
        None => true,
    }
}

/// The election timeout was redrawn within its bounds and the heartbeat
/// timer restarted at `now`.
pub open spec fn timer_reset(s2: RaftNodeModel, now: u64) -> bool {
    &&& s2.last_heartbeat_ms == now
    &&& s2.election_timeout_min_ms <= s2.election_timeout_ms < s2.election_timeout_max_ms
}

/// An entry as it travels in an AppendEntries: its term, index and layout.
pub open spec fn entry_data_of(e: LogEntryModel) -> LogEntryDataModel {
    LogEntryDataModel { term: e.term, index: e.index, data: enc_entry(e) }
}

/// The AppendEntries a leader sends to its `i`-th peer.
pub open spec fn append_entries_for(s: RaftNodeModel, i: int) -> AppendEntriesModel {
    let next = s.leader_state.unwrap().0;
    let ni: u64 = if i < next.len() {
        next[i]
    } else {
        1
    };
    let prev: u64 = if ni > 0 {
        (ni - 1) as u64
    } else {
        0
    };
    AppendEntriesModel {
        term: s.persistent.current_term,
        leader_id: s.id,
        prev_log_index: prev,
        prev_log_term: match entry_for(s.log, prev) {
            Some(e) => e.term,
            None => 0,
        },
        entries: range_entries(s.log.index, s.log.entries, ni, last_index_of(s.log.entries)).map_values(
            |e: LogEntryModel| entry_data_of(e),
        ),
        leader_commit: s.volatile.commit_index,
    }
}

/// The AppendEntries a leader broadcasts: one to each peer, in peer order
/// (none when there is no leader state).
pub open spec fn broadcast_messages(s: RaftNodeModel) -> Seq<(NodeId, RaftMessageModel)> {
    if s.leader_state is None {
        Seq::empty()
    } else {
        Seq::new(
            s.peers.len(),
            |i: int| (s.peers[i], RaftMessageModel::AppendEntries(append_entries_for(s, i))),
        )
    }
}

/// The RequestVote a candidate of state `s` sends to every peer.
pub open spec fn request_votes(s: RaftNodeModel) -> Seq<(NodeId, RaftMessageModel)> {
    Seq::new(
        s.peers.len(),
        |i: int|
            (
                s.peers[i],
                RaftMessageModel::RequestVote(
                    RequestVote {
                        term: s.persistent.current_term,
                        candidate_id: s.id,
                        last_log_index: last_index_of(s.log.entries),
                        last_log_term: last_term_of(s.log.entries),
                    },
                ),
            ),
    )
}

/// The PreVote a node of state `s` sends to every peer: the term it would
/// campaign in, and its last log entry.
pub open spec fn pre_vote_requests(s: RaftNodeModel) -> Seq<(NodeId, RaftMessageModel)> {
    Seq::new(
        s.peers.len(),
        |i: int|
            (
                s.peers[i],
                RaftMessageModel::PreVote(
                    PreVote {
                        term: (s.persistent.current_term + 1) as u64,
                        candidate_id: s.id,
                        last_log_index: last_index_of(s.log.entries),
                        last_log_term: last_term_of(s.log.entries),
                    },
                ),
            ),
    )
}

/// An election starts at time `now`: a new term, a vote for itself,
/// candidacy, no pre-vote round, the timer reset, and RequestVote to every
/// peer; a node without peers holds a quorum with its own vote and becomes
/// leader at once.
pub open spec fn election_started(s: RaftNodeModel, s2: RaftNodeModel, now: u64, r: ReadyModel) -> bool {
    let c = campaign(s, s2.election_timeout_ms, now);
    &&& s.election_timeout_min_ms <= s2.election_timeout_ms < s.election_timeout_max_ms
    &&& s2 == (if alone(s) {
        become_leader(c, now)
    } else {
        c
    })
    &&& r == ReadyModel {
        messages: request_votes(c),
        committed_entries: Seq::empty(),
        persist_state: true,
    }
}

/// A node without peers: its own vote is a quorum.
pub open spec fn alone(s: RaftNodeModel) -> bool {
    s.peers.len() == 0
}

/// The node as a candidate of the next term at time `now`, with election
/// timeout `timeout`: it votes for itself, knows no leader, holds its own
/// vote and runs no pre-vote round.
pub open spec fn campaign(s: RaftNodeModel, timeout: u64, now: u64) -> RaftNodeModel {
    RaftNodeModel {
        persistent: PersistentState {
            current_term: (s.persistent.current_term + 1) as u64,
            voted_for: Some(s.id),
        },
        role: Role::Candidate,
        leader_id: None,
        votes: set![s.id],
        pre_votes: Set::empty(),
        last_heartbeat_ms: now,
        election_timeout_ms: timeout,
        ..s
    }
}

/// A pre-vote round starts at time `now`: term, vote and role stay; the
/// node counts its own pre-vote, resets its timer, and sends PreVote to
/// every peer. A node without peers wins the round at once and starts the
/// election.
pub open spec fn pre_vote_started(s: RaftNodeModel, s2: RaftNodeModel, now: u64, r: ReadyModel) -> bool {
    if alone(s) {
        election_started(s, s2, now, r)
    } else {
        &&& s2 == RaftNodeModel {
            pre_votes: set![s.id],
            last_heartbeat_ms: now,
            election_timeout_ms: s2.election_timeout_ms,
            ..s
        }
        &&& timer_reset(s2, now)
        &&& r == ReadyModel {
            messages: pre_vote_requests(s),
            committed_entries: Seq::empty(),
            persist_state: false,
        }
    }
}

/// The commit index a leader's match indices (its own slot included)
/// support.
pub open spec fn leader_commit_target(s: RaftNodeModel) -> u64 {
    match s.leader_state {
        Some((_, matched)) => majority_commit(matched, s.volatile.commit_index),
        None => s.volatile.commit_index,
    }
}

/// A leader may raise its commit index to `nc`: it is higher and names an
/// entry of the leader's own term.
pub open spec fn may_commit(s: RaftNodeModel, nc: u64) -> bool {
    nc > s.volatile.commit_index && (entry_for(s.log, nc) matches Some(e) && e.term
        == s.persistent.current_term)
}

/// The leader after committing what its match indices support, when that
/// is an entry of its own term.
pub open spec fn leader_committed(s: RaftNodeModel) -> RaftNodeModel {
    let nc = leader_commit_target(s);
    if may_commit(s, nc) {
        RaftNodeModel { volatile: apply_commit(s.volatile, nc), ..s }
    } else {
        s
    }
}

/// The entries that committing what its match indices support hands out.
pub open spec fn leader_commit_entries(s: RaftNodeModel) -> Seq<LogEntryModel> {
    let nc = leader_commit_target(s);
    if may_commit(s, nc) {
        newly_applied(s.log, s.volatile, nc)
    } else {
        Seq::empty()
    }
}

/// The result of a tick at time `now` from state `s`: a leader commits what
/// its match indices support (with its own slot, a leader without peers
/// commits what it holds), and sends heartbeats once the heartbeat interval
/// has passed; a follower or
/// candidate whose election timeout has passed starts a pre-vote round when
/// pre-vote is enabled, and an election otherwise.
pub open spec fn tick_post(s: RaftNodeModel, s2: RaftNodeModel, now: u64, r: ReadyModel) -> bool {
    let elapsed = elapsed_ms(now, s.last_heartbeat_ms);
    if s.role == Role::Leader {
        let s1 = leader_committed(s);
        let ce = leader_commit_entries(s);
        if elapsed >= s.heartbeat_interval_ms {
            &&& s2 == RaftNodeModel { last_heartbeat_ms: now, ..s1 }
            &&& r == ReadyModel {
                messages: broadcast_messages(s1),
                committed_entries: ce,
                persist_state: false,
            }
        } else {
            &&& s2 == s1
            &&& r == ReadyModel {
                messages: Seq::empty(),
                committed_entries: ce,
                persist_state: false,
            }
        }
    } else if elapsed >= s.election_timeout_ms {
        if s.pre_vote_enabled {
            pre_vote_started(s, s2, now, r)
        } else {
            election_started(s, s2, now, r)
        }
    } else {
        &&& s2 == s
        &&& r == ReadyModel {
            messages: Seq::empty(),
            committed_entries: Seq::empty(),
            persist_state: false,
        }
    }
}



/// A leader appends `cmd` to its log: at the index after the last, in its
/// current term, recorded in its own slot of the leader state.
pub open spec fn proposed(s: RaftNodeModel, s2: RaftNodeModel, cmd: CommandModel) -> bool {
    let index = (last_index_of(s.log.entries) + 1) as u64;
    &&& log_extended(
        s.log,
        seq![LogEntryModel { term: s.persistent.current_term, index, command: cmd }],
        s2.log,
    )
    &&& s2 == RaftNodeModel {
        log: s2.log,
        leader_state: match s.leader_state {
            Some((next, matched)) => Some(
                (
                    next.update(s.peers.len() as int, (index + 1) as u64),
                    matched.update(s.peers.len() as int, raised(matched[s.peers.len() as int], index)),
                ),
            ),
            None => None,
        },
        ..s
    }
}

/// A Ready that asks for nothing.
pub open spec fn quiet() -> ReadyModel {
    ReadyModel { messages: Seq::empty(), committed_entries: Seq::empty(), persist_state: false }
}

/// A Ready that sends one message.
pub open spec fn reply(to: NodeId, m: RaftMessageModel, persist: bool) -> ReadyModel {
    ReadyModel { messages: seq![(to, m)], committed_entries: Seq::empty(), persist_state: persist }
}

/// The node after seeing a message of term `t`: a higher term is adopted,
/// with no vote, and the node becomes a follower that knows no leader and
/// runs no pre-vote round.
pub open spec fn observe_term(s: RaftNodeModel, t: u64) -> RaftNodeModel {
    if t > s.persistent.current_term {
        RaftNodeModel {
            persistent: PersistentState { current_term: t, voted_for: None },
            role: Role::Follower,
            leader_id: None,
            pre_votes: Set::empty(),
            ..s
        }
    } else {
        s
    }
}

/// A RequestVote from a candidate is granted: its term is the node's (after
/// observing it), the node has not voted for another candidate in that term,
/// and the candidate's log is at least as up to date as the node's.
pub open spec fn grants_vote(s: RaftNodeModel, rv: RequestVote) -> bool {
    let s1 = observe_term(s, rv.term);
    &&& rv.term == s1.persistent.current_term
    &&& (s1.persistent.voted_for is None || s1.persistent.voted_for == Some(rv.candidate_id))
    &&& candidate_up_to_date(
        rv.last_log_index,
        rv.last_log_term,
        last_index_of(s.log.entries),
        last_term_of(s.log.entries),
    )
}

/// Handling a RequestVote at time `now`.
pub open spec fn request_vote_post(
    s: RaftNodeModel,
    s2: RaftNodeModel,
    now: u64,
    from: NodeId,
    rv: RequestVote,
    r: ReadyModel,
) -> bool {
    let s1 = observe_term(s, rv.term);
    let grant = grants_vote(s, rv);
    &&& if grant {
        &&& s2 == RaftNodeModel {
            persistent: PersistentState { voted_for: Some(rv.candidate_id), ..s1.persistent },
            last_heartbeat_ms: now,
            election_timeout_ms: s2.election_timeout_ms,
            ..s1
        }
        &&& timer_reset(s2, now)
    } else {
        s2 == s1
    }
    &&& r == reply(
        from,
        RaftMessageModel::RequestVoteResponse(
            RequestVoteResponse { term: s1.persistent.current_term, vote_granted: grant },
        ),
        rv.term > s.persistent.current_term || grant,
    )
}

/// `a - b`, or 0 when `b` is larger.
pub open spec fn sat_sub(a: u64, b: u64) -> u64 {
    if a >= b {
        (a - b) as u64
    } else {
        0
    }
}

/// The node as it becomes leader at time `now`: one slot per peer and one for
/// itself; every next index is one past its last log index, every peer's
/// match index 0 and its own its last log index; the heartbeat timer is set
/// one interval back so that the next tick sends heartbeats.
pub open spec fn become_leader(s: RaftNodeModel, now: u64) -> RaftNodeModel {
    let last = last_index_of(s.log.entries);
    let next = (last + 1) as u64;
    let n = s.peers.len();
    RaftNodeModel {
        role: Role::Leader,
        leader_id: Some(s.id),
        leader_state: Some(
            (
                Seq::new(n + 1, |i: int| next),
                Seq::new(n + 1, |i: int| if i == n { last } else { 0u64 }),
            ),
        ),
        last_heartbeat_ms: sat_sub(now, s.heartbeat_interval_ms),
        ..s
    }
}

/// Handling a RequestVoteResponse from `from` at time `now`.
pub open spec fn request_vote_response_post(
    s: RaftNodeModel,
    s2: RaftNodeModel,
    now: u64,
    from: NodeId,
    rvr: RequestVoteResponse,
    r: ReadyModel,
) -> bool {
    if s.role != Role::Candidate {
        s2 == s && r == quiet()
    } else if rvr.term > s.persistent.current_term {
        s2 == observe_term(s, rvr.term) && r == ReadyModel { persist_state: true, ..quiet() }
    } else if rvr.vote_granted && rvr.term == s.persistent.current_term {
        let counted = RaftNodeModel { votes: s.votes.insert(from), ..s };
        &&& s2 == (if counted.votes.len() >= quorum(s.peers.len()) {
            become_leader(counted, now)
        } else {
            counted
        })
        &&& r == quiet()
    } else {
        s2 == s && r == quiet()
    }
}

/// The entries held by the layouts `ds`, in order, leaving out those that
/// hold none.
pub open spec fn decoded_entries(ds: Seq<LogEntryDataModel>) -> Seq<LogEntryModel>
    decreases ds.len(),
{
    if ds.len() == 0 {
        Seq::empty()
    } else {
        let rest = decoded_entries(ds.drop_last());
        match entry_in(ds.last().data) {
            Some(e) => rest.push(e),
            None => rest,
        }
    }
}

/// The index map after appending `es` to a log of `n` entries whose map is `m`.
pub open spec fn index_after(m: Map<u64, usize>, n: nat, es: Seq<LogEntryModel>) -> Map<u64, usize>
    decreases es.len(),
{
    if es.len() == 0 {
        m
    } else {
        index_after(m, n, es.drop_last()).insert(es.last().index, (n + es.len() - 1) as usize)
    }
}

/// `s2` is the log `s` with `es` appended.
pub open spec fn log_extended(s: WalState, es: Seq<LogEntryModel>, s2: WalState) -> bool {
    &&& s2.entries == s.entries + es
    &&& index_map(s2.index) == index_after(index_map(s.index), s.entries.len(), es)
    &&& s2.unpersisted == s.unpersisted + es
    &&& s2.next_sequence == s.next_sequence
}

/// The entries of `log` at indices `lo..hi`, in order, leaving out indices
/// the log holds no entry for.
pub open spec fn collected(log: WalState, lo: int, hi: int) -> Seq<LogEntryModel>
    decreases hi - lo,
{
    if hi <= lo {
        Seq::empty()
    } else {
        let rest = collected(log, lo, hi - 1);
        match entry_for(log, (hi - 1) as u64) {
            Some(e) => rest.push(e),
            None => rest,
        }
    }
}

/// The commit index raised to `new_commit` (if larger), and every committed
/// entry applied.
pub open spec fn apply_commit(v: VolatileState, new_commit: u64) -> VolatileState {
    let c = if new_commit > v.commit_index {
        new_commit
    } else {
        v.commit_index
    };
    VolatileState {
        commit_index: c,
        last_applied: if v.last_applied < c {
            c
        } else {
            v.last_applied
        },
    }
}

/// The entries of `log` that become applied when the commit index of `v` is
/// raised to `new_commit`.
pub open spec fn newly_applied(log: WalState, v: VolatileState, new_commit: u64) -> Seq<
    LogEntryModel,
> {
    let c = apply_commit(v, new_commit).commit_index;
    if v.last_applied < c {
        collected(log, v.last_applied + 1, c + 1)
    } else {
        Seq::empty()
    }
}

/// The index up to which a follower that accepted `ae` holds the leader's
/// entries: the preceding index plus the entries taken (saturating).
pub open spec fn acked_index(ae: AppendEntriesModel) -> u64 {
    let k = ae.prev_log_index + decoded_entries(ae.entries).len();
    if k <= u64::MAX {
        k as u64
    } else {
        u64::MAX
    }
}

/// Handling an AppendEntries from `from` at time `now`.
pub open spec fn append_entries_post(
    s: RaftNodeModel,
    s2: RaftNodeModel,
    now: u64,
    from: NodeId,
    ae: AppendEntriesModel,
    r: ReadyModel,
) -> bool {
    let s1 = observe_term(s, ae.term);
    let term = s1.persistent.current_term;
    let stepped = ae.term > s.persistent.current_term;
    if ae.term < term {
        &&& s2 == s
        &&& r == reply(
            from,
            RaftMessageModel::AppendEntriesResponse(
                AppendEntriesResponse { term, success: false, match_index: 0 },
            ),
            false,
        )
    } else if !log_matches(s.log, ae.prev_log_index, ae.prev_log_term) {
        &&& s2 == RaftNodeModel {
            leader_id: Some(ae.leader_id),
            role: Role::Follower,
            last_heartbeat_ms: now,
            election_timeout_ms: s2.election_timeout_ms,
            ..s1
        }
        &&& timer_reset(s2, now)
        &&& r == reply(
            from,
            RaftMessageModel::AppendEntriesResponse(
                AppendEntriesResponse { term, success: false, match_index: 0 },
            ),
            stepped,
        )
    } else {
        let added = decoded_entries(ae.entries);
        let last = last_index_of(s2.log.entries);
        let raise = ae.leader_commit > s.volatile.commit_index;
        let new_commit = if ae.leader_commit < last {
            ae.leader_commit
        } else {
            last
        };
        &&& log_contents(s2.log) == accept_entries(log_contents(s.log), added)
        &&& s2.log.next_sequence == s.log.next_sequence
        &&& s2 == RaftNodeModel {
            leader_id: Some(ae.leader_id),
            role: Role::Follower,
            last_heartbeat_ms: now,
            election_timeout_ms: s2.election_timeout_ms,
            log: s2.log,
            volatile: if raise {
                apply_commit(s.volatile, new_commit)
            } else {
                s.volatile
            },
            ..s1
        }
        &&& timer_reset(s2, now)
        &&& r == ReadyModel {
            messages: seq![
                (
                    from,
                    RaftMessageModel::AppendEntriesResponse(
                        AppendEntriesResponse { term, success: true, match_index: acked_index(ae) },
                    ),
                ),
            ],
            committed_entries: if raise {
                newly_applied(s2.log, s.volatile, new_commit)
            } else {
                Seq::empty()
            },
            persist_state: stepped,
        }
    }
}

/// Handling an AppendEntriesResponse from `from`.
pub open spec fn append_entries_response_post(
    s: RaftNodeModel,
    s2: RaftNodeModel,
    from: NodeId,
    aer: AppendEntriesResponse,
    r: ReadyModel,
) -> bool {
    let term = s.persistent.current_term;
    if s.role != Role::Leader {
        s2 == s && r == quiet()
    } else if aer.term > term {
        &&& s2 == RaftNodeModel { leader_state: None, ..observe_term(s, aer.term) }
        &&& r == ReadyModel { persist_state: true, ..quiet() }
    } else {
        match (s.peers.index_of_first(from), s.leader_state) {
            (Some(idx), Some((next, matched))) => {
                if aer.success {
                    let matched2 = if idx < matched.len() {
                        matched.update(idx, raised(matched[idx], aer.match_index))
                    } else {
                        matched
                    };
                    let next2 = next.update(idx, (aer.match_index + 1) as u64);
                    let nc = majority_commit(matched2, s.volatile.commit_index);
                    let ok = nc > s.volatile.commit_index && (entry_for(s.log, nc) matches Some(
                        e,
                    ) && e.term == term);
                    &&& s2 == RaftNodeModel {
                        leader_state: Some((next2, matched2)),
                        volatile: if ok {
                            apply_commit(s.volatile, nc)
                        } else {
                            s.volatile
                        },
                        ..s
                    }
                    &&& r == ReadyModel {
                        committed_entries: if ok {
                            newly_applied(s.log, s.volatile, nc)
                        } else {
                            Seq::empty()
                        },
                        ..quiet()
                    }
                } else {
                    let next2 = if idx < next.len() && next[idx] > 1 {
                        next.update(idx, (next[idx] - 1) as u64)
                    } else {
                        next
                    };
                    s2 == RaftNodeModel { leader_state: Some((next2, matched)), ..s } && r
                        == quiet()
                }
            },
            _ => s2 == s && r == quiet(),
        }
    }
}

/// A PreVote is granted: the node has not heard from a leader within the
/// minimum election timeout, the candidate's term is not behind, and its log
/// is at least as up to date.
pub open spec fn grants_pre_vote(s: RaftNodeModel, now: u64, pv: PreVote) -> bool {
    &&& elapsed_ms(now, s.last_heartbeat_ms) >= s.election_timeout_min_ms
    &&& pv.term >= s.persistent.current_term
    &&& candidate_up_to_date(
        pv.last_log_index,
        pv.last_log_term,
        last_index_of(s.log.entries),
        last_term_of(s.log.entries),
    )
}

/// Handling a message `m` from `from` at time `now`.
pub open spec fn step_post(
    s: RaftNodeModel,
    s2: RaftNodeModel,
    now: u64,
    from: NodeId,
    m: RaftMessageModel,
    r: ReadyModel,
) -> bool {
    match m {
        RaftMessageModel::RequestVote(rv) => request_vote_post(s, s2, now, from, rv, r),
        RaftMessageModel::RequestVoteResponse(rvr) => request_vote_response_post(
            s,
            s2,
            now,
            from,
            rvr,
            r,
        ),
        RaftMessageModel::AppendEntries(ae) => append_entries_post(s, s2, now, from, ae, r),
        RaftMessageModel::AppendEntriesResponse(aer) => append_entries_response_post(
            s,
            s2,
            from,
            aer,
            r,
        ),
        RaftMessageModel::PreVote(pv) => s2 == s && r == reply(
            from,
            RaftMessageModel::PreVoteResponse(
                PreVoteResponse {
                    term: s.persistent.current_term,
                    vote_granted: grants_pre_vote(s, now, pv),
                },
            ),
            false,
        ),
        RaftMessageModel::PreVoteResponse(pvr) => pre_vote_response_post(s, s2, now, from, pvr, r),
    }
}

/// Handling a PreVoteResponse from `from` at time `now`: a higher term is
/// adopted; during a pre-vote round a granted pre-vote is counted, and with
/// a quorum of them the node starts a real election.
pub open spec fn pre_vote_response_post(
    s: RaftNodeModel,
    s2: RaftNodeModel,
    now: u64,
    from: NodeId,
    pvr: PreVoteResponse,
    r: ReadyModel,
) -> bool {
    if s.role == Role::Leader {
        s2 == s && r == quiet()
    } else if pvr.term > s.persistent.current_term {
        s2 == observe_term(s, pvr.term) && r == ReadyModel { persist_state: true, ..quiet() }
    } else if pvr.vote_granted && s.pre_votes.contains(s.id) {
        let counted = RaftNodeModel { pre_votes: s.pre_votes.insert(from), ..s };
        if counted.pre_votes.len() >= quorum(s.peers.len()) {
            election_started(counted, s2, now, r)
        } else {
            s2 == counted && r == quiet()
        }
    } else {
        s2 == s && r == quiet()
    }
}

/// What handling `m` needs that arithmetic on `u64` can provide: a commit
/// index to follow (the smaller of the leader's and the last log index) and
/// a match index below the largest `u64`, to become leader a last log index
/// below it, and to start an election a term below it.
pub open spec fn step_in_range(s: RaftNodeModel, m: RaftMessageModel) -> bool {
    match m {
        RaftMessageModel::AppendEntries(ae) => ae.leader_commit < u64::MAX || last_index_of(
            accept_entries(log_contents(s.log), decoded_entries(ae.entries)).0,
        ) < u64::MAX,
        RaftMessageModel::AppendEntriesResponse(aer) => aer.match_index < u64::MAX,
        RaftMessageModel::RequestVoteResponse(_) => last_index_of(s.log.entries) < u64::MAX,
        RaftMessageModel::PreVoteResponse(_) => s.persistent.current_term < u64::MAX && last_index_of(
            s.log.entries,
        ) < u64::MAX,
        _ => true,
    }
}


// ---------------------------------------------------------------------------
// Laws of the node's transitions
// ---------------------------------------------------------------------------

/// What moves a node: a tick of its clock or a message from another node.
pub enum NodeEvent {
    Tick,
    Message(NodeId, RaftMessageModel),
}

/// `s2` and `r` are what event `e` at time `now` makes of `s`.
pub open spec fn node_next(
    s: RaftNodeModel,
    s2: RaftNodeModel,
    now: u64,
    e: NodeEvent,
    r: ReadyModel,
) -> bool {
    match e {
        NodeEvent::Tick => tick_post(s, s2, now, r),
        NodeEvent::Message(from, m) => step_post(s, s2, now, from, m, r),
    }
}

/// The current term never decreases.
pub proof fn lemma_term_never_decreases(
    s: RaftNodeModel,
    s2: RaftNodeModel,
    now: u64,
    e: NodeEvent,
    r: ReadyModel,
)
    requires
        node_next(s, s2, now, e, r),
        e is Tick ==> s.persistent.current_term < u64::MAX,
        e matches NodeEvent::Message(_, RaftMessageModel::PreVoteResponse(_)) ==> s.persistent.current_term
            < u64::MAX,
    ensures
        s2.persistent.current_term >= s.persistent.current_term,
{
}

/// Within a term a node votes at most once: a vote cast stays as long as
/// the term does.
pub proof fn lemma_one_vote_per_term(
    s: RaftNodeModel,
    s2: RaftNodeModel,
    now: u64,
    e: NodeEvent,
    r: ReadyModel,
)
    requires
        node_next(s, s2, now, e, r),
        e is Tick ==> s.persistent.current_term < u64::MAX,
        e matches NodeEvent::Message(_, RaftMessageModel::PreVoteResponse(_)) ==> s.persistent.current_term
            < u64::MAX,
        s2.persistent.current_term == s.persistent.current_term,
        s.persistent.voted_for is Some,
    ensures
        s2.persistent.voted_for == s.persistent.voted_for,
{
}

/// Law (one vote per term, at the voter): a node that has voted in its
/// current term refuses a RequestVote of that term from any other candidate,
/// with exactly one refusal, and stays as it was.
pub proof fn lemma_second_candidate_refused(
    s: RaftNodeModel,
    s2: RaftNodeModel,
    now: u64,
    from: NodeId,
    rv: RequestVote,
    r: ReadyModel,
)
    requires
        step_post(s, s2, now, from, RaftMessageModel::RequestVote(rv), r),
        rv.term == s.persistent.current_term,
        s.persistent.voted_for is Some,
        s.persistent.voted_for != Some(rv.candidate_id),
    ensures
        s2 == s,
        r.messages == seq![
            (
                from,
                RaftMessageModel::RequestVoteResponse(
                    RequestVoteResponse { term: rv.term, vote_granted: false },
                ),
            ),
        ],
        !r.persist_state,
{
}

/// Law (pre-vote): a pre-vote is granted exactly when the node has not
/// heard from a leader for the shortest election timeout, the candidate's
/// term is not behind, and the candidate's last entry (term, index) is
/// lexicographically at least the node's own last entry (0, 0 when empty).
pub proof fn lemma_pre_vote_grant(s: RaftNodeModel, now: u64, pv: PreVote)
    ensures
        ({
            let es = s.log.entries;
            let our_term: u64 = if es.len() == 0 {
                0
            } else {
                es.last().term
            };
            let our_index: u64 = if es.len() == 0 {
                0
            } else {
                es.last().index
            };
            let quiet_for: int = if now >= s.last_heartbeat_ms {
                now - s.last_heartbeat_ms
            } else {
                0
            };
            grants_pre_vote(s, now, pv) <==> {
                &&& quiet_for >= s.election_timeout_min_ms
                &&& pv.term >= s.persistent.current_term
                &&& (pv.last_log_term > our_term || (pv.last_log_term == our_term && pv.last_log_index
                    >= our_index))
            }
        }),
{
}

/// Law (election): the RequestVote a candidate sends, one to each peer in
/// peer order, asks for its own vote in its current term and carries the
/// index and term of its own last log entry (0 and 0 when the log is empty).
pub proof fn lemma_request_votes_carry_last_entry(s: RaftNodeModel)
    ensures
        request_votes(s).len() == s.peers.len(),
        forall|i: int|
            0 <= i < s.peers.len() ==> #[trigger] request_votes(s)[i] == (
                s.peers[i],
                RaftMessageModel::RequestVote(
                    RequestVote {
                        term: s.persistent.current_term,
                        candidate_id: s.id,
                        last_log_index: if s.log.entries.len() == 0 {
                            0u64
                        } else {
                            s.log.entries.last().index
                        },
                        last_log_term: if s.log.entries.len() == 0 {
                            0u64
                        } else {
                            s.log.entries.last().term
                        },
                    },
                ),
            ),
{
}

/// Law (election): a node that starts an election campaigns in the next
/// term and asks every peer for its vote with the index and term of its own
/// last log entry.
pub proof fn lemma_election_requests(s: RaftNodeModel, s2: RaftNodeModel, now: u64, r: ReadyModel)
    requires
        election_started(s, s2, now, r),
    ensures
        s2.persistent.current_term == (s.persistent.current_term + 1) as u64,
        s2.persistent.voted_for == Some(s.id),
        r.messages.len() == s.peers.len(),
        forall|i: int|
            0 <= i < s.peers.len() ==> #[trigger] r.messages[i] == (
                s.peers[i],
                RaftMessageModel::RequestVote(
                    RequestVote {
                        term: (s.persistent.current_term + 1) as u64,
                        candidate_id: s.id,
                        last_log_index: if s.log.entries.len() == 0 {
                            0u64
                        } else {
                            s.log.entries.last().index
                        },
                        last_log_term: if s.log.entries.len() == 0 {
                            0u64
                        } else {
                            s.log.entries.last().term
                        },
                    },
                ),
            ),
{
    lemma_request_votes_carry_last_entry(campaign(s, s2.election_timeout_ms, now));
}

/// Law (AppendEntries): a node that handles an AppendEntries whose term is
/// not below its own ends as a follower of the sender's leader, in the
/// message's term, whether or not its log matched.
pub proof fn lemma_append_entries_makes_follower(
    s: RaftNodeModel,
    s2: RaftNodeModel,
    now: u64,
    from: NodeId,
    ae: AppendEntriesModel,
    r: ReadyModel,
)
    requires
        append_entries_post(s, s2, now, from, ae, r),
        ae.term >= s.persistent.current_term,
    ensures
        s2.role == Role::Follower,
        s2.leader_id == Some(ae.leader_id),
        s2.persistent.current_term == ae.term,
{
}

/// A vote is granted only to a candidate whose log is at least as up to date
/// as the voter's, and only in the voter's current term.
pub proof fn lemma_vote_needs_up_to_date_log(
    s: RaftNodeModel,
    s2: RaftNodeModel,
    now: u64,
    from: NodeId,
    rv: RequestVote,
    r: ReadyModel,
)
    requires
        step_post(s, s2, now, from, RaftMessageModel::RequestVote(rv), r),
        s2.persistent.voted_for == Some(rv.candidate_id),
        s.persistent.voted_for != Some(rv.candidate_id) || s.persistent.current_term
            != s2.persistent.current_term,
    ensures
        rv.term == s2.persistent.current_term,
        candidate_up_to_date(
            rv.last_log_index,
            rv.last_log_term,
            last_index_of(s.log.entries),
            last_term_of(s.log.entries),
        ),
        r.messages == seq![
            (
                from,
                RaftMessageModel::RequestVoteResponse(
                    RequestVoteResponse { term: rv.term, vote_granted: true },
                ),
            ),
        ],
{
}

/// The commit index and the applied index never decrease, and nothing is
/// applied before it is committed.
pub proof fn lemma_commit_never_decreases(
    s: RaftNodeModel,
    s2: RaftNodeModel,
    now: u64,
    e: NodeEvent,
    r: ReadyModel,
)
    requires
        node_next(s, s2, now, e, r),
        s.volatile.last_applied <= s.volatile.commit_index,
    ensures
        s2.volatile.commit_index >= s.volatile.commit_index,
        s2.volatile.last_applied >= s.volatile.last_applied,
        s2.volatile.last_applied <= s2.volatile.commit_index,
{
}

/// The entries handed out for applying are exactly those from the old
/// applied index (exclusive) to the new one (inclusive), in index order:
/// every committed entry is handed out once.
pub proof fn lemma_applied_exactly_once(
    s: RaftNodeModel,
    s2: RaftNodeModel,
    now: u64,
    e: NodeEvent,
    r: ReadyModel,
)
    requires
        node_next(s, s2, now, e, r),
    ensures
        r.committed_entries == collected(
            s2.log,
            s.volatile.last_applied + 1,
            s2.volatile.last_applied + 1,
        ),
{
    let a = s.volatile.last_applied + 1;
    assert(collected(s2.log, a, a) == Seq::<LogEntryModel>::empty());
}

/// Every transition keeps a consistent log consistent: ticks and most
/// messages leave the log alone, and an AppendEntries reconciles it.
pub proof fn lemma_log_stays_consistent(
    s: RaftNodeModel,
    s2: RaftNodeModel,
    now: u64,
    e: NodeEvent,
    r: ReadyModel,
)
    requires
        node_next(s, s2, now, e, r),
        log_consistent(log_contents(s.log)),
        e matches NodeEvent::Message(_, RaftMessageModel::AppendEntries(ae)) ==> s.log.entries.len()
            + decoded_entries(ae.entries).len() < usize::MAX,
    ensures
        log_consistent(log_contents(s2.log)),
{
    match e {
        NodeEvent::Message(_, RaftMessageModel::AppendEntries(ae)) => {
            lemma_accept_keeps_consistent(log_contents(s.log), decoded_entries(ae.entries));
        },
        _ => {},
    }
}

/// Law (reconciliation at a follower): when a follower accepts an AppendEntries whose
/// entries rise in index, its consistent log stays consistent and holds
/// every one of those entries (index and term), whatever it held before at
/// those indices; and delivering the same entries again changes nothing.
pub proof fn lemma_log_matching(
    s: RaftNodeModel,
    s2: RaftNodeModel,
    now: u64,
    from: NodeId,
    ae: AppendEntriesModel,
    r: ReadyModel,
)
    requires
        append_entries_post(s, s2, now, from, ae, r),
        ae.term >= s.persistent.current_term,
        log_matches(s.log, ae.prev_log_index, ae.prev_log_term),
        log_consistent(log_contents(s.log)),
        rising(decoded_entries(ae.entries)),
        s.log.entries.len() + decoded_entries(ae.entries).len() < usize::MAX,
    ensures
        log_consistent(log_contents(s2.log)),
        forall|j: int|
            0 <= j < decoded_entries(ae.entries).len() ==> #[trigger] holds_entry(
                log_contents(s2.log),
                decoded_entries(ae.entries)[j],
            ),
        accept_entries(log_contents(s2.log), decoded_entries(ae.entries)) == log_contents(s2.log),
{
    lemma_accept_entries(log_contents(s.log), decoded_entries(ae.entries));
}

/// A node becomes leader only holding votes from a quorum of the cluster:
/// as a candidate of the same term, or, without peers, on its own vote in
/// the election it starts.
pub proof fn lemma_leader_has_quorum(
    s: RaftNodeModel,
    s2: RaftNodeModel,
    now: u64,
    e: NodeEvent,
    r: ReadyModel,
)
    requires
        node_next(s, s2, now, e, r),
        s.role != Role::Leader,
        s2.role == Role::Leader,
    ensures
        s2.votes.len() >= quorum(s2.peers.len()),
        (s.role == Role::Candidate && s2.persistent == s.persistent) || (alone(s)
            && s2.persistent.voted_for == Some(s.id) && s2.persistent.current_term
            == (s.persistent.current_term + 1) as u64),
{
    assert(set![s.id].len() == 1) by {
        assert(set![s.id] =~= Set::<NodeId>::empty().insert(s.id));
    }
    if s2.votes == set![s.id] && alone(s) {
        assert(quorum(s2.peers.len()) == 1);
    }
}

/// A leader raises its commit index only to an entry of its own term.
pub proof fn lemma_leader_commits_own_term(
    s: RaftNodeModel,
    s2: RaftNodeModel,
    now: u64,
    e: NodeEvent,
    r: ReadyModel,
)
    requires
        node_next(s, s2, now, e, r),
        s.role == Role::Leader,
        s2.role == Role::Leader,
        s2.volatile.commit_index > s.volatile.commit_index,
    ensures
        entry_for(s2.log, s2.volatile.commit_index) matches Some(en) && en.term
            == s2.persistent.current_term,
{
}

/// Two quorums of a cluster of `peers` and one more node share a member.
pub proof fn lemma_quorums_intersect(cluster: Set<NodeId>, a: Set<NodeId>, b: Set<NodeId>, peers: nat)
    requires
        cluster.finite(),
        cluster.len() == peers + 1,
        a.subset_of(cluster),
        b.subset_of(cluster),
        a.len() >= quorum(peers),
        b.len() >= quorum(peers),
    ensures
        exists|n: NodeId| a.contains(n) && b.contains(n),
{
    vstd::set_lib::lemma_len_subset(a, cluster);
    vstd::set_lib::lemma_len_subset(b, cluster);
    vstd::set_lib::lemma_set_union_finite_iff(a, b);
    vstd::set_lib::lemma_len_subset(a.union(b), cluster);
    if !(exists|n: NodeId| a.contains(n) && b.contains(n)) {
        assert(a.disjoint(b));
        vstd::set_lib::lemma_set_disjoint_lens(a, b);
        assert(a.union(b).subset_of(cluster));
    }
}

} // verus!
