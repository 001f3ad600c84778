use std::path::PathBuf;
use vajra::config::{RaftConfig, SyncPolicy};
use vajra::error::VajraError;
use vajra::raft::log::RaftLog;
use vajra::raft::messages::{
    AppendEntries, AppendEntriesResponse, PreVote, RaftMessage, RequestVote, RequestVoteResponse,
};
use vajra::raft::node::{NodeConfig, RaftNode, Ready};
use vajra::raft::state::{LeaderState, PersistentState, VolatileState};
use vajra::raft::Role;
use vajra::types::NodeId;
use vajra::wal::entry::{Command, LogEntry};
use vajra::wal::log::{WalConfig, WriteAheadLog};

fn wal_config() -> WalConfig {
    WalConfig { dir: PathBuf::from("data/wal"), segment_size: 1024, sync_policy: SyncPolicy::EveryEntry }
}

fn empty_log() -> RaftLog {
    RaftLog::new(WriteAheadLog::new(wal_config()))
}

fn test_config(id: u64, pre_vote: bool) -> NodeConfig {
    NodeConfig {
        id: NodeId(id),
        peers: vec![NodeId(1), NodeId(2), NodeId(3)],
        raft_config: RaftConfig {
            election_timeout_min_ms: 150,
            election_timeout_max_ms: 300,
            heartbeat_interval_ms: 50,
            snapshot_threshold: 1000,
            max_entries_per_append: 100,
            pre_vote_enabled: pre_vote,
        },
        wal_config: wal_config(),
        pre_vote_enabled: pre_vote,
    }
}

fn node(id: u64) -> RaftNode {
    RaftNode::new(test_config(id, false), WriteAheadLog::new(wal_config()))
}

fn pre_vote_node(id: u64) -> RaftNode {
    RaftNode::new(test_config(id, true), WriteAheadLog::new(wal_config()))
}

/// An AppendEntries from leader 1 in `term` carrying the given entries.
fn append(term: u64, prev: (u64, u64), entries: &[LogEntry]) -> RaftMessage {
    RaftMessage::AppendEntries(AppendEntries {
        term,
        leader_id: NodeId(1),
        prev_log_index: prev.0,
        prev_log_term: prev.1,
        entries: entries
            .iter()
            .map(|e| vajra::raft::messages::LogEntryData {
                term: e.term,
                index: e.index,
                data: e.to_bytes().unwrap(),
            })
            .collect(),
        leader_commit: 0,
    })
}

/// The messages of a Ready addressed to `to`.
fn to_peer(ready: Ready, to: u64) -> Vec<RaftMessage> {
    ready.messages.into_iter().filter(|(n, _)| *n == NodeId(to)).map(|(_, m)| m).collect()
}

/// Node 1 elected by node 2's vote, at time 400.
fn elect_node_1(n1: &mut RaftNode, n2: &mut RaftNode) {
    let ready = n1.tick_at(400);
    assert_eq!(n1.role(), Role::Candidate);
    let rv = to_peer(ready, 2).pop().unwrap();
    let reply = n2.step_at(400, NodeId(1), rv);
    let vote = to_peer(reply, 1).pop().unwrap();
    n1.step_at(401, NodeId(2), vote);
    assert!(n1.is_leader());
}

#[test]
fn test_request_vote_creation() {
    let rv = RequestVote { term: 1, candidate_id: NodeId(1), last_log_index: 10, last_log_term: 1 };
    assert_eq!(rv.term, 1);
    assert_eq!(rv.candidate_id, NodeId(1));
}

#[test]
fn test_append_entries_heartbeat() {
    let ae = AppendEntries {
        term: 2,
        leader_id: NodeId(1),
        prev_log_index: 5,
        prev_log_term: 1,
        entries: Vec::new(),
        leader_commit: 4,
    };
    assert!(ae.entries.is_empty());
}

#[test]
fn test_persistent_state_update_term() {
    let mut state = PersistentState::new();
    state.set_voted_for(NodeId(1));
    assert_eq!(state.voted_for, Some(NodeId(1)));
    state.update_term(2);
    assert_eq!(state.current_term, 2);
    assert_eq!(state.voted_for, None);
}

#[test]
fn persistent_state_keeps_vote_for_same_term() {
    let mut state = PersistentState::new();
    state.update_term(3);
    state.set_voted_for(NodeId(2));
    state.update_term(3);
    state.update_term(1);
    assert_eq!(state.current_term, 3);
    assert_eq!(state.voted_for, Some(NodeId(2)));
}

#[test]
fn test_volatile_state_advance_applied() {
    let mut state = VolatileState::new();
    state.commit_index = 5;
    let range = state.advance_applied();
    assert_eq!(range, Some(1..6));
    assert_eq!(state.last_applied, 5);
    let range = state.advance_applied();
    assert_eq!(range, None);
}

#[test]
fn volatile_state_commit_only_rises() {
    let mut state = VolatileState::new();
    state.update_commit(4);
    state.update_commit(2);
    assert_eq!(state.commit_index, 4);
}

#[test]
fn test_leader_state_compute_commit() {
    let mut state = LeaderState::new(5, 10);
    state.match_index = vec![8, 10, 10, 5, 7];
    let commit = state.compute_commit_index(0);
    assert_eq!(commit, 8);
}

#[test]
fn leader_state_progress() {
    let mut state = LeaderState::new(2, 4);
    assert_eq!(state.next_index, vec![5, 5]);
    assert_eq!(state.match_index, vec![0, 0]);
    state.update_match(1, 3);
    state.update_match(7, 9);
    assert_eq!(state.match_index, vec![0, 3]);
    // a match index never falls
    state.update_match(1, 2);
    assert_eq!(state.match_index, vec![0, 3]);
    state.decrement_next(0);
    assert_eq!(state.next_index, vec![4, 5]);
    let mut low = LeaderState::new(1, 0);
    low.decrement_next(0);
    assert_eq!(low.next_index, vec![1]);
    assert_eq!(state.compute_commit_index(9), 9);
    assert_eq!(LeaderState::new(0, 0).compute_commit_index(2), 2);
}

#[test]
fn test_raft_log_basic() {
    let log = empty_log();
    assert!(log.is_empty());
    assert_eq!(log.last_index(), 0);
    assert_eq!(log.last_term(), 0);
}

#[test]
fn test_raft_log_append_and_retrieve() {
    let mut log = empty_log();
    log.append(1, 1, Command::Noop);
    log.append(1, 2, Command::Noop);
    log.append(2, 3, Command::Noop);
    assert_eq!(log.len(), 3);
    assert_eq!(log.last_index(), 3);
    assert_eq!(log.last_term(), 2);
    let entry = log.get_entry(2).unwrap();
    assert_eq!(entry.term, 1);
    assert_eq!(entry.index, 2);
}

#[test]
fn test_raft_log_is_up_to_date() {
    let mut log = empty_log();
    log.append(1, 1, Command::Noop);
    log.append(2, 2, Command::Noop);
    assert!(log.is_up_to_date(1, 3));
    assert!(log.is_up_to_date(3, 2));
    assert!(!log.is_up_to_date(5, 1));
}

#[test]
fn test_raft_log_matches() {
    let mut log = empty_log();
    log.append(1, 1, Command::Noop);
    log.append(2, 2, Command::Noop);
    assert!(log.matches(0, 0));
    assert!(log.matches(1, 1));
    assert!(log.matches(2, 2));
    assert!(!log.matches(2, 1));
    assert!(!log.matches(3, 1));
}

#[test]
fn raft_log_ranges_and_truncation() {
    let mut log = empty_log();
    log.append_entries(vec![
        LogEntry::new(1, 1, Command::Noop),
        LogEntry::new(1, 2, Command::Noop),
        LogEntry::new(2, 3, Command::Noop),
    ]);
    assert_eq!(log.first_index(), 1);
    assert_eq!(log.term_at(3), Some(2));
    assert_eq!(log.get_range(2, 3).len(), 2);
    log.truncate_from(2);
    assert_eq!(log.len(), 1);
    assert_eq!(log.last_index(), 1);
    assert_eq!(log.wal().len(), 1);
    assert_eq!(log.take_unpersisted().len(), 3);
}

#[test]
fn test_node_creation() {
    let node = node(1);
    assert_eq!(node.role(), Role::Follower);
    assert_eq!(node.term(), 0);
    assert!(!node.is_leader());
    assert_eq!(node.leader(), None);
}

#[test]
fn test_single_node_election() {
    let config = NodeConfig {
        id: NodeId(1),
        peers: vec![NodeId(1)],
        raft_config: RaftConfig::default(),
        wal_config: wal_config(),
        pre_vote_enabled: false,
    };
    let mut node = RaftNode::new(config, WriteAheadLog::new(wal_config()));
    let ready = node.tick_at(400);
    assert!(ready.persist_state || node.role() == Role::Candidate);
    assert!(ready.messages.is_empty());
    // its own vote is a quorum of one: it leads at once
    assert!(node.is_leader());
    assert_eq!(node.term(), 1);
    assert_eq!(node.propose(Command::Noop).unwrap(), 1);
    // its own log is a majority: the next tick commits and hands the entry out
    let next = node.tick_at(401);
    assert_eq!(next.committed_entries, vec![LogEntry::new(1, 1, Command::Noop)]);
    assert_eq!(node.volatile_state().commit_index, 1);
    assert!(node.tick_at(402).committed_entries.is_empty());
}

#[test]
fn single_node_with_pre_vote_leads() {
    let config = NodeConfig {
        id: NodeId(1),
        peers: vec![NodeId(1)],
        raft_config: RaftConfig::default(),
        wal_config: wal_config(),
        pre_vote_enabled: true,
    };
    let mut node = RaftNode::new(config, WriteAheadLog::new(wal_config()));
    assert!(node.tick_at(100).messages.is_empty());
    assert_eq!(node.role(), Role::Follower);
    let ready = node.tick_at(400);
    assert!(ready.persist_state);
    assert!(node.is_leader());
    assert_eq!(node.leader(), Some(NodeId(1)));
    assert_eq!(node.term(), 1);
}

#[test]
fn no_election_before_timeout() {
    let mut n = node(1);
    let ready = n.tick_at(100);
    assert_eq!(n.role(), Role::Follower);
    assert!(ready.messages.is_empty());
    assert!(!ready.persist_state);
}

#[test]
fn election_timeout_starts_election() {
    let mut n = node(1);
    let ready = n.tick_at(300);
    assert_eq!(n.role(), Role::Candidate);
    assert_eq!(n.term(), 1);
    assert!(ready.persist_state);
    assert_eq!(ready.messages.len(), 2);
    for (to, m) in &ready.messages {
        assert!(*to == NodeId(2) || *to == NodeId(3));
        match m {
            RaftMessage::RequestVote(rv) => {
                assert_eq!(rv.term, 1);
                assert_eq!(rv.candidate_id, NodeId(1));
                assert_eq!(rv.last_log_index, 0);
            }
            _ => panic!("expected RequestVote"),
        }
    }
}

#[test]
fn vote_granted_once_per_term() {
    let mut n2 = node(2);
    let rv = |c: u64| {
        RaftMessage::RequestVote(RequestVote {
            term: 1,
            candidate_id: NodeId(c),
            last_log_index: 0,
            last_log_term: 0,
        })
    };
    let first = n2.step_at(10, NodeId(1), rv(1));
    assert!(first.persist_state);
    match &first.messages[0].1 {
        RaftMessage::RequestVoteResponse(r) => assert!(r.vote_granted && r.term == 1),
        _ => panic!("expected a response"),
    }
    let second = n2.step_at(11, NodeId(3), rv(3));
    match &second.messages[0].1 {
        RaftMessage::RequestVoteResponse(r) => assert!(!r.vote_granted),
        _ => panic!("expected a response"),
    }
    // the same candidate asking again is granted again
    let again = n2.step_at(12, NodeId(1), rv(1));
    match &again.messages[0].1 {
        RaftMessage::RequestVoteResponse(r) => assert!(r.vote_granted),
        _ => panic!("expected a response"),
    }
}

#[test]
fn vote_refused_to_stale_log() {
    let mut n2 = node(2);
    n2.step_at(
        0,
        NodeId(1),
        RaftMessage::AppendEntries(AppendEntries {
            term: 2,
            leader_id: NodeId(1),
            prev_log_index: 0,
            prev_log_term: 0,
            entries: vec![vajra::raft::messages::LogEntryData {
                term: 2,
                index: 1,
                data: LogEntry::new(2, 1, Command::Noop).to_bytes().unwrap(),
            }],
            leader_commit: 0,
        }),
    );
    assert_eq!(n2.log().last_index(), 1);
    let reply = n2.step_at(
        500,
        NodeId(3),
        RaftMessage::RequestVote(RequestVote {
            term: 3,
            candidate_id: NodeId(3),
            last_log_index: 5,
            last_log_term: 1,
        }),
    );
    assert_eq!(n2.term(), 3);
    match &reply.messages[0].1 {
        RaftMessage::RequestVoteResponse(r) => assert!(!r.vote_granted && r.term == 3),
        _ => panic!("expected a response"),
    }
}

#[test]
fn election_replication_and_commit() {
    let mut n1 = node(1);
    let mut n2 = node(2);
    elect_node_1(&mut n1, &mut n2);
    assert_eq!(n1.leader(), Some(NodeId(1)));
    assert_eq!(n1.term(), 1);
    // propose as leader
    let index = n1.propose(Command::Delete { id: 77 }).unwrap();
    assert_eq!(index, 1);
    assert_eq!(n1.take_unpersisted().len(), 1);
    // the next tick sends the entry to both followers
    let ready = n1.tick_at(401);
    assert_eq!(ready.messages.len(), 2);
    let ae = to_peer(ready, 2).pop().unwrap();
    match &ae {
        RaftMessage::AppendEntries(a) => {
            assert_eq!(a.term, 1);
            assert_eq!(a.prev_log_index, 0);
            assert_eq!(a.entries.len(), 1);
            assert_eq!(a.entries[0].index, 1);
        }
        _ => panic!("expected AppendEntries"),
    }
    let reply = n2.step_at(402, NodeId(1), ae);
    assert_eq!(n2.leader(), Some(NodeId(1)));
    assert_eq!(n2.log().last_index(), 1);
    let aer = to_peer(reply, 1).pop().unwrap();
    match &aer {
        RaftMessage::AppendEntriesResponse(r) => {
            assert!(r.success);
            assert_eq!(r.match_index, 1);
        }
        _ => panic!("expected AppendEntriesResponse"),
    }
    let done = n1.step_at(403, NodeId(2), aer);
    assert_eq!(done.committed_entries, vec![LogEntry::new(1, 1, Command::Delete { id: 77 })]);
    assert_eq!(n1.volatile_state().commit_index, 1);
    assert_eq!(n1.volatile_state().last_applied, 1);
    // a heartbeat carries the commit index to the follower, which applies it once
    let hb = to_peer(n1.tick_at(460), 2).pop().unwrap();
    let applied = n2.step_at(461, NodeId(1), hb);
    assert_eq!(applied.committed_entries.len(), 1);
    assert_eq!(n2.volatile_state().commit_index, 1);
    let hb2 = to_peer(n1.tick_at(520), 2).pop().unwrap();
    assert!(n2.step_at(521, NodeId(1), hb2).committed_entries.is_empty());
}

#[test]
fn propose_needs_leadership() {
    let mut n = node(3);
    match n.propose(Command::Noop) {
        Err(VajraError::NotLeader { leader }) => assert_eq!(leader, None),
        _ => panic!("expected NotLeader"),
    }
    assert_eq!(n.log().last_index(), 0);
}

#[test]
fn stale_append_entries_rejected() {
    let mut n2 = node(2);
    n2.step_at(
        0,
        NodeId(3),
        RaftMessage::RequestVote(RequestVote { term: 5, candidate_id: NodeId(3), last_log_index: 0, last_log_term: 0 }),
    );
    let reply = n2.step_at(
        1,
        NodeId(1),
        RaftMessage::AppendEntries(AppendEntries {
            term: 4,
            leader_id: NodeId(1),
            prev_log_index: 0,
            prev_log_term: 0,
            entries: Vec::new(),
            leader_commit: 0,
        }),
    );
    match &reply.messages[0].1 {
        RaftMessage::AppendEntriesResponse(r) => {
            assert!(!r.success);
            assert_eq!(r.term, 5);
            assert_eq!(r.match_index, 0);
        }
        _ => panic!("expected a response"),
    }
    assert_eq!(n2.leader(), None);
}

#[test]
fn leader_steps_down_on_higher_term() {
    let mut n1 = node(1);
    let mut n2 = node(2);
    elect_node_1(&mut n1, &mut n2);
    let ready = n1.step_at(
        500,
        NodeId(3),
        RaftMessage::AppendEntriesResponse(AppendEntriesResponse { term: 7, success: false, match_index: 0 }),
    );
    assert!(ready.persist_state);
    assert_eq!(n1.role(), Role::Follower);
    assert_eq!(n1.term(), 7);
    assert_eq!(n1.leader(), None);
}

#[test]
fn failed_append_steps_next_index_back() {
    let mut n1 = node(1);
    let mut n2 = node(2);
    elect_node_1(&mut n1, &mut n2);
    n1.propose(Command::Noop).unwrap();
    n1.propose(Command::Noop).unwrap();
    n1.step_at(
        402,
        NodeId(3),
        RaftMessage::AppendEntriesResponse(AppendEntriesResponse { term: 1, success: false, match_index: 0 }),
    );
    // node 3 is sent everything from its next index, the first entry
    let ae = to_peer(n1.tick_at(460), 3).pop().unwrap();
    match ae {
        RaftMessage::AppendEntries(a) => {
            assert_eq!(a.prev_log_index, 0);
            assert_eq!(a.entries.len(), 2);
        }
        _ => panic!("expected AppendEntries"),
    }
}

#[test]
fn pre_vote_answers() {
    let mut n2 = node(2);
    let pv = |term: u64| RaftMessage::PreVote(PreVote { term, candidate_id: NodeId(3), last_log_index: 0, last_log_term: 0 });
    // heard from a leader recently (the clock starts at the last heartbeat)
    let recent = n2.step_at(100, NodeId(3), pv(1));
    match &recent.messages[0].1 {
        RaftMessage::PreVoteResponse(r) => assert!(!r.vote_granted),
        _ => panic!("expected a response"),
    }
    let later = n2.step_at(200, NodeId(3), pv(1));
    match &later.messages[0].1 {
        RaftMessage::PreVoteResponse(r) => assert!(r.vote_granted && r.term == 0),
        _ => panic!("expected a response"),
    }
    assert_eq!(n2.term(), 0);
    // a granted pre-vote with no round under way changes nothing
    let ignored = n2.step_at(
        200,
        NodeId(3),
        RaftMessage::PreVoteResponse(vajra::raft::messages::PreVoteResponse { term: 0, vote_granted: true }),
    );
    assert!(ignored.messages.is_empty());
    assert_eq!(n2.term(), 0);
    assert_eq!(n2.role(), Role::Follower);
    // a higher term in a response is adopted
    let higher = n2.step_at(
        200,
        NodeId(3),
        RaftMessage::PreVoteResponse(vajra::raft::messages::PreVoteResponse { term: 9, vote_granted: false }),
    );
    assert!(higher.persist_state);
    assert_eq!(n2.term(), 9);
}

#[test]
fn pre_vote_round_keeps_the_term() {
    let mut n1 = pre_vote_node(1);
    let mut n2 = pre_vote_node(2);
    let ready = n1.tick_at(400);
    assert_eq!(n1.term(), 0);
    assert_eq!(n1.role(), Role::Follower);
    assert!(!ready.persist_state);
    assert_eq!(ready.messages.len(), 2);
    for (_, m) in &ready.messages {
        match m {
            RaftMessage::PreVote(pv) => {
                assert_eq!(pv.term, 1);
                assert_eq!(pv.candidate_id, NodeId(1));
            }
            _ => panic!("expected PreVote"),
        }
    }
    // node 2 has not heard from a leader: it grants, keeping its term
    let pv = to_peer(ready, 2).pop().unwrap();
    let answer = to_peer(n2.step_at(400, NodeId(1), pv), 1).pop().unwrap();
    assert_eq!(n2.term(), 0);
    // with its own pre-vote, node 1 holds a quorum of 3: the election starts
    let election = n1.step_at(401, NodeId(2), answer);
    assert_eq!(n1.role(), Role::Candidate);
    assert_eq!(n1.term(), 1);
    assert!(election.persist_state);
    assert_eq!(election.messages.len(), 2);
    assert!(election.messages.iter().all(|(_, m)| matches!(m, RaftMessage::RequestVote(_))));
}

#[test]
fn pre_vote_refused_keeps_follower() {
    let mut n1 = pre_vote_node(1);
    let mut n2 = pre_vote_node(2);
    let ready = n1.tick_at(400);
    // node 2 heard from a leader just now: it refuses
    n2.step_at(390, NodeId(3), append(0, (0, 0), &[]));
    let pv = to_peer(ready, 2).pop().unwrap();
    let answer = to_peer(n2.step_at(400, NodeId(1), pv), 1).pop().unwrap();
    let after = n1.step_at(401, NodeId(2), answer);
    assert!(after.messages.is_empty());
    assert_eq!(n1.role(), Role::Follower);
    assert_eq!(n1.term(), 0);
}

#[test]
fn follower_replaces_conflicting_entries() {
    let mut n2 = node(2);
    n2.step_at(0, NodeId(1), append(1, (0, 0), &[LogEntry::new(1, 1, Command::Noop), LogEntry::new(1, 2, Command::Noop)]));
    assert_eq!(n2.log().len(), 2);
    let msg = || append(2, (1, 1), &[LogEntry::new(2, 2, Command::Noop)]);
    let reply = to_peer(n2.step_at(10, NodeId(1), msg()), 1).pop().unwrap();
    match reply {
        RaftMessage::AppendEntriesResponse(r) => {
            assert!(r.success);
            assert_eq!(r.match_index, 2);
        }
        _ => panic!("expected a response"),
    }
    assert_eq!(n2.log().len(), 2);
    assert_eq!(n2.log().term_at(1), Some(1));
    assert_eq!(n2.log().term_at(2), Some(2));
    // the same message again changes nothing
    n2.step_at(20, NodeId(1), msg());
    assert_eq!(n2.log().len(), 2);
    assert_eq!(n2.log().term_at(2), Some(2));
    // entries the log already holds are not appended again
    n2.step_at(30, NodeId(1), append(2, (0, 0), &[LogEntry::new(1, 1, Command::Noop), LogEntry::new(2, 2, Command::Noop)]));
    assert_eq!(n2.log().len(), 2);
}

#[test]
fn one_follower_alone_commits_nothing() {
    let mut n1 = node(1);
    let mut n2 = node(2);
    elect_node_1(&mut n1, &mut n2);
    assert_eq!(n1.propose(Command::Noop).unwrap(), 1);
    assert_eq!(n1.propose(Command::Noop).unwrap(), 2);
    let ready = n1.step_at(
        402,
        NodeId(2),
        RaftMessage::AppendEntriesResponse(AppendEntriesResponse { term: 1, success: true, match_index: 0 }),
    );
    assert!(ready.committed_entries.is_empty());
    assert_eq!(n1.volatile_state().commit_index, 0);
    // once a follower holds both, the leader and it make a majority of 3
    let done = n1.step_at(
        403,
        NodeId(3),
        RaftMessage::AppendEntriesResponse(AppendEntriesResponse { term: 1, success: true, match_index: 2 }),
    );
    assert_eq!(done.committed_entries.len(), 2);
    assert_eq!(n1.volatile_state().commit_index, 2);
}

#[test]
fn vote_response_ignored_unless_candidate() {
    let mut n1 = node(1);
    let ready = n1.step_at(
        10,
        NodeId(2),
        RaftMessage::RequestVoteResponse(RequestVoteResponse { term: 0, vote_granted: true }),
    );
    assert_eq!(n1.role(), Role::Follower);
    assert!(ready.messages.is_empty());
}

#[test]
fn one_leader_per_term_scenario() {
    let mut n1 = node(1);
    let mut n2 = node(2);
    let mut n3 = node(3);
    // nodes 1 and 3 both time out and stand in term 1
    let r1 = n1.tick_at(400);
    let r3 = n3.tick_at(400);
    assert_eq!(n1.term(), 1);
    assert_eq!(n3.term(), 1);
    // node 2 hears node 1 first and votes for it; node 3's request is refused
    let grant = to_peer(n2.step_at(401, NodeId(1), to_peer(r1, 2).pop().unwrap()), 1).pop().unwrap();
    let refusal = to_peer(n2.step_at(402, NodeId(3), to_peer(r3, 2).pop().unwrap()), 3).pop().unwrap();
    match &refusal {
        RaftMessage::RequestVoteResponse(r) => assert!(!r.vote_granted),
        _ => panic!("expected a response"),
    }
    n1.step_at(403, NodeId(2), grant);
    n3.step_at(403, NodeId(2), refusal);
    assert!(n1.is_leader());
    assert!(!n3.is_leader());
    assert_eq!(n3.role(), Role::Candidate);
}

#[test]
fn commit_value_support() {
    // an odd number of match indices: the median is held by a majority
    let mut odd = LeaderState::new(3, 0);
    odd.match_index = vec![5, 1, 5];
    assert_eq!(odd.compute_commit_index(0), 5);
    // an even number: the largest value held by len / 2 + 1 of them
    let mut even = LeaderState::new(4, 0);
    even.match_index = vec![1, 5, 1, 5];
    assert_eq!(even.compute_commit_index(0), 1);
    let mut four = LeaderState::new(4, 0);
    four.match_index = vec![1, 2, 3, 4];
    assert_eq!(four.compute_commit_index(0), 2);
    assert_eq!(four.match_index.iter().filter(|m| **m >= 2).count(), 3);
    assert_eq!(four.match_index.iter().filter(|m| **m >= 3).count(), 2);
}

#[test]
fn follower_acknowledges_only_what_it_was_sent() {
    let mut n2 = node(2);
    n2.step_at(
        0,
        NodeId(1),
        append(1, (0, 0), &[
            LogEntry::new(1, 1, Command::Noop),
            LogEntry::new(1, 2, Command::Noop),
            LogEntry::new(1, 3, Command::Noop),
        ]),
    );
    assert_eq!(n2.log().len(), 3);
    // a heartbeat that matches at index 1 and carries nothing acknowledges
    // index 1, not the follower's own last index
    let reply = to_peer(n2.step_at(10, NodeId(1), append(1, (1, 1), &[])), 1).pop().unwrap();
    match reply {
        RaftMessage::AppendEntriesResponse(r) => {
            assert!(r.success);
            assert_eq!(r.match_index, 1);
        }
        _ => panic!("expected a response"),
    }
    assert_eq!(n2.log().len(), 3);
}
