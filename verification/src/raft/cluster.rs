//! A cluster of Raft nodes exchanging messages, each moving by the node's
//! own transition relation, and the election safety it keeps: at most one
//! leader per term.

use crate::raft::messages::{RaftMessageModel, RequestVote};
use crate::raft::protocol::{
    lemma_one_vote_per_term, lemma_quorums_intersect, lemma_term_never_decreases, node_next,
    quorum, step_in_range, NodeEvent, RaftNodeModel, ReadyModel,
};
use crate::raft::Role;
use crate::types::NodeId;
use vstd::prelude::*;

verus! {

// ---------------------------------------------------------------------------
// What one node's transition does to its identity, votes and messages
// ---------------------------------------------------------------------------

/// A node's id and peers never change.
proof fn lemma_next_keeps_identity(
    s: RaftNodeModel,
    s2: RaftNodeModel,
    now: u64,
    e: NodeEvent,
    r: ReadyModel,
)
    requires
        node_next(s, s2, now, e, r),
    ensures
        s2.id == s.id,
        s2.peers == s.peers,
{
}

/// The only RequestVotes a node sends are its own, at an election; the
/// only granted votes it sends answer a RequestVote, to its sender, for the
/// candidate it now votes for in the term of the answer.
proof fn lemma_next_messages(
    s: RaftNodeModel,
    s2: RaftNodeModel,
    now: u64,
    e: NodeEvent,
    r: ReadyModel,
    i: int,
)
    requires
        node_next(s, s2, now, e, r),
        0 <= i < r.messages.len(),
    ensures
        r.messages[i].1 matches RaftMessageModel::RequestVote(rv) ==> rv.candidate_id == s.id,
        r.messages[i].1 matches RaftMessageModel::RequestVoteResponse(rvr) ==> (rvr.vote_granted
            ==> (e matches NodeEvent::Message(from, RaftMessageModel::RequestVote(rv)) && from
            == r.messages[i].0 && s2.persistent.voted_for == Some(rv.candidate_id)
            && s2.persistent.current_term == rvr.term)),
{
}

/// How a node can be candidate or leader after a transition: as it was,
/// by starting an election on a tick or a pre-vote quorum (and, without
/// peers, winning it on its own vote), or by counting a granted vote.
proof fn lemma_next_campaign(
    s: RaftNodeModel,
    s2: RaftNodeModel,
    now: u64,
    e: NodeEvent,
    r: ReadyModel,
)
    requires
        node_next(s, s2, now, e, r),
        s2.role != Role::Follower,
    ensures
        ({
            ||| {
            &&& s.role == s2.role
            &&& s2.persistent.current_term == s.persistent.current_term
            &&& s2.votes == s.votes
        }
        ||| {
            &&& (e is Tick || e matches NodeEvent::Message(_, RaftMessageModel::PreVoteResponse(_)))
            &&& s2.votes == set![s.id]
            &&& s2.persistent.voted_for == Some(s.id)
            &&& s2.role == Role::Leader ==> s2.votes.len() >= quorum(s.peers.len())
        }
        ||| {
            &&& e matches NodeEvent::Message(from, RaftMessageModel::RequestVoteResponse(rvr))
                && rvr.vote_granted && rvr.term == s.persistent.current_term && s2.votes
                == s.votes.insert(from)
            &&& s.role == Role::Candidate
            &&& s2.persistent.current_term == s.persistent.current_term
            &&& s2.role == Role::Leader ==> s2.votes.len() >= quorum(s.peers.len())
        }
        }),
{
    assert(set![s.id].len() == 1) by {
        assert(set![s.id] =~= Set::<NodeId>::empty().insert(s.id));
    }
}

// ---------------------------------------------------------------------------
// The cluster
// ---------------------------------------------------------------------------

/// A cluster: its nodes by id, the messages sent so far (sender, addressee,
/// message; a message can be delivered any number of times, or never), and
/// a record of every vote cast (voter, term, candidate).
pub struct ClusterModel {
    pub nodes: Map<NodeId, RaftNodeModel>,
    pub network: Set<(NodeId, NodeId, RaftMessageModel)>,
    pub votes_cast: Set<(NodeId, u64, NodeId)>,
}

/// The messages of a Ready, as sent by node `n`.
pub open spec fn sent_by(n: NodeId, msgs: Seq<(NodeId, RaftMessageModel)>) -> Set<
    (NodeId, NodeId, RaftMessageModel),
> {
    Set::new(|x: (NodeId, NodeId, RaftMessageModel)| x.0 == n && msgs.contains((x.1, x.2)))
}

/// The record of votes after node `n` moves from `s` to `s2`: a vote it now
/// holds in a term or for a candidate it did not before is added.
pub open spec fn votes_after(
    votes: Set<(NodeId, u64, NodeId)>,
    n: NodeId,
    s: RaftNodeModel,
    s2: RaftNodeModel,
) -> Set<(NodeId, u64, NodeId)> {
    match s2.persistent.voted_for {
        Some(c) => if s2.persistent != s.persistent {
            votes.insert((n, s2.persistent.current_term, c))
        } else {
            votes
        },
        None => votes,
    }
}

/// Node `n` takes event `e` at time `now`: a tick, or the delivery of a
/// message sent to it, as the node's own functions allow them; what it
/// sends joins the messages in flight.
pub open spec fn cluster_step(
    c: ClusterModel,
    c2: ClusterModel,
    n: NodeId,
    now: u64,
    e: NodeEvent,
    r: ReadyModel,
) -> bool {
    let s = c.nodes[n];
    let s2 = c2.nodes[n];
    &&& c.nodes.contains_key(n)
    &&& match e {
        NodeEvent::Tick => s.persistent.current_term < u64::MAX,
        NodeEvent::Message(from, m) => c.network.contains((from, n, m)) && step_in_range(s, m),
    }
    &&& node_next(s, s2, now, e, r)
    &&& c2.nodes == c.nodes.insert(n, s2)
    &&& c2.network == c.network.union(sent_by(n, r.messages))
    &&& c2.votes_cast == votes_after(c.votes_cast, n, s, s2)
}

/// A cluster as it starts: finitely many nodes, each knowing every other
/// node as a peer (once), all followers that have not voted, and nothing
/// sent or cast yet.
pub open spec fn cluster_initial(c: ClusterModel) -> bool {
    &&& c.nodes.dom().finite()
    &&& forall|n: NodeId| #[trigger] c.nodes.dom().contains(n) ==> {
        let s = c.nodes[n];
        &&& s.id == n
        &&& s.peers.no_duplicates()
        &&& s.peers.to_set() == c.nodes.dom().remove(n)
        &&& s.role == Role::Follower
        &&& s.persistent.voted_for is None
    }
    &&& c.network == Set::<(NodeId, NodeId, RaftMessageModel)>::empty()
    &&& c.votes_cast == Set::<(NodeId, u64, NodeId)>::empty()
}

/// The cluster's invariant.
pub open spec fn cluster_inv(c: ClusterModel) -> bool {
    let dom = c.nodes.dom();
    &&& dom.finite()
    // every node knows itself and every other node as a peer, once
    &&& forall|n: NodeId| #[trigger] dom.contains(n) ==> {
        let s = c.nodes[n];
        &&& s.id == n
        &&& s.peers.no_duplicates()
        &&& s.peers.to_set() == dom.remove(n)
    }
    // a vote cast is by a node that has reached its term, and is still
    // held while that term lasts
    &&& forall|v: NodeId, t: u64, x: NodeId| #[trigger] c.votes_cast.contains((v, t, x)) ==> {
        &&& dom.contains(v)
        &&& c.nodes[v].persistent.current_term >= t
        &&& c.nodes[v].persistent.current_term == t ==> c.nodes[v].persistent.voted_for == Some(x)
    }
    // a vote held is recorded
    &&& forall|n: NodeId| #[trigger] dom.contains(n) ==> (c.nodes[n].persistent.voted_for matches Some(
        x,
    ) ==> c.votes_cast.contains((n, c.nodes[n].persistent.current_term, x)))
    // one vote per voter and term
    &&& forall|v: NodeId, t: u64, x: NodeId, y: NodeId|
        #![trigger c.votes_cast.contains((v, t, x)), c.votes_cast.contains((v, t, y))]
        c.votes_cast.contains((v, t, x)) && c.votes_cast.contains((v, t, y)) ==> x == y
    // a candidate's or leader's votes were cast for it in its term; a
    // leader holds a quorum
    &&& forall|n: NodeId| #[trigger] dom.contains(n) && c.nodes[n].role != Role::Follower ==> {
        &&& c.nodes[n].votes.subset_of(dom)
        &&& forall|v: NodeId| #[trigger] c.nodes[n].votes.contains(v) ==> c.votes_cast.contains(
            (v, c.nodes[n].persistent.current_term, n),
        )
        &&& c.nodes[n].role == Role::Leader ==> c.nodes[n].votes.len() >= quorum(
            c.nodes[n].peers.len(),
        )
    }
    // messages come from nodes; a RequestVote asks for its sender; a granted
    // vote in flight was cast
    &&& forall|f: NodeId, to: NodeId, m: RaftMessageModel| #[trigger] c.network.contains((f, to, m))
        ==> {
        &&& dom.contains(f)
        &&& (m matches RaftMessageModel::RequestVote(rv) ==> rv.candidate_id == f)
        &&& (m matches RaftMessageModel::RequestVoteResponse(rvr) ==> (rvr.vote_granted
            ==> c.votes_cast.contains((f, rvr.term, to))))
    }
}

/// The invariant holds of every cluster as it starts.
pub proof fn lemma_cluster_initial(c: ClusterModel)
    requires
        cluster_initial(c),
    ensures
        cluster_inv(c),
{
}

/// Law (election safety): in a cluster that keeps its invariant, two
/// leaders of the same term are the same node.
pub proof fn lemma_election_safety(c: ClusterModel, n1: NodeId, n2: NodeId)
    requires
        cluster_inv(c),
        c.nodes.dom().contains(n1),
        c.nodes.dom().contains(n2),
        c.nodes[n1].role == Role::Leader,
        c.nodes[n2].role == Role::Leader,
        c.nodes[n1].persistent.current_term == c.nodes[n2].persistent.current_term,
    ensures
        n1 == n2,
{
    let dom = c.nodes.dom();
    let s1 = c.nodes[n1];
    let s2 = c.nodes[n2];
    let t = s1.persistent.current_term;
    s1.peers.unique_seq_to_set();
    s2.peers.unique_seq_to_set();
    assert(dom.remove(n1).len() == dom.len() - 1);
    assert(dom.remove(n2).len() == dom.len() - 1);
    lemma_quorums_intersect(dom, s1.votes, s2.votes, s1.peers.len());
    let v = choose|v: NodeId| s1.votes.contains(v) && s2.votes.contains(v);
    assert(c.votes_cast.contains((v, t, n1)));
    assert(c.votes_cast.contains((v, t, n2)));
}

/// Every step of a node keeps the cluster's invariant.
#[verifier::rlimit(60)]
pub proof fn lemma_cluster_step(
    c: ClusterModel,
    c2: ClusterModel,
    n: NodeId,
    now: u64,
    e: NodeEvent,
    r: ReadyModel,
)
    requires
        cluster_inv(c),
        cluster_step(c, c2, n, now, e, r),
    ensures
        cluster_inv(c2),
{
    let dom = c.nodes.dom();
    let s = c.nodes[n];
    let s2 = c2.nodes[n];
    lemma_next_keeps_identity(s, s2, now, e, r);
    lemma_term_never_decreases(s, s2, now, e, r);
    assert(c2.nodes.dom() =~= dom);
    assert(c.votes_cast.subset_of(c2.votes_cast));
    // a new record, if any, is the vote that node `n` now holds
    assert forall|v: NodeId, t: u64, x: NodeId| #[trigger] c2.votes_cast.contains((v, t, x))
        && !c.votes_cast.contains((v, t, x)) implies v == n && t == s2.persistent.current_term
        && s2.persistent.voted_for == Some(x) && s2.persistent != s.persistent by {}
    // identities and peers
    assert forall|m: NodeId| #[trigger] dom.contains(m) implies {
        let sm = c2.nodes[m];
        &&& sm.id == m
        &&& sm.peers.no_duplicates()
        &&& sm.peers.to_set() == dom.remove(m)
    } by {
        if m == n {
        }
    }
    // votes cast stay true
    assert forall|v: NodeId, t: u64, x: NodeId| #[trigger] c2.votes_cast.contains((v, t, x)) implies {
        &&& dom.contains(v)
        &&& c2.nodes[v].persistent.current_term >= t
        &&& c2.nodes[v].persistent.current_term == t ==> c2.nodes[v].persistent.voted_for == Some(x)
    } by {
        if c.votes_cast.contains((v, t, x)) {
            if v == n && s2.persistent.current_term == t {
                lemma_one_vote_per_term(s, s2, now, e, r);
            }
        }
    }
    // votes held are recorded
    assert forall|m: NodeId| #[trigger] dom.contains(m) implies (c2.nodes[m].persistent.voted_for matches Some(
        x,
    ) ==> c2.votes_cast.contains((m, c2.nodes[m].persistent.current_term, x))) by {}
    // one vote per voter and term
    assert forall|v: NodeId, t: u64, x: NodeId, y: NodeId|
        c2.votes_cast.contains((v, t, x)) && c2.votes_cast.contains((v, t, y)) implies x == y by {
        if !c.votes_cast.contains((v, t, x)) || !c.votes_cast.contains((v, t, y)) {
            // one of them is node n's new vote; the other, if old, was cast in
            // the same term, which the node had then reached
            if c.votes_cast.contains((v, t, y)) {
                lemma_one_vote_per_term(s, s2, now, e, r);
            }
            if c.votes_cast.contains((v, t, x)) {
                lemma_one_vote_per_term(s, s2, now, e, r);
            }
        }
    }
    // candidates' and leaders' votes
    assert forall|m: NodeId| #[trigger] dom.contains(m) && c2.nodes[m].role != Role::Follower implies {
        &&& c2.nodes[m].votes.subset_of(dom)
        &&& forall|v: NodeId| #[trigger] c2.nodes[m].votes.contains(v) ==> c2.votes_cast.contains(
            (v, c2.nodes[m].persistent.current_term, m),
        )
        &&& c2.nodes[m].role == Role::Leader ==> c2.nodes[m].votes.len() >= quorum(
            c2.nodes[m].peers.len(),
        )
    } by {
        if m == n {
            lemma_next_campaign(s, s2, now, e, r);
            if let NodeEvent::Message(from, RaftMessageModel::RequestVoteResponse(rvr)) = e {
                if rvr.vote_granted && rvr.term == s.persistent.current_term && s2.votes
                    == s.votes.insert(from) && s.role == Role::Candidate {
                    assert(c.network.contains((from, n, RaftMessageModel::RequestVoteResponse(rvr))));
                    assert(c.votes_cast.contains((from, rvr.term, n)));
                }
            }
        }
    }
    // messages in flight
    assert forall|f: NodeId, to: NodeId, m: RaftMessageModel| #[trigger] c2.network.contains(
        (f, to, m),
    ) implies {
        &&& dom.contains(f)
        &&& (m matches RaftMessageModel::RequestVote(rv) ==> rv.candidate_id == f)
        &&& (m matches RaftMessageModel::RequestVoteResponse(rvr) ==> (rvr.vote_granted
            ==> c2.votes_cast.contains((f, rvr.term, to))))
    } by {
        if !c.network.contains((f, to, m)) {
            assert(sent_by(n, r.messages).contains((f, to, m)));
            let i = choose|i: int| 0 <= i < r.messages.len() && r.messages[i] == (to, m);
            lemma_next_messages(s, s2, now, e, r, i);
            if let RaftMessageModel::RequestVoteResponse(rvr) = m {
                if rvr.vote_granted {
                    if let NodeEvent::Message(from, RaftMessageModel::RequestVote(rv)) = e {
                        assert(c.network.contains((from, n, RaftMessageModel::RequestVote(rv))));
                        assert(rv.candidate_id == from);
                    }
                }
            }
        }
    }
}

/// Some node of `c` takes a step to `c2`.
pub open spec fn cluster_next(c: ClusterModel, c2: ClusterModel) -> bool {
    exists|n: NodeId, now: u64, e: NodeEvent, r: ReadyModel| #[trigger] cluster_step(c, c2, n, now, e, r)
}

/// The clusters of a run keep the invariant, from an initial one on.
proof fn lemma_run_keeps_inv(run: Seq<ClusterModel>, k: int)
    requires
        run.len() > 0,
        cluster_initial(run[0]),
        forall|i: int| 0 <= i < run.len() - 1 ==> cluster_next(#[trigger] run[i], run[i + 1]),
        0 <= k < run.len(),
    ensures
        cluster_inv(run[k]),
    decreases k,
{
    if k == 0 {
        lemma_cluster_initial(run[0]);
    } else {
        lemma_run_keeps_inv(run, k - 1);
        assert(cluster_next(run[k - 1], run[k]));
        let (n, now, e, r) = choose|n: NodeId, now: u64, e: NodeEvent, r: ReadyModel|
            #[trigger] cluster_step(run[k - 1], run[k], n, now, e, r);
        lemma_cluster_step(run[k - 1], run[k], n, now, e, r);
    }
}

/// Law (election safety): in every cluster reached from an initial one,
/// step by step, two leaders of the same term are the same node.
pub proof fn lemma_one_leader_per_term(run: Seq<ClusterModel>, k: int, n1: NodeId, n2: NodeId)
    requires
        run.len() > 0,
        cluster_initial(run[0]),
        forall|i: int| 0 <= i < run.len() - 1 ==> cluster_next(#[trigger] run[i], run[i + 1]),
        0 <= k < run.len(),
        run[k].nodes.dom().contains(n1),
        run[k].nodes.dom().contains(n2),
        run[k].nodes[n1].role == Role::Leader,
        run[k].nodes[n2].role == Role::Leader,
        run[k].nodes[n1].persistent.current_term == run[k].nodes[n2].persistent.current_term,
    ensures
        n1 == n2,
{
    lemma_run_keeps_inv(run, k);
    lemma_election_safety(run[k], n1, n2);
}

} // verus!
