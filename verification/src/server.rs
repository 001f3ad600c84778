//! What a node reports about itself and answers over HTTP, and the ids of
//! the cluster it belongs to.

use crate::raft::Role;
use crate::sorting::{sort_ascending, sorted_u64};
use crate::types::NodeId;
use vstd::prelude::*;

verus! {

/// Node status for health checks.
#[derive(Debug, Clone, Copy)]
pub struct NodeStatus {
    /// Current role.
    pub role: Role,
    /// Current term.
    pub term: u64,
    /// Current leader.
    pub leader: Option<NodeId>,
    /// Number of vectors.
    pub vector_count: usize,
    /// Last applied log index.
    pub last_applied: u64,
}

/// The answer to a health check.
pub struct HealthResp {
    /// Always `ok` when the node answers.
    pub status: &'static str,
    /// The node's role, by name.
    pub role: String,
    /// Current term.
    pub term: u64,
    /// The id of the current leader.
    pub leader: Option<u64>,
    /// Number of vectors.
    pub vector_count: usize,
    /// Last applied log index.
    pub last_applied: u64,
}

/// The answer to an upsert: the log index of the insert.
pub struct UpsertResp {
    pub index: u64,
}

/// The name of a role.
pub open spec fn role_name(r: Role) -> Seq<char> {
    match r {
        Role::Follower => "Follower"@,
        Role::Candidate => "Candidate"@,
        Role::Leader => "Leader"@,
    }
}

/// Law: a role is reported by its own name, and the three names differ.
pub proof fn lemma_role_names()
    ensures
        role_name(Role::Follower) == "Follower"@,
        role_name(Role::Candidate) == "Candidate"@,
        role_name(Role::Leader) == "Leader"@,
        forall|a: Role, b: Role| role_name(a) == role_name(b) <==> a == b,
{
    reveal_strlit("Follower");
    reveal_strlit("Candidate");
    reveal_strlit("Leader");
    assert("Follower"@.len() != "Candidate"@.len());
    assert("Leader"@.len() != "Candidate"@.len());
    assert("Follower"@[0] != "Leader"@[0]);
}

impl HealthResp {
    /// The health answer for a node status: `ok`, the role by name, the
    /// leader by its number, and the status's counters.
    pub fn from_status(s: &NodeStatus) -> (r: Self)
        ensures
            r.status@ == "ok"@,
            r.role@ == role_name(s.role),
            s.role == Role::Follower ==> r.role@ == "Follower"@,
            s.role == Role::Candidate ==> r.role@ == "Candidate"@,
            s.role == Role::Leader ==> r.role@ == "Leader"@,
            r.term == s.term,
            r.leader == (match s.leader {
                Some(id) => Some(id.0),
                None => None::<u64>,
            }),
            r.vector_count == s.vector_count,
            r.last_applied == s.last_applied,
    {
        let role = match s.role {
            Role::Follower => String::from_str("Follower"),
            Role::Candidate => String::from_str("Candidate"),
            Role::Leader => String::from_str("Leader"),
        };
        let leader = match s.leader {
            Some(id) => Some(id.get()),
            None => None,
        };
        HealthResp {
            status: "ok",
            role,
            term: s.term,
            leader,
            vector_count: s.vector_count,
            last_applied: s.last_applied,
        }
    }
}

/// Every node id of the cluster: the peers' and this node's, in ascending
/// order.
pub fn cluster_node_ids(self_id: NodeId, peer_ids: &Vec<NodeId>) -> (r: Vec<NodeId>)
    ensures
        r@.map_values(|n: NodeId| n.0) == sorted_u64(
            peer_ids@.map_values(|n: NodeId| n.0).push(self_id.0),
        ),
{
    let mut raw: Vec<u64> = Vec::new();
    let mut i: usize = 0;
    while i < peer_ids.len()
        invariant
            i <= peer_ids@.len(),
            raw@ == peer_ids@.subrange(0, i as int).map_values(|n: NodeId| n.0),
        decreases peer_ids.len() - i,
    {
        raw.push(peer_ids[i].0);
        i = i + 1;
        assert(raw@ =~= peer_ids@.subrange(0, i as int).map_values(|n: NodeId| n.0));
    }
    raw.push(self_id.0);
    assert(peer_ids@.subrange(0, peer_ids@.len() as int) =~= peer_ids@);
    let sorted = sort_ascending(&raw);
    let mut out: Vec<NodeId> = Vec::new();
    let mut k: usize = 0;
    while k < sorted.len()
        invariant
            k <= sorted@.len(),
            out@.len() == k,
            forall|j: int| 0 <= j < k ==> (#[trigger] out@[j]).0 == sorted@[j],
        decreases sorted.len() - k,
    {
        out.push(NodeId(sorted[k]));
        k = k + 1;
    }
    assert(out@.map_values(|n: NodeId| n.0) =~= sorted@);
    out
}

} // verus!
