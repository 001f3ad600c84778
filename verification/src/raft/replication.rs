//! Log Matching across a cluster: if two logs, on any two nodes, hold an
//! entry with the same index and term, they hold the same entries up to it.

use crate::raft::log::log_matches;
use crate::raft::matching::{
    accept_entries, accept_entry, cut_len, holds_entry, lemma_accept_entry, lemma_cut_len_rising,
    log_consistent, log_contents, LogContents,
};
use crate::raft::cluster::{
    cluster_initial, cluster_inv, cluster_step, lemma_cluster_initial, lemma_cluster_step, ClusterModel,
};
use crate::raft::messages::{AppendEntriesModel, LogEntryDataModel, RaftMessageModel};
use crate::raft::protocol::{
    append_entries_for, decoded_entries, entry_data_of, index_after, leader_committed, node_next,
    proposed, quorum, NodeEvent, RaftNodeModel,
    ReadyModel,
};
use crate::raft::Role;
use crate::types::NodeId;
use crate::wal::entry::{
    entry_in, lemma_entry_round_trip, wf_command, wf_entry, CommandModel, LogEntryModel,
};
use crate::wal::log::{entry_for, index_map, keys_increasing, last_index_of, range_entries, WalState};
use vstd::prelude::*;

verus! {

// ---------------------------------------------------------------------------
// Dense logs
// ---------------------------------------------------------------------------

/// A dense log: the entry at position `p` has index `p + 1`, a term of at
/// least 1 and a well-formed layout.
pub open spec fn dense(es: Seq<LogEntryModel>) -> bool {
    forall|p: int|
        0 <= p < es.len() ==> (#[trigger] es[p]).index == p + 1 && es[p].term >= 1 && wf_entry(es[p])
}

/// A log state whose entries are dense and whose index names them.
pub open spec fn log_ok(log: WalState) -> bool {
    &&& log_consistent(log_contents(log))
    &&& dense(log.entries)
    &&& keys_increasing(log.index)
}

/// Two logs agree up to every index at which they hold entries of the same
/// term.
pub open spec fn logs_match(x: Seq<LogEntryModel>, y: Seq<LogEntryModel>) -> bool {
    forall|i: int|
        0 <= i < x.len() && i < y.len() && (#[trigger] x[i]).term == (#[trigger] y[i]).term ==> x.take(
            i + 1,
        ) == y.take(i + 1)
}

/// In a dense, consistent log, index `k` names the entry at position `k - 1`.
pub proof fn lemma_entry_for_dense(log: WalState, k: u64)
    requires
        log_ok(log),
    ensures
        entry_for(log, k) == (if 1 <= k <= log.entries.len() {
            Some(log.entries[k - 1])
        } else {
            None::<LogEntryModel>
        }),
{
    let c = log_contents(log);
    let m = index_map(log.index);
    if 1 <= k <= log.entries.len() {
        assert(log.entries[k - 1].index == k);
        assert(c.1.contains_key(c.0[k - 1].index));
    } else if m.contains_key(k) {
        let p = m[k] as int;
        assert(c.0[p].index == k);
    }
}

/// A dense, consistent log's index is `(1, 0), (2, 1), ...`.
proof fn lemma_dense_index(log: WalState)
    requires
        log_ok(log),
    ensures
        log.index =~= Seq::new(log.entries.len(), |j: int| ((j + 1) as u64, j as usize)),
{
    let idx = log.index;
    let n = log.entries.len();
    let m = index_map(idx);
    let c = log_contents(log);
    // every key is in 1..=n and every such key is present
    assert forall|j: int| 0 <= j < idx.len() implies 1 <= (#[trigger] idx[j]).0 <= n && m.contains_key(
        idx[j].0,
    ) by {
        assert(m.contains_key(idx[j].0));
        let p = m[idx[j].0] as int;
        assert(c.0[p].index == idx[j].0);
    }
    assert forall|j: int| 0 <= j < idx.len() implies (#[trigger] idx[j]).0 >= j + 1 by {
        lemma_keys_lower(idx, j);
    }
    // key k + 1 sits at position k
    assert forall|k: int| 0 <= k < n implies k < idx.len() && (#[trigger] idx[k]).0 == k + 1 by {
        lemma_key_at(log, k);
    }
    if n > 0 {
        lemma_key_at(log, n - 1);
    }
    if idx.len() > n {
        assert(idx[n as int].0 >= n + 1);
        assert(idx[n as int].0 <= n);
    }
    assert(idx.len() == n);
    assert forall|j: int| 0 <= j < n implies (#[trigger] idx[j]).1 == j by {
        assert(idx[j].0 == j + 1);
        assert(c.1.contains_key(c.0[j].index));
        assert(c.0[j].index == j + 1);
        let w = choose|i: int| 0 <= i < idx.len() && (#[trigger] idx[i]).0 == (j + 1) as u64;
        if w != j {
            if w < j {
                assert(idx[w].0 < idx[j].0);
            } else {
                assert(idx[j].0 < idx[w].0);
            }
        }
    }
}

proof fn lemma_keys_lower(idx: Seq<(u64, usize)>, j: int)
    requires
        keys_increasing(idx),
        0 <= j < idx.len(),
        forall|i: int| 0 <= i < idx.len() ==> (#[trigger] idx[i]).0 >= 1,
    ensures
        idx[j].0 >= j + 1,
    decreases j,
{
    if j > 0 {
        lemma_keys_lower(idx, j - 1);
        assert(idx[j - 1].0 < idx[j].0);
    }
}

proof fn lemma_key_at(log: WalState, k: int)
    requires
        log_ok(log),
        0 <= k < log.entries.len(),
        forall|j: int| 0 <= j < log.index.len() ==> (#[trigger] log.index[j]).0 >= j + 1,
    ensures
        k < log.index.len(),
        log.index[k].0 == k + 1,
    decreases k,
{
    let idx = log.index;
    let c = log_contents(log);
    let m = index_map(idx);
    assert(c.0[k].index == k + 1);
    assert(m.contains_key((k + 1) as u64));
    let w = choose|i: int| 0 <= i < idx.len() && (#[trigger] idx[i]).0 == (k + 1) as u64;
    assert(idx[w].0 == k + 1);
    assert(w <= k);
    if k > 0 {
        lemma_key_at(log, k - 1);
        if w < k {
            assert(idx[w].0 <= idx[k - 1].0) by {
                if w < k - 1 {
                    assert(idx[w].0 < idx[k - 1].0);
                }
            }
        }
    }
}

/// The entries a dense log names from index `lo` on are its entries from
/// position `lo - 1` on.
proof fn lemma_range_dense(es: Seq<LogEntryModel>, n: nat, lo: u64, hi: u64)
    requires
        n <= es.len(),
        hi >= n,
        n <= u64::MAX,
        n <= usize::MAX + 1,
    ensures
        range_entries(Seq::new(n, |j: int| ((j + 1) as u64, j as usize)), es, lo, hi) == es.subrange(
            start_of(lo, n),
            n as int,
        ),
    decreases n,
{
    let idx = Seq::new(n, |j: int| ((j + 1) as u64, j as usize));
    if n == 0 {
        assert(es.subrange(0, 0) =~= Seq::<LogEntryModel>::empty());
    } else {
        let m = (n - 1) as nat;
        assert(idx.drop_last() =~= Seq::new(m, |j: int| ((j + 1) as u64, j as usize)));
        lemma_range_dense(es, m, lo, hi);
        assert(idx.last() == (n as u64, m as usize));
        if lo <= n {
            assert(es.subrange(start_of(lo, m), m as int).push(es[m as int]) =~= es.subrange(
                start_of(lo, n),
                n as int,
            ));
        } else {
            assert(es.subrange(start_of(lo, m), m as int) =~= es.subrange(start_of(lo, n), n as int));
        }
    }
}

/// Where the entries from index `lo` on start in a dense log of `n` entries.
pub open spec fn start_of(lo: u64, n: nat) -> int {
    let s: int = if lo >= 1 {
        lo - 1
    } else {
        0
    };
    if s <= n {
        s
    } else {
        n as int
    }
}

/// The entries a dense log names from index `lo` to its end.
pub proof fn lemma_range_of_log(log: WalState, lo: u64, hi: u64)
    requires
        log_ok(log),
        hi >= log.entries.len(),
    ensures
        range_entries(log.index, log.entries, lo, hi) == log.entries.subrange(
            start_of(lo, log.entries.len()),
            log.entries.len() as int,
        ),
{
    lemma_dense_index(log);
    let n = log.entries.len();
    if n > 0 {
        let c = log_contents(log);
        assert(log.entries[n - 1].index == n);
        assert(c.1.contains_key(c.0[n - 1].index));
    }
    lemma_range_dense(log.entries, n, lo, hi);
}

/// Well-formed entries sent as layouts decode back to themselves.
pub proof fn lemma_decode_sent(es: Seq<LogEntryModel>)
    requires
        forall|p: int| 0 <= p < es.len() ==> wf_entry(#[trigger] es[p]),
    ensures
        decoded_entries(es.map_values(|e: LogEntryModel| entry_data_of(e))) == es,
    decreases es.len(),
{
    let ds = es.map_values(|e: LogEntryModel| entry_data_of(e));
    if es.len() > 0 {
        let init = es.drop_last();
        assert(ds.drop_last() =~= init.map_values(|e: LogEntryModel| entry_data_of(e)));
        lemma_decode_sent(init);
        lemma_entry_round_trip(es.last());
        assert(init.push(es.last()) =~= es);
    } else {
        assert(es =~= Seq::<LogEntryModel>::empty());
    }
}

// ---------------------------------------------------------------------------
// A follower taking a leader's entries
// ---------------------------------------------------------------------------

/// In a dense consistent log, holding an entry is having its term at the
/// position before its index.
proof fn lemma_holds_dense(c: LogContents, e: LogEntryModel)
    requires
        log_consistent(c),
        dense(c.0),
        e.index >= 1,
    ensures
        holds_entry(c, e) <==> (e.index <= c.0.len() && c.0[e.index - 1].term == e.term),
{
    if holds_entry(c, e) {
        let p = c.1[e.index] as int;
        assert(c.0[p].index == e.index);
    }
    if e.index <= c.0.len() {
        assert(c.0[e.index - 1].index == e.index);
        assert(c.1.contains_key(c.0[e.index - 1].index));
    }
}

/// A follower whose log agrees with a leader's log `l` on its first `p`
/// entries takes the leader's entries from position `p`: afterwards its log
/// begins with all of `l`, and is either exactly `l` or what it was.
pub proof fn lemma_follow(c: LogContents, l: Seq<LogEntryModel>, p: int)
    requires
        log_consistent(c),
        dense(c.0),
        dense(l),
        0 <= p <= c.0.len(),
        p <= l.len(),
        c.0.take(p) == l.take(p),
        logs_match(c.0, l),
        c.0.len() + l.len() < usize::MAX,
    ensures
        ({
            let r = accept_entries(c, l.subrange(p, l.len() as int));
            &&& log_consistent(r)
            &&& dense(r.0)
            &&& r.0.len() >= l.len()
            &&& r.0.take(l.len() as int) == l
            &&& (r.0.len() == l.len() || r.0 == c.0)
        }),
{
    let es = l.subrange(p, l.len() as int);
    lemma_follow_steps(c, l, p, es.len() as int);
    assert(es.take(es.len() as int) =~= es);
    assert(l.take(l.len() as int) =~= l);
}

proof fn lemma_follow_steps(c: LogContents, l: Seq<LogEntryModel>, p: int, k: int)
    requires
        log_consistent(c),
        dense(c.0),
        dense(l),
        0 <= p <= c.0.len(),
        p <= l.len(),
        c.0.take(p) == l.take(p),
        logs_match(c.0, l),
        c.0.len() + l.len() < usize::MAX,
        0 <= k <= l.len() - p,
    ensures
        ({
            let r = accept_entries(c, l.subrange(p, l.len() as int).take(k));
            let q = p + k;
            &&& log_consistent(r)
            &&& dense(r.0)
            &&& r.0.len() >= q
            &&& r.0.take(q) == l.take(q)
            &&& (r.0.len() == q || r.0 == c.0)
            &&& r.0.len() <= c.0.len() + k
        }),
    decreases k,
{
    let es = l.subrange(p, l.len() as int);
    if k == 0 {
        assert(es.take(0) =~= Seq::<LogEntryModel>::empty());
    } else {
        lemma_follow_steps(c, l, p, k - 1);
        let prev = accept_entries(c, es.take(k - 1));
        let q = p + k - 1;
        let e = l[q];
        assert(es.take(k).drop_last() =~= es.take(k - 1));
        assert(es.take(k).last() == e);
        assert(accept_entries(c, es.take(k)) == accept_entry(prev, e));
        assert(e.index == q + 1);
        lemma_holds_dense(prev, e);
        lemma_accept_entry(prev, e);
        let r = accept_entry(prev, e);
        if holds_entry(prev, e) {
            // the entry is held: the log is the original one, which agrees
            // with `l` up to it
            if prev.0.len() == q {
                assert(false);
            }
            assert(prev.0 == c.0);
            assert(c.0[q].term == l[q].term);
            assert(r.0.take(q + 1) == l.take(q + 1));
        } else {
            lemma_cut_len_rising(prev.0, e.index);
            assert(cut_len(prev.0, e.index) == q) by {
                if cut_len(prev.0, e.index) > q {
                    assert(prev.0[q].index == q + 1);
                }
                if cut_len(prev.0, e.index) < q {
                    let w = cut_len(prev.0, e.index) as int;
                    assert(prev.0[w].index == w + 1);
                }
            }
            assert(r.0 == prev.0.take(q).push(e));
            assert(prev.0.take(q) =~= l.take(q)) by {
                assert(prev.0.take(q) =~= prev.0.take(q).take(q));
            }
            assert(r.0 =~= l.take(q + 1));
            assert forall|j: int| 0 <= j < r.0.len() implies (#[trigger] r.0[j]).index == j + 1
                && r.0[j].term >= 1 && wf_entry(r.0[j]) by {
                assert(r.0[j] == l[j]);
            }
        }
    }
}

// ---------------------------------------------------------------------------
// What an AppendEntries tells of its sender's log
// ---------------------------------------------------------------------------

/// AppendEntries `a` was cut from log `l`: its preceding entry's term is
/// `l`'s at that index (0 past the end or at index 0), and its entries are
/// `l`'s from there on.
pub open spec fn describes(a: AppendEntriesModel, l: Seq<LogEntryModel>) -> bool {
    let p = a.prev_log_index as int;
    &&& a.prev_log_term == (if 1 <= p <= l.len() {
        l[p - 1].term
    } else {
        0
    })
    &&& decoded_entries(a.entries) == l.subrange(
        if p <= l.len() {
            p
        } else {
            l.len() as int
        },
        l.len() as int,
    )
}

/// Every AppendEntries a leader sends describes its log.
pub proof fn lemma_broadcast_describes(s: RaftNodeModel, i: int)
    requires
        log_ok(s.log),
        s.leader_state is Some,
        0 <= i < s.peers.len(),
    ensures
        describes(append_entries_for(s, i), s.log.entries),
{
    let a = append_entries_for(s, i);
    let l = s.log.entries;
    let next = s.leader_state.unwrap().0;
    let ni: u64 = if i < next.len() {
        next[i]
    } else {
        1
    };
    let p = a.prev_log_index;
    lemma_entry_for_dense(s.log, p);
    lemma_range_of_log(s.log, ni, last_index_of(l));
    if l.len() > 0 {
        assert(l[l.len() - 1].index == l.len());
    }
    let es = l.subrange(start_of(ni, l.len()), l.len() as int);
    assert forall|q: int| 0 <= q < es.len() implies wf_entry(#[trigger] es[q]) by {
        assert(es[q] == l[q + start_of(ni, l.len())]);
    }
    lemma_decode_sent(es);
}

// ---------------------------------------------------------------------------
// A cluster that replicates logs
// ---------------------------------------------------------------------------

/// The bound below which log lengths stay (half of what a `usize` counts).
pub open spec fn log_bound() -> int {
    usize::MAX as int / 2
}

/// A cluster together with what its history left behind: every
/// AppendEntries sent, with the log of its sender at the time, and the
/// leader of every term that had one, with the voters that elected it.
pub struct ReplicatedCluster {
    pub cluster: ClusterModel,
    pub sent_logs: Set<(AppendEntriesModel, Seq<LogEntryModel>)>,
    pub leaders: Map<u64, NodeId>,
    pub electors: Map<u64, Set<NodeId>>,
}

/// Every log of the cluster: the nodes' logs and the logs AppendEntries
/// were cut from.
pub open spec fn all_logs(rc: ReplicatedCluster) -> Set<Seq<LogEntryModel>> {
    Set::new(
        |x: Seq<LogEntryModel>|
            (exists|n: NodeId|
                #![trigger rc.cluster.nodes[n]]
                rc.cluster.nodes.dom().contains(n) && rc.cluster.nodes[n].log.entries == x) || (exists|
                a: AppendEntriesModel,
            | #[trigger] rc.sent_logs.contains((a, x))),
    )
}

/// The AppendEntries of a Ready, each with the log `l`.
pub open spec fn sent_with(msgs: Seq<(NodeId, RaftMessageModel)>, l: Seq<LogEntryModel>) -> Set<
    (AppendEntriesModel, Seq<LogEntryModel>),
> {
    Set::new(
        |x: (AppendEntriesModel, Seq<LogEntryModel>)|
            x.1 == l && exists|i: int|
                0 <= i < msgs.len() && #[trigger] msgs[i].1 == RaftMessageModel::AppendEntries(x.0),
    )
}

/// Node `n` takes event `e` as the cluster's step allows; the AppendEntries
/// it sends are recorded with its log, and a node that becomes leader is
/// recorded as the leader of its term, with the voters it holds.
pub open spec fn replicated_step(
    rc: ReplicatedCluster,
    rc2: ReplicatedCluster,
    n: NodeId,
    now: u64,
    e: NodeEvent,
    r: ReadyModel,
) -> bool {
    let s = rc.cluster.nodes[n];
    let s2 = rc2.cluster.nodes[n];
    &&& cluster_step(rc.cluster, rc2.cluster, n, now, e, r)
    &&& keys_increasing(s2.log.index)
    &&& rc2.sent_logs == rc.sent_logs.union(sent_with(r.messages, s.log.entries))
    &&& if s.role != Role::Leader && s2.role == Role::Leader {
        &&& rc2.leaders == rc.leaders.insert(s2.persistent.current_term, n)
        &&& rc2.electors == rc.electors.insert(s2.persistent.current_term, s2.votes)
    } else {
        &&& rc2.leaders == rc.leaders
        &&& rc2.electors == rc.electors
    }
}

/// Leader `n` appends a command of a well-formed layout to its log.
pub open spec fn replicated_propose(
    rc: ReplicatedCluster,
    rc2: ReplicatedCluster,
    n: NodeId,
    cmd: CommandModel,
) -> bool {
    let s = rc.cluster.nodes[n];
    let s2 = rc2.cluster.nodes[n];
    &&& rc.cluster.nodes.dom().contains(n)
    &&& s.role == Role::Leader
    &&& wf_command(cmd)
    &&& s.log.entries.len() + 1 < log_bound()
    &&& proposed(s, s2, cmd)
    &&& keys_increasing(s2.log.index)
    &&& rc2.cluster == ClusterModel { nodes: rc.cluster.nodes.insert(n, s2), ..rc.cluster }
    &&& rc2.sent_logs == rc.sent_logs
    &&& rc2.leaders == rc.leaders
    &&& rc2.electors == rc.electors
}

/// A replicated cluster as it starts: the cluster's start, every log empty,
/// nothing sent and no leader yet.
pub open spec fn replicated_initial(rc: ReplicatedCluster) -> bool {
    &&& cluster_initial(rc.cluster)
    &&& forall|n: NodeId| #[trigger] rc.cluster.nodes.dom().contains(n) ==> {
        &&& rc.cluster.nodes[n].log.entries == Seq::<LogEntryModel>::empty()
        &&& rc.cluster.nodes[n].log.index == Seq::<(u64, usize)>::empty()
    }
    &&& rc.sent_logs == Set::<(AppendEntriesModel, Seq<LogEntryModel>)>::empty()
    &&& rc.leaders == Map::<u64, NodeId>::empty()
    &&& rc.electors == Map::<u64, Set<NodeId>>::empty()
}

/// The replicated cluster's invariant.
pub open spec fn replicated_inv(rc: ReplicatedCluster) -> bool {
    let c = rc.cluster;
    let dom = c.nodes.dom();
    let logs = all_logs(rc);
    &&& cluster_inv(c)
    // nodes' logs are dense and indexed
    &&& forall|n: NodeId| #[trigger] dom.contains(n) ==> log_ok(c.nodes[n].log)
    // every log is dense, bounded, and made of entries of terms that had a leader
    &&& forall|x: Seq<LogEntryModel>| #[trigger] logs.contains(x) ==> {
        &&& dense(x)
        &&& x.len() < log_bound()
        &&& forall|i: int| 0 <= i < x.len() ==> rc.leaders.contains_key(#[trigger] x[i].term)
    }
    // Log Matching between any two logs
    &&& forall|x: Seq<LogEntryModel>, y: Seq<LogEntryModel>|
        #[trigger] logs.contains(x) && #[trigger] logs.contains(y) ==> logs_match(x, y)
    // an AppendEntries is cut from the log recorded with it
    &&& forall|p: (AppendEntriesModel, Seq<LogEntryModel>)| #[trigger] rc.sent_logs.contains(p) ==> describes(
        p.0,
        p.1,
    )
    // an AppendEntries in flight was sent, to another node, by the leader of its term
    &&& forall|f: NodeId, to: NodeId, a: AppendEntriesModel|
        #[trigger] c.network.contains((f, to, RaftMessageModel::AppendEntries(a))) ==> {
            &&& f != to
            &&& rc.leaders.contains_key(a.term)
            &&& rc.leaders[a.term] == f
            &&& exists|l: Seq<LogEntryModel>| #[trigger] rc.sent_logs.contains((a, l))
        }
    // the leader of a term was elected by a quorum, and leads while the term lasts
    &&& forall|t: u64| #[trigger] rc.leaders.contains_key(t) ==> {
        let m = rc.leaders[t];
        &&& dom.contains(m)
        &&& rc.electors.contains_key(t)
        &&& c.nodes[m].persistent.current_term >= t
        &&& c.nodes[m].persistent.current_term == t ==> c.nodes[m].role == Role::Leader
        &&& rc.electors[t].subset_of(dom)
        &&& rc.electors[t].len() >= quorum(c.nodes[m].peers.len())
        &&& forall|v: NodeId| #[trigger] rc.electors[t].contains(v) ==> c.votes_cast.contains((v, t, m))
    }
    // a candidate or leader has a term of at least 1
    &&& forall|n: NodeId| #[trigger] dom.contains(n) && c.nodes[n].role != Role::Follower ==> c.nodes[n].persistent.current_term >= 1
    // a leader is the recorded leader of its term
    &&& forall|n: NodeId| #[trigger] dom.contains(n) && c.nodes[n].role == Role::Leader ==> {
        &&& c.nodes[n].persistent.current_term >= 1
        &&& rc.leaders.contains_key(c.nodes[n].persistent.current_term)
        &&& rc.leaders[c.nodes[n].persistent.current_term] == n
    }
    // a leader holds every entry of its term, wherever it is
    &&& forall|n: NodeId, x: Seq<LogEntryModel>, i: int|
        #![trigger dom.contains(n), logs.contains(x), x[i]]
        dom.contains(n) && c.nodes[n].role == Role::Leader && logs.contains(x) && 0 <= i < x.len()
            && x[i].term == c.nodes[n].persistent.current_term ==> i < c.nodes[n].log.entries.len()
            && c.nodes[n].log.entries[i] == x[i]
}

/// The invariant holds as a replicated cluster starts.
pub proof fn lemma_replicated_initial(rc: ReplicatedCluster)
    requires
        replicated_initial(rc),
    ensures
        replicated_inv(rc),
{
    lemma_cluster_initial(rc.cluster);
    let c = rc.cluster;
    assert forall|n: NodeId| #[trigger] c.nodes.dom().contains(n) implies log_ok(c.nodes[n].log) by {
        let l = c.nodes[n].log;
        assert(index_map(l.index) =~= Map::<u64, usize>::empty());
    }
    assert forall|x: Seq<LogEntryModel>| #[trigger] all_logs(rc).contains(x) implies x.len() == 0 by {
        if exists|m: NodeId| #![trigger c.nodes[m]] c.nodes.dom().contains(m) && c.nodes[m].log.entries == x {
            let m = choose|m: NodeId| #![trigger c.nodes[m]] c.nodes.dom().contains(m) && c.nodes[m].log.entries == x;
            assert(c.nodes.dom().contains(m));
        }
    }
}

/// Law (Log Matching across the cluster): in a cluster that keeps its
/// invariant, two nodes whose logs hold entries of the same term at index
/// `k` hold the same entries at every index up to `k`.
pub proof fn lemma_logs_agree(rc: ReplicatedCluster, a: NodeId, b: NodeId, k: u64, j: u64)
    requires
        replicated_inv(rc),
        rc.cluster.nodes.dom().contains(a),
        rc.cluster.nodes.dom().contains(b),
        entry_for(rc.cluster.nodes[a].log, k) matches Some(x) && entry_for(rc.cluster.nodes[b].log, k)
            matches Some(y) && x.term == y.term,
        j <= k,
    ensures
        entry_for(rc.cluster.nodes[a].log, j) == entry_for(rc.cluster.nodes[b].log, j),
{
    let la = rc.cluster.nodes[a].log;
    let lb = rc.cluster.nodes[b].log;
    lemma_entry_for_dense(la, k);
    lemma_entry_for_dense(lb, k);
    lemma_entry_for_dense(la, j);
    lemma_entry_for_dense(lb, j);
    assert(all_logs(rc).contains(la.entries));
    assert(all_logs(rc).contains(lb.entries));
    let i = k - 1;
    assert(la.entries[i].term == lb.entries[i].term);
    assert(la.entries.take(i + 1) == lb.entries.take(i + 1));
    if j >= 1 {
        assert(la.entries[j - 1] == la.entries.take(i + 1)[j - 1]);
        assert(lb.entries[j - 1] == lb.entries.take(i + 1)[j - 1]);
    }
}

/// The logs of a cluster after node `n`'s log became `l2` and the
/// AppendEntries in `extra` were recorded: the logs before, and `l2`.
proof fn lemma_logs_after(rc: ReplicatedCluster, rc2: ReplicatedCluster, n: NodeId, l2: Seq<LogEntryModel>)
    requires
        rc.cluster.nodes.dom().contains(n),
        rc2.cluster.nodes == rc.cluster.nodes.insert(n, rc2.cluster.nodes[n]),
        rc2.cluster.nodes[n].log.entries == l2,
        forall|p: (AppendEntriesModel, Seq<LogEntryModel>)| #[trigger] rc2.sent_logs.contains(p)
            ==> rc.sent_logs.contains(p) || p.1 == rc.cluster.nodes[n].log.entries,
    ensures
        forall|x: Seq<LogEntryModel>| #[trigger] all_logs(rc2).contains(x) ==> all_logs(rc).contains(x)
            || x == l2,
        all_logs(rc2).contains(l2),
{
    let c = rc.cluster;
    let c2 = rc2.cluster;
    assert(c2.nodes.dom() =~= c.nodes.dom());
    assert forall|x: Seq<LogEntryModel>| #[trigger] all_logs(rc2).contains(x) implies all_logs(
        rc,
    ).contains(x) || x == l2 by {
        if exists|m: NodeId| #![trigger c2.nodes[m]] c2.nodes.dom().contains(m) && c2.nodes[m].log.entries == x {
            let m = choose|m: NodeId| #![trigger c2.nodes[m]] c2.nodes.dom().contains(m) && c2.nodes[m].log.entries == x;
            if m != n {
                assert(c.nodes[m] == c2.nodes[m]);
            }
        } else {
            let a = choose|a: AppendEntriesModel| #[trigger] rc2.sent_logs.contains((a, x));
            if !rc.sent_logs.contains((a, x)) {
                assert(c.nodes.dom().contains(n) && c.nodes[n].log.entries == x);
            }
        }
    }
    assert(c2.nodes.dom().contains(n));
}

/// Appending to a dense, indexed log at the next index keeps it so.
proof fn lemma_append_ok(log: WalState, log2: WalState, e: LogEntryModel)
    requires
        log_ok(log),
        keys_increasing(log2.index),
        log2.entries == log.entries.push(e),
        index_map(log2.index) == index_map(log.index).insert(e.index, log.entries.len() as usize),
        e.index == log.entries.len() + 1,
        e.term >= 1,
        wf_entry(e),
        log.entries.len() + 1 < log_bound(),
    ensures
        log_ok(log2),
{
    let c = log_contents(log);
    let c2 = log_contents(log2);
    let n = log.entries.len();
    assert forall|i: int, j: int| 0 <= i < j < c2.0.len() implies (#[trigger] c2.0[i]).index
        < (#[trigger] c2.0[j]).index by {
        assert(c2.0[i].index == i + 1);
        assert(c2.0[j].index == j + 1) by {
            if j < n {
                assert(c2.0[j] == c.0[j]);
            }
        }
        if i < n {
            assert(c2.0[i] == c.0[i]);
        }
    }
    assert forall|i: int| 0 <= i < c2.0.len() implies #[trigger] c2.1.contains_key(c2.0[i].index)
        && c2.1[c2.0[i].index] == i by {
        if i < n {
            assert(c2.0[i] == c.0[i]);
            assert(c.0[i].index == i + 1);
        }
    }
    assert forall|k: u64| #[trigger] c2.1.contains_key(k) implies c2.1[k] < c2.0.len() && c2.0[c2.1[k] as int].index
        == k by {
        if k != e.index {
            let q = c.1[k] as int;
            assert(c.0[q].index == k);
            assert(c2.0[q] == c.0[q]);
        }
    }
    assert forall|p: int| 0 <= p < c2.0.len() implies (#[trigger] c2.0[p]).index == p + 1
        && c2.0[p].term >= 1 && wf_entry(c2.0[p]) by {
        if p < n {
            assert(c2.0[p] == c.0[p]);
        }
    }
}

/// A leader's proposal keeps the invariant.
pub proof fn lemma_replicated_propose(
    rc: ReplicatedCluster,
    rc2: ReplicatedCluster,
    n: NodeId,
    cmd: CommandModel,
)
    requires
        replicated_inv(rc),
        replicated_propose(rc, rc2, n, cmd),
    ensures
        replicated_inv(rc2),
{
    let c = rc.cluster;
    let c2 = rc2.cluster;
    let dom = c.nodes.dom();
    let s = c.nodes[n];
    let s2 = c2.nodes[n];
    let l = s.log.entries;
    let t = s.persistent.current_term;
    let e = LogEntryModel { term: t, index: (last_index_of(l) + 1) as u64, command: cmd };
    assert(log_ok(s.log));
    if l.len() > 0 {
        assert(l[l.len() - 1].index == l.len());
    }
    assert(e.index == l.len() + 1);
    let l2 = l.push(e);
    assert(seq![e].last() == e);
    assert(seq![e].drop_last() =~= Seq::<LogEntryModel>::empty());
    assert(s2.log.entries =~= l2);
    assert(wf_entry(e));
    let m0 = index_map(s.log.index);
    assert(index_after(m0, l.len(), Seq::<LogEntryModel>::empty()) == m0);
    assert(index_after(m0, l.len(), seq![e]) == m0.insert(e.index, l.len() as usize));
    lemma_append_ok(s.log, s2.log, e);
    assert(dom =~= c2.nodes.dom());
    assert(c2.nodes == c.nodes.insert(n, s2));
    lemma_logs_after(rc, rc2, n, l2);
    assert(all_logs(rc).contains(l));
    // the cluster's own invariant: nothing it speaks of changed
    assert forall|m: NodeId| #[trigger] dom.contains(m) implies {
        &&& c2.nodes[m].id == c.nodes[m].id
        &&& c2.nodes[m].peers == c.nodes[m].peers
        &&& c2.nodes[m].persistent == c.nodes[m].persistent
        &&& c2.nodes[m].role == c.nodes[m].role
        &&& c2.nodes[m].votes == c.nodes[m].votes
    } by {}
    assert(cluster_inv(c2));
    let logs = all_logs(rc);
    let logs2 = all_logs(rc2);
    // every log stays dense, bounded and of led terms
    assert forall|x: Seq<LogEntryModel>| #[trigger] logs2.contains(x) implies {
        &&& dense(x)
        &&& x.len() < log_bound()
        &&& forall|i: int| 0 <= i < x.len() ==> rc2.leaders.contains_key(#[trigger] x[i].term)
    } by {
        if x == l2 {
            assert forall|i: int| 0 <= i < x.len() implies rc2.leaders.contains_key(#[trigger] x[i].term) by {
                if i < l.len() {
                    assert(x[i] == l[i]);
                }
            }
        }
    }
    // Log Matching: the new entry is of the leader's term, which no other
    // log holds past the leader's last index
    assert forall|y: Seq<LogEntryModel>| #[trigger] logs.contains(y) implies logs_match(l2, y) && logs_match(
        y,
        l2,
    ) by {
        assert(logs_match(l, y));
        assert(logs_match(y, l));
        assert forall|i: int|
            0 <= i < l2.len() && i < y.len() && (#[trigger] l2[i]).term == (#[trigger] y[i]).term implies l2.take(
            i + 1,
        ) == y.take(i + 1) by {
            if i < l.len() {
                assert(l2[i] == l[i]);
                assert(l.take(i + 1) == y.take(i + 1));
                assert(l2.take(i + 1) =~= l.take(i + 1));
            } else {
                assert(y[i].term == t);
                assert(i < l.len());
            }
        }
        assert forall|i: int|
            0 <= i < y.len() && i < l2.len() && (#[trigger] y[i]).term == (#[trigger] l2[i]).term implies y.take(
            i + 1,
        ) == l2.take(i + 1) by {
            if i < l.len() {
                assert(l2[i] == l[i]);
                assert(y.take(i + 1) == l.take(i + 1));
                assert(l2.take(i + 1) =~= l.take(i + 1));
            } else {
                assert(y[i].term == t);
                assert(i < l.len());
            }
        }
    }
    assert(logs_match(l2, l2)) by {
        assert forall|i: int|
            0 <= i < l2.len() && i < l2.len() && (#[trigger] l2[i]).term == (#[trigger] l2[i]).term implies l2.take(
            i + 1,
        ) == l2.take(i + 1) by {}
    }
    assert forall|x: Seq<LogEntryModel>, y: Seq<LogEntryModel>|
        #[trigger] logs2.contains(x) && #[trigger] logs2.contains(y) implies logs_match(x, y) by {
        if x != l2 && y != l2 {
            assert(logs.contains(x) && logs.contains(y));
        } else if x == l2 && y != l2 {
            assert(logs.contains(y));
        } else if x != l2 && y == l2 {
            assert(logs.contains(x));
        }
    }
    // leaders keep what they held of their terms
    assert forall|m: NodeId, x: Seq<LogEntryModel>, i: int|
        dom.contains(m) && c2.nodes[m].role == Role::Leader && logs2.contains(x) && 0 <= i < x.len()
            && x[i].term == c2.nodes[m].persistent.current_term implies i < c2.nodes[m].log.entries.len()
            && c2.nodes[m].log.entries[i] == x[i] by {
        let tm = c.nodes[m].persistent.current_term;
        if x == l2 {
            if i < l.len() {
                assert(x[i] == l[i]);
                if m == n {
                    assert(l2[i] == l[i]);
                }
            } else {
                assert(tm == t);
                assert(rc.leaders[t] == n);
                assert(m == n);
            }
        } else {
            assert(logs.contains(x));
            if m == n {
                assert(l2[i] == l[i]);
            }
        }
    }
    assert forall|f: NodeId, to: NodeId, a: AppendEntriesModel|
        #[trigger] c2.network.contains((f, to, RaftMessageModel::AppendEntries(a))) implies {
            &&& f != to
            &&& rc2.leaders.contains_key(a.term)
            &&& rc2.leaders[a.term] == f
            &&& exists|l: Seq<LogEntryModel>| #[trigger] rc2.sent_logs.contains((a, l))
        } by {
        assert(c.network.contains((f, to, RaftMessageModel::AppendEntries(a))));
    }
}

// ---------------------------------------------------------------------------
// What one node's step does to logs, messages and leadership
// ---------------------------------------------------------------------------

/// AppendEntries `ae` is accepted from state `s`.
pub open spec fn accepts(s: RaftNodeModel, ae: AppendEntriesModel) -> bool {
    &&& ae.term >= s.persistent.current_term
    &&& log_matches(s.log, ae.prev_log_index, ae.prev_log_term)
}

/// Only an accepted AppendEntries changes a node's log.
proof fn lemma_step_log(s: RaftNodeModel, s2: RaftNodeModel, now: u64, e: NodeEvent, r: ReadyModel)
    requires
        node_next(s, s2, now, e, r),
    ensures
        match e {
            NodeEvent::Message(_, RaftMessageModel::AppendEntries(ae)) => if accepts(s, ae) {
                log_contents(s2.log) == accept_entries(log_contents(s.log), decoded_entries(ae.entries))
            } else {
                s2.log == s.log
            },
            _ => s2.log == s.log,
        },
{
}

/// The AppendEntries a step sends are a leader's heartbeats on a tick, one
/// to each peer.
proof fn lemma_step_sent(
    s: RaftNodeModel,
    s2: RaftNodeModel,
    now: u64,
    e: NodeEvent,
    r: ReadyModel,
    i: int,
    a: AppendEntriesModel,
)
    requires
        node_next(s, s2, now, e, r),
        0 <= i < r.messages.len(),
        r.messages[i].1 == RaftMessageModel::AppendEntries(a),
    ensures
        e is Tick,
        s.role == Role::Leader,
        s2.role == Role::Leader,
        s2.persistent == s.persistent,
        s.leader_state is Some,
        exists|j: int|
            0 <= j < s.peers.len() && r.messages[i] == (
                #[trigger] s.peers[j],
                RaftMessageModel::AppendEntries(append_entries_for(leader_committed(s), j)),
            ),
{
    let s1 = leader_committed(s);
    let j = i;
    assert(0 <= j < s.peers.len() && r.messages[i] == (
        s.peers[j],
        RaftMessageModel::AppendEntries(append_entries_for(s1, j)),
    ));
}

/// A leader stays leader of its term unless its term rises, save on an
/// AppendEntries of its own term.
proof fn lemma_step_leader(s: RaftNodeModel, s2: RaftNodeModel, now: u64, e: NodeEvent, r: ReadyModel)
    requires
        node_next(s, s2, now, e, r),
        s.role == Role::Leader,
        !(e matches NodeEvent::Message(_, RaftMessageModel::AppendEntries(ae)) && ae.term
            == s.persistent.current_term),
    ensures
        s2.persistent.current_term > s.persistent.current_term || (s2.role == Role::Leader
            && s2.persistent.current_term == s.persistent.current_term),
{
}

/// A node that is not a follower has a term of at least 1.
proof fn lemma_step_term_positive(s: RaftNodeModel, s2: RaftNodeModel, now: u64, e: NodeEvent, r: ReadyModel)
    requires
        node_next(s, s2, now, e, r),
        s.role != Role::Follower ==> s.persistent.current_term >= 1,
        e is Tick ==> s.persistent.current_term < u64::MAX,
        e matches NodeEvent::Message(_, RaftMessageModel::PreVoteResponse(_)) ==> s.persistent.current_term
            < u64::MAX,
    ensures
        s2.role != Role::Follower ==> s2.persistent.current_term >= 1,
{
}

/// A follower's log after an accepted AppendEntries stays dense, bounded,
/// of led terms, and matches every log of the cluster.
proof fn lemma_accepted_log(rc: ReplicatedCluster, n: NodeId, ae: AppendEntriesModel, l: Seq<LogEntryModel>)
    requires
        replicated_inv(rc),
        rc.cluster.nodes.dom().contains(n),
        rc.sent_logs.contains((ae, l)),
        accepts(rc.cluster.nodes[n], ae),
    ensures
        ({
            let f = rc.cluster.nodes[n].log;
            let p = ae.prev_log_index as int;
            let r = accept_entries(log_contents(f), decoded_entries(ae.entries));
            &&& log_consistent(r)
            &&& dense(r.0)
            &&& r.0.len() < log_bound()
            &&& forall|i: int| 0 <= i < r.0.len() ==> rc.leaders.contains_key(#[trigger] r.0[i].term)
            &&& forall|i: int| 0 <= i < r.0.len() ==> (#[trigger] r.0[i] == l[i] && i < l.len()) || r.0[i]
                == f.entries[i] && i < f.entries.len()
            &&& forall|y: Seq<LogEntryModel>| #[trigger] all_logs(rc).contains(y) ==> logs_match(r.0, y)
                && logs_match(y, r.0)
            &&& logs_match(r.0, r.0)
        }),
{
    let logs = all_logs(rc);
    let f = rc.cluster.nodes[n].log;
    let fe = f.entries;
    let p = ae.prev_log_index as int;
    assert(logs.contains(fe));
    assert(logs.contains(l));
    assert(log_ok(f));
    assert(describes(ae, l));
    lemma_entry_for_dense(f, ae.prev_log_index);
    if p >= 1 {
        assert(fe[p - 1].term >= 1);
        assert(p <= l.len());
        assert(logs_match(fe, l));
        assert(fe.take(p) == l.take(p));
    } else {
        assert(fe.take(0) =~= l.take(0));
    }
    assert(decoded_entries(ae.entries) == l.subrange(p, l.len() as int));
    lemma_follow(log_contents(f), l, p);
    let r = accept_entries(log_contents(f), decoded_entries(ae.entries));
    let r0 = r.0;
    assert forall|i: int| 0 <= i < r0.len() implies (#[trigger] r0[i] == l[i] && i < l.len()) || r0[i]
        == fe[i] && i < fe.len() by {
        if i < l.len() {
            assert(r0[i] == r0.take(l.len() as int)[i]);
        }
    }
    assert forall|i: int| 0 <= i < r0.len() implies rc.leaders.contains_key(#[trigger] r0[i].term) by {
        if i < l.len() {
            assert(r0[i] == r0.take(l.len() as int)[i]);
        }
    }
    assert forall|y: Seq<LogEntryModel>| #[trigger] logs.contains(y) implies logs_match(r0, y) && logs_match(
        y,
        r0,
    ) by {
        assert(logs_match(l, y) && logs_match(y, l) && logs_match(fe, y) && logs_match(y, fe));
        assert forall|i: int|
            0 <= i < r0.len() && i < y.len() && (#[trigger] r0[i]).term == (#[trigger] y[i]).term implies r0.take(
            i + 1,
        ) == y.take(i + 1) by {
            if i < l.len() {
                assert(r0.take(i + 1) =~= l.take(i + 1)) by {
                    assert forall|q: int| 0 <= q < i + 1 implies #[trigger] r0.take(i + 1)[q] == l.take(i + 1)[q] by {
                        assert(r0[q] == r0.take(l.len() as int)[q]);
                    }
                }
                assert(r0[i] == l[i]);
                assert(l.take(i + 1) == y.take(i + 1));
            } else {
                assert(r0 == fe);
            }
        }
        assert forall|i: int|
            0 <= i < y.len() && i < r0.len() && (#[trigger] y[i]).term == (#[trigger] r0[i]).term implies y.take(
            i + 1,
        ) == r0.take(i + 1) by {
            if i < l.len() {
                assert(r0.take(i + 1) =~= l.take(i + 1)) by {
                    assert forall|q: int| 0 <= q < i + 1 implies #[trigger] r0.take(i + 1)[q] == l.take(i + 1)[q] by {
                        assert(r0[q] == r0.take(l.len() as int)[q]);
                    }
                }
                assert(r0[i] == l[i]);
                assert(y.take(i + 1) == l.take(i + 1));
            } else {
                assert(r0 == fe);
            }
        }
    }
}

/// Every step of a node keeps the replicated cluster's invariant.
#[verifier::spinoff_prover]
#[verifier::rlimit(100)]
pub proof fn lemma_replicated_step(
    rc: ReplicatedCluster,
    rc2: ReplicatedCluster,
    n: NodeId,
    now: u64,
    e: NodeEvent,
    r: ReadyModel,
)
    requires
        replicated_inv(rc),
        replicated_step(rc, rc2, n, now, e, r),
    ensures
        replicated_inv(rc2),
{
    let c = rc.cluster;
    let c2 = rc2.cluster;
    let dom = c.nodes.dom();
    let s = c.nodes[n];
    let s2 = c2.nodes[n];
    let logs = all_logs(rc);
    let logs2 = all_logs(rc2);
    lemma_cluster_step(c, c2, n, now, e, r);
    lemma_step_log(s, s2, now, e, r);
    lemma_step_term_positive(s, s2, now, e, r);
    assert(dom =~= c2.nodes.dom());
    assert(logs.contains(s.log.entries));
    assert forall|p: (AppendEntriesModel, Seq<LogEntryModel>)| #[trigger] rc2.sent_logs.contains(p)
        implies rc.sent_logs.contains(p) || p.1 == s.log.entries by {}
    lemma_logs_after(rc, rc2, n, s2.log.entries);
    // an AppendEntries of a leader's own term never reaches it
    if s.role == Role::Leader {
        if let NodeEvent::Message(from, RaftMessageModel::AppendEntries(ae)) = e {
            assert(c.network.contains((from, n, RaftMessageModel::AppendEntries(ae))));
            if ae.term == s.persistent.current_term {
                assert(rc.leaders[s.persistent.current_term] == n);
                assert(false);
            }
        }
        lemma_step_leader(s, s2, now, e, r);
    }
    // the node's new log
    let mut accepted = false;
    if let NodeEvent::Message(from, RaftMessageModel::AppendEntries(ae)) = e {
        if accepts(s, ae) {
            assert(c.network.contains((from, n, RaftMessageModel::AppendEntries(ae))));
            let l = choose|l: Seq<LogEntryModel>| #[trigger] rc.sent_logs.contains((ae, l));
            lemma_accepted_log(rc, n, ae, l);
            accepted = true;
        }
    }
    let f2 = s2.log.entries;
    assert(log_ok(s2.log));
    assert(dense(f2) && f2.len() < log_bound());
    assert(forall|i: int| 0 <= i < f2.len() ==> rc.leaders.contains_key(#[trigger] f2[i].term));
    assert(forall|y: Seq<LogEntryModel>| #[trigger] logs.contains(y) ==> logs_match(f2, y) && logs_match(y, f2));
    assert(logs_match(f2, f2));
    // entries of the new log come from logs of the cluster, at their places
    assert forall|i: int| 0 <= i < f2.len() implies exists|y: Seq<LogEntryModel>| #[trigger] logs.contains(y)
        && i < y.len() && y[i] == #[trigger] f2[i] by {
        if !accepted {
            assert(logs.contains(s.log.entries) && s.log.entries[i] == f2[i]);
        } else {
            if let NodeEvent::Message(from, RaftMessageModel::AppendEntries(ae)) = e {
                let l = choose|l: Seq<LogEntryModel>| #[trigger] rc.sent_logs.contains((ae, l));
                assert(logs.contains(l));
                lemma_accepted_log(rc, n, ae, l);
                if i < l.len() && f2[i] == l[i] {
                    assert(logs.contains(l) && l[i] == f2[i]);
                } else {
                    assert(logs.contains(s.log.entries) && s.log.entries[i] == f2[i]);
                }
            }
        }
    }
    // leadership
    let t2 = s2.persistent.current_term;
    let became = s.role != Role::Leader && s2.role == Role::Leader;
    if became {
        // the term had no leader before: its electors and the node's voters
        // would share a voter who voted twice in it
        if rc.leaders.contains_key(t2) {
            let m = rc.leaders[t2];
            s.peers.unique_seq_to_set();
            c.nodes[m].peers.unique_seq_to_set();
            assert(dom.remove(n).len() == dom.len() - 1);
            assert(dom.remove(m).len() == dom.len() - 1);
            crate::raft::protocol::lemma_quorums_intersect(dom, rc.electors[t2], s2.votes, s.peers.len());
            let v = choose|v: NodeId| rc.electors[t2].contains(v) && s2.votes.contains(v);
            assert(c2.votes_cast.contains((v, t2, m)));
            assert(c2.votes_cast.contains((v, t2, n)));
            assert(m == n);
            assert(false);
        }
        assert forall|x: Seq<LogEntryModel>, i: int| logs2.contains(x) && 0 <= i < x.len() implies (
        #[trigger] x[i]).term != t2 by {
            if x == f2 {
                assert(rc.leaders.contains_key(f2[i].term));
            } else {
                assert(logs.contains(x));
                assert(rc.leaders.contains_key(x[i].term));
            }
        }
    }
    // the rest is checked clause by clause
    assert forall|x: Seq<LogEntryModel>| #[trigger] logs2.contains(x) implies {
        &&& dense(x)
        &&& x.len() < log_bound()
        &&& forall|i: int| 0 <= i < x.len() ==> rc2.leaders.contains_key(#[trigger] x[i].term)
    } by {
        if x != f2 {
            assert(logs.contains(x));
        }
    }
    assert forall|x: Seq<LogEntryModel>, y: Seq<LogEntryModel>|
        #[trigger] logs2.contains(x) && #[trigger] logs2.contains(y) implies logs_match(x, y) by {
        if x != f2 && y != f2 {
            assert(logs.contains(x) && logs.contains(y));
        } else if x == f2 && y != f2 {
            assert(logs.contains(y));
        } else if x != f2 && y == f2 {
            assert(logs.contains(x));
        }
    }
    assert forall|p: (AppendEntriesModel, Seq<LogEntryModel>)| #[trigger] rc2.sent_logs.contains(p) implies describes(
        p.0,
        p.1,
    ) by {
        if !rc.sent_logs.contains(p) {
            let i = choose|i: int|
                0 <= i < r.messages.len() && #[trigger] r.messages[i].1 == RaftMessageModel::AppendEntries(p.0);
            lemma_step_sent(s, s2, now, e, r, i, p.0);
            let j = choose|j: int|
                0 <= j < s.peers.len() && r.messages[i] == (
                    #[trigger] s.peers[j],
                    RaftMessageModel::AppendEntries(append_entries_for(leader_committed(s), j)),
                );
            lemma_broadcast_describes(leader_committed(s), j);
        }
    }
    assert forall|f: NodeId, to: NodeId, a: AppendEntriesModel|
        #[trigger] c2.network.contains((f, to, RaftMessageModel::AppendEntries(a))) implies {
            &&& f != to
            &&& rc2.leaders.contains_key(a.term)
            &&& rc2.leaders[a.term] == f
            &&& exists|l: Seq<LogEntryModel>| #[trigger] rc2.sent_logs.contains((a, l))
        } by {
        if c.network.contains((f, to, RaftMessageModel::AppendEntries(a))) {
            let l = choose|l: Seq<LogEntryModel>| #[trigger] rc.sent_logs.contains((a, l));
            assert(rc2.sent_logs.contains((a, l)));
        } else {
            assert(crate::raft::cluster::sent_by(n, r.messages).contains((f, to, RaftMessageModel::AppendEntries(a))));
            let i = choose|i: int| 0 <= i < r.messages.len() && r.messages[i] == (to, RaftMessageModel::AppendEntries(a));
            lemma_step_sent(s, s2, now, e, r, i, a);
            let j = choose|j: int|
                0 <= j < s.peers.len() && r.messages[i] == (
                    #[trigger] s.peers[j],
                    RaftMessageModel::AppendEntries(append_entries_for(leader_committed(s), j)),
                );
            assert(s.peers.to_set().contains(s.peers[j]));
            assert(s.peers.to_set() == dom.remove(n));
            assert(f == n && to == s.peers[j]);
            assert(to != n);
            assert(a == append_entries_for(leader_committed(s), j));
            assert(a.term == s.persistent.current_term);
            assert(s.role == Role::Leader);
            assert(rc.leaders[s.persistent.current_term] == n);
            assert(!became);
            assert(rc2.leaders == rc.leaders);
            assert(sent_with(r.messages, s.log.entries).contains((a, s.log.entries)));
            assert(rc2.sent_logs.contains((a, s.log.entries)));
        }
    }
    assert forall|t: u64| #[trigger] rc2.leaders.contains_key(t) implies {
        let m = rc2.leaders[t];
        &&& dom.contains(m)
        &&& rc2.electors.contains_key(t)
        &&& c2.nodes[m].persistent.current_term >= t
        &&& c2.nodes[m].persistent.current_term == t ==> c2.nodes[m].role == Role::Leader
        &&& rc2.electors[t].subset_of(dom)
        &&& rc2.electors[t].len() >= quorum(c2.nodes[m].peers.len())
        &&& forall|v: NodeId| #[trigger] rc2.electors[t].contains(v) ==> c2.votes_cast.contains((v, t, m))
    } by {
        if became && t == t2 {
            crate::raft::protocol::lemma_leader_has_quorum(s, s2, now, e, r);
        } else {
            let m = rc.leaders[t];
            assert(c.votes_cast.subset_of(c2.votes_cast));
            if m == n {
                if s.persistent.current_term == t && !became {
                    assert(s.role == Role::Leader);
                }
            }
        }
    }
    assert forall|x: Seq<LogEntryModel>| #[trigger] logs2.contains(x) implies x.len() >= 0 by {}
    assert forall|m: NodeId, x: Seq<LogEntryModel>, i: int|
        dom.contains(m) && c2.nodes[m].role == Role::Leader && logs2.contains(x) && 0 <= i < x.len()
            && x[i].term == c2.nodes[m].persistent.current_term implies i < c2.nodes[m].log.entries.len()
            && c2.nodes[m].log.entries[i] == x[i] by {
        if m == n && became {
            assert(x[i].term != t2);
        } else {
            // the leader was leader before, of the same term, with the same log
            if m == n {
                assert(s.role == Role::Leader);
                assert(f2 == s.log.entries);
            }
            if x == f2 {
                let y = choose|y: Seq<LogEntryModel>| #[trigger] logs.contains(y) && i < y.len() && y[i] == f2[i];
                assert(logs.contains(y) && y[i] == x[i]);
            } else {
                assert(logs.contains(x));
            }
        }
    }
}

/// One step of a replicated cluster: a node takes an event, or a leader
/// appends a command.
pub open spec fn replicated_next(rc: ReplicatedCluster, rc2: ReplicatedCluster) -> bool {
    ||| exists|n: NodeId, now: u64, e: NodeEvent, r: ReadyModel| #[trigger] replicated_step(rc, rc2, n, now, e, r)
    ||| exists|n: NodeId, cmd: CommandModel| #[trigger] replicated_propose(rc, rc2, n, cmd)
}

proof fn lemma_replicated_run(run: Seq<ReplicatedCluster>, k: int)
    requires
        run.len() > 0,
        replicated_initial(run[0]),
        forall|i: int| 0 <= i < run.len() - 1 ==> replicated_next(#[trigger] run[i], run[i + 1]),
        0 <= k < run.len(),
    ensures
        replicated_inv(run[k]),
    decreases k,
{
    if k == 0 {
        lemma_replicated_initial(run[0]);
    } else {
        lemma_replicated_run(run, k - 1);
        assert(replicated_next(run[k - 1], run[k]));
        if exists|n: NodeId, now: u64, e: NodeEvent, r: ReadyModel| #[trigger] replicated_step(run[k - 1], run[k], n, now, e, r) {
            let (n, now, e, r) = choose|n: NodeId, now: u64, e: NodeEvent, r: ReadyModel|
                #[trigger] replicated_step(run[k - 1], run[k], n, now, e, r);
            lemma_replicated_step(run[k - 1], run[k], n, now, e, r);
        } else {
            let (n, cmd) = choose|n: NodeId, cmd: CommandModel| #[trigger] replicated_propose(run[k - 1], run[k], n, cmd);
            lemma_replicated_propose(run[k - 1], run[k], n, cmd);
        }
    }
}

/// Law (Log Matching): in every cluster reached step by step from a start,
/// where nodes take ticks and messages and leaders append commands, two
/// nodes whose logs hold entries of the same term at index `k` hold the
/// same entry at every index `j` up to `k`.
pub proof fn lemma_log_matching_in_cluster(
    run: Seq<ReplicatedCluster>,
    at: int,
    a: NodeId,
    b: NodeId,
    k: u64,
    j: u64,
)
    requires
        run.len() > 0,
        replicated_initial(run[0]),
        forall|i: int| 0 <= i < run.len() - 1 ==> replicated_next(#[trigger] run[i], run[i + 1]),
        0 <= at < run.len(),
        run[at].cluster.nodes.dom().contains(a),
        run[at].cluster.nodes.dom().contains(b),
        entry_for(run[at].cluster.nodes[a].log, k) matches Some(x) && entry_for(
            run[at].cluster.nodes[b].log,
            k,
        ) matches Some(y) && x.term == y.term,
        j <= k,
    ensures
        entry_for(run[at].cluster.nodes[a].log, j) == entry_for(run[at].cluster.nodes[b].log, j),
{
    lemma_replicated_run(run, at);
    lemma_logs_agree(run[at], a, b, k, j);
}

} // verus!
