//! Raft persistent and volatile state.

use crate::sorting::{sort_ascending, sorted_u64};
use crate::types::NodeId;
use vstd::prelude::*;

verus! {

/// Persistent state on all servers (term and vote).
#[derive(Debug, Clone, Copy, PartialEq, Eq, Structural)]
pub struct PersistentState {
    /// Latest term server has seen (initialized to 0, increases monotonically).
    pub current_term: u64,
    /// Candidate that received this server's vote in the current term, if any.
    pub voted_for: Option<NodeId>,
}

impl Default for PersistentState {
    fn default() -> (r: Self)
        ensures
            r.current_term == 0,
            r.voted_for is None,
    {
        PersistentState { current_term: 0, voted_for: None }
    }
}

impl PersistentState {
    /// Create new persistent state: term 0, no vote.
    pub fn new() -> (r: Self)
        ensures
            r.current_term == 0,
            r.voted_for is None,
    {
        PersistentState { current_term: 0, voted_for: None }
    }

    /// Update the term; the vote is cleared exactly when the term increases.
    pub fn update_term(&mut self, new_term: u64)
        ensures
            new_term > old(self).current_term ==> *final(self) == (PersistentState {
                current_term: new_term,
                voted_for: None,
            }),
            new_term <= old(self).current_term ==> *final(self) == *old(self),
    {
        if new_term > self.current_term {
            self.current_term = new_term;
            self.voted_for = None;
        }
    }

    /// Record the vote for `candidate` in the current term.
    pub fn set_voted_for(&mut self, candidate: NodeId)
        ensures
            final(self).current_term == old(self).current_term,
            final(self).voted_for == Some(candidate),
    {
        self.voted_for = Some(candidate);
    }
}

/// Volatile state on all servers (commit and apply progress).
#[derive(Debug, Clone, Copy, PartialEq, Eq, Structural)]
pub struct VolatileState {
    /// Index of highest log entry known to be committed.
    pub commit_index: u64,
    /// Index of highest log entry applied to the state machine.
    pub last_applied: u64,
}

impl Default for VolatileState {
    fn default() -> (r: Self)
        ensures
            r.commit_index == 0,
            r.last_applied == 0,
    {
        VolatileState { commit_index: 0, last_applied: 0 }
    }
}

impl VolatileState {
    /// Create new volatile state with both indices at 0.
    pub fn new() -> (r: Self)
        ensures
            r.commit_index == 0,
            r.last_applied == 0,
    {
        VolatileState { commit_index: 0, last_applied: 0 }
    }

    /// Raise the commit index to `new_commit` if that is larger.
    pub fn update_commit(&mut self, new_commit: u64)
        ensures
            final(self).commit_index == (if new_commit > old(self).commit_index {
                new_commit
            } else {
                old(self).commit_index
            }),
            final(self).last_applied == old(self).last_applied,
    {
        if new_commit > self.commit_index {
            self.commit_index = new_commit;
        }
    }

    /// Advance `last_applied` to `commit_index`, returning the range of
    /// indices `last_applied + 1 .. commit_index + 1` that became applied.
    pub fn advance_applied(&mut self) -> (r: Option<core::ops::Range<u64>>)
        requires
            old(self).commit_index < u64::MAX,
        ensures
            final(self).commit_index == old(self).commit_index,
            old(self).last_applied < old(self).commit_index ==> {
                &&& final(self).last_applied == old(self).commit_index
                &&& r matches Some(rg) && rg.start == old(self).last_applied + 1 && rg.end
                    == old(self).commit_index + 1
            },
            old(self).last_applied >= old(self).commit_index ==> {
                &&& final(self).last_applied == old(self).last_applied
                &&& r is None
            },
    {
        if self.last_applied < self.commit_index {
            let range = (self.last_applied + 1)..(self.commit_index + 1);
            self.last_applied = self.commit_index;
            Some(range)
        } else {
            None
        }
    }
}

/// How many match indices make a majority of `n` voters: more than half.
pub open spec fn majority_size(n: nat) -> nat {
    n / 2 + 1
}

/// The commit index a leader may adopt: the largest value that a majority
/// (`len / 2 + 1`) of the match indices have reached, which is the value at
/// position `(len - 1) / 2` of their ascending sort, and never less than
/// `current_commit`.
pub open spec fn majority_commit(match_index: Seq<u64>, current_commit: u64) -> u64 {
    if match_index.len() == 0 {
        current_commit
    } else {
        let m = sorted_u64(match_index)[((match_index.len() - 1) / 2) as int];
        if m > current_commit {
            m
        } else {
            current_commit
        }
    }
}

/// The majority commit index is the current commit index or one of the
/// match indices.
pub proof fn lemma_majority_commit_member(match_index: Seq<u64>, current_commit: u64)
    ensures
        majority_commit(match_index, current_commit) == current_commit || match_index.contains(
            majority_commit(match_index, current_commit),
        ),
{
    if match_index.len() > 0 {
        crate::sorting::lemma_u64_leq_total();
        match_index.lemma_sort_by_ensures(crate::sorting::u64_leq());
        let sorted = sorted_u64(match_index);
        assert(sorted.to_multiset().len() == match_index.to_multiset().len()) by {
            broadcast use vstd::seq_lib::group_to_multiset_ensures;
        }
        assert(sorted.len() == match_index.len()) by {
            broadcast use vstd::seq_lib::group_to_multiset_ensures;
        }
        let k = ((match_index.len() - 1) / 2) as int;
        assert(sorted.contains(sorted[k]));
    }
}

/// How many of the values `s` are at least `v`.
pub open spec fn count_at_least(s: Seq<u64>, v: u64) -> nat
    decreases s.len(),
{
    if s.len() == 0 {
        0
    } else {
        count_at_least(s.drop_last(), v) + if s.last() >= v {
            1nat
        } else {
            0nat
        }
    }
}

/// Removing the value at `j` lowers the count by one exactly when that
/// value is counted.
proof fn lemma_count_remove(s: Seq<u64>, j: int, v: u64)
    requires
        0 <= j < s.len(),
    ensures
        count_at_least(s, v) == count_at_least(s.remove(j), v) + if s[j] >= v {
            1nat
        } else {
            0nat
        },
    decreases s.len(),
{
    if j == s.len() - 1 {
        assert(s.remove(j) =~= s.drop_last());
    } else {
        lemma_count_remove(s.drop_last(), j, v);
        assert(s.remove(j).drop_last() =~= s.drop_last().remove(j));
        assert(s.remove(j).last() == s.last());
    }
}

/// The count depends only on the values, not on their order.
proof fn lemma_count_permutation(s1: Seq<u64>, s2: Seq<u64>, v: u64)
    requires
        s1.to_multiset() == s2.to_multiset(),
    ensures
        count_at_least(s1, v) == count_at_least(s2, v),
    decreases s1.len(),
{
    broadcast use vstd::seq_lib::group_to_multiset_ensures;

    if s1.len() == 0 {
        assert(s2.to_multiset().len() == 0);
    } else {
        let x = s1.last();
        let rest = s1.drop_last();
        assert(rest.push(x) =~= s1);
        assert(s2.to_multiset().count(x) > 0);
        assert(s2.contains(x));
        let j = choose|j: int| 0 <= j < s2.len() && s2[j] == x;
        let r2 = s2.remove(j);
        assert(r2.to_multiset() =~= rest.to_multiset());
        lemma_count_permutation(rest, r2, v);
        lemma_count_remove(s2, j, v);
    }
}

/// A sequence whose values from position `k` on are at least `v` counts at
/// least its length less `k`.
proof fn lemma_count_suffix(s: Seq<u64>, k: int, v: u64)
    requires
        0 <= k <= s.len(),
        forall|i: int| k <= i < s.len() ==> s[i] >= v,
    ensures
        count_at_least(s, v) >= s.len() - k,
    decreases s.len(),
{
    if s.len() > k {
        lemma_count_suffix(s.drop_last(), k, v);
    }
}

/// A sequence whose values before position `k` are below `v` counts at
/// most its length less `k`.
proof fn lemma_count_prefix(s: Seq<u64>, k: int, v: u64)
    requires
        0 <= k <= s.len(),
        forall|i: int| 0 <= i < k ==> s[i] < v,
    ensures
        count_at_least(s, v) <= s.len() - k,
    decreases s.len(),
{
    if s.len() > 0 {
        if s.len() > k {
            lemma_count_prefix(s.drop_last(), k, v);
        } else {
            lemma_count_prefix(s.drop_last(), k - 1, v);
        }
    }
}

/// Law: the commit index a leader adopts from its match indices is
/// supported by a majority: when it rises above the current commit index,
/// at least `len / 2 + 1` of the match indices have reached it, and no
/// larger value is reached by that many.
pub proof fn lemma_majority_commit_support(match_index: Seq<u64>, current_commit: u64)
    requires
        majority_commit(match_index, current_commit) > current_commit,
    ensures
        count_at_least(match_index, majority_commit(match_index, current_commit)) >= majority_size(
            match_index.len(),
        ),
        forall|v: u64|
            v > majority_commit(match_index, current_commit) ==> #[trigger] count_at_least(
                match_index,
                v,
            ) < majority_size(match_index.len()),
{
    crate::sorting::lemma_u64_leq_total();
    match_index.lemma_sort_by_ensures(crate::sorting::u64_leq());
    let sorted = sorted_u64(match_index);
    assert(sorted.len() == match_index.len()) by {
        broadcast use vstd::seq_lib::group_to_multiset_ensures;

        assert(sorted.to_multiset().len() == match_index.to_multiset().len());
    }
    let n = match_index.len();
    let k = ((n - 1) / 2) as int;
    let r = sorted[k];
    assert forall|i: int| k <= i < sorted.len() implies sorted[i] >= r by {
        if i > k {
            assert((crate::sorting::u64_leq())(sorted[k], sorted[i]));
        }
    }
    lemma_count_suffix(sorted, k, r);
    lemma_count_permutation(match_index, sorted, r);
    assert forall|v: u64| v > r implies #[trigger] count_at_least(match_index, v) < majority_size(
        n,
    ) by {
        assert forall|i: int| 0 <= i < k + 1 implies sorted[i] < v by {
            if i < k {
                assert((crate::sorting::u64_leq())(sorted[i], sorted[k]));
            }
        }
        lemma_count_prefix(sorted, k + 1, v);
        lemma_count_permutation(match_index, sorted, v);
    }
}

/// `current` raised to `new`, if that is larger.
pub open spec fn raised(current: u64, new: u64) -> u64 {
    if new > current {
        new
    } else {
        current
    }
}

/// Volatile state on leaders only.
#[derive(Debug, Clone)]
pub struct LeaderState {
    /// For each server, index of the next log entry to send.
    pub next_index: Vec<u64>,
    /// For each server, index of highest log entry known to be replicated.
    pub match_index: Vec<u64>,
}

impl LeaderState {
    /// Create leader state for `cluster_size` followers: every next index is
    /// `last_log_index + 1`, every match index is 0.
    pub fn new(cluster_size: usize, last_log_index: u64) -> (r: Self)
        requires
            last_log_index < u64::MAX,
        ensures
            r.next_index@ == Seq::new(cluster_size as nat, |i: int| (last_log_index + 1) as u64),
            r.match_index@ == Seq::new(cluster_size as nat, |i: int| 0u64),
    {
        let mut next_index: Vec<u64> = Vec::new();
        let mut match_index: Vec<u64> = Vec::new();
        let mut i: usize = 0;
        while i < cluster_size
            invariant
                i <= cluster_size,
                last_log_index < u64::MAX,
                next_index@ == Seq::new(i as nat, |j: int| (last_log_index + 1) as u64),
                match_index@ == Seq::new(i as nat, |j: int| 0u64),
            decreases cluster_size - i,
        {
            next_index.push(last_log_index + 1);
            match_index.push(0);
            i = i + 1;
            assert(next_index@ =~= Seq::new(i as nat, |j: int| (last_log_index + 1) as u64));
            assert(match_index@ =~= Seq::new(i as nat, |j: int| 0u64));
        }
        LeaderState { next_index, match_index }
    }

    /// Record that follower `follower_idx` has replicated up to `match_idx`:
    /// its match index rises to `match_idx` and never falls (ignored for an
    /// index out of range).
    pub fn update_match(&mut self, follower_idx: usize, match_idx: u64)
        ensures
            final(self).next_index@ == old(self).next_index@,
            follower_idx < old(self).match_index@.len() ==> final(self).match_index@ == old(
                self,
            ).match_index@.update(
                follower_idx as int,
                raised(old(self).match_index@[follower_idx as int], match_idx),
            ),
            follower_idx >= old(self).match_index@.len() ==> final(self).match_index@ == old(
                self,
            ).match_index@,
    {
        if follower_idx < self.match_index.len() && match_idx > self.match_index[follower_idx] {
            self.match_index.set(follower_idx, match_idx);
        }
    }

    /// Step `next_index` of follower `follower_idx` back by one, never below 1
    /// (ignored for an index out of range).
    pub fn decrement_next(&mut self, follower_idx: usize)
        ensures
            final(self).match_index@ == old(self).match_index@,
            (follower_idx < old(self).next_index@.len() && old(self).next_index@[follower_idx as int]
                > 1) ==> final(self).next_index@ == old(self).next_index@.update(
                follower_idx as int,
                (old(self).next_index@[follower_idx as int] - 1) as u64,
            ),
            !(follower_idx < old(self).next_index@.len() && old(
                self,
            ).next_index@[follower_idx as int] > 1) ==> final(self).next_index@ == old(
                self,
            ).next_index@,
    {
        if follower_idx < self.next_index.len() && self.next_index[follower_idx] > 1 {
            let v = self.next_index[follower_idx];
            self.next_index.set(follower_idx, v - 1);
        }
    }

    /// The commit index the match indices support: the largest value that a
    /// majority (`len / 2 + 1`) of them have reached, never below
    /// `current_commit`.
    pub fn compute_commit_index(&self, current_commit: u64) -> (r: u64)
        ensures
            r == majority_commit(self.match_index@, current_commit),
    {
        let sorted = sort_ascending(&self.match_index);
        if sorted.len() > 0 {
            let majority_idx = (sorted.len() - 1) / 2;
            let m = sorted[majority_idx];
            if m > current_commit {
                m
            } else {
                current_commit
            }
        } else {
            current_commit
        }
    }
}

} // verus!
