//! How a follower reconciles its log with the entries a leader sends: an
//! entry it already holds (same index, same term) is kept; any other entry
//! replaces the follower's entry at that index and everything after it.

use crate::wal::entry::LogEntryModel;
use crate::wal::log::{index_map, truncated_below, WalState};
use vstd::prelude::*;

verus! {

/// What a log holds: its entries in order, the position each log index
/// names, and the entries not yet handed to durable storage.
pub type LogContents = (Seq<LogEntryModel>, Map<u64, usize>, Seq<LogEntryModel>);

/// The contents of a log state.
pub open spec fn log_contents(s: WalState) -> LogContents {
    (s.entries, index_map(s.index), s.unpersisted)
}

/// The number of leading entries whose log index is below `k`.
pub open spec fn cut_len(es: Seq<LogEntryModel>, k: u64) -> nat
    decreases es.len(),
{
    if es.len() == 0 {
        0
    } else if es[0].index >= k {
        0
    } else {
        1 + cut_len(es.drop_first(), k)
    }
}

/// The log holds an entry at the index of `e` with the term of `e`.
pub open spec fn holds_entry(c: LogContents, e: LogEntryModel) -> bool {
    &&& c.1.contains_key(e.index)
    &&& c.1[e.index] < c.0.len()
    &&& c.0[c.1[e.index] as int].term == e.term
}

/// The log after the leader's entry `e`: unchanged when it already holds
/// `e`'s index and term; otherwise cut before its first entry whose index is
/// `e`'s or more, with every index from `e`'s on forgotten, and `e` appended.
pub open spec fn accept_entry(c: LogContents, e: LogEntryModel) -> LogContents {
    if holds_entry(c, e) {
        c
    } else {
        let kept = c.0.take(cut_len(c.0, e.index) as int);
        (
            kept.push(e),
            c.1.restrict(Set::new(|k: u64| k < e.index)).insert(e.index, kept.len() as usize),
            c.2.push(e),
        )
    }
}

/// The log after the leader's entries `es`, taken in order.
pub open spec fn accept_entries(c: LogContents, es: Seq<LogEntryModel>) -> LogContents
    decreases es.len(),
{
    if es.len() == 0 {
        c
    } else {
        accept_entry(accept_entries(c, es.drop_last()), es.last())
    }
}

/// A consistent log: log indices rise along the entries, and each log index
/// names exactly the position of the entry that carries it.
pub open spec fn log_consistent(c: LogContents) -> bool {
    &&& forall|i: int, j: int|
        0 <= i < j < c.0.len() ==> (#[trigger] c.0[i]).index < (#[trigger] c.0[j]).index
    &&& forall|i: int| 0 <= i < c.0.len() ==> #[trigger] c.1.contains_key(c.0[i].index) && c.1[c.0[i].index] == i
    &&& forall|k: u64| #[trigger] c.1.contains_key(k) ==> c.1[k] < c.0.len() && c.0[c.1[k] as int].index == k
}

/// Log indices rise along `es`.
pub open spec fn rising(es: Seq<LogEntryModel>) -> bool {
    forall|i: int, j: int| 0 <= i < j < es.len() ==> (#[trigger] es[i]).index < (#[trigger] es[j]).index
}

/// A cut as `truncate_after` makes it keeps the leading entries below the
/// index.
pub proof fn lemma_cut_len(before: Seq<LogEntryModel>, after: Seq<LogEntryModel>, k: u64)
    requires
        truncated_below(before, after, k),
    ensures
        cut_len(before, k) == after.len(),
        after == before.take(cut_len(before, k) as int),
    decreases before.len(),
{
    if before.len() == 0 {
        assert(after =~= before.take(0));
    } else if before[0].index >= k {
        if after.len() > 0 {
            assert(after[0] == before[0]);
        }
        assert(after =~= before.take(0));
    } else {
        if after.len() == 0 {
            assert(before[0].index >= k);
        }
        let b1 = before.drop_first();
        let a1 = after.drop_first();
        assert(a1 =~= b1.subrange(0, a1.len() as int));
        assert forall|j: int| 0 <= j < a1.len() implies (#[trigger] a1[j]).index < k by {
            assert(a1[j] == after[j + 1]);
        }
        if a1.len() < b1.len() {
            assert(b1[a1.len() as int] == before[after.len() as int]);
        }
        lemma_cut_len(b1, a1, k);
        assert(cut_len(before, k) == 1 + cut_len(b1, k));
        assert(after =~= before.take(cut_len(before, k) as int));
    }
}

/// In a log whose indices rise, the leading entries below `k` are all the
/// entries below `k`: the cut falls at the first entry of index `k` or more.
pub proof fn lemma_cut_len_rising(es: Seq<LogEntryModel>, k: u64)
    requires
        forall|i: int, j: int| 0 <= i < j < es.len() ==> (#[trigger] es[i]).index < (#[trigger] es[j]).index,
    ensures
        cut_len(es, k) <= es.len(),
        forall|i: int| 0 <= i < es.len() ==> (i < cut_len(es, k) <==> (#[trigger] es[i]).index < k),
    decreases es.len(),
{
    if es.len() > 0 {
        let rest = es.drop_first();
        assert forall|i: int, j: int| 0 <= i < j < rest.len() implies (#[trigger] rest[i]).index
            < (#[trigger] rest[j]).index by {
            assert(rest[i] == es[i + 1] && rest[j] == es[j + 1]);
        }
        lemma_cut_len_rising(rest, k);
        assert forall|i: int| 0 <= i < es.len() implies (i < cut_len(es, k) <==> (
        #[trigger] es[i]).index < k) by {
            if i > 0 {
                assert(es[i] == rest[i - 1]);
                assert(es[0].index < es[i].index);
            }
        }
    }
}

/// Taking a leader's entry keeps a log consistent; afterwards the log holds
/// the entry, and every entry below its index that the log held stays where
/// it was.
pub proof fn lemma_accept_entry(c: LogContents, e: LogEntryModel)
    requires
        log_consistent(c),
        c.0.len() < usize::MAX,
    ensures
        log_consistent(accept_entry(c, e)),
        accept_entry(c, e).0.len() <= c.0.len() + 1,
        holds_entry(accept_entry(c, e), e),
        forall|x: LogEntryModel|
            x.index < e.index && holds_entry(c, x) ==> #[trigger] holds_entry(accept_entry(c, e), x),
{
    if !holds_entry(c, e) {
        lemma_cut_len_rising(c.0, e.index);
        let n = cut_len(c.0, e.index) as int;
        let kept = c.0.take(n);
        let es2 = kept.push(e);
        let m2 = c.1.restrict(Set::new(|k: u64| k < e.index)).insert(e.index, kept.len() as usize);
        let c2 = accept_entry(c, e);
        assert(c2.0 == es2 && c2.1 == m2);
        assert forall|i: int, j: int| 0 <= i < j < es2.len() implies (#[trigger] es2[i]).index
            < (#[trigger] es2[j]).index by {
            if j < n {
                assert(es2[i] == c.0[i] && es2[j] == c.0[j]);
            } else {
                assert(es2[i] == c.0[i]);
            }
        }
        assert forall|i: int| 0 <= i < es2.len() implies #[trigger] m2.contains_key(es2[i].index)
            && m2[es2[i].index] == i by {
            if i < n {
                assert(es2[i] == c.0[i]);
                assert(Set::new(|k: u64| k < e.index).contains(c.0[i].index));
            }
        }
        assert forall|k: u64| #[trigger] m2.contains_key(k) implies m2[k] < es2.len() && es2[m2[k] as int].index
            == k by {
            if k != e.index {
                assert(Set::new(|k: u64| k < e.index).contains(k));
                let p = c.1[k] as int;
                assert(c.0[p].index == k);
                assert(p < n);
                assert(es2[p] == c.0[p]);
            }
        }
        assert forall|x: LogEntryModel|
            x.index < e.index && holds_entry(c, x) implies #[trigger] holds_entry(c2, x) by {
            let p = c.1[x.index] as int;
            assert(c.0[p].index == x.index);
            assert(Set::new(|k: u64| k < e.index).contains(x.index));
            assert(p < n);
            assert(es2[p] == c.0[p]);
        }
    }
}

/// Law (reconciliation at a follower): taking a leader's entries, in rising
/// index order, into a consistent log leaves it consistent and holding every
/// one of them (its index with its term); taking the same entries again
/// changes nothing.
pub proof fn lemma_accept_entries(c: LogContents, es: Seq<LogEntryModel>)
    requires
        log_consistent(c),
        rising(es),
        c.0.len() + es.len() < usize::MAX,
    ensures
        log_consistent(accept_entries(c, es)),
        accept_entries(c, es).0.len() <= c.0.len() + es.len(),
        forall|j: int| 0 <= j < es.len() ==> #[trigger] holds_entry(accept_entries(c, es), es[j]),
        accept_entries(accept_entries(c, es), es) == accept_entries(c, es),
    decreases es.len(),
{
    if es.len() > 0 {
        let init = es.drop_last();
        let e = es.last();
        assert forall|i: int, j: int| 0 <= i < j < init.len() implies (#[trigger] init[i]).index
            < (#[trigger] init[j]).index by {
            assert(init[i] == es[i] && init[j] == es[j]);
        }
        lemma_accept_entries(c, init);
        let c1 = accept_entries(c, init);
        lemma_accept_entry(c1, e);
        let c2 = accept_entries(c, es);
        assert forall|j: int| 0 <= j < es.len() implies #[trigger] holds_entry(c2, es[j]) by {
            if j < es.len() - 1 {
                assert(init[j] == es[j]);
                assert(holds_entry(c1, init[j]));
                assert(es[j].index < e.index);
            }
        }
        lemma_accept_held(c2, es);
    }
}

/// Taking entries that a log already holds changes nothing.
proof fn lemma_accept_held(c: LogContents, es: Seq<LogEntryModel>)
    requires
        forall|j: int| 0 <= j < es.len() ==> #[trigger] holds_entry(c, es[j]),
    ensures
        accept_entries(c, es) == c,
    decreases es.len(),
{
    if es.len() > 0 {
        let init = es.drop_last();
        assert forall|j: int| 0 <= j < init.len() implies #[trigger] holds_entry(c, init[j]) by {
            assert(init[j] == es[j]);
        }
        lemma_accept_held(c, init);
        assert(holds_entry(c, es[es.len() - 1]));
    }
}

/// Taking a leader's entries keeps a log consistent, whatever they are.
pub proof fn lemma_accept_keeps_consistent(c: LogContents, es: Seq<LogEntryModel>)
    requires
        log_consistent(c),
        c.0.len() + es.len() < usize::MAX,
    ensures
        log_consistent(accept_entries(c, es)),
        accept_entries(c, es).0.len() <= c.0.len() + es.len(),
    decreases es.len(),
{
    if es.len() > 0 {
        lemma_accept_keeps_consistent(c, es.drop_last());
        lemma_accept_entry(accept_entries(c, es.drop_last()), es.last());
    }
}

} // verus!
