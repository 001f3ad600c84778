//! The Raft log: Raft-specific operations on the write-ahead log.

use crate::wal::entry::{Command, LogEntry, LogEntryModel};
use crate::wal::frame::entries_model;
use crate::wal::log::{
    entry_for, index_map, last_index_of, range_entries, WalState, WriteAheadLog,
};
use vstd::prelude::*;

verus! {

/// The term of the last entry, or 0 when there is none.
pub open spec fn last_term_of(es: Seq<LogEntryModel>) -> u64 {
    if es.len() == 0 {
        0
    } else {
        es.last().term
    }
}

/// A log whose last entry has term `our_term` and index `our_index` is no
/// more up to date than a candidate's (Raft §5.4.1): the later last term
/// wins, and with equal last terms the longer log.
pub open spec fn candidate_up_to_date(
    candidate_last_index: u64,
    candidate_last_term: u64,
    our_last_index: u64,
    our_last_term: u64,
) -> bool {
    if candidate_last_term != our_last_term {
        candidate_last_term > our_last_term
    } else {
        candidate_last_index >= our_last_index
    }
}

/// Law (Raft 5.4.1): a candidate's log is at least as up to date as ours
/// exactly when its last entry's (term, index) is lexicographically at
/// least ours: a later last term wins; with equal last terms, a candidate
/// whose last index is below ours is behind.
pub proof fn lemma_up_to_date_is_lexicographic(ci: u64, ct: u64, oi: u64, ot: u64)
    ensures
        candidate_up_to_date(ci, ct, oi, ot) <==> (ct > ot || (ct == ot && ci >= oi)),
        ci < oi ==> !candidate_up_to_date(ci, ot, oi, ot),
        ct < ot ==> !candidate_up_to_date(ci, ct, oi, ot),
        candidate_up_to_date(oi, ot, oi, ot),
{
}

/// The log holds an entry at `index` with term `term` (index 0 always matches).
pub open spec fn log_matches(s: WalState, index: u64, term: u64) -> bool {
    index == 0 || (entry_for(s, index) matches Some(e) && e.term == term)
}

/// Raft log over the write-ahead log.
pub struct RaftLog {
    wal: WriteAheadLog,
}

impl View for RaftLog {
    type V = WalState;

    closed spec fn view(&self) -> WalState {
        self.wal@
    }
}

impl RaftLog {
    /// The log is well formed.
    pub closed spec fn wf(&self) -> bool {
        self.wal.wf()
    }

    /// A well-formed log's index is ordered by log index.
    pub proof fn lemma_index_ordered(&self)
        requires
            self.wf(),
        ensures
            crate::wal::log::keys_increasing(self@.index),
    {
    }

    /// A Raft log over `wal`.
    pub fn new(wal: WriteAheadLog) -> (r: Self)
        requires
            wal.wf(),
        ensures
            r.wf(),
            r@ == wal@,
    {
        RaftLog { wal }
    }

    /// The underlying write-ahead log.
    pub fn wal(&self) -> (r: &WriteAheadLog)
        ensures
            r@ == self@,
            self.wf() ==> r.wf(),
    {
        &self.wal
    }

    /// The index of the last entry (0 when empty).
    pub fn last_index(&self) -> (r: u64)
        ensures
            r == last_index_of(self@.entries),
    {
        self.wal.last_index()
    }

    /// The index of the first entry (0 when empty).
    pub fn first_index(&self) -> (r: u64)
        ensures
            r == crate::wal::log::first_index_of(self@.entries),
    {
        self.wal.first_index()
    }

    /// The term of the entry at `index`.
    pub fn term_at(&self, index: u64) -> (r: Option<u64>)
        requires
            self.wf(),
        ensures
            match entry_for(self@, index) {
                Some(m) => r == Some(m.term),
                None => r is None,
            },
    {
        self.wal.term_at(index)
    }

    /// The term of the last entry (0 when empty).
    pub fn last_term(&self) -> (r: u64)
        ensures
            r == last_term_of(self@.entries),
    {
        match self.wal.last_entry() {
            Some(e) => e.term,
            None => 0,
        }
    }

    /// Append a new entry with the given term, index and command.
    pub fn append(&mut self, term: u64, index: u64, command: Command)
        requires
            old(self).wf(),
        ensures
            final(self).wf(),
            final(self)@.entries == old(self)@.entries.push(
                LogEntryModel { term, index, command: command.model() },
            ),
            index_map(final(self)@.index) == index_map(old(self)@.index).insert(
                index,
                old(self)@.entries.len() as usize,
            ),
            final(self)@.unpersisted == old(self)@.unpersisted.push(
                LogEntryModel { term, index, command: command.model() },
            ),
            final(self)@.next_sequence == old(self)@.next_sequence,
    {
        let entry = LogEntry::new(term, index, command);
        self.wal.append(entry);
    }

    /// Append entries in order (for replication).
    pub fn append_entries(&mut self, entries: Vec<LogEntry>)
        requires
            old(self).wf(),
        ensures
            final(self).wf(),
            final(self)@.entries == old(self)@.entries + entries_model(entries@),
            final(self)@.unpersisted == old(self)@.unpersisted + entries_model(entries@),
    {
        let ghost start = self@;
        let ghost all = entries@;
        let mut i: usize = 0;
        let n = entries.len();
        while i < n
            invariant
                self.wf(),
                n == all.len(),
                i <= n,
                entries@ == all,
                self@.entries == start.entries + entries_model(all.subrange(0, i as int)),
                self@.unpersisted == start.unpersisted + entries_model(all.subrange(0, i as int)),
            decreases n - i,
        {
            let e = entries[i].clone();
            proof {
                assert(entries_model(all.subrange(0, i + 1)) =~= entries_model(
                    all.subrange(0, i as int),
                ).push(all[i as int].model()));
            }
            self.wal.append(e);
            i = i + 1;
            proof {
                assert(self@.entries =~= start.entries + entries_model(all.subrange(0, i as int)));
                assert(self@.unpersisted =~= start.unpersisted + entries_model(
                    all.subrange(0, i as int),
                ));
            }
        }
        assert(all.subrange(0, n as int) =~= all);
    }

    /// The entries named by indices `start_index..=end_index`.
    pub fn get_range(&self, start_index: u64, end_index: u64) -> (r: Vec<LogEntry>)
        ensures
            entries_model(r@) == range_entries(self@.index, self@.entries, start_index, end_index),
    {
        self.wal.get_range(start_index, end_index)
    }

    /// The entry at `index`.
    pub fn get_entry(&self, index: u64) -> (r: Option<LogEntry>)
        requires
            self.wf(),
        ensures
            match entry_for(self@, index) {
                Some(m) => r matches Some(e) && e.model() == m,
                None => r is None,
            },
    {
        self.wal.get_entry(index)
    }

    /// Remove the entry at `index` and every later one (used on conflicts).
    pub fn truncate_from(&mut self, index: u64)
        requires
            old(self).wf(),
        ensures
            final(self).wf(),
            crate::wal::log::truncated_below(old(self)@.entries, final(self)@.entries, index),
            index_map(final(self)@.index) == index_map(old(self)@.index).restrict(
                Set::new(|k: u64| k < index),
            ),
            final(self)@.unpersisted == old(self)@.unpersisted,
            final(self)@.next_sequence == old(self)@.next_sequence,
    {
        self.wal.truncate_after(index);
    }

    /// Whether a candidate whose last entry has the given index and term is
    /// at least as up to date as this log.
    pub fn is_up_to_date(&self, candidate_last_index: u64, candidate_last_term: u64) -> (r: bool)
        ensures
            ({
                let our_term: u64 = if self@.entries.len() == 0 {
                    0
                } else {
                    self@.entries.last().term
                };
                let our_index: u64 = if self@.entries.len() == 0 {
                    0
                } else {
                    self@.entries.last().index
                };
                r == (candidate_last_term > our_term || (candidate_last_term == our_term
                    && candidate_last_index >= our_index))
            }),
            r == candidate_up_to_date(
                candidate_last_index,
                candidate_last_term,
                last_index_of(self@.entries),
                last_term_of(self@.entries),
            ),
    {
        let our_last_term = self.last_term();
        let our_last_index = self.last_index();
        if candidate_last_term != our_last_term {
            candidate_last_term > our_last_term
        } else {
            candidate_last_index >= our_last_index
        }
    }

    /// Whether the log holds an entry at `index` with term `term`.
    pub fn matches(&self, index: u64, term: u64) -> (r: bool)
        requires
            self.wf(),
        ensures
            r == log_matches(self@, index, term),
    {
        if index == 0 {
            return true;
        }
        match self.term_at(index) {
            Some(t) => t == term,
            None => false,
        }
    }

    /// Whether the log is empty.
    pub fn is_empty(&self) -> (r: bool)
        ensures
            r == (self@.entries.len() == 0),
    {
        self.wal.is_empty()
    }

    /// The number of entries.
    pub fn len(&self) -> (r: usize)
        ensures
            r == self@.entries.len(),
    {
        self.wal.len()
    }

    /// Hand over the entries appended since the last call, for durable storage.
    pub fn take_unpersisted(&mut self) -> (r: Vec<LogEntry>)
        requires
            old(self).wf(),
        ensures
            final(self).wf(),
            entries_model(r@) == old(self)@.unpersisted,
            final(self)@.unpersisted == Seq::<LogEntryModel>::empty(),
            final(self)@.entries == old(self)@.entries,
            final(self)@.index == old(self)@.index,
            final(self)@.next_sequence == old(self)@.next_sequence,
    {
        self.wal.take_unpersisted()
    }
}

} // verus!
