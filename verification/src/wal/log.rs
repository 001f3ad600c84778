//! The in-memory write-ahead log: every entry appended, looked up by log
//! index, plus the entries not yet handed to durable storage.

use crate::config::{path_from, path_of, SyncPolicy};
use crate::wal::entry::{LogEntry, LogEntryModel};
use crate::wal::frame::entries_model;
use vstd::prelude::*;

verus! {

/// Write-Ahead Log configuration.
pub struct WalConfig {
    /// Directory to store WAL files.
    pub dir: std::path::PathBuf,
    /// Maximum size of each segment in bytes.
    pub segment_size: u64,
    /// Sync policy.
    pub sync_policy: SyncPolicy,
}

impl Default for WalConfig {
    fn default() -> (r: Self)
        ensures
            r.dir == path_of("data/wal"@),
            r.segment_size == 64 * 1024 * 1024,
            r.sync_policy == (SyncPolicy::Batched { entries: 100, timeout_ms: 100 }),
    {
        WalConfig {
            dir: path_from("data/wal"),
            segment_size: 64 * 1024 * 1024,
            sync_policy: SyncPolicy::Batched { entries: 100, timeout_ms: 100 },
        }
    }
}

/// The keys of a position index are strictly increasing.
pub open spec fn keys_increasing(idx: Seq<(u64, usize)>) -> bool {
    forall|i: int, j: int| 0 <= i < j < idx.len() ==> (#[trigger] idx[i]).0 < (#[trigger] idx[j]).0
}

/// The map from log index to position that an index sequence holds.
pub open spec fn index_map(idx: Seq<(u64, usize)>) -> Map<u64, usize> {
    Map::new(
        |k: u64| exists|i: int| 0 <= i < idx.len() && (#[trigger] idx[i]).0 == k,
        |k: u64| idx[choose|i: int| 0 <= i < idx.len() && (#[trigger] idx[i]).0 == k].1,
    )
}

/// The position index that appending the entries `es` one by one builds:
/// each log index maps to the position of the last entry that carries it.
pub open spec fn positions(es: Seq<LogEntryModel>) -> Map<u64, usize>
    decreases es.len(),
{
    if es.len() == 0 {
        Map::empty()
    } else {
        positions(es.drop_last()).insert(es.last().index, (es.len() - 1) as usize)
    }
}

/// The state of the in-memory log.
pub struct WalState {
    /// Every entry, in the order appended.
    pub entries: Seq<LogEntryModel>,
    /// Log index to position, ordered by log index.
    pub index: Seq<(u64, usize)>,
    /// Entries appended but not yet taken for durable storage.
    pub unpersisted: Seq<LogEntryModel>,
    /// Sequence number of the next segment.
    pub next_sequence: u64,
}

/// The entry that log index `k` names, if its position holds one.
pub open spec fn entry_for(s: WalState, k: u64) -> Option<LogEntryModel> {
    let m = index_map(s.index);
    if m.contains_key(k) && m[k] < s.entries.len() {
        Some(s.entries[m[k] as int])
    } else {
        None
    }
}

/// The log index of the last entry, or 0 when there is none.
pub open spec fn last_index_of(es: Seq<LogEntryModel>) -> u64 {
    if es.len() == 0 {
        0
    } else {
        es.last().index
    }
}

/// The log index of the first entry, or 0 when there is none.
pub open spec fn first_index_of(es: Seq<LogEntryModel>) -> u64 {
    if es.len() == 0 {
        0
    } else {
        es[0].index
    }
}

/// The entries named by the log indices in `lo..=hi`, in increasing log index.
pub open spec fn range_entries(idx: Seq<(u64, usize)>, es: Seq<LogEntryModel>, lo: u64, hi: u64) -> Seq<
    LogEntryModel,
>
    decreases idx.len(),
{
    if idx.len() == 0 {
        Seq::empty()
    } else {
        let rest = range_entries(idx.drop_last(), es, lo, hi);
        let p = idx.last();
        if lo <= p.0 && p.0 <= hi && p.1 < es.len() {
            rest.push(es[p.1 as int])
        } else {
            rest
        }
    }
}

/// The entries whose log index is at least `lo`, in order.
pub open spec fn entries_from_spec(es: Seq<LogEntryModel>, lo: u64) -> Seq<LogEntryModel>
    decreases es.len(),
{
    if es.len() == 0 {
        Seq::empty()
    } else {
        let rest = entries_from_spec(es.drop_last(), lo);
        if es.last().index >= lo {
            rest.push(es.last())
        } else {
            rest
        }
    }
}

/// `after` is `before` cut at its first entry whose log index is `index` or
/// more: a prefix of `before` whose entries all have smaller log indices,
/// and the whole of `before` or up to an entry of log index `index` or more.
pub open spec fn truncated_below(before: Seq<LogEntryModel>, after: Seq<LogEntryModel>, index: u64) -> bool {
    &&& after.len() <= before.len()
    &&& after == before.subrange(0, after.len() as int)
    &&& forall|j: int| 0 <= j < after.len() ==> (#[trigger] after[j]).index < index
    &&& after.len() < before.len() ==> before[after.len() as int].index >= index
}

/// The in-memory write-ahead log.
pub struct WriteAheadLog {
    config: WalConfig,
    entries: Vec<LogEntry>,
    index: Vec<(u64, usize)>,
    unpersisted: Vec<LogEntry>,
    next_sequence: u64,
}

impl View for WriteAheadLog {
    type V = WalState;

    closed spec fn view(&self) -> WalState {
        WalState {
            entries: entries_model(self.entries@),
            index: self.index@,
            unpersisted: entries_model(self.unpersisted@),
            next_sequence: self.next_sequence,
        }
    }
}

proof fn lemma_index_map_at(idx: Seq<(u64, usize)>, j: int)
    requires
        keys_increasing(idx),
        0 <= j < idx.len(),
    ensures
        index_map(idx).contains_key(idx[j].0),
        index_map(idx)[idx[j].0] == idx[j].1,
{
    let k = idx[j].0;
    assert(exists|i: int| 0 <= i < idx.len() && (#[trigger] idx[i]).0 == k);
    let c = choose|i: int| 0 <= i < idx.len() && (#[trigger] idx[i]).0 == k;
    if c != j {
        if c < j {
            assert(idx[c].0 < idx[j].0);
        } else {
            assert(idx[j].0 < idx[c].0);
        }
    }
}

proof fn lemma_positions_push(es: Seq<LogEntryModel>, e: LogEntryModel)
    ensures
        positions(es.push(e)) == positions(es).insert(e.index, es.len() as usize),
{
    assert(es.push(e).drop_last() =~= es);
}

proof fn lemma_entries_model_push(es: Seq<LogEntry>, e: LogEntry)
    ensures
        entries_model(es.push(e)) == entries_model(es).push(e.model()),
{
    assert(entries_model(es.push(e)) =~= entries_model(es).push(e.model()));
}

impl WriteAheadLog {
    /// The log's configuration.
    pub closed spec fn config_spec(&self) -> &WalConfig {
        &self.config
    }

    /// The log is well formed: its index is ordered by log index.
    pub open spec fn wf(&self) -> bool {
        keys_increasing(self@.index)
    }

    /// An empty log: no entries, next segment sequence 1.
    pub fn new(config: WalConfig) -> (r: Self)
        ensures
            r.wf(),
            r@.entries == Seq::<LogEntryModel>::empty(),
            r@.index == Seq::<(u64, usize)>::empty(),
            r@.unpersisted == Seq::<LogEntryModel>::empty(),
            r@.next_sequence == 1,
            r.config_spec() == &config,
    {
        let r = WriteAheadLog {
            config,
            entries: Vec::new(),
            index: Vec::new(),
            unpersisted: Vec::new(),
            next_sequence: 1,
        };
        assert(entries_model(r.entries@) =~= Seq::<LogEntryModel>::empty());
        assert(entries_model(r.unpersisted@) =~= Seq::<LogEntryModel>::empty());
        r
    }

    /// The log rebuilt from entries recovered from storage: the entries in
    /// order, indexed as if appended one by one, with nothing unpersisted.
    pub fn recovered(config: WalConfig, entries: Vec<LogEntry>, next_sequence: u64) -> (r: Self)
        ensures
            r.wf(),
            r@.entries == entries_model(entries@),
            index_map(r@.index) == positions(entries_model(entries@)),
            r@.unpersisted == Seq::<LogEntryModel>::empty(),
            r@.next_sequence == next_sequence,
    {
        let mut wal = WriteAheadLog::new(config);
        let mut i: usize = 0;
        while i < entries.len()
            invariant
                i <= entries@.len(),
                wal.wf(),
                wal@.entries == entries_model(entries@.subrange(0, i as int)),
                index_map(wal@.index) == positions(entries_model(entries@.subrange(0, i as int))),
                wal@.next_sequence == 1,
            decreases entries.len() - i,
        {
            let e = entries[i].clone();
            proof {
                let s1 = entries@.subrange(0, i as int);
                assert(entries@.subrange(0, i + 1) =~= s1.push(entries@[i as int]));
                lemma_entries_model_push(s1, entries@[i as int]);
                lemma_positions_push(entries_model(s1), e.model());
            }
            wal.append_entry(e);
            i = i + 1;
        }
        assert(entries@.subrange(0, entries@.len() as int) =~= entries@);
        wal.unpersisted = Vec::new();
        wal.next_sequence = next_sequence;
        assert(entries_model(wal.unpersisted@) =~= Seq::<LogEntryModel>::empty());
        wal
    }

    /// Binary search of the index for log index `k`.
    fn search(&self, k: u64) -> (r: Result<usize, usize>)
        requires
            self.wf(),
        ensures
            r matches Ok(i) ==> i < self@.index.len() && self@.index[i as int].0 == k,
            r matches Err(i) ==> {
                &&& i <= self@.index.len()
                &&& forall|j: int| 0 <= j < i ==> (#[trigger] self@.index[j]).0 < k
                &&& forall|j: int| i <= j < self@.index.len() ==> (#[trigger] self@.index[j]).0 > k
            },
    {
        let mut lo: usize = 0;
        let mut hi: usize = self.index.len();
        while lo < hi
            invariant
                lo <= hi <= self.index@.len(),
                keys_increasing(self.index@),
                forall|j: int| 0 <= j < lo ==> (#[trigger] self.index@[j]).0 < k,
                forall|j: int| hi <= j < self.index@.len() ==> (#[trigger] self.index@[j]).0 > k,
            decreases hi - lo,
        {
            let mid = lo + (hi - lo) / 2;
            let key = self.index[mid].0;
            if key == k {
                return Ok(mid);
            } else if key < k {
                lo = mid + 1;
            } else {
                hi = mid;
            }
        }
        Err(lo)
    }

    fn append_entry(&mut self, entry: LogEntry)
        requires
            old(self).wf(),
        ensures
            final(self).wf(),
            final(self)@.entries == old(self)@.entries.push(entry.model()),
            index_map(final(self)@.index) == index_map(old(self)@.index).insert(
                entry.index,
                old(self)@.entries.len() as usize,
            ),
            final(self)@.unpersisted == old(self)@.unpersisted.push(entry.model()),
            final(self)@.next_sequence == old(self)@.next_sequence,
            final(self).config_spec() == old(self).config_spec(),
    {
        let position = self.entries.len();
        let k = entry.index;
        let ghost old_idx = self.index@;
        match self.search(k) {
            Ok(i) => {
                self.index.set(i, (k, position));
                proof {
                    let idx = self.index@;
                    assert forall|a: int, b: int| 0 <= a < b < idx.len() implies (#[trigger] idx[a]).0
                        < (#[trigger] idx[b]).0 by {
                        assert(old_idx[a].0 < old_idx[b].0);
                    }
                    assert(index_map(idx) =~= index_map(old_idx).insert(k, position)) by {
                        assert forall|key: u64| #[trigger]
                            index_map(idx).contains_key(key) == index_map(old_idx).insert(
                                k,
                                position,
                            ).contains_key(key) by {
                            if index_map(old_idx).contains_key(key) {
                                let j = choose|j: int| 0 <= j < old_idx.len() && (#[trigger] old_idx[j]).0 == key;
                                assert(idx[j].0 == key);
                            }
                            if index_map(idx).contains_key(key) {
                                let j = choose|j: int| 0 <= j < idx.len() && (#[trigger] idx[j]).0 == key;
                                assert(old_idx[j].0 == key);
                            }
                        }
                        assert forall|key: u64| #[trigger] index_map(idx).contains_key(key) implies index_map(
                            idx,
                        )[key] == index_map(old_idx).insert(k, position)[key] by {
                            let j = choose|j: int| 0 <= j < idx.len() && (#[trigger] idx[j]).0 == key;
                            lemma_index_map_at(idx, j);
                            lemma_index_map_at(old_idx, j);
                        }
                    }
                }
            },
            Err(i) => {
                self.index.insert(i, (k, position));
                proof {
                    let idx = self.index@;
                    assert forall|a: int, b: int| 0 <= a < b < idx.len() implies (#[trigger] idx[a]).0
                        < (#[trigger] idx[b]).0 by {
                        if b < i {
                            assert(old_idx[a].0 < old_idx[b].0);
                        } else if b == i {
                            assert(old_idx[a].0 < k);
                        } else if a < i {
                            assert(idx[b] == old_idx[b - 1]);
                            assert(old_idx[a].0 < k);
                            assert(old_idx[b - 1].0 > k);
                        } else if a == i {
                            assert(idx[b] == old_idx[b - 1]);
                            assert(old_idx[b - 1].0 > k);
                        } else {
                            assert(old_idx[a - 1].0 < old_idx[b - 1].0);
                        }
                    }
                    assert(index_map(idx) =~= index_map(old_idx).insert(k, position)) by {
                        assert forall|key: u64| #[trigger]
                            index_map(idx).contains_key(key) == index_map(old_idx).insert(
                                k,
                                position,
                            ).contains_key(key) by {
                            if index_map(old_idx).contains_key(key) {
                                let j = choose|j: int| 0 <= j < old_idx.len() && (#[trigger] old_idx[j]).0 == key;
                                if j < i {
                                    assert(idx[j].0 == key);
                                } else {
                                    assert(idx[j + 1].0 == key);
                                }
                            }
                            if key == k {
                                assert(idx[i as int].0 == key);
                            }
                            if index_map(idx).contains_key(key) && key != k {
                                let j = choose|j: int| 0 <= j < idx.len() && (#[trigger] idx[j]).0 == key;
                                if j < i {
                                    assert(old_idx[j].0 == key);
                                } else {
                                    assert(old_idx[j - 1].0 == key);
                                }
                            }
                        }
                        assert forall|key: u64| #[trigger] index_map(idx).contains_key(key) implies index_map(
                            idx,
                        )[key] == index_map(old_idx).insert(k, position)[key] by {
                            let j = choose|j: int| 0 <= j < idx.len() && (#[trigger] idx[j]).0 == key;
                            lemma_index_map_at(idx, j);
                            if j < i {
                                lemma_index_map_at(old_idx, j);
                            } else if j > i {
                                lemma_index_map_at(old_idx, j - 1);
                            }
                        }
                    }
                }
            },
        }
        let copy = entry.clone();
        proof {
            lemma_entries_model_push(self.entries@, entry);
            lemma_entries_model_push(self.unpersisted@, copy);
        }
        self.entries.push(entry);
        self.unpersisted.push(copy);
    }

    /// Append an entry: it becomes the last entry, its log index now names
    /// it, and it is queued for durable storage.
    pub fn append(&mut self, entry: LogEntry)
        requires
            old(self).wf(),
        ensures
            final(self).wf(),
            final(self)@.entries == old(self)@.entries.push(entry.model()),
            index_map(final(self)@.index) == index_map(old(self)@.index).insert(
                entry.index,
                old(self)@.entries.len() as usize,
            ),
            final(self)@.unpersisted == old(self)@.unpersisted.push(entry.model()),
            final(self)@.next_sequence == old(self)@.next_sequence,
            final(self).config_spec() == old(self).config_spec(),
    {
        self.append_entry(entry);
    }

    /// All entries, in order.
    pub fn entries(&self) -> (r: Vec<LogEntry>)
        ensures
            entries_model(r@) == self@.entries,
    {
        let mut out: Vec<LogEntry> = Vec::new();
        let mut i: usize = 0;
        while i < self.entries.len()
            invariant
                i <= self.entries@.len(),
                entries_model(out@) == entries_model(self.entries@.subrange(0, i as int)),
            decreases self.entries.len() - i,
        {
            let e = self.entries[i].clone();
            proof {
                lemma_entries_model_push(out@, e);
                assert(entries_model(self.entries@.subrange(0, i + 1)) =~= entries_model(
                    self.entries@.subrange(0, i as int),
                ).push(self.entries@[i as int].model()));
            }
            out.push(e);
            i = i + 1;
        }
        assert(self.entries@.subrange(0, self.entries@.len() as int) =~= self.entries@);
        out
    }

    /// The entries whose log index is at least `start_index`, in order.
    pub fn entries_from(&self, start_index: u64) -> (r: Vec<LogEntry>)
        ensures
            entries_model(r@) == entries_from_spec(self@.entries, start_index),
    {
        let mut out: Vec<LogEntry> = Vec::new();
        let mut i: usize = 0;
        while i < self.entries.len()
            invariant
                i <= self.entries@.len(),
                entries_model(out@) == entries_from_spec(
                    entries_model(self.entries@.subrange(0, i as int)),
                    start_index,
                ),
            decreases self.entries.len() - i,
        {
            proof {
                let s0 = entries_model(self.entries@.subrange(0, i as int));
                let s1 = entries_model(self.entries@.subrange(0, i + 1));
                assert(s1 =~= s0.push(self.entries@[i as int].model()));
                assert(s1.drop_last() =~= s0);
            }
            if self.entries[i].index >= start_index {
                let e = self.entries[i].clone();
                proof {
                    lemma_entries_model_push(out@, e);
                }
                out.push(e);
            }
            i = i + 1;
        }
        assert(self.entries@.subrange(0, self.entries@.len() as int) =~= self.entries@);
        out
    }

    /// The last entry, if any.
    pub fn last_entry(&self) -> (r: Option<LogEntry>)
        ensures
            self@.entries.len() == 0 ==> r is None,
            self@.entries.len() > 0 ==> (r matches Some(e) && e.model() == self@.entries.last()),
    {
        let n = self.entries.len();
        if n == 0 {
            None
        } else {
            Some(self.entries[n - 1].clone())
        }
    }

    /// The log index of the last entry, or 0 when the log is empty.
    pub fn last_index(&self) -> (r: u64)
        ensures
            r == last_index_of(self@.entries),
    {
        let n = self.entries.len();
        if n == 0 {
            0
        } else {
            self.entries[n - 1].index
        }
    }

    /// The log index of the first entry, or 0 when the log is empty.
    pub fn first_index(&self) -> (r: u64)
        ensures
            r == first_index_of(self@.entries),
    {
        if self.entries.len() == 0 {
            0
        } else {
            self.entries[0].index
        }
    }

    /// The number of entries.
    pub fn len(&self) -> (r: usize)
        ensures
            r == self@.entries.len(),
    {
        self.entries.len()
    }

    /// Whether the log holds no entries.
    pub fn is_empty(&self) -> (r: bool)
        ensures
            r == (self@.entries.len() == 0),
    {
        self.entries.len() == 0
    }

    /// The WAL directory.
    pub fn dir(&self) -> (r: &std::path::PathBuf)
        ensures
            *r == self.config_spec().dir,
    {
        &self.config.dir
    }

    /// The log's configuration.
    pub fn config(&self) -> (r: &WalConfig)
        ensures
            r == self.config_spec(),
    {
        &self.config
    }

    /// The entry that log index `index` names.
    pub fn get_entry(&self, index: u64) -> (r: Option<LogEntry>)
        requires
            self.wf(),
        ensures
            match entry_for(self@, index) {
                Some(m) => r matches Some(e) && e.model() == m,
                None => r is None,
            },
    {
        match self.search(index) {
            Ok(i) => {
                let position = self.index[i].1;
                proof {
                    lemma_index_map_at(self.index@, i as int);
                }
                if position < self.entries.len() {
                    Some(self.entries[position].clone())
                } else {
                    None
                }
            },
            Err(_) => {
                proof {
                    if index_map(self.index@).contains_key(index) {
                        let j = choose|j: int| 0 <= j < self.index@.len() && (#[trigger] self.index@[j]).0 == index;
                        assert(self.index@[j].0 == index);
                    }
                }
                None
            },
        }
    }

    /// The term of the entry that log index `index` names.
    pub fn term_at(&self, index: u64) -> (r: Option<u64>)
        requires
            self.wf(),
        ensures
            match entry_for(self@, index) {
                Some(m) => r == Some(m.term),
                None => r is None,
            },
    {
        match self.get_entry(index) {
            Some(e) => Some(e.term),
            None => None,
        }
    }

    /// The entries named by log indices `start_index..=end_index`, in
    /// increasing log index.
    pub fn get_range(&self, start_index: u64, end_index: u64) -> (r: Vec<LogEntry>)
        ensures
            entries_model(r@) == range_entries(self@.index, self@.entries, start_index, end_index),
    {
        let mut out: Vec<LogEntry> = Vec::new();
        let mut i: usize = 0;
        while i < self.index.len()
            invariant
                i <= self.index@.len(),
                entries_model(out@) == range_entries(
                    self.index@.subrange(0, i as int),
                    entries_model(self.entries@),
                    start_index,
                    end_index,
                ),
            decreases self.index.len() - i,
        {
            let (k, position) = self.index[i];
            proof {
                let s1 = self.index@.subrange(0, i + 1);
                assert(s1.drop_last() =~= self.index@.subrange(0, i as int));
                assert(s1.last() == self.index@[i as int]);
            }
            if start_index <= k && k <= end_index && position < self.entries.len() {
                let e = self.entries[position].clone();
                proof {
                    lemma_entries_model_push(out@, e);
                }
                out.push(e);
            }
            i = i + 1;
        }
        assert(self.index@.subrange(0, self.index@.len() as int) =~= self.index@);
        out
    }

    /// Remove, from memory, every entry from the first one whose log index is
    /// `index` or more, and forget every log index from `index` on: in a log
    /// appended in index order, what is left is exactly the entries with a
    /// smaller log index.
    pub fn truncate_after(&mut self, index: u64)
        requires
            old(self).wf(),
        ensures
            final(self).wf(),
            truncated_below(old(self)@.entries, final(self)@.entries, index),
            index_map(final(self)@.index) == index_map(old(self)@.index).restrict(
                Set::new(|k: u64| k < index),
            ),
            final(self)@.unpersisted == old(self)@.unpersisted,
            final(self)@.next_sequence == old(self)@.next_sequence,
            final(self).config_spec() == old(self).config_spec(),
    {
        let ghost old_idx = self.index@;
        let ghost old_entries = self@.entries;
        let mut keep: usize = 0;
        while keep < self.entries.len() && self.entries[keep].index < index
            invariant
                keep <= self.entries@.len(),
                self@.entries == old_entries,
                forall|j: int| 0 <= j < keep ==> (#[trigger] old_entries[j]).index < index,
            decreases self.entries.len() - keep,
        {
            keep = keep + 1;
        }
        let ghost raw = self.entries@;
        self.entries.truncate(keep);
        proof {
            assert(entries_model(self.entries@) =~= entries_model(raw).subrange(0, keep as int));
        }
        let cut = match self.search(index) {
            Ok(i) => i,
            Err(i) => {
                proof {
                    if index_map(old_idx).contains_key(index) {
                        let j = choose|j: int| 0 <= j < old_idx.len() && (#[trigger] old_idx[j]).0 == index;
                        assert(old_idx[j].0 == index);
                    }
                }
                i
            },
        };
        self.index.truncate(cut);
        proof {
            let idx = self.index@;
            assert(idx =~= old_idx.subrange(0, cut as int));
            assert(index_map(idx) =~= index_map(old_idx).restrict(Set::new(|k: u64| k < index))) by {
                assert forall|key: u64| #[trigger]
                    index_map(idx).contains_key(key) == index_map(old_idx).restrict(
                        Set::new(|k: u64| k < index),
                    ).contains_key(key) by {
                    if index_map(old_idx).contains_key(key) && key < index {
                        let j = choose|j: int| 0 <= j < old_idx.len() && (#[trigger] old_idx[j]).0 == key;
                        assert(j < cut);
                        assert(idx[j].0 == key);
                    }
                    if index_map(idx).contains_key(key) {
                        let j = choose|j: int| 0 <= j < idx.len() && (#[trigger] idx[j]).0 == key;
                        assert(old_idx[j].0 == key);
                    }
                }
                assert forall|key: u64| #[trigger] index_map(idx).contains_key(key) implies index_map(
                    idx,
                )[key] == index_map(old_idx)[key] by {
                    let j = choose|j: int| 0 <= j < idx.len() && (#[trigger] idx[j]).0 == key;
                    lemma_index_map_at(idx, j);
                    lemma_index_map_at(old_idx, j);
                }
            }
        }
    }

    /// Hand over the entries appended since the last call, for durable
    /// storage, in the order appended.
    pub fn take_unpersisted(&mut self) -> (r: Vec<LogEntry>)
        ensures
            entries_model(r@) == old(self)@.unpersisted,
            final(self)@.unpersisted == Seq::<LogEntryModel>::empty(),
            final(self)@.entries == old(self)@.entries,
            final(self)@.index == old(self)@.index,
            final(self)@.next_sequence == old(self)@.next_sequence,
            final(self).config_spec() == old(self).config_spec(),
    {
        let mut taken: Vec<LogEntry> = Vec::new();
        core::mem::swap(&mut taken, &mut self.unpersisted);
        assert(entries_model(self.unpersisted@) =~= Seq::<LogEntryModel>::empty());
        taken
    }

    /// The sequence number for a new segment; the next one is one higher.
    pub fn take_next_sequence(&mut self) -> (r: u64)
        requires
            old(self)@.next_sequence < u64::MAX,
        ensures
            r == old(self)@.next_sequence,
            final(self)@.next_sequence == old(self)@.next_sequence + 1,
            final(self)@.entries == old(self)@.entries,
            final(self)@.index == old(self)@.index,
            final(self)@.unpersisted == old(self)@.unpersisted,
            final(self).config_spec() == old(self).config_spec(),
    {
        let seq = self.next_sequence;
        self.next_sequence = seq + 1;
        seq
    }
}


/// Law: after an append, the appended entry's log index names it, and every
/// other log index names what it named before (unless its recorded position
/// was the end of the log, which the appended entry now fills).
pub proof fn lemma_get_after_append(before: WalState, after: WalState, e: LogEntryModel)
    requires
        before.entries.len() < usize::MAX,
        after.entries == before.entries.push(e),
        index_map(after.index) == index_map(before.index).insert(e.index, before.entries.len() as usize),
    ensures
        entry_for(after, e.index) == Some(e),
        forall|k: u64|
            k != e.index && !(index_map(before.index).contains_key(k) && index_map(before.index)[k]
                == before.entries.len()) ==> #[trigger] entry_for(after, k) == entry_for(before, k),
{
    assert(after.entries[before.entries.len() as int] == e);
    assert forall|k: u64|
        k != e.index && !(index_map(before.index).contains_key(k) && index_map(before.index)[k]
            == before.entries.len()) implies #[trigger] entry_for(after, k) == entry_for(before, k) by {
        let m0 = index_map(before.index);
        if m0.contains_key(k) && m0[k] < before.entries.len() {
            assert(after.entries[m0[k] as int] == before.entries[m0[k] as int]);
        }
    }
}

/// Law: after `truncate_after(index)`, no log index from `index` on names an
/// entry, a smaller log index names either nothing or what it named before,
/// and the entries left are those before the first of index `index` or
/// more; in a log whose indices rise, exactly those with a smaller index.
pub proof fn lemma_truncate_forgets(before: WalState, after: WalState, index: u64)
    requires
        truncated_below(before.entries, after.entries, index),
        index_map(after.index) == index_map(before.index).restrict(Set::new(|k: u64| k < index)),
    ensures
        forall|k: u64| k >= index ==> #[trigger] entry_for(after, k) is None,
        forall|k: u64|
            k < index && #[trigger] entry_for(after, k) is Some ==> entry_for(after, k) == entry_for(
                before,
                k,
            ),
        (forall|i: int, j: int|
            0 <= i < j < before.entries.len() ==> (#[trigger] before.entries[i]).index
                < (#[trigger] before.entries[j]).index) ==> after.entries == before.entries.filter(
            |e: LogEntryModel| e.index < index,
        ),
        index == 0 ==> after.entries.len() == 0,
{
    assert forall|k: u64| k >= index implies #[trigger] entry_for(after, k) is None by {
        assert(!Set::new(|k: u64| k < index).contains(k));
    }
    assert forall|k: u64| k < index && #[trigger] entry_for(after, k) is Some implies entry_for(
        after,
        k,
    ) == entry_for(before, k) by {
        assert(Set::new(|k: u64| k < index).contains(k));
        let m = index_map(after.index);
        assert(before.entries[m[k] as int] == after.entries[m[k] as int]);
    }
    if forall|i: int, j: int|
        0 <= i < j < before.entries.len() ==> (#[trigger] before.entries[i]).index
            < (#[trigger] before.entries[j]).index {
        assert forall|j: int| 0 <= j < after.entries.len() implies (#[trigger] before.entries[j]).index
            < index by {
            assert(after.entries[j] == before.entries[j]);
        }
        lemma_filter_below(before.entries, after.entries.len() as int, index);
    }
    if index == 0 && after.entries.len() > 0 {
        assert(after.entries[0].index < 0);
    }
}

/// In a sequence of rising log indices whose first `n` are below `index`
/// and the rest are not, the filter of those below `index` is the first `n`.
proof fn lemma_filter_below(es: Seq<LogEntryModel>, n: int, index: u64)
    requires
        0 <= n <= es.len(),
        forall|i: int, j: int|
            0 <= i < j < es.len() ==> (#[trigger] es[i]).index < (#[trigger] es[j]).index,
        forall|j: int| 0 <= j < n ==> (#[trigger] es[j]).index < index,
        n < es.len() ==> es[n].index >= index,
    ensures
        es.subrange(0, n) == es.filter(|e: LogEntryModel| e.index < index),
    decreases es.len(),
{
    reveal(Seq::filter);
    if es.len() == 0 {
        assert(es.subrange(0, n) =~= es.filter(|e: LogEntryModel| e.index < index));
    } else if n == es.len() {
        let init = es.drop_last();
        lemma_filter_below(init, n - 1, index);
        assert(es.subrange(0, n) =~= init.subrange(0, n - 1).push(es.last()));
    } else {
        let init = es.drop_last();
        if n < init.len() {
            assert(init[n] == es[n]);
            assert(es.last().index >= index) by {
                assert(es[n].index < es[es.len() - 1].index);
            }
        } else {
            assert(es.last() == es[n]);
        }
        lemma_filter_below(init, n, index);
        assert(es.subrange(0, n) =~= init.subrange(0, n));
    }
}

} // verus!
