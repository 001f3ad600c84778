//! WAL segments: how segment files are named, the bookkeeping of one
//! segment (its size, rotation and syncing), and rebuilding the log from the
//! contents of every segment.

use crate::config::SyncPolicy;
use crate::text::{
    collect_chars, decimal, lemma_parse_zero_padded, parse_u64_prefix, parse_u64_spec,
    push_padded_digits, zero_pad,
};
use crate::wal::entry::{LogEntry, LogEntryModel};
use crate::wal::frame::{
    entries_model, entry_frames, frameable, lemma_read_back_frames, read_all_entries, scan_frames,
};
use crate::wal::log::{index_map, positions, WalConfig, WriteAheadLog};
use vstd::prelude::*;

verus! {

// ---------------------------------------------------------------------------
// Segment file names
// ---------------------------------------------------------------------------

/// The file name of segment `sequence`: the sequence number in decimal,
/// zero-padded to 20 digits, followed by `.wal`.
pub open spec fn segment_name(sequence: u64) -> Seq<char> {
    zero_pad(decimal(sequence as nat), 20) + ".wal"@
}

/// The sequence number that a file name gives a segment: the name without
/// its `.wal` suffix, read as a decimal `u64`; none when the name lacks the
/// suffix or the rest is not a `u64`.
pub open spec fn segment_sequence_of(name: Seq<char>) -> Option<u64> {
    if name.len() >= 4 && name.subrange(name.len() - 4, name.len() as int) == ".wal"@ {
        parse_u64_spec(name.subrange(0, name.len() - 4))
    } else {
        None
    }
}

/// The file name of segment `sequence`.
pub fn segment_file_name(sequence: u64) -> (r: String)
    ensures
        r@ == segment_name(sequence),
{
    let mut s = String::new();
    push_padded_digits(&mut s, sequence, 10, 20);
    s.append(".wal");
    assert(s@ =~= segment_name(sequence));
    s
}

/// Parse a segment filename to extract its sequence number.
pub fn parse_segment_filename(filename: &str) -> (r: Option<u64>)
    ensures
        r == segment_sequence_of(filename@),
{
    proof {
        reveal_strlit(".wal");
    }
    let chars = collect_chars(filename);
    let n = chars.len();
    if n >= 4 && chars[n - 4] == '.' && chars[n - 3] == 'w' && chars[n - 2] == 'a' && chars[n - 1]
        == 'l' {
        assert(chars@.subrange(n - 4, n as int) =~= ".wal"@);
        parse_u64_prefix(&chars, n - 4)
    } else {
        proof {
            if n >= 4 {
                let t = filename@.subrange(n - 4, n as int);
                assert(t[0] == chars@[n - 4]);
                assert(t[1] == chars@[n - 3]);
                assert(t[2] == chars@[n - 2]);
                assert(t[3] == chars@[n - 1]);
                assert(t != ".wal"@);
            }
        }
        None
    }
}

/// Every segment's file name reads back as its sequence number.
pub proof fn lemma_segment_name_round_trip(sequence: u64)
    ensures
        segment_sequence_of(segment_name(sequence)) == Some(sequence),
{
    reveal_strlit(".wal");
    let digits = zero_pad(decimal(sequence as nat), 20);
    let name = segment_name(sequence);
    assert(name.subrange(name.len() - 4, name.len() as int) =~= ".wal"@);
    assert(name.subrange(0, name.len() - 4) =~= digits);
    lemma_parse_zero_padded(sequence, 20);
}

// ---------------------------------------------------------------------------
// Bookkeeping of one segment
// ---------------------------------------------------------------------------

/// The size, limit and sync progress of one segment file.
pub struct SegmentState {
    /// Segment sequence number.
    pub sequence: u64,
    /// Current file size in bytes.
    size: u64,
    /// Maximum segment size before rotation.
    max_size: u64,
    /// Sync policy.
    sync_policy: SyncPolicy,
    /// Number of entries written since last sync.
    entries_since_sync: usize,
}

/// The value of a [`SegmentState`].
pub struct SegmentModel {
    pub sequence: u64,
    pub size: u64,
    pub max_size: u64,
    pub sync_policy: SyncPolicy,
    pub entries_since_sync: usize,
}

impl View for SegmentState {
    type V = SegmentModel;

    closed spec fn view(&self) -> SegmentModel {
        SegmentModel {
            sequence: self.sequence,
            size: self.size,
            max_size: self.max_size,
            sync_policy: self.sync_policy,
            entries_since_sync: self.entries_since_sync,
        }
    }
}

/// After one more entry: the segment syncs at every entry under
/// `EveryEntry`, once `entries` entries have gathered under `Batched`, and
/// never under `OsDefault`.
pub open spec fn syncs_after(policy: SyncPolicy, pending: usize) -> bool {
    match policy {
        SyncPolicy::EveryEntry => true,
        SyncPolicy::Batched { entries, .. } => pending >= entries,
        SyncPolicy::OsDefault => false,
    }
}

impl SegmentState {
    /// A new, empty segment.
    pub fn created(sequence: u64, max_size: u64, sync_policy: SyncPolicy) -> (r: Self)
        ensures
            r@ == (SegmentModel { sequence, size: 0, max_size, sync_policy, entries_since_sync: 0 }),
    {
        SegmentState { sequence, size: 0, max_size, sync_policy, entries_since_sync: 0 }
    }

    /// An existing segment of `size` bytes, opened for appending.
    pub fn opened(sequence: u64, size: u64, max_size: u64, sync_policy: SyncPolicy) -> (r: Self)
        ensures
            r@ == (SegmentModel { sequence, size, max_size, sync_policy, entries_since_sync: 0 }),
    {
        SegmentState { sequence, size, max_size, sync_policy, entries_since_sync: 0 }
    }

    /// Get the current size of this segment.
    pub fn size(&self) -> (r: u64)
        ensures
            r == self@.size,
    {
        self.size
    }

    /// Check if this segment is full: its size has reached the limit.
    pub fn is_full(&self) -> (r: bool)
        ensures
            r == (self@.size >= self@.max_size),
    {
        self.size >= self.max_size
    }

    /// Record that `bytes` more bytes were appended as one entry, and say
    /// whether the segment must now be synced (the count of entries since
    /// the last sync then starts again from 0).
    pub fn record_append(&mut self, bytes: u64) -> (sync: bool)
        requires
            old(self)@.size + bytes <= u64::MAX,
            old(self)@.entries_since_sync < usize::MAX,
        ensures
            sync == syncs_after(old(self)@.sync_policy, (old(self)@.entries_since_sync + 1) as usize),
            final(self)@ == (SegmentModel {
                size: (old(self)@.size + bytes) as u64,
                entries_since_sync: if sync {
                    0
                } else {
                    (old(self)@.entries_since_sync + 1) as usize
                },
                ..old(self)@
            }),
    {
        self.size = self.size + bytes;
        self.entries_since_sync = self.entries_since_sync + 1;
        let sync = match self.sync_policy {
            SyncPolicy::EveryEntry => true,
            SyncPolicy::Batched { entries, .. } => self.entries_since_sync >= entries,
            SyncPolicy::OsDefault => false,
        };
        if sync {
            self.entries_since_sync = 0;
        }
        sync
    }

    /// Record that the file was truncated to `position` bytes.
    pub fn record_truncate(&mut self, position: u64)
        ensures
            final(self)@ == (SegmentModel { size: position, ..old(self)@ }),
    {
        self.size = position;
    }
}

// ---------------------------------------------------------------------------
// Recovery
// ---------------------------------------------------------------------------

/// The entries recovered from segments, given as sequence numbers and file
/// contents in order: the valid frames of each segment, segment after
/// segment.
pub open spec fn recovered_entries(segments: Seq<(u64, Seq<u8>)>) -> Seq<LogEntryModel>
    decreases segments.len(),
{
    if segments.len() == 0 {
        Seq::empty()
    } else {
        recovered_entries(segments.drop_last()) + scan_frames(segments.last().1, 0).0
    }
}

/// The segments whose tail holds an invalid frame, in order: each one's
/// sequence number and the position of that frame, where the file is to be
/// truncated.
pub open spec fn truncations(segments: Seq<(u64, Seq<u8>)>) -> Seq<(u64, u64)>
    decreases segments.len(),
{
    if segments.len() == 0 {
        Seq::empty()
    } else {
        let rest = truncations(segments.drop_last());
        match scan_frames(segments.last().1, 0).2 {
            Some(t) => rest.push((segments.last().0, t as u64)),
            None => rest,
        }
    }
}

/// The sequence number for the next segment: one past the last segment's,
/// or 1 when there is none.
pub open spec fn next_sequence_after(segments: Seq<(u64, Seq<u8>)>) -> u64 {
    if segments.len() == 0 {
        1
    } else {
        (segments.last().0 + 1) as u64
    }
}

/// The sequence numbers and contents of segments.
pub open spec fn segments_model(segments: Seq<(u64, Vec<u8>)>) -> Seq<(u64, Seq<u8>)> {
    segments.map_values(|p: (u64, Vec<u8>)| (p.0, p.1@))
}

/// Rebuild the log from the contents of its segments, given in sequence
/// order: the valid entries of every segment, in order, and the segments
/// whose corrupt tail is to be truncated, with the position to truncate at.
pub fn recover(config: WalConfig, segments: Vec<(u64, Vec<u8>)>) -> (r: (WriteAheadLog, Vec<(u64, u64)>))
    requires
        segments@.len() > 0 ==> segments@.last().0 < u64::MAX,
    ensures
        r.0.wf(),
        r.0@.entries == recovered_entries(segments_model(segments@)),
        index_map(r.0@.index) == positions(r.0@.entries),
        r.0@.unpersisted == Seq::<LogEntryModel>::empty(),
        r.0@.next_sequence == next_sequence_after(segments_model(segments@)),
        r.1@ == truncations(segments_model(segments@)),
{
    let ghost ss = segments_model(segments@);
    let mut all: Vec<LogEntry> = Vec::new();
    let mut cuts: Vec<(u64, u64)> = Vec::new();
    let mut i: usize = 0;
    while i < segments.len()
        invariant
            i <= segments@.len(),
            ss == segments_model(segments@),
            entries_model(all@) == recovered_entries(ss.subrange(0, i as int)),
            cuts@ == truncations(ss.subrange(0, i as int)),
        decreases segments.len() - i,
    {
        let ghost before = all@;
        let result = read_all_entries(segments[i].1.as_slice());
        proof {
            let sub = ss.subrange(0, i + 1);
            assert(sub.drop_last() =~= ss.subrange(0, i as int));
            assert(sub.last() == ss[i as int]);
        }
        let mut k: usize = 0;
        while k < result.entries.len()
            invariant
                k <= result.entries@.len(),
                entries_model(all@) == entries_model(before) + entries_model(
                    result.entries@.subrange(0, k as int),
                ),
            decreases result.entries.len() - k,
        {
            let ghost prev = all@;
            all.push(result.entries[k].clone());
            proof {
                assert(entries_model(all@) =~= entries_model(prev).push(result.entries@[k as int].model()));
                assert(entries_model(result.entries@.subrange(0, k + 1)) =~= entries_model(
                    result.entries@.subrange(0, k as int),
                ).push(result.entries@[k as int].model()));
                assert(entries_model(before) + entries_model(result.entries@.subrange(0, k + 1))
                    =~= (entries_model(before) + entries_model(result.entries@.subrange(0, k as int))).push(
                    result.entries@[k as int].model(),
                ));
            }
            k = k + 1;
        }
        assert(result.entries@.subrange(0, result.entries@.len() as int) =~= result.entries@);
        match result.truncate_at {
            Some(t) => {
                cuts.push((segments[i].0, t));
            },
            None => {},
        }
        i = i + 1;
    }
    assert(ss.subrange(0, segments@.len() as int) =~= ss);
    let next = if segments.len() == 0 {
        1
    } else {
        segments[segments.len() - 1].0 + 1
    };
    let wal = WriteAheadLog::recovered(config, all, next);
    (wal, cuts)
}

/// The entries of `chunks`, one chunk after another.
pub open spec fn concat_chunks(chunks: Seq<Seq<LogEntryModel>>) -> Seq<LogEntryModel>
    decreases chunks.len(),
{
    if chunks.len() == 0 {
        Seq::empty()
    } else {
        concat_chunks(chunks.drop_last()) + chunks.last()
    }
}

/// Law (no acknowledged write is lost): when every segment holds exactly
/// the frames of a chunk of entries, as writing the log segment by segment
/// leaves them, recovery gives back every entry of every chunk, in order,
/// and cuts no segment.
pub proof fn lemma_recover_what_was_written(
    segments: Seq<(u64, Seq<u8>)>,
    chunks: Seq<Seq<LogEntryModel>>,
)
    requires
        segments.len() == chunks.len(),
        forall|i: int| 0 <= i < segments.len() ==> (#[trigger] segments[i]).1 == entry_frames(chunks[i]),
        forall|i: int, j: int|
            0 <= i < chunks.len() && 0 <= j < chunks[i].len() ==> frameable(#[trigger] chunks[i][j]),
    ensures
        recovered_entries(segments) == concat_chunks(chunks),
        truncations(segments) == Seq::<(u64, u64)>::empty(),
    decreases segments.len(),
{
    if segments.len() > 0 {
        let n = segments.len() - 1;
        let s0 = segments.drop_last();
        let c0 = chunks.drop_last();
        assert forall|i: int| 0 <= i < s0.len() implies (#[trigger] s0[i]).1 == entry_frames(c0[i]) by {
            assert(s0[i] == segments[i] && c0[i] == chunks[i]);
        }
        assert forall|i: int, j: int|
            0 <= i < c0.len() && 0 <= j < c0[i].len() implies frameable(#[trigger] c0[i][j]) by {
            assert(c0[i] == chunks[i]);
        }
        lemma_recover_what_was_written(s0, c0);
        let es = chunks[n];
        assert forall|j: int| 0 <= j < es.len() implies frameable(#[trigger] es[j]) by {
            assert(chunks[n][j] == es[j]);
        }
        lemma_read_back_frames(es, Seq::empty());
        assert(entry_frames(es) + Seq::<u8>::empty() =~= entry_frames(es));
        assert(segments.last().1 == entry_frames(es));
        let sc = scan_frames(Seq::<u8>::empty(), 0);
        assert(sc.0 == Seq::<LogEntryModel>::empty());
        assert(es + sc.0 =~= es);
    }
}

} // verus!
