//! Framing of log entries on disk.
//!
//! Each entry is written as a frame:
//!
//! ```text
//! | length: u32 LE | crc32: u32 LE | payload: [u8; length] |
//! ```
//!
//! where the payload is the entry's layout (see [`crate::wal::entry`]) and
//! the checksum is the CRC-32 of the payload.

use crate::error::VajraError;
use crate::le_bytes::{get_le_u32, le_u32, lemma_read_le_u32, push_le_u32, read_le_u32};
use crate::text::{hex, push_padded_digits, zero_pad};
use crate::wal::entry::{
    decode_entry, enc_entry, encode_entry, lemma_entry_prefix_free, parses_at, wf_entry,
    LogEntry, LogEntryModel,
};
use vstd::prelude::*;

verus! {

/// Size of the frame header in bytes (length + CRC32).
pub const HEADER_SIZE: usize = 8;

/// One shift of the CRC-32 (IEEE, reflected) register: the polynomial
/// `0xEDB88320` is folded in when the bit shifted out is set.
pub open spec fn crc_shift(c: u32) -> u32 {
    if c & 1u32 == 1u32 {
        (c >> 1u32) ^ 0xEDB8_8320u32
    } else {
        c >> 1u32
    }
}

/// The register after taking in byte `b`: the byte is folded into the low
/// bits and the register shifted eight times.
pub open spec fn crc_byte(c: u32, b: u8) -> u32 {
    let x = c ^ (b as u32);
    crc_shift(crc_shift(crc_shift(crc_shift(crc_shift(crc_shift(crc_shift(crc_shift(x))))))))
}

/// The register after taking in `bytes`, starting from all ones.
pub open spec fn crc_register(bytes: Seq<u8>) -> u32
    decreases bytes.len(),
{
    if bytes.len() == 0 {
        0xFFFF_FFFFu32
    } else {
        crc_byte(crc_register(bytes.drop_last()), bytes.last())
    }
}

/// The CRC-32 (IEEE) checksum of `bytes`: the final register, inverted.
#[verifier::opaque]
pub open spec fn crc32_of(bytes: Seq<u8>) -> u32 {
    !crc_register(bytes)
}

fn shift(c: u32) -> (r: u32)
    ensures
        r == crc_shift(c),
{
    if c & 1u32 == 1u32 {
        (c >> 1u32) ^ 0xEDB8_8320u32
    } else {
        c >> 1u32
    }
}

/// The CRC-32 (IEEE) checksum of `bytes`, bit by bit.
pub fn crc32(bytes: &[u8]) -> (r: u32)
    ensures
        r == crc32_of(bytes@),
{
    let mut c: u32 = 0xFFFF_FFFFu32;
    let mut i: usize = 0;
    while i < bytes.len()
        invariant
            i <= bytes@.len(),
            c == crc_register(bytes@.subrange(0, i as int)),
        decreases bytes.len() - i,
    {
        let x = c ^ (bytes[i] as u32);
        c = shift(shift(shift(shift(shift(shift(shift(shift(x))))))));
        proof {
            let s = bytes@.subrange(0, i + 1);
            assert(s.drop_last() =~= bytes@.subrange(0, i as int));
            assert(s.last() == bytes@[i as int]);
        }
        i = i + 1;
    }
    assert(bytes@.subrange(0, bytes@.len() as int) =~= bytes@);
    proof {
        reveal(crc32_of);
    }
    !c
}

/// Calls `std::io::Error::new` with `ErrorKind::UnexpectedEof` and the text
/// a short `read_exact` reports. Nothing is claimed of the value.
#[verifier::external_body]
fn unexpected_eof() -> std::io::Error {
    std::io::Error::new(std::io::ErrorKind::UnexpectedEof, "failed to fill whole buffer")
}

/// The frame that holds `payload`.
pub open spec fn frame_of(payload: Seq<u8>) -> Seq<u8> {
    le_u32(payload.len() as u32) + le_u32(crc32_of(payload)) + payload
}

/// The frame that holds entry `e`.
pub open spec fn entry_frame(e: LogEntryModel) -> Seq<u8> {
    frame_of(enc_entry(e))
}

/// The frames of a sequence of entries, one after another.
pub open spec fn entry_frames(es: Seq<LogEntryModel>) -> Seq<u8>
    decreases es.len(),
{
    if es.len() == 0 {
        Seq::empty()
    } else {
        entry_frames(es.drop_last()) + entry_frame(es.last())
    }
}

/// The entry held by a valid frame at `p`, and the position after the frame.
///
/// A frame is valid when its header and payload lie within `b`, the payload's
/// CRC-32 equals the stored checksum and the payload begins with the layout
/// of an entry.
pub open spec fn frame_at(b: Seq<u8>, p: int) -> Option<(LogEntryModel, int)> {
    if p < 0 || p + 8 > b.len() {
        None
    } else {
        let end = p + 8 + read_le_u32(b, p);
        if end > b.len() {
            None
        } else {
            let payload = b.subrange(p + 8, end);
            if crc32_of(payload) != read_le_u32(b, p + 4) {
                None
            } else if exists|e: LogEntryModel|
                wf_entry(e) && #[trigger] parses_at(payload, 0, enc_entry(e)) {
                Some(
                    (
                        choose|e: LogEntryModel|
                            wf_entry(e) && #[trigger] parses_at(payload, 0, enc_entry(e)),
                        end,
                    ),
                )
            } else {
                None
            }
        }
    }
}

/// Reading frames from `p` until no byte is left or a frame is not valid
/// (a torn frame, even a header of fewer than 8 bytes, is not valid): the
/// entries read, the position after the last valid frame, and the position
/// of the invalid frame, if reading stopped at one.
pub open spec fn scan_frames(b: Seq<u8>, p: int) -> (Seq<LogEntryModel>, int, Option<int>)
    decreases b.len() - p,
{
    if p < 0 || b.len() - p <= 0 {
        (Seq::empty(), p, None)
    } else {
        match frame_at(b, p) {
            None => (Seq::empty(), p, Some(p)),
            Some((e, next)) => {
                if next <= p {
                    (Seq::empty(), p, Some(p))
                } else {
                    let rest = scan_frames(b, next);
                    (seq![e] + rest.0, rest.1, rest.2)
                }
            },
        }
    }
}

/// The text of a checksum mismatch.
pub open spec fn crc_mismatch_reason(expected: u32, actual: u32) -> Seq<char> {
    "CRC mismatch: expected 0x"@ + zero_pad(hex(expected as nat), 8) + ", got 0x"@ + zero_pad(
        hex(actual as nat),
        8,
    )
}

fn crc_mismatch_text(expected: u32, actual: u32) -> (r: String)
    ensures
        r@ == crc_mismatch_reason(expected, actual),
{
    let mut s = String::from_str("CRC mismatch: expected 0x");
    push_padded_digits(&mut s, expected as u64, 16, 8);
    s.append(", got 0x");
    push_padded_digits(&mut s, actual as u64, 16, 8);
    s
}

/// Append the frame of `entry` to `out`, returning the number of bytes added.
pub fn write_entry(out: &mut Vec<u8>, entry: &LogEntry) -> (r: Result<usize, VajraError>)
    requires
        old(out)@.len() + enc_entry(entry.model()).len() + HEADER_SIZE <= usize::MAX,
    ensures
        final(out)@ == old(out)@ + entry_frame(entry.model()),
        r matches Ok(n) && n == HEADER_SIZE + enc_entry(entry.model()).len(),
{
    let payload = encode_entry(entry);
    let length = payload.len() as u32;
    let crc = crc32(payload.as_slice());
    push_le_u32(out, length);
    push_le_u32(out, crc);
    let ghost before = out@;
    let mut i: usize = 0;
    while i < payload.len()
        invariant
            i <= payload@.len(),
            out@ == before + payload@.subrange(0, i as int),
        decreases payload.len() - i,
    {
        out.push(payload[i]);
        i = i + 1;
        assert(out@ =~= before + payload@.subrange(0, i as int));
    }
    assert(payload@.subrange(0, payload@.len() as int) =~= payload@);
    assert(final(out)@ =~= old(out)@ + entry_frame(entry.model()));
    Ok(HEADER_SIZE + payload.len())
}

/// Read the frame at `pos`.
///
/// With no byte left this is a clean end (`Ok(None)`). Otherwise a valid
/// frame gives its entry and the position after it; a frame that runs past
/// the end of `b`, its header included, gives an I/O error, a checksum mismatch gives
/// `WalCorruption`, and a payload that is not an entry's layout gives a
/// serialization error.
pub fn read_entry(b: &[u8], pos: usize) -> (r: Result<Option<(LogEntry, usize)>, VajraError>)
    requires
        pos <= b@.len(),
    ensures
        b@.len() == pos ==> r matches Ok(None),
        b@.len() > pos ==> match frame_at(b@, pos as int) {
            Some((m, next)) => r matches Ok(Some((e, n))) && e.model() == m && n == next,
            None => r is Err,
        },
        r matches Err(err) ==> {
            let rem = b@.len() - pos;
            let end = pos + 8 + read_le_u32(b@, pos as int);
            &&& rem >= 1
            &&& (rem < 8 || end > b@.len()) ==> err is Io
            &&& (rem >= 8 && end <= b@.len()) ==> {
                let payload = b@.subrange(pos + 8, end);
                let stored = read_le_u32(b@, pos + 4);
                if crc32_of(payload) != stored {
                    err matches VajraError::WalCorruption { offset, reason } && offset == 0
                        && reason@ == crc_mismatch_reason(stored, crc32_of(payload))
                } else {
                    err is Serialization
                }
            }
        },
{
    let len = b.len();
    if len == pos {
        return Ok(None);
    }
    if len - pos < 4 {
        return Err(VajraError::Io { context: String::from_str("reading entry length"), source: unexpected_eof() });
    }
    if len - pos < 8 {
        return Err(VajraError::Io { context: String::from_str("reading entry CRC"), source: unexpected_eof() });
    }
    let length = get_le_u32(b, pos);
    let expected_crc = get_le_u32(b, pos + 4);
    if (length as usize) > len - pos - 8 {
        return Err(VajraError::Io { context: String::from_str("reading entry payload"), source: unexpected_eof() });
    }
    let end = pos + 8 + length as usize;
    let payload = vstd::slice::slice_subrange(b, pos + 8, end);
    let actual_crc = crc32(payload);
    if actual_crc != expected_crc {
        let reason = crc_mismatch_text(expected_crc, actual_crc);
        return Err(VajraError::WalCorruption { offset: 0, reason });
    }
    match decode_entry(payload) {
        None => Err(VajraError::Serialization {
            context: String::from_str("deserializing log entry"),
            message: String::from_str("payload is not the layout of a log entry"),
        }),
        Some(e) => {
            proof {
                let m = e.model();
                assert(wf_entry(m) && parses_at(payload@, 0, enc_entry(m)));
                let c = choose|c: LogEntryModel|
                    wf_entry(c) && #[trigger] parses_at(payload@, 0, enc_entry(c));
                lemma_entry_prefix_free(payload@, 0, m, c);
            }
            Ok(Some((e, end)))
        },
    }
}

/// Result of reading all frames from a buffer.
pub struct ReadResult {
    /// Successfully read entries.
    pub entries: Vec<LogEntry>,
    /// Number of valid bytes (for truncation).
    pub valid_bytes: u64,
    /// Where reading stopped at an invalid frame (the tail should be truncated).
    pub truncate_at: Option<u64>,
}

/// The values of a sequence of entries.
pub open spec fn entries_model(es: Seq<LogEntry>) -> Seq<LogEntryModel> {
    es.map_values(|e: LogEntry| e.model())
}

/// Read every valid frame of `buffer`, stopping at the end or at the first
/// frame that is not valid.
pub fn read_all_entries(buffer: &[u8]) -> (r: ReadResult)
    ensures
        ({
            let s = scan_frames(buffer@, 0);
            &&& entries_model(r.entries@) == s.0
            &&& r.valid_bytes == s.1
            &&& match s.2 {
                Some(t) => r.truncate_at == Some(t as u64),
                None => r.truncate_at is None,
            }
        }),
{
    let mut entries: Vec<LogEntry> = Vec::new();
    let mut position: usize = 0;
    let len = buffer.len();
    let ghost total = scan_frames(buffer@, 0);
    while position < len
        invariant
            position <= len == buffer@.len(),
            total == scan_frames(buffer@, 0),
            ({
                let s = scan_frames(buffer@, position as int);
                &&& total.0 == entries_model(entries@) + s.0
                &&& total.1 == s.1
                &&& total.2 == s.2
            }),
        decreases len - position,
    {
        match read_entry(buffer, position) {
            Ok(Some((entry, next))) => {
                proof {
                    let s = scan_frames(buffer@, position as int);
                    let s2 = scan_frames(buffer@, next as int);
                    assert(entries_model(entries@.push(entry)) =~= entries_model(entries@).push(
                        entry.model(),
                    ));
                    assert(s.0 == seq![entry.model()] + s2.0);
                    assert(entries_model(entries@) + s.0 =~= entries_model(entries@).push(
                        entry.model(),
                    ) + s2.0);
                }
                entries.push(entry);
                position = next;
            },
            Ok(None) => {
                proof {
                    assert(entries_model(entries@) + Seq::<LogEntryModel>::empty() =~= entries_model(
                        entries@,
                    ));
                }
                return ReadResult { entries, valid_bytes: position as u64, truncate_at: None };
            },
            Err(_) => {
                proof {
                    assert(entries_model(entries@) + Seq::<LogEntryModel>::empty() =~= entries_model(
                        entries@,
                    ));
                }
                return ReadResult {
                    entries,
                    valid_bytes: position as u64,
                    truncate_at: Some(position as u64),
                };
            },
        }
    }
    proof {
        assert(entries_model(entries@) + Seq::<LogEntryModel>::empty() =~= entries_model(entries@));
    }
    ReadResult { entries, valid_bytes: position as u64, truncate_at: None }
}


// ---------------------------------------------------------------------------
// Laws of the frame format
// ---------------------------------------------------------------------------

/// Entries whose layout fits the frame's `u32` length field.
pub open spec fn frameable(e: LogEntryModel) -> bool {
    wf_entry(e) && enc_entry(e).len() <= u32::MAX
}

/// A frame read behind a prefix `x` is the frame read in the rest.
proof fn lemma_frame_at_shift(x: Seq<u8>, t: Seq<u8>, q: int)
    requires
        0 <= q,
    ensures
        frame_at(x + t, x.len() + q) == match frame_at(t, q) {
            Some((e, n)) => Some((e, n + x.len())),
            None => None,
        },
{
    let b = x + t;
    let p = x.len() + q;
    if q + 8 <= t.len() {
        assert(b[p] == t[q] && b[p + 1] == t[q + 1] && b[p + 2] == t[q + 2] && b[p + 3] == t[q + 3]);
        assert(b[p + 4] == t[q + 4] && b[p + 5] == t[q + 5] && b[p + 6] == t[q + 6] && b[p + 7]
            == t[q + 7]);
        assert(read_le_u32(b, p) == read_le_u32(t, q));
        assert(read_le_u32(b, p + 4) == read_le_u32(t, q + 4));
        let end = q + 8 + read_le_u32(t, q);
        if end <= t.len() {
            assert(b.subrange(p + 8, x.len() + end) =~= t.subrange(q + 8, end));
        }
    }
}

/// Reading frames behind a prefix `x` reads the frames of the rest.
proof fn lemma_scan_shift(x: Seq<u8>, t: Seq<u8>, q: int)
    requires
        0 <= q,
    ensures
        ({
            let s = scan_frames(t, q);
            let s2 = scan_frames(x + t, x.len() + q);
            &&& s2.0 == s.0
            &&& s2.1 == s.1 + x.len()
            &&& s2.2 == match s.2 {
                Some(k) => Some(k + x.len()),
                None => None,
            }
        }),
    decreases t.len() - q,
{
    lemma_frame_at_shift(x, t, q);
    if t.len() - q > 0 {
        match frame_at(t, q) {
            Some((e, n)) => {
                if n > q {
                    lemma_scan_shift(x, t, n);
                }
            },
            None => {},
        }
    }
}

/// The frame of an entry, with any bytes after it, reads back as the entry.
proof fn lemma_frame_of_entry(e: LogEntryModel, t: Seq<u8>)
    requires
        frameable(e),
    ensures
        frame_at(entry_frame(e) + t, 0) == Some((e, entry_frame(e).len() as int)),
{
    let payload = enc_entry(e);
    let b = entry_frame(e) + t;
    let h1 = le_u32(payload.len() as u32);
    let h2 = le_u32(crc32_of(payload));
    assert(b.subrange(0, 4) =~= h1);
    assert(b.subrange(4, 8) =~= h2);
    lemma_read_le_u32(b, 0, payload.len() as u32);
    lemma_read_le_u32(b, 4, crc32_of(payload));
    let end = 8 + payload.len() as int;
    assert(b.subrange(8, end) =~= payload);
    assert(parses_at(payload, 0, enc_entry(e))) by {
        assert(payload.subrange(0, payload.len() as int) =~= payload);
    }
    let c = choose|c: LogEntryModel| wf_entry(c) && #[trigger] parses_at(payload, 0, enc_entry(c));
    lemma_entry_prefix_free(payload, 0, e, c);
}

/// Reading from a frame of `e` followed by `t`: `e`, then what `t` reads as.
proof fn lemma_scan_after_frame(e: LogEntryModel, t: Seq<u8>)
    requires
        frameable(e),
    ensures
        ({
            let g = entry_frame(e);
            let s = scan_frames(t, 0);
            let s2 = scan_frames(g + t, 0);
            &&& s2.0 == seq![e] + s.0
            &&& s2.1 == s.1 + g.len()
            &&& s2.2 == match s.2 {
                Some(k) => Some(k + g.len()),
                None => None,
            }
        }),
{
    let g = entry_frame(e);
    lemma_frame_of_entry(e, t);
    lemma_scan_shift(g, t, 0);
    assert(g.len() >= 8);
    assert((g + t).len() - 0 > 0);
    assert(frame_at(g + t, 0) == Some((e, g.len() as int)));
    assert(scan_frames(g + t, 0) == {
        let rest = scan_frames(g + t, g.len() as int);
        (seq![e] + rest.0, rest.1, rest.2)
    });
}

/// Law: frames written for a sequence of entries, followed by any bytes
/// `t`, read back as those entries followed by whatever `t` reads as; the
/// valid length and the truncation point of `t` are shifted by the frames'
/// length.
#[verifier::spinoff_prover]
#[verifier::rlimit(40)]
pub proof fn lemma_read_back_frames(es: Seq<LogEntryModel>, t: Seq<u8>)
    requires
        forall|i: int| 0 <= i < es.len() ==> frameable(#[trigger] es[i]),
    ensures
        ({
            let f = entry_frames(es);
            let s = scan_frames(t, 0);
            let r = scan_frames(f + t, 0);
            &&& r.0 == es + s.0
            &&& r.1 == f.len() + s.1
            &&& r.2 == match s.2 {
                Some(k) => Some(k + f.len()),
                None => None,
            }
        }),
    decreases es.len(),
{
    if es.len() == 0 {
        assert(entry_frames(es) + t =~= t);
        assert(es + scan_frames(t, 0).0 =~= scan_frames(t, 0).0);
    } else {
        let init = es.drop_last();
        let e = es.last();
        assert forall|i: int| 0 <= i < init.len() implies frameable(#[trigger] init[i]) by {
            assert(init[i] == es[i]);
        }
        assert(frameable(es[es.len() - 1]));
        let g = entry_frame(e);
        let t2 = g + t;
        lemma_read_back_frames(init, t2);
        lemma_scan_after_frame(e, t);
        let f0 = entry_frames(init);
        assert(entry_frames(es) == f0 + g);
        assert(entry_frames(es) + t =~= f0 + t2);
        let s = scan_frames(t, 0);
        let s2 = scan_frames(t2, 0);
        let r = scan_frames(f0 + t2, 0);
        assert(r.0 == init + s2.0);
        assert(s2.0 == seq![e] + s.0);
        assert(r.1 == f0.len() + s2.1);
        assert(s2.1 == s.1 + g.len());
        assert(entry_frames(es).len() == f0.len() + g.len());
        assert(es + s.0 =~= init + (seq![e] + s.0));
    }
}

} // verus!
