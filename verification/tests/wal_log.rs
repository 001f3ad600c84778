use std::path::PathBuf;
use vajra::config::SyncPolicy;
use vajra::error::VajraError;
use vajra::wal::entry::{decode_entry, encode_entry, Command, LogEntry};
use vajra::wal::frame::{crc32, read_all_entries, read_entry, write_entry, HEADER_SIZE};
use vajra::wal::log::{WalConfig, WriteAheadLog};
use vajra::wal::segment::{
    parse_segment_filename, recover, segment_file_name, SegmentState,
};

fn test_config(segment_size: u64) -> WalConfig {
    WalConfig {
        dir: PathBuf::from("data/wal"),
        segment_size,
        sync_policy: SyncPolicy::EveryEntry,
    }
}

fn bits(v: &[f32]) -> Vec<u32> {
    v.iter().map(|x| x.to_bits()).collect()
}

/// Frames of the given entries, as a segment file holds them.
fn frames(entries: &[LogEntry]) -> Vec<u8> {
    let mut buffer = Vec::new();
    for e in entries {
        write_entry(&mut buffer, e).unwrap();
    }
    buffer
}

#[test]
fn test_entry_serialization_roundtrip() {
    let entry = LogEntry::new(
        1,
        1,
        Command::Insert { id: 42, vector: bits(&[1.0, 2.0, 3.0]), metadata: None },
    );
    let bytes = entry.to_bytes().unwrap();
    let recovered = LogEntry::from_bytes(&bytes).unwrap();
    assert_eq!(entry, recovered);
}

#[test]
fn entry_layout_matches_bincode() {
    let noop = LogEntry::new(1, 2, Command::Noop);
    assert_eq!(noop.to_bytes().unwrap(), bincode::serialize(&(1u64, 2u64, 3u32)).unwrap());
    let delete = LogEntry::new(5, 10, Command::Delete { id: 123 });
    assert_eq!(
        delete.to_bytes().unwrap(),
        bincode::serialize(&(5u64, 10u64, 1u32, 123u64)).unwrap()
    );
    let insert = LogEntry::new(
        1,
        1,
        Command::Insert { id: 42, vector: bits(&[1.0, 2.5]), metadata: Some(vec![7, 8]) },
    );
    assert_eq!(
        insert.to_bytes().unwrap(),
        bincode::serialize(&(1u64, 1u64, 0u32, 42u64, vec![1.0f32, 2.5f32], Some(vec![7u8, 8u8])))
            .unwrap()
    );
    let batch = LogEntry::new(
        3,
        4,
        Command::Batch(vec![Command::Delete { id: 9 }, Command::Noop]),
    );
    assert_eq!(
        batch.to_bytes().unwrap(),
        bincode::serialize(&(3u64, 4u64, 2u32, 2u64, 1u32, 9u64, 3u32)).unwrap()
    );
}

#[test]
fn from_bytes_rejects_what_is_no_entry() {
    match LogEntry::from_bytes(&[1, 2, 3]) {
        Err(VajraError::Serialization { context, .. }) => {
            assert_eq!(context, "deserializing log entry")
        }
        _ => panic!("expected a serialization error"),
    }
    // an unknown command tag
    let mut bytes = LogEntry::new(1, 1, Command::Noop).to_bytes().unwrap();
    bytes[16] = 9;
    assert!(LogEntry::from_bytes(&bytes).is_err());
    // an option tag that is neither 0 nor 1
    let mut insert = LogEntry::new(1, 1, Command::Insert { id: 1, vector: vec![], metadata: None })
        .to_bytes()
        .unwrap();
    let last = insert.len() - 1;
    insert[last] = 2;
    assert!(decode_entry(&insert).is_none());
    // bytes after an entry are ignored
    let mut longer = encode_entry(&LogEntry::new(2, 3, Command::Noop));
    longer.extend_from_slice(&[0xAA, 0xBB]);
    assert_eq!(LogEntry::from_bytes(&longer).unwrap(), LogEntry::new(2, 3, Command::Noop));
}

#[test]
fn test_write_and_read_entry() {
    let entry = LogEntry::new(5, 10, Command::Delete { id: 123 });
    let mut buffer = Vec::new();
    write_entry(&mut buffer, &entry).unwrap();
    let (recovered, next) = read_entry(&buffer, 0).unwrap().unwrap();
    assert_eq!(entry, recovered);
    assert_eq!(next, buffer.len());
}

#[test]
fn test_crc_validation_detects_corruption() {
    let entry = LogEntry::new(1, 1, Command::Noop);
    let mut buffer = Vec::new();
    write_entry(&mut buffer, &entry).unwrap();
    let last_idx = buffer.len() - 1;
    buffer[last_idx] ^= 0xFF;
    let result = read_entry(&buffer, 0);
    assert!(matches!(result, Err(VajraError::WalCorruption { .. })));
}

#[test]
fn test_read_entry_at_eof() {
    let buffer: Vec<u8> = Vec::new();
    let result = read_entry(&buffer, 0).unwrap();
    assert!(result.is_none());
}

#[test]
fn truncated_frame_is_an_io_error() {
    let mut buffer = Vec::new();
    write_entry(&mut buffer, &LogEntry::new(1, 1, Command::Noop)).unwrap();
    buffer.truncate(buffer.len() - 2);
    assert!(matches!(read_entry(&buffer, 0), Err(VajraError::Io { .. })));
}

#[test]
fn frame_checksum_is_crc32() {
    let entry = LogEntry::new(7, 8, Command::Delete { id: 1 });
    let mut buffer = Vec::new();
    let n = write_entry(&mut buffer, &entry).unwrap();
    assert_eq!(n, buffer.len());
    let payload = &buffer[HEADER_SIZE..];
    let stored = u32::from_le_bytes([buffer[4], buffer[5], buffer[6], buffer[7]]);
    assert_eq!(stored, crc32fast::hash(payload));
    assert_eq!(payload, &entry.to_bytes().unwrap()[..]);
}

#[test]
fn test_corrupt_tail_recovery() {
    let mut buffer = Vec::new();
    for i in 1..=3 {
        let entry = LogEntry::new(1, i, Command::Noop);
        write_entry(&mut buffer, &entry).unwrap();
    }
    let valid_length = buffer.len();
    buffer.extend_from_slice(&[0xDE, 0xAD, 0xBE, 0xEF]);
    let result = read_all_entries(&buffer);
    assert_eq!(result.entries.len(), 3);
    assert_eq!(result.truncate_at, Some(valid_length as u64));
    for (i, entry) in result.entries.iter().enumerate() {
        assert_eq!(entry.index, (i + 1) as u64);
    }
}

#[test]
fn test_read_all_entries_clean() {
    let mut buffer = Vec::new();
    for i in 1..=5 {
        let entry = LogEntry::new(1, i, Command::Noop);
        write_entry(&mut buffer, &entry).unwrap();
    }
    let result = read_all_entries(&buffer);
    assert_eq!(result.entries.len(), 5);
    assert!(result.truncate_at.is_none());
    assert_eq!(result.valid_bytes, buffer.len() as u64);
}

#[test]
fn test_little_endian_encoding() {
    let entry = LogEntry::new(1, 1, Command::Noop);
    let mut buffer = Vec::new();
    write_entry(&mut buffer, &entry).unwrap();
    let length = u32::from_le_bytes([buffer[0], buffer[1], buffer[2], buffer[3]]);
    let payload = entry.to_bytes().unwrap();
    assert_eq!(length as usize, payload.len());
}

#[test]
fn read_back_what_was_written() {
    let entries = vec![
        LogEntry::new(1, 1, Command::Noop),
        LogEntry::new(1, 2, Command::Insert { id: 5, vector: bits(&[0.5]), metadata: Some(vec![1]) }),
        LogEntry::new(2, 3, Command::Batch(vec![Command::Noop, Command::Delete { id: 5 }])),
    ];
    let buffer = frames(&entries);
    let result = read_all_entries(&buffer);
    assert_eq!(result.entries, entries);
    assert!(result.truncate_at.is_none());
    assert_eq!(result.valid_bytes, buffer.len() as u64);
}

#[test]
fn torn_header_is_cut() {
    let mut buffer = frames(&[LogEntry::new(1, 1, Command::Noop)]);
    let valid = buffer.len();
    buffer.extend_from_slice(&[0xDE, 0xAD]);
    let result = read_all_entries(&buffer);
    assert_eq!(result.entries.len(), 1);
    assert_eq!(result.valid_bytes, valid as u64);
    assert_eq!(result.truncate_at, Some(valid as u64));
    assert!(matches!(read_entry(&buffer, valid), Err(VajraError::Io { .. })));
    assert!(read_entry(&buffer, buffer.len()).unwrap().is_none());
}

#[test]
fn test_wal_create_empty() {
    let wal = WriteAheadLog::new(test_config(1024));
    assert!(wal.is_empty());
    assert_eq!(wal.last_index(), 0);
}

#[test]
fn test_wal_append_and_read() {
    let mut wal = WriteAheadLog::new(test_config(1024));
    for i in 1..=5 {
        wal.append(LogEntry::new(1, i, Command::Noop));
    }
    assert_eq!(wal.len(), 5);
    assert_eq!(wal.last_index(), 5);
    let entries = wal.entries();
    assert_eq!(entries[0].index, 1);
    assert_eq!(entries[4].index, 5);
}

#[test]
fn test_entries_from() {
    let mut wal = WriteAheadLog::new(test_config(1024));
    for i in 1..=10 {
        wal.append(LogEntry::new(1, i, Command::Noop));
    }
    let from_5 = wal.entries_from(5);
    assert_eq!(from_5.len(), 6);
    assert_eq!(from_5[0].index, 5);
}

#[test]
fn wal_lookups() {
    let mut wal = WriteAheadLog::new(test_config(1024));
    for i in 1..=6 {
        wal.append(LogEntry::new(i / 3 + 1, i, Command::Noop));
    }
    assert_eq!(wal.first_index(), 1);
    assert_eq!(wal.get_entry(4).unwrap().index, 4);
    assert!(wal.get_entry(7).is_none());
    assert_eq!(wal.term_at(3), Some(2));
    assert_eq!(wal.term_at(0), None);
    let range: Vec<u64> = wal.get_range(2, 4).iter().map(|e| e.index).collect();
    assert_eq!(range, vec![2, 3, 4]);
    assert_eq!(wal.last_entry().unwrap().index, 6);
    wal.truncate_after(4);
    assert_eq!(wal.len(), 3);
    assert_eq!(wal.last_index(), 3);
    assert!(wal.get_entry(4).is_none());
    assert!(wal.get_entry(5).is_none());
    assert_eq!(wal.get_entry(3).unwrap().index, 3);
    // what was appended waits to be stored, once
    assert_eq!(wal.take_unpersisted().len(), 6);
    assert!(wal.take_unpersisted().is_empty());
}

#[test]
fn truncate_from_zero_empties_the_log() {
    let mut wal = WriteAheadLog::new(test_config(1024));
    for i in 1..=3 {
        wal.append(LogEntry::new(1, i, Command::Noop));
    }
    wal.truncate_after(0);
    assert_eq!(wal.len(), 0);
    assert_eq!(wal.last_index(), 0);
    assert!(wal.get_entry(1).is_none());
    let mut other = WriteAheadLog::new(test_config(1024));
    for i in 1..=3 {
        other.append(LogEntry::new(1, i, Command::Noop));
    }
    other.truncate_after(9);
    assert_eq!(other.len(), 3);
    assert_eq!(other.get_entry(3).unwrap().index, 3);
}

#[test]
fn read_after_write_law() {
    let mut wal = WriteAheadLog::new(test_config(1024));
    wal.append(LogEntry::new(1, 10, Command::Noop));
    wal.append(LogEntry::new(1, 11, Command::Delete { id: 4 }));
    assert_eq!(wal.get_entry(11).unwrap(), LogEntry::new(1, 11, Command::Delete { id: 4 }));
    assert_eq!(wal.get_entry(10).unwrap(), LogEntry::new(1, 10, Command::Noop));
}

#[test]
fn test_wal_recovery() {
    let mut wal = WriteAheadLog::new(test_config(1024));
    for i in 1..=10 {
        wal.append(LogEntry::new(1, i, Command::Noop));
    }
    let segment = frames(&wal.take_unpersisted());
    let (recovered, cuts) = recover(test_config(1024), vec![(1, segment)]);
    assert_eq!(recovered.len(), 10);
    assert_eq!(recovered.last_index(), 10);
    assert!(cuts.is_empty());
}

#[test]
fn test_wal_corrupt_tail_recovery() {
    let mut wal = WriteAheadLog::new(test_config(1024));
    for i in 1..=3 {
        wal.append(LogEntry::new(1, i, Command::Noop));
    }
    let mut segment = frames(&wal.take_unpersisted());
    let valid = segment.len();
    segment.extend_from_slice(&[0xDE, 0xAD, 0xBE, 0xEF]);
    let (mut recovered, cuts) = recover(test_config(1024), vec![(1, segment)]);
    assert_eq!(recovered.len(), 3);
    assert_eq!(recovered.last_index(), 3);
    for (i, entry) in recovered.entries().iter().enumerate() {
        assert_eq!(entry.index, (i + 1) as u64);
    }
    assert_eq!(cuts, vec![(1, valid as u64)]);
    assert_eq!(recovered.take_next_sequence(), 2);
}

#[test]
fn test_wal_segment_rotation() {
    let config = test_config(100);
    let mut wal = WriteAheadLog::new(test_config(100));
    let mut segments: Vec<(SegmentState, Vec<u8>)> = Vec::new();
    for i in 1..=20 {
        let entry = LogEntry::new(
            1,
            i,
            Command::Insert { id: i, vector: bits(&[1.0, 2.0, 3.0]), metadata: None },
        );
        wal.append(entry);
        for e in wal.take_unpersisted() {
            if segments.last().map_or(true, |(s, _)| s.is_full()) {
                let seq = wal.take_next_sequence();
                segments.push((SegmentState::created(seq, config.segment_size, config.sync_policy), Vec::new()));
            }
            let (state, bytes) = segments.last_mut().unwrap();
            let n = write_entry(bytes, &e).unwrap();
            assert!(state.record_append(n as u64));
        }
    }
    assert!(segments.len() > 1, "Should have rotated to multiple segments");
    assert_eq!(wal.len(), 20);
    let contents: Vec<(u64, Vec<u8>)> =
        segments.into_iter().map(|(s, b)| (s.sequence, b)).collect();
    let last_seq = contents.last().unwrap().0;
    let (mut recovered, cuts) = recover(test_config(100), contents);
    assert_eq!(recovered.len(), 20);
    assert!(cuts.is_empty());
    assert_eq!(recovered.take_next_sequence(), last_seq + 1);
}

#[test]
fn segment_sync_policies() {
    let mut every = SegmentState::created(1, 1000, SyncPolicy::EveryEntry);
    assert!(every.record_append(10));
    assert_eq!(every.size(), 10);
    let mut batched =
        SegmentState::created(1, 1000, SyncPolicy::Batched { entries: 3, timeout_ms: 100 });
    assert!(!batched.record_append(1));
    assert!(!batched.record_append(1));
    assert!(batched.record_append(1));
    assert!(!batched.record_append(1));
    let mut os = SegmentState::opened(4, 50, 60, SyncPolicy::OsDefault);
    assert!(!os.is_full());
    assert!(!os.record_append(10));
    assert!(os.is_full());
    os.record_truncate(20);
    assert_eq!(os.size(), 20);
    assert!(!os.is_full());
}

#[test]
fn test_parse_segment_filename() {
    assert_eq!(parse_segment_filename("00000000000000000001.wal"), Some(1));
    assert_eq!(parse_segment_filename("00000000000000000123.wal"), Some(123));
    assert_eq!(parse_segment_filename("invalid.txt"), None);
    assert_eq!(parse_segment_filename("abc.wal"), None);
}

#[test]
fn segment_names_round_trip() {
    assert_eq!(segment_file_name(1), "00000000000000000001.wal");
    assert_eq!(segment_file_name(u64::MAX), "18446744073709551615.wal");
    for seq in [0u64, 7, 123, 99999, u64::MAX] {
        assert_eq!(parse_segment_filename(&segment_file_name(seq)), Some(seq));
        assert_eq!(segment_file_name(seq), format!("{:020}.wal", seq));
    }
    assert_eq!(parse_segment_filename(".wal"), None);
    assert_eq!(parse_segment_filename("5.wa"), None);
    assert_eq!(parse_segment_filename("+5.wal"), Some(5));
}

#[test]
fn checksum_matches_crc32fast() {
    assert_eq!(crc32(b"123456789"), 0xCBF4_3926);
    assert_eq!(crc32(&[]), 0);
    let data: Vec<u8> = (0..1000u32).map(|i| (i * 31 + 7) as u8).collect();
    assert_eq!(crc32(&data), crc32fast::hash(&data));
    assert_eq!(crc32(&data[..13]), crc32fast::hash(&data[..13]));
}
