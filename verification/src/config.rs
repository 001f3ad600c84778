//! Configuration of the consensus, storage and telemetry components, and the
//! consistency rules a node's configuration must satisfy.

use crate::error::VajraError;
use vstd::prelude::*;

verus! {

/// A filesystem path, carried through configuration.
#[verifier::external_type_specification]
#[verifier::external_body]
pub struct ExPathBuf(std::path::PathBuf);

/// The path that `std::path::PathBuf::from` builds from the text `s`.
pub uninterp spec fn path_of(s: Seq<char>) -> std::path::PathBuf;

/// Calls `std::path::PathBuf::from` on a string slice; the contract claims
/// only that the result is a function of the text.
#[verifier::external_body]
pub(crate) fn path_from(s: &str) -> (r: std::path::PathBuf)
    ensures
        r == path_of(s@),
{
    std::path::PathBuf::from(s)
}

/// The duration that `Duration::from_millis` builds from `ms` milliseconds.
pub uninterp spec fn millis_duration(ms: u64) -> core::time::Duration;

/// Calls `core::time::Duration::from_millis`; the contract claims only that
/// the result is a function of the millisecond count.
#[verifier::external_body]
pub(crate) fn duration_from_millis(ms: u64) -> (r: core::time::Duration)
    ensures
        r == millis_duration(ms),
{
    core::time::Duration::from_millis(ms)
}

/// Raft consensus protocol configuration.
#[derive(Debug, Clone, Copy, PartialEq, Eq, Structural)]
pub struct RaftConfig {
    /// Minimum election timeout in milliseconds.
    pub election_timeout_min_ms: u64,
    /// Maximum election timeout in milliseconds.
    pub election_timeout_max_ms: u64,
    /// Heartbeat interval in milliseconds.
    pub heartbeat_interval_ms: u64,
    /// Number of log entries before triggering a snapshot.
    pub snapshot_threshold: u64,
    /// Maximum number of entries to send in a single AppendEntries RPC.
    pub max_entries_per_append: usize,
    /// Enable the Pre-Vote extension.
    pub pre_vote_enabled: bool,
}

impl Default for RaftConfig {
    fn default() -> (r: Self)
        ensures
            r == (RaftConfig {
                election_timeout_min_ms: 150,
                election_timeout_max_ms: 300,
                heartbeat_interval_ms: 50,
                snapshot_threshold: 10_000,
                max_entries_per_append: 100,
                pre_vote_enabled: true,
            }),
    {
        RaftConfig {
            election_timeout_min_ms: 150,
            election_timeout_max_ms: 300,
            heartbeat_interval_ms: 50,
            snapshot_threshold: 10_000,
            max_entries_per_append: 100,
            pre_vote_enabled: true,
        }
    }
}

impl RaftConfig {
    /// The heartbeat interval as a Duration.
    pub fn heartbeat_interval(&self) -> (r: core::time::Duration)
        ensures
            r == millis_duration(self.heartbeat_interval_ms),
    {
        duration_from_millis(self.heartbeat_interval_ms)
    }

    /// The minimum election timeout as a Duration.
    pub fn election_timeout_min(&self) -> (r: core::time::Duration)
        ensures
            r == millis_duration(self.election_timeout_min_ms),
    {
        duration_from_millis(self.election_timeout_min_ms)
    }

    /// The maximum election timeout as a Duration.
    pub fn election_timeout_max(&self) -> (r: core::time::Duration)
        ensures
            r == millis_duration(self.election_timeout_max_ms),
    {
        duration_from_millis(self.election_timeout_max_ms)
    }
}

/// Policy for when to fsync WAL writes to disk.
#[derive(Debug, Clone, Copy, PartialEq, Eq, Structural)]
pub enum SyncPolicy {
    /// fsync after every entry.
    EveryEntry,
    /// fsync after `entries` entries or `timeout_ms` milliseconds.
    Batched { entries: usize, timeout_ms: u64 },
    /// Let the OS decide when to sync.
    OsDefault,
}

/// Storage and persistence configuration.
pub struct StorageConfig {
    /// Directory for WAL segments.
    pub wal_dir: std::path::PathBuf,
    /// Directory for snapshots.
    pub snapshot_dir: std::path::PathBuf,
    /// Maximum WAL segment size in bytes before rotation.
    pub segment_size_bytes: u64,
    /// fsync policy for WAL writes.
    pub sync_policy: SyncPolicy,
    /// Whether to use memory-mapped I/O for WAL.
    pub use_mmap: bool,
}

impl Default for StorageConfig {
    fn default() -> (r: Self)
        ensures
            r.wal_dir == path_of("./data/wal"@),
            r.snapshot_dir == path_of("./data/snapshots"@),
            r.segment_size_bytes == 64 * 1024 * 1024,
            r.sync_policy == (SyncPolicy::Batched { entries: 100, timeout_ms: 10 }),
            r.use_mmap,
    {
        StorageConfig {
            wal_dir: path_from("./data/wal"),
            snapshot_dir: path_from("./data/snapshots"),
            segment_size_bytes: 64 * 1024 * 1024,
            sync_policy: SyncPolicy::Batched { entries: 100, timeout_ms: 10 },
            use_mmap: true,
        }
    }
}

/// Telemetry configuration.
pub struct TelemetryConfig {
    /// Service name for tracing.
    pub service_name: String,
    /// OpenTelemetry collector endpoint (optional).
    pub otlp_endpoint: Option<String>,
    /// Log level filter.
    pub log_level: String,
    /// Whether to output logs as JSON.
    pub json_logs: bool,
}

impl Default for TelemetryConfig {
    fn default() -> (r: Self)
        ensures
            r.service_name@ == "vajra"@,
            r.otlp_endpoint is None,
            r.log_level@ == "info"@,
            r.json_logs,
    {
        TelemetryConfig {
            service_name: String::from_str("vajra"),
            otlp_endpoint: None,
            log_level: String::from_str("info"),
            json_logs: true,
        }
    }
}

/// The first consistency rule a node configuration breaks, as the message of
/// its configuration error; `None` when it breaks none.
pub open spec fn config_violation(
    dimensions: usize,
    max_vectors: usize,
    hnsw_m: usize,
    raft: RaftConfig,
) -> Option<Seq<char>> {
    if dimensions == 0 {
        Some("dimensions must be greater than 0"@)
    } else if max_vectors == 0 {
        Some("max_vectors must be greater than 0"@)
    } else if hnsw_m == 0 {
        Some("HNSW M must be greater than 0"@)
    } else if raft.election_timeout_min_ms >= raft.election_timeout_max_ms {
        Some("election_timeout_min_ms must be less than election_timeout_max_ms"@)
    } else if raft.heartbeat_interval_ms >= raft.election_timeout_min_ms {
        Some("heartbeat_interval_ms must be less than election_timeout_min_ms"@)
    } else if raft.heartbeat_interval_ms * 3 > raft.election_timeout_min_ms {
        Some("heartbeat_interval_ms must be at most a third of election_timeout_min_ms"@)
    } else {
        None
    }
}

/// Validate a node configuration: vector dimension, capacity and HNSW `M`
/// must be positive, the election timeout range must be non-empty, and the
/// heartbeat must be shorter than the shortest election timeout and at most
/// a third of it.
pub fn validate_settings(dimensions: usize, max_vectors: usize, hnsw_m: usize, raft: &RaftConfig) -> (r:
    Result<(), VajraError>)
    ensures
        match config_violation(dimensions, max_vectors, hnsw_m, *raft) {
            None => r is Ok,
            Some(msg) => r matches Err(VajraError::Configuration { message }) && message@ == msg,
        },
{
    if dimensions == 0 {
        return Err(
            VajraError::Configuration { message: String::from_str("dimensions must be greater than 0") },
        );
    }
    if max_vectors == 0 {
        return Err(
            VajraError::Configuration { message: String::from_str("max_vectors must be greater than 0") },
        );
    }
    if hnsw_m == 0 {
        return Err(
            VajraError::Configuration { message: String::from_str("HNSW M must be greater than 0") },
        );
    }
    if raft.election_timeout_min_ms >= raft.election_timeout_max_ms {
        return Err(
            VajraError::Configuration {
                message: String::from_str(
                    "election_timeout_min_ms must be less than election_timeout_max_ms",
                ),
            },
        );
    }
    if raft.heartbeat_interval_ms >= raft.election_timeout_min_ms {
        return Err(
            VajraError::Configuration {
                message: String::from_str(
                    "heartbeat_interval_ms must be less than election_timeout_min_ms",
                ),
            },
        );
    }
    let min_ms = raft.election_timeout_min_ms;
    let beat_ms = raft.heartbeat_interval_ms;
    assert(beat_ms * 3 > min_ms <==> beat_ms > min_ms / 3) by (nonlinear_arith);
    if beat_ms > min_ms / 3 {
        return Err(
            VajraError::Configuration {
                message: String::from_str(
                    "heartbeat_interval_ms must be at most a third of election_timeout_min_ms",
                ),
            },
        );
    }
    Ok(())
}

} // verus!
