//! Vajra: the verified core of a replicated vector database.
//!
//! The crate holds the logic of the system as verified code: identifiers,
//! errors and configuration, the write-ahead-log entry format and its
//! in-memory log, and the Raft consensus state machine.

pub mod apply;
pub mod clock;
pub mod config;
pub mod distance;
pub mod error;
pub mod hnsw;
pub mod id_mapper;
pub mod le_bytes;
pub mod raft;
pub mod server;
pub mod sorting;
pub mod telemetry;
pub mod text;
pub mod transport;
pub mod types;
pub mod wal;
