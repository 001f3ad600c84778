//! Write-ahead log: entry layout, framing, segment bookkeeping and the
//! in-memory log.

pub mod entry;
pub mod frame;
pub mod log;
pub mod segment;
