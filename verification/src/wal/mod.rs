//! Write-ahead log for durable replay.

pub mod checksum;
pub mod clock;
pub mod config;
pub mod flusher;
pub mod format_laws;
pub mod history_laws;
pub mod index;
pub mod reader;
pub mod record;
pub mod run_laws;
pub mod segment_reader;
pub mod segment_writer;
pub mod stats;
pub mod step_laws;
pub mod v2;
pub mod wal;
pub mod wal_laws;
