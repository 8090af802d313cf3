//! Lock-free WAL over memory-mapped segments.

pub mod active;
pub mod format_laws;
pub mod history_laws;
pub mod mmap_segment_reader;
pub mod mmap_segment_writer;
pub mod rotation;
pub mod run_laws;
pub mod step_laws;
pub mod wal;
pub mod wal_laws;
