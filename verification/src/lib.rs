//! mmbus: publish/subscribe over a shared-memory ring, with a write-ahead log behind it.

pub mod bus;
pub mod codec;
pub mod config;
pub mod error;
pub mod exporter;
pub mod logged_publisher;
pub mod logged_publisher_laws;
pub mod mapped_publisher;
pub mod mapped_publisher_laws;
pub mod mapped_resume_laws;
pub mod operation_laws;
pub mod producer_lock;
pub mod prometheus;
pub mod prometheus_laws;
pub mod publisher;
pub mod publisher_laws;
pub mod resume_laws;
pub mod ring;
pub mod ring_laws;
pub mod rows;
pub mod stats;
pub mod subscriber;
pub mod subscriber_laws;
pub mod subscription;
pub mod text;
pub mod text_laws;
pub mod waker;
pub mod wal;
