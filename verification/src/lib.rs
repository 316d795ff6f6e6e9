//! A log-structured, persistent key-value store with an in-memory index and
//! inline compaction.
//!
//! The storage engine is modeled over in-memory segment bytes: every mutation
//! appends an encoded command record to the active segment and records the
//! matching file-system effect in a journal, which a host drains and applies
//! to the real directory. Recovery replays segment bytes through the same
//! verified codec that wrote them.

pub mod cmd;
pub mod engine;
pub mod err;
pub mod codec;
pub mod index;
pub mod kv;
pub mod kv_client;
pub mod kv_server;
pub mod log;
pub mod message;
pub mod net;
pub mod paths;

pub use cmd::Command;
pub use err::KvError;
pub use engine::{EngineType, KvsEngine, Sled};
pub use kv::KvStore;
pub use kv_client::KvClient;
