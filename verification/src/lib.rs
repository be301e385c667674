//! An embedded key-value storage engine: an in-memory entry cache with an
//! expiration index, backed (in disk runtime) by an append-only record log
//! held as bytes.  Reading and writing the actual backing file is left to the
//! surrounding application; the engine computes, for every mutation, exactly
//! which bytes must be appended to or rewritten in the log, and can rebuild
//! its full state from the log bytes on startup.

pub mod clients;
pub mod codec;
pub mod config;
pub mod db;
pub mod error;
pub mod expiry;
pub mod laws;
pub mod state;

pub use clients::{BaseClient, QuickMemoryClient};
pub use codec::{Entry, EntryModel};
pub use config::{ClientConfig, DatabaseConfiguration, LogLevel, QuickKVConfig, RunTime,
    RuntTimeType, validate_database_file_path};
pub use db::{Database, DiskEffect};
pub use error::QuickKVError;
