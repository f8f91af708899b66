//! An append-only write-ahead log with per-key segment files.
//!
//! Records are framed with signatures and length fields, grouped into
//! segment files by key, rotated on a time-based policy, and recovered
//! by scanning segment file names. The directory of segment files is
//! modelled as a value, so every step of the engine is verified; a host
//! program mirrors that model onto a real file system.

pub mod codec;
pub mod errors;
pub mod filename;
pub mod hashing;
pub mod model;
pub mod options;
pub mod storage;
pub mod trusted;
pub mod wal;

pub use errors::WalError;
pub use options::WalOptions;
pub use storage::Directory;
pub use wal::{EntryRef, Wal, MAX_HEADER_SIZE};
