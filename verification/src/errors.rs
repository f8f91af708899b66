//! Error type for all log operations.

use vstd::prelude::*;

verus! {

/// Error returned by log operations.
///
/// `Io` stands for a failed read or write: in the directory model it
/// is returned where a targeted read runs past the end of a segment
/// file, the same condition under which a file read would fail short.
#[derive(Debug)]
pub enum WalError {
    /// A read or write could not be completed.
    Io(String),
    /// The configuration options are invalid.
    InvalidConfig(String),
    /// No segment holds the requested entry.
    EntryNotFound(String),
    /// A signature check failed where a record was expected.
    CorruptedData(String),
    /// A record header exceeds the maximum size.
    HeaderTooLarge { size: usize, max: usize },
}

} // verus!
