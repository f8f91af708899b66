//! Configuration options: retention window and rotation granularity.

use vstd::prelude::*;
use crate::errors::WalError;

verus! {

/// Default retention: one week, in seconds.
pub const DEFAULT_RETENTION_SECS: u64 = 604800;

/// Default number of segments per retention period.
pub const DEFAULT_SEGMENTS_PER_PERIOD: u32 = 10;

/// Configuration for a write-ahead log.
///
/// `entry_retention` is the number of seconds a record is retained
/// before its segment becomes eligible for compaction;
/// `segments_per_retention_period` fixes how many segments the
/// retention window is divided into, and thereby how often the active
/// segment of a key is rotated.
#[derive(Debug, Clone)]
pub struct WalOptions {
    /// Seconds for which entries are retained before expiration.
    pub entry_retention: u64,
    /// Number of segments per retention period.
    pub segments_per_retention_period: u32,
}

impl WalOptions {
    /// Both parameters must be positive.
    pub open spec fn valid(self) -> bool {
        self.entry_retention >= 1 && self.segments_per_retention_period >= 1
    }

    /// Seconds an active segment stays open before it expires:
    /// the retention window divided into equal parts, never below one.
    pub open spec fn spec_segment_duration(self) -> u64 {
        let d = self.entry_retention / (self.segments_per_retention_period as u64);
        if d == 0 {
            1u64
        } else {
            d
        }
    }

    /// Creates options with a custom retention duration, in seconds.
    pub fn with_retention(retention: u64) -> (r: Self)
        ensures
            r.entry_retention == retention,
            r.segments_per_retention_period == DEFAULT_SEGMENTS_PER_PERIOD,
    {
        WalOptions { entry_retention: retention, segments_per_retention_period: DEFAULT_SEGMENTS_PER_PERIOD }
    }

    /// Creates options with a custom segment count per retention period.
    pub fn with_segments_per_retention_period(segments: u32) -> (r: Self)
        ensures
            r.entry_retention == DEFAULT_RETENTION_SECS,
            r.segments_per_retention_period == segments,
    {
        WalOptions { entry_retention: DEFAULT_RETENTION_SECS, segments_per_retention_period: segments }
    }

    /// Sets the retention period, in seconds (chainable).
    pub fn retention(self, retention: u64) -> (r: Self)
        ensures
            r.entry_retention == retention,
            r.segments_per_retention_period == self.segments_per_retention_period,
    {
        WalOptions { entry_retention: retention, segments_per_retention_period: self.segments_per_retention_period }
    }

    /// Sets the number of segments per retention period (chainable).
    pub fn segments_per_retention_period(self, segments: u32) -> (r: Self)
        ensures
            r.entry_retention == self.entry_retention,
            r.segments_per_retention_period == segments,
    {
        WalOptions { entry_retention: self.entry_retention, segments_per_retention_period: segments }
    }

    /// Rejects a zero retention or a zero segment count.
    pub fn validate(&self) -> (r: Result<(), WalError>)
        ensures
            r is Ok <==> self.valid(),
            !self.valid() ==> (r matches Err(e) && e is InvalidConfig),
    {
        if self.entry_retention == 0 {
            return Err(WalError::InvalidConfig("entry_retention must be greater than 0".to_owned()));
        }
        if self.segments_per_retention_period == 0 {
            return Err(WalError::InvalidConfig(
                "segments_per_retention_period must be greater than 0".to_owned(),
            ));
        }
        Ok(())
    }

    /// The segment lifetime used by rotation, in seconds.
    pub fn segment_duration(&self) -> (r: u64)
        requires
            self.valid(),
        ensures
            r == self.spec_segment_duration(),
    {
        let d = self.entry_retention / (self.segments_per_retention_period as u64);
        if d == 0 {
            1
        } else {
            d
        }
    }
}

impl Default for WalOptions {
    /// One week of retention, ten segments per period.
    fn default() -> (r: Self)
        ensures
            r.entry_retention == DEFAULT_RETENTION_SECS,
            r.segments_per_retention_period == DEFAULT_SEGMENTS_PER_PERIOD,
            r.valid(),
    {
        WalOptions {
            entry_retention: DEFAULT_RETENTION_SECS,
            segments_per_retention_period: DEFAULT_SEGMENTS_PER_PERIOD,
        }
    }
}

} // verus!
