//! The fixed set of named candle timeframes.
use crate::period::bucket_of;
use vstd::prelude::*;

verus! {

#[derive(Debug, Clone, Copy, PartialEq, Eq, Structural, Hash)]
pub enum TimeFrame {
    M1,
    M5,
    M15,
    M30,
    H1,
    H4,
    D1,
    W1,
}

/// Length of a timeframe in milliseconds.
pub open spec fn tf_ms(t: TimeFrame) -> int {
    match t {
        TimeFrame::M1 => 60_000int,
        TimeFrame::M5 => 300_000int,
        TimeFrame::M15 => 900_000int,
        TimeFrame::M30 => 1_800_000int,
        TimeFrame::H1 => 3_600_000int,
        TimeFrame::H4 => 14_400_000int,
        TimeFrame::D1 => 86_400_000int,
        TimeFrame::W1 => 604_800_000int,
    }
}

impl TimeFrame {
    pub fn millis(&self) -> (r: i64)
        ensures
            r == tf_ms(*self),
            r > 0,
    {
        match self {
            TimeFrame::M1 => 60_000,
            TimeFrame::M5 => 5 * 60_000,
            TimeFrame::M15 => 15 * 60_000,
            TimeFrame::M30 => 30 * 60_000,
            TimeFrame::H1 => 60 * 60_000,
            TimeFrame::H4 => 4 * 60 * 60_000,
            TimeFrame::D1 => 24 * 60 * 60_000,
            TimeFrame::W1 => 7 * 24 * 60 * 60_000,
        }
    }

    /// Start of the timeframe bucket that holds `timestamp` (rounded down).
    pub fn align_timestamp(&self, timestamp: i64) -> (r: i64)
        requires
            bucket_of(timestamp as int, tf_ms(*self)) >= i64::MIN,
        ensures
            r == bucket_of(timestamp as int, tf_ms(*self)),
    {
        crate::period::Period::from_ms(self.millis()).bucket_start(timestamp)
    }

    /// Whether this timeframe is a whole multiple of `other`.
    pub fn is_multiple_of(&self, other: &TimeFrame) -> (r: bool)
        ensures
            r == (tf_ms(*self) % tf_ms(*other) == 0),
    {
        self.millis() % other.millis() == 0
    }

    /// How many `source` candles make up one candle of this timeframe (rounded down).
    pub fn ratio(&self, source: &TimeFrame) -> (r: usize)
        ensures
            r == tf_ms(*self) / tf_ms(*source),
    {
        (self.millis() / source.millis()) as usize
    }
}

} // verus!
