//! Clocks, spans and points in time, as plain numbers.

use vstd::prelude::*;

verus! {

/// Nanoseconds in one second.
pub const NANOS_PER_SEC: u64 = 1_000_000_000;

/// The clock that drives the sampling.
#[derive(Clone, Copy, Debug, PartialEq, Eq, Structural)]
pub enum ClockType {
    /// Time that the process spends on a CPU.
    Cpu,
    /// Real time, waiting included.
    Wall,
}

/// A span of time.
#[derive(Clone, Copy, Debug, PartialEq, Eq, Structural)]
pub struct Duration {
    pub secs: u64,
    pub nanos: u32,
}

impl Duration {
    /// The length of the span in nanoseconds.
    pub open spec fn total_nanos(self) -> nat {
        (self.secs * NANOS_PER_SEC + self.nanos) as nat
    }

    pub fn from_secs(secs: u64) -> (r: Self)
        ensures
            r == (Duration { secs, nanos: 0 }),
    {
        Duration { secs, nanos: 0 }
    }

    pub fn from_millis(millis: u64) -> (r: Self)
        ensures
            r.total_nanos() == millis * 1_000_000,
            r.nanos < NANOS_PER_SEC,
    {
        Duration { secs: millis / 1000, nanos: (millis % 1000) as u32 * 1_000_000 }
    }

    pub fn as_nanos(&self) -> (r: u128)
        ensures
            r == self.total_nanos(),
    {
        self.secs as u128 * 1_000_000_000u128 + self.nanos as u128
    }
}

/// A point in time, in nanoseconds after (or, below zero, before) the Unix epoch.
#[derive(Clone, Copy, Debug, PartialEq, Eq, Structural)]
pub struct Timestamp {
    pub nanos: i128,
}

impl Timestamp {
    /// The Unix epoch.
    pub fn unix_epoch() -> (r: Self)
        ensures
            r == (Timestamp { nanos: 0 }),
    {
        Timestamp { nanos: 0 }
    }

    /// Nanoseconds since the Unix epoch; a point before it counts as the epoch.
    pub open spec fn since_epoch(self) -> nat {
        if self.nanos < 0 {
            0
        } else {
            self.nanos as nat
        }
    }

    /// Nanoseconds since the Unix epoch, 0 for a point before it, cut to 64 bits.
    pub fn epoch_nanos(&self) -> (r: i64)
        ensures
            r == self.since_epoch() as i64,
    {
        if self.nanos < 0 {
            0
        } else {
            #[verifier::truncate]
            let r: i64 = self.nanos as i64;
            r
        }
    }
}

/// Collection frequency, start time, duration and clock of a report.
#[derive(Clone, Copy, Debug, PartialEq, Eq, Structural)]
pub struct ReportTiming {
    /// Samples per second.
    pub frequency: i32,
    pub start_time: Timestamp,
    pub duration: Duration,
    pub clock_type: ClockType,
}

} // verus!
