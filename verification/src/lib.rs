//! Reports of CPU, wall-clock and heap profiles, verified.
//!
//! The logic of a profiler stands here: counting stacks, tracking sampled heap
//! allocations, and writing reports as folded stacks, Speedscope documents, pprof
//! profiles and flame graphs. What touches the operating system is left to the caller,
//! which hands in plain values.

use vstd::prelude::*;

pub mod text;
pub mod timer;
pub mod error;
pub mod tally;
pub mod demangle;
pub mod frames;
pub mod resolve;
pub mod builder;
pub mod report;
pub mod folded;
pub mod json;
pub mod speedscope;
pub mod intern;
pub mod protos;
pub mod pprof;
pub mod flamegraph;
pub mod heap;
pub mod sampler;
pub mod heap_report;
pub mod balance;
pub mod history;
pub mod addr_validate;
pub mod laws;

pub use addr_validate::validate;
pub use builder::ReportBuilder;
pub use error::Error;
pub use frames::{Frames, Symbol};
pub use report::{Report, UnresolvedReport};
pub use timer::ClockType;

use builder::Collected;
use timer::{Duration, ReportTiming, Timestamp};

verus! {

/// The largest number of frames that is kept of a stack.
pub const MAX_DEPTH: usize = 128;

/// The largest length of a thread's name.
pub const MAX_THREAD_NAME: usize = 16;

/// The frequency of a profile that asks for no other, in samples per second.
pub const DEFAULT_FREQUENCY: i32 = 99;

/// A profile to collect.
#[derive(Clone, Copy, Debug, PartialEq, Eq, Structural)]
pub struct ProfileRequest {
    /// Samples per second.
    pub frequency: i32,
    /// The clock that drives the sampling.
    pub clock_type: ClockType,
    /// For how long to sample.
    pub duration: Duration,
}

/// Asks for a CPU profile at 99 Hz for the specified duration.
pub fn profile(duration: Duration) -> (r: ProfileRequest)
    ensures
        r == (ProfileRequest { frequency: 99, clock_type: ClockType::Cpu, duration }),
{
    profile_with_frequency(DEFAULT_FREQUENCY, duration)
}

/// Asks for a CPU profile with a custom frequency in Hz for the specified duration.
pub fn profile_with_frequency(frequency: i32, duration: Duration) -> (r: ProfileRequest)
    ensures
        r == (ProfileRequest { frequency, clock_type: ClockType::Cpu, duration }),
{
    ProfileRequest { frequency, clock_type: ClockType::Cpu, duration }
}

/// Asks for a real wall-clock profile at 99 Hz for the specified duration.
pub fn profile_wall(duration: Duration) -> (r: ProfileRequest)
    ensures
        r == (ProfileRequest { frequency: 99, clock_type: ClockType::Wall, duration }),
{
    ProfileRequest { frequency: DEFAULT_FREQUENCY, clock_type: ClockType::Wall, duration }
}

impl ProfileRequest {
    /// The timing of a report of this request.
    pub open spec fn spec_timing(self, start_time: Timestamp, elapsed: Duration) -> ReportTiming {
        ReportTiming {
            frequency: self.frequency,
            start_time,
            duration: elapsed,
            clock_type: self.clock_type,
        }
    }

    /// The timing of a report of what was collected for this request, from
    /// `start_time` on, over the time that went by.
    pub fn timing(&self, start_time: Timestamp, elapsed: Duration) -> (r: ReportTiming)
        ensures
            r == self.spec_timing(start_time, elapsed),
    {
        ReportTiming {
            frequency: self.frequency,
            start_time,
            duration: elapsed,
            clock_type: self.clock_type,
        }
    }

    /// A builder of the report of what was collected for this request, from
    /// `start_time` on, over the time that went by.
    pub fn report<P: Fn(Frames) -> Frames>(
        &self,
        profiler: Collected,
        start_time: Timestamp,
        elapsed: Duration,
        missed_samples: u64,
    ) -> (r: ReportBuilder<P>)
        ensures
            r == (ReportBuilder {
                frames_post_processor: None::<P>,
                profiler,
                timing: self.spec_timing(start_time, elapsed),
                missed_samples,
            }),
    {
        ReportBuilder::new(profiler, self.timing(start_time, elapsed), missed_samples)
    }
}

} // verus!
