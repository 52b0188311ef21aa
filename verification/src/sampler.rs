//! Which allocations are sampled, and what the heap profile learns of them.

use std::alloc::System;

use vstd::prelude::*;

use crate::heap::{HeapState, DEFAULT_SAMPLE_RATE};
use crate::MAX_DEPTH;

verus! {

/// The system's default allocator.
#[verifier::external_type_specification]
pub struct ExSystem(std::alloc::System);

/// Whether heap profiling is on, and how often it samples.
#[derive(Clone, Copy, Debug, PartialEq, Eq, Structural)]
pub struct AllocControl {
    pub profiling: bool,
    /// The average sampling interval in bytes.
    pub sample_rate: usize,
}

impl Default for AllocControl {
    fn default() -> (r: Self)
        ensures
            r == (AllocControl { profiling: false, sample_rate: DEFAULT_SAMPLE_RATE }),
    {
        AllocControl { profiling: false, sample_rate: DEFAULT_SAMPLE_RATE }
    }
}

impl AllocControl {
    /// The bytes between two samples of a thread: the sampling interval, as far as the
    /// thread can count.
    pub open spec fn interval(self) -> isize {
        if self.sample_rate <= isize::MAX {
            self.sample_rate as isize
        } else {
            isize::MAX
        }
    }
}

/// Starts heap allocation profiling.
pub fn start(control: &mut AllocControl)
    ensures
        *final(control) == (AllocControl { profiling: true, ..*old(control) }),
{
    control.profiling = true;
}

/// Stops heap allocation profiling.
pub fn stop(control: &mut AllocControl)
    ensures
        *final(control) == (AllocControl { profiling: false, ..*old(control) }),
{
    control.profiling = false;
}

/// Whether heap profiling is currently active.
pub fn is_active(control: &AllocControl) -> (r: bool)
    ensures
        r == control.profiling,
{
    control.profiling
}

/// Resets all recorded heap profile data.
pub fn reset(state: &mut HeapState)
    requires
        old(state).wf(),
    ensures
        final(state).wf(),
        final(state)@ == crate::heap::empty_heap(),
{
    state.reset();
}

/// Sets the average sampling interval in bytes; 0 counts as 1.
pub fn set_sample_rate(control: &mut AllocControl, rate_bytes: usize)
    ensures
        final(control).profiling == old(control).profiling,
        final(control).sample_rate == (if rate_bytes == 0 {
            1
        } else {
            rate_bytes
        }),
{
    control.sample_rate = if rate_bytes == 0 {
        1
    } else {
        rate_bytes
    };
}

/// The current sampling interval in bytes.
pub fn sample_rate(control: &AllocControl) -> (r: usize)
    ensures
        r == control.sample_rate,
{
    control.sample_rate
}

/// What one thread knows of the sampling.
#[derive(Clone, Copy, Debug, PartialEq, Eq, Structural)]
pub struct ThreadState {
    /// Whether the thread is inside the profiler: its own allocations do not count.
    pub in_alloc: bool,
    /// The bytes to allocate until the next sample.
    pub bytes_left: isize,
}

impl ThreadState {
    pub fn new() -> (r: Self)
        ensures
            r == (ThreadState { in_alloc: false, bytes_left: 0 }),
    {
        ThreadState { in_alloc: false, bytes_left: 0 }
    }

    /// The bytes to allocate are never below zero.
    pub open spec fn wf(self) -> bool {
        self.bytes_left >= 0
    }

    /// Whether the thread's allocation at `ptr` counts at all.
    pub open spec fn counts(self, control: AllocControl, ptr: usize) -> bool {
        ptr != 0 && control.profiling && !self.in_alloc
    }

    /// Whether an allocation of `size` bytes is sampled.
    pub open spec fn samples(self, control: AllocControl, ptr: usize, size: usize) -> bool {
        self.counts(control, ptr) && self.bytes_left - size <= 0
    }

    /// The bytes to allocate until the next sample, after an allocation.
    pub open spec fn left_after(self, control: AllocControl, ptr: usize, size: usize) -> isize {
        if self.samples(control, ptr, size) {
            control.interval()
        } else if self.counts(control, ptr) {
            (self.bytes_left - size) as isize
        } else {
            self.bytes_left
        }
    }

    /// Whether an allocation of `size` bytes is sampled.
    pub fn will_sample(&self, control: &AllocControl, ptr: usize, size: usize) -> (r: bool)
        requires
            self.wf(),
        ensures
            r == self.samples(*control, ptr, size),
    {
        ptr != 0 && control.profiling && !self.in_alloc && self.bytes_left as usize <= size
    }

    /// Counts an allocation. Where it is to be sampled, the thread is inside the
    /// profiler until `leave`.
    pub fn enter_alloc(&mut self, control: &AllocControl, ptr: usize, size: usize) -> (r: bool)
        requires
            old(self).wf(),
        ensures
            final(self).wf(),
            r == old(self).samples(*control, ptr, size),
            final(self).bytes_left == old(self).left_after(*control, ptr, size),
            final(self).in_alloc == (old(self).in_alloc || r),
    {
        if self.will_sample(control, ptr, size) {
            self.in_alloc = true;
            self.bytes_left = if control.sample_rate <= isize::MAX as usize {
                control.sample_rate as isize
            } else {
                isize::MAX
            };
            true
        } else {
            if ptr != 0 && control.profiling && !self.in_alloc {
                self.bytes_left = self.bytes_left - size as isize;
            }
            false
        }
    }

    /// Enters the profiler for a freed or moved allocation, if that counts.
    pub fn enter(&mut self, control: &AllocControl) -> (r: bool)
        ensures
            r == (control.profiling && !old(self).in_alloc),
            final(self).bytes_left == old(self).bytes_left,
            final(self).in_alloc == (old(self).in_alloc || r),
    {
        if control.profiling && !self.in_alloc {
            self.in_alloc = true;
            true
        } else {
            false
        }
    }

    /// Leaves the profiler.
    pub fn leave(&mut self)
        ensures
            *final(self) == (ThreadState { in_alloc: false, ..*old(self) }),
    {
        self.in_alloc = false;
    }
}

/// Takes the address of one more frame; whether there is room for another.
pub fn take_address(ips: &mut Vec<usize>, ip: usize) -> (r: bool)
    ensures
        final(ips)@ == old(ips)@.push(ip),
        r == (final(ips)@.len() < MAX_DEPTH),
{
    ips.push(ip);
    ips.len() < MAX_DEPTH
}

/// Whether `ips` is a stack of the running program, as `backtrace::trace` has told it.
pub uninterp spec fn stack_told(ips: Seq<usize>) -> bool;

/// Calls `backtrace::trace`, which hands the frames of the calling thread, innermost
/// first, to a function until that function returns `false`. The addresses depend on
/// the running program, so nothing is said of them but that there are not too many.
#[verifier::external_body]
fn capture_stack() -> (ips: Vec<usize>)
    ensures
        stack_told(ips@),
        ips@.len() <= MAX_DEPTH,
{
    let mut ips: Vec<usize> = Vec::new();
    backtrace::trace(|frame| take_address(&mut ips, frame.ip() as usize));
    ips
}

/// Records a sampled allocation at `ptr`, made by the calling stack.
pub fn record_sample(state: &mut HeapState, ptr: usize, size: usize)
    requires
        old(state).wf(),
    ensures
        final(state).wf(),
        exists|ips: Seq<usize>|
            {
                &&& stack_told(ips)
                &&& ips.len() <= MAX_DEPTH
                &&& final(state)@ == #[trigger] old(state)@.sampled(ips, ptr, size)
            },
{
    let ips = capture_stack();
    state.record_sample_of(ips, ptr, size);
}

/// A sampling heap profiler around an allocator.
#[derive(Debug)]
pub struct AllocProfiler<A = System> {
    pub inner: A,
}

impl AllocProfiler<System> {
    /// A profiler around the system's default allocator.
    pub fn system() -> (r: Self)
        ensures
            r.inner == System,
    {
        AllocProfiler { inner: System }
    }
}

impl<A> AllocProfiler<A> {
    /// A profiler around the given allocator.
    pub fn new(allocator: A) -> (r: Self)
        ensures
            r.inner == allocator,
    {
        AllocProfiler { inner: allocator }
    }

    /// What the profile learns when the inner allocator has given `ptr` for `size`
    /// bytes (or 0, if it had none).
    pub fn on_alloc(
        &self,
        control: &AllocControl,
        thread: &mut ThreadState,
        state: &mut HeapState,
        ptr: usize,
        size: usize,
    )
        requires
            old(state).wf(),
            old(thread).wf(),
        ensures
            final(state).wf(),
            final(thread).wf(),
            final(thread).in_alloc == old(thread).in_alloc,
            final(thread).bytes_left == old(thread).left_after(*control, ptr, size),
            if old(thread).samples(*control, ptr, size) {
                exists|ips: Seq<usize>|
                    {
                        &&& stack_told(ips)
                        &&& ips.len() <= MAX_DEPTH
                        &&& final(state)@ == #[trigger] old(state)@.sampled(ips, ptr, size)
                    }
            } else {
                final(state)@ == old(state)@
            },
    {
        if thread.enter_alloc(control, ptr, size) {
            record_sample(state, ptr, size);
            thread.leave();
        }
    }

    /// What the profile learns before the inner allocator frees `ptr`.
    pub fn on_dealloc(
        &self,
        control: &AllocControl,
        thread: &mut ThreadState,
        state: &mut HeapState,
        ptr: usize,
    )
        requires
            old(state).wf(),
        ensures
            final(state).wf(),
            *final(thread) == *old(thread),
            final(state)@ == (if control.profiling && !old(thread).in_alloc {
                old(state)@.freed(ptr)
            } else {
                old(state)@
            }),
    {
        if thread.enter(control) {
            state.record_dealloc(ptr);
            thread.leave();
        }
    }

    /// What the profile learns when the inner allocator has moved `ptr` to `new_ptr`
    /// (or 0, if it could not) with a new size.
    pub fn on_realloc(
        &self,
        control: &AllocControl,
        thread: &mut ThreadState,
        state: &mut HeapState,
        ptr: usize,
        new_ptr: usize,
        new_size: usize,
    )
        requires
            old(state).wf(),
        ensures
            final(state).wf(),
            *final(thread) == *old(thread),
            if new_ptr != 0 && control.profiling && !old(thread).in_alloc {
                exists|ips: Seq<usize>|
                    {
                        &&& stack_told(ips)
                        &&& ips.len() <= MAX_DEPTH
                        &&& final(state)@ == #[trigger] old(state)@.freed(ptr).sampled(
                            ips,
                            new_ptr,
                            new_size,
                        )
                    }
            } else {
                final(state)@ == old(state)@
            },
    {
        if new_ptr == 0 {
            return;
        }
        if thread.enter(control) {
            state.record_dealloc(ptr);
            record_sample(state, new_ptr, new_size);
            thread.leave();
        }
    }
}

impl<A: Default> Default for AllocProfiler<A> {
    fn default() -> (r: Self)
        ensures
            call_ensures(A::default, (), r.inner),
    {
        AllocProfiler { inner: A::default() }
    }
}

/// The bytes of several allocations.
pub open spec fn total_size(sizes: Seq<usize>) -> nat
    decreases sizes.len(),
{
    if sizes.len() == 0 {
        0
    } else {
        total_size(sizes.drop_last()) + sizes.last() as nat
    }
}

/// The thread after it has made allocations of the given sizes.
pub open spec fn after_allocs(
    thread: ThreadState,
    control: AllocControl,
    ptr: usize,
    sizes: Seq<usize>,
) -> ThreadState
    decreases sizes.len(),
{
    if sizes.len() == 0 {
        thread
    } else {
        let before = after_allocs(thread, control, ptr, sizes.drop_last());
        ThreadState { bytes_left: before.left_after(control, ptr, sizes.last()), ..before }
    }
}

/// The bytes allocated since the last sample, `None` before the first: a thread's first
/// allocation is sampled, and after it each one with which the bytes reach the interval.
pub open spec fn bytes_since(sizes: Seq<usize>, interval: nat) -> Option<nat>
    decreases sizes.len(),
{
    if sizes.len() == 0 {
        None
    } else {
        match bytes_since(sizes.drop_last(), interval) {
            None => Some(0),
            Some(bytes) => if bytes + sizes.last() >= interval {
                Some(0)
            } else {
                Some(bytes + sizes.last() as nat)
            },
        }
    }
}

/// Of the allocations that a fresh thread makes while profiling is on, the first is
/// sampled, and each later one just where the bytes allocated since the last sample,
/// its own among them, reach the interval.
pub proof fn law_sampled_allocs(
    control: AllocControl,
    ptr: usize,
    sizes: Seq<usize>,
    size: usize,
)
    requires
        control.profiling,
        ptr != 0,
    ensures
        ({
            let fresh = ThreadState { in_alloc: false, bytes_left: 0 };
            let thread = after_allocs(fresh, control, ptr, sizes);
            &&& thread.wf()
            &&& thread.samples(control, ptr, size) <==> match bytes_since(
                sizes,
                control.interval() as nat,
            ) {
                None => true,
                Some(bytes) => bytes + size >= control.interval(),
            }
        }),
{
    lemma_left_tells(control, ptr, sizes);
}

proof fn lemma_left_tells(control: AllocControl, ptr: usize, sizes: Seq<usize>)
    requires
        control.profiling,
        ptr != 0,
    ensures
        ({
            let fresh = ThreadState { in_alloc: false, bytes_left: 0 };
            let thread = after_allocs(fresh, control, ptr, sizes);
            &&& !thread.in_alloc
            &&& thread.bytes_left == match bytes_since(sizes, control.interval() as nat) {
                None => 0,
                Some(bytes) => control.interval() - bytes,
            }
            &&& thread.bytes_left >= 0
        }),
    decreases sizes.len(),
{
    if sizes.len() > 0 {
        lemma_left_tells(control, ptr, sizes.drop_last());
    }
}

/// After a sample, the next one is the allocation with which the bytes allocated since
/// reach the interval, and none before it.
pub proof fn law_one_sample_per_interval(
    thread: ThreadState,
    control: AllocControl,
    ptr: usize,
    sizes: Seq<usize>,
    size: usize,
)
    requires
        thread.counts(control, ptr),
        thread.bytes_left == control.interval(),
        total_size(sizes) < control.interval(),
    ensures
        after_allocs(thread, control, ptr, sizes).samples(control, ptr, size) <==> total_size(sizes)
            + size >= control.interval(),
{
    lemma_left_counts_down(thread, control, ptr, sizes);
}

proof fn lemma_left_counts_down(
    thread: ThreadState,
    control: AllocControl,
    ptr: usize,
    sizes: Seq<usize>,
)
    requires
        thread.counts(control, ptr),
        thread.bytes_left == control.interval(),
        total_size(sizes) < control.interval(),
    ensures
        after_allocs(thread, control, ptr, sizes) == (ThreadState {
            bytes_left: (control.interval() - total_size(sizes)) as isize,
            ..thread
        }),
    decreases sizes.len(),
{
    if sizes.len() > 0 {
        lemma_left_counts_down(thread, control, ptr, sizes.drop_last());
    }
}

/// The first allocation that a thread makes while profiling is on is sampled.
pub proof fn law_first_alloc_sampled(control: AllocControl, ptr: usize, size: usize)
    requires
        control.profiling,
        ptr != 0,
    ensures
        (ThreadState { in_alloc: false, bytes_left: 0 }).samples(control, ptr, size),
{
}

/// While profiling is off, no allocation is sampled or counted.
pub proof fn law_nothing_while_stopped(
    thread: ThreadState,
    control: AllocControl,
    ptr: usize,
    size: usize,
)
    requires
        !control.profiling,
    ensures
        !thread.samples(control, ptr, size),
        thread.left_after(control, ptr, size) == thread.bytes_left,
{
}

} // verus!
