//! Laws of the heap profiler: what is sampled, and what is kept of it.

use vstd::prelude::*;

use crate::heap::{AllocCounts, HeapState, HeapView};
use crate::sampler::{
    after_allocs, is_active, record_sample, reset, sample_rate, set_sample_rate, stack_told, start,
    stop, take_address, total_size, AllocControl, AllocProfiler, ThreadState,
};
use crate::MAX_DEPTH;

verus! {

/// Profiling is off, at one sample for each 512 KiB, until it is started; starting and
/// stopping leave the interval as it is.
pub proof fn law_switched(
    fresh: AllocControl,
    on: &mut AllocControl,
    off: &mut AllocControl,
    asked: &AllocControl,
    active: bool,
)
    requires
        call_ensures(<AllocControl as Default>::default, (), fresh),
        call_ensures(start, (on,), ()),
        call_ensures(stop, (off,), ()),
        call_ensures(is_active, (asked,), active),
    ensures
        !fresh.profiling && fresh.sample_rate == 524288,
        final(on).profiling && final(on).sample_rate == old(on).sample_rate,
        !final(off).profiling && final(off).sample_rate == old(off).sample_rate,
        active == asked.profiling,
{
}

/// The interval that was set is the one that is told, 1 where 0 was set.
pub proof fn law_interval_set(
    control: &mut AllocControl,
    bytes: usize,
    asked: &AllocControl,
    told: usize,
)
    requires
        call_ensures(set_sample_rate, (control, bytes), ()),
        call_ensures(sample_rate, (asked,), told),
        *asked == *final(control),
    ensures
        bytes > 0 ==> told == bytes,
        bytes == 0 ==> told == 1,
        final(control).profiling == old(control).profiling,
{
}

/// Whether the allocation of a thread counts at all.
pub open spec fn counts_in(thread: ThreadState, control: AllocControl, ptr: usize) -> bool {
    ptr != 0 && control.profiling && !thread.in_alloc
}

/// Whether the thread counts an allocation of `size` bytes: one that uses up the bytes left
/// is sampled, and the whole sampling interval is left then; another one leaves fewer.
pub open spec fn counts_down(
    before: ThreadState,
    after: ThreadState,
    control: AllocControl,
    ptr: usize,
    size: usize,
) -> bool {
    if !counts_in(before, control, ptr) {
        after.bytes_left == before.bytes_left
    } else if size >= before.bytes_left {
        &&& control.sample_rate <= isize::MAX ==> after.bytes_left == control.sample_rate
        &&& control.sample_rate > isize::MAX ==> after.bytes_left == isize::MAX
    } else {
        after.bytes_left == before.bytes_left - size
    }
}

/// A fresh thread has no bytes left, and is outside the profiler.
pub proof fn law_fresh_thread(thread: ThreadState)
    requires
        call_ensures(ThreadState::new, (), thread),
    ensures
        thread.bytes_left == 0 && !thread.in_alloc,
{
}

/// An allocation is sampled just where it counts and uses up the bytes left, and after it
/// the bytes left are the sampling interval itself.
pub proof fn law_enter_alloc(
    thread: &mut ThreadState,
    asked: &ThreadState,
    control: &AllocControl,
    ptr: usize,
    size: usize,
    will: bool,
    entered: bool,
)
    requires
        call_ensures(ThreadState::will_sample, (asked, control, ptr, size), will),
        call_ensures(ThreadState::enter_alloc, (thread, control, ptr, size), entered),
        *asked == *old(thread),
        old(thread).bytes_left >= 0,
    ensures
        entered <==> counts_in(*old(thread), *control, ptr) && size >= old(thread).bytes_left,
        will == entered,
        counts_down(*old(thread), *final(thread), *control, ptr, size),
        final(thread).bytes_left >= 0,
        final(thread).in_alloc == (old(thread).in_alloc || entered),
{
}

/// A freed or moved allocation counts while profiling is on and the thread is outside the
/// profiler; it then is inside until it leaves.
pub proof fn law_enter_and_leave(
    inward: &mut ThreadState,
    control: &AllocControl,
    entered: bool,
    outward: &mut ThreadState,
)
    requires
        call_ensures(ThreadState::enter, (inward, control), entered),
        call_ensures(ThreadState::leave, (outward,), ()),
    ensures
        entered <==> control.profiling && !old(inward).in_alloc,
        final(inward).in_alloc == (old(inward).in_alloc || entered),
        final(inward).bytes_left == old(inward).bytes_left,
        !final(outward).in_alloc,
        final(outward).bytes_left == old(outward).bytes_left,
{
}

/// After a sample, the next one is the allocation with which the bytes allocated since
/// reach the sampling interval, and no earlier one.
pub proof fn law_next_sample(
    thread: ThreadState,
    control: AllocControl,
    ptr: usize,
    size: usize,
    sizes: Seq<usize>,
    last: usize,
)
    requires
        control.profiling,
        ptr != 0,
        !thread.in_alloc,
        0 <= thread.bytes_left <= size,
        control.sample_rate <= isize::MAX,
        sizes.map_values(|n: usize| n as int).fold_left(0, |a: int, b: int| a + b)
            < control.sample_rate,
    ensures
        ({
            let sampled = ThreadState {
                in_alloc: false,
                bytes_left: thread.left_after(control, ptr, size),
            };
            let later = after_allocs(sampled, control, ptr, sizes);
            &&& thread.samples(control, ptr, size)
            &&& later.samples(control, ptr, last) <==> sizes.map_values(
                |n: usize| n as int,
            ).fold_left(0, |a: int, b: int| a + b) + last >= control.sample_rate
            &&& forall|i: int|
                0 <= i < sizes.len() ==> !(#[trigger] after_allocs(
                    sampled,
                    control,
                    ptr,
                    sizes.take(i),
                )).samples(control, ptr, sizes[i])
        }),
{
    let sampled = ThreadState {
        in_alloc: false,
        bytes_left: thread.left_after(control, ptr, size),
    };
    lemma_total(sizes);
    crate::sampler::law_one_sample_per_interval(sampled, control, ptr, sizes, last);
    assert forall|i: int| 0 <= i < sizes.len() implies !(#[trigger] after_allocs(
        sampled,
        control,
        ptr,
        sizes.take(i),
    )).samples(control, ptr, sizes[i]) by {
        lemma_total_part(sizes, i + 1);
        assert(sizes.take(i + 1).drop_last() =~= sizes.take(i));
        assert(sizes.take(i + 1).last() == sizes[i]);
        crate::sampler::law_one_sample_per_interval(
            sampled,
            control,
            ptr,
            sizes.take(i),
            sizes[i],
        );
    }
}

proof fn lemma_total(sizes: Seq<usize>)
    ensures
        total_size(sizes) == sizes.map_values(|n: usize| n as int).fold_left(
            0,
            |a: int, b: int| a + b,
        ),
    decreases sizes.len(),
{
    let list = sizes.map_values(|n: usize| n as int);
    if sizes.len() > 0 {
        lemma_total(sizes.drop_last());
        assert(list.drop_last() =~= sizes.drop_last().map_values(|n: usize| n as int));
    }
}

proof fn lemma_total_part(sizes: Seq<usize>, i: int)
    requires
        0 <= i <= sizes.len(),
    ensures
        total_size(sizes.take(i)) <= total_size(sizes),
    decreases sizes.len() - i,
{
    if i < sizes.len() {
        lemma_total_part(sizes, i + 1);
        assert(sizes.take(i + 1).drop_last() =~= sizes.take(i));
    } else {
        assert(sizes.take(i) =~= sizes);
    }
}

/// Whether two numbers are the same in 64 bits.
pub open spec fn same_in_64_bits(a: int, b: int) -> bool {
    (a - b) % 0x1_0000_0000_0000_0000 == 0
}

/// Whether the counters have gone up by one allocation of `size` bytes; they wrap around.
pub open spec fn went_up(before: AllocCounts, after: AllocCounts, size: usize) -> bool {
    &&& same_in_64_bits(after.alloc_objects as int, before.alloc_objects + 1)
    &&& same_in_64_bits(after.alloc_bytes as int, before.alloc_bytes + size)
    &&& same_in_64_bits(after.inuse_objects as int, before.inuse_objects + 1)
    &&& same_in_64_bits(after.inuse_bytes as int, before.inuse_bytes + size)
}

/// Whether the sample of `size` bytes at `ptr` was recorded for the stack `ips`: its
/// callsite at `p`, a new one at the end where it had none, has gone up by it, every other
/// one is as before, and the allocation is live.
pub open spec fn recorded_at(
    before: HeapView,
    after: HeapView,
    ips: Seq<usize>,
    ptr: usize,
    size: usize,
    p: int,
) -> bool {
    &&& 0 <= p < after.sites.len()
    &&& after.sites[p].ips == ips
    &&& if p < before.sites.len() {
        &&& after.sites.len() == before.sites.len()
        &&& before.sites[p].ips == ips
        &&& went_up(before.sites[p].counts, after.sites[p].counts, size)
    } else {
        &&& after.sites.len() == before.sites.len() + 1
        &&& forall|i: int| 0 <= i < before.sites.len() ==> (#[trigger] before.sites[i]).ips != ips
        &&& went_up(
            AllocCounts { alloc_objects: 0, alloc_bytes: 0, inuse_objects: 0, inuse_bytes: 0 },
            after.sites[p].counts,
            size,
        )
    }
    &&& forall|i: int|
        0 <= i < before.sites.len() && i != p ==> #[trigger] after.sites[i] == before.sites[i]
    &&& after.live == before.live.insert(ptr, ((p + 1) as nat, size))
}

/// Whether the allocation at `ptr` was freed: it is live no more, and the counters in use
/// of its callsite have gone down by it; nothing changes where it was not live.
pub open spec fn freed_at(before: HeapView, after: HeapView, ptr: usize) -> bool {
    if !before.live.contains_key(ptr) {
        after == before
    } else {
        let (id, size) = before.live[ptr];
        let p = id - 1;
        let old_counts = before.sites[p].counts;
        let new_counts = after.sites[p].counts;
        &&& after.live == before.live.remove(ptr)
        &&& after.sites.len() == before.sites.len()
        &&& after.sites[p].ips == before.sites[p].ips
        &&& new_counts.alloc_objects == old_counts.alloc_objects
        &&& new_counts.alloc_bytes == old_counts.alloc_bytes
        &&& same_in_64_bits(new_counts.inuse_objects as int, old_counts.inuse_objects - 1)
        &&& same_in_64_bits(new_counts.inuse_bytes as int, old_counts.inuse_bytes - size)
        &&& forall|i: int|
            0 <= i < before.sites.len() && i != p ==> #[trigger] after.sites[i] == before.sites[i]
    }
}

proof fn lemma_size_in_64_bits(size: usize)
    ensures
        same_in_64_bits(size as i64 as int, size as int),
{
    let wide = size as u64;
    assert(wide as i64 == wide || wide as i64 == wide - 0x1_0000_0000_0000_0000) by (bit_vector);
}

proof fn lemma_went_up(counts: AllocCounts, size: usize)
    ensures
        went_up(counts, counts.after_alloc(size), size),
{
    lemma_size_in_64_bits(size);
}

pub proof fn lemma_recorded(h: HeapView, ips: Seq<usize>, ptr: usize, size: usize)
    ensures
        recorded_at(h, h.sampled(ips, ptr, size), ips, ptr, size, h.site_index(ips)),
{
    let p = h.site_index(ips);
    let after = h.sampled(ips, ptr, size);
    if h.has_site(ips) {
        assert(h.is_site(ips, p));
        lemma_went_up(h.sites[p].counts, size);
    } else {
        lemma_went_up(crate::heap::no_counts(), size);
        assert forall|i: int| 0 <= i < h.sites.len() implies (#[trigger] h.sites[i]).ips != ips by {
            assert(!h.is_site(ips, i));
        }
    }
}

pub proof fn lemma_freed(h: HeapView, ptr: usize)
    requires
        h.wf(),
    ensures
        freed_at(h, h.freed(ptr), ptr),
{
    if h.live.contains_key(ptr) {
        let (id, size) = h.live[ptr];
        lemma_size_in_64_bits(size);
    }
}

/// A profile is made and reset with nothing in it, and tells its callsites one by one.
pub proof fn law_heap_told(
    fresh: HeapState,
    again: &mut HeapState,
    state: &HeapState,
    count: usize,
    i: usize,
    ips: &Vec<usize>,
    counts: AllocCounts,
)
    requires
        call_ensures(HeapState::new, (), fresh),
        call_ensures(reset, (again,), ()),
        call_ensures(HeapState::site_count, (state,), count),
        call_ensures(HeapState::site_ips, (state, i), ips),
        call_ensures(HeapState::site_counts, (state, i), counts),
        i < count,
    ensures
        fresh@.sites.len() == 0 && forall|ptr: usize| !fresh@.live.contains_key(ptr),
        final(again)@.sites.len() == 0,
        forall|ptr: usize| !final(again)@.live.contains_key(ptr),
        count == state@.sites.len(),
        ips@ == state@.sites[i as int].ips,
        counts == state@.sites[i as int].counts,
{
}

/// A sample is recorded for its stack.
pub proof fn law_sample_recorded(
    state: &mut HeapState,
    ips: Vec<usize>,
    ptr: usize,
    size: usize,
)
    requires
        call_ensures(HeapState::record_sample_of, (state, ips, ptr, size), ()),
    ensures
        exists|p: int| #[trigger] recorded_at(old(state)@, final(state)@, ips@, ptr, size, p),
{
    lemma_recorded(old(state)@, ips@, ptr, size);
}

/// A freed allocation is taken off the counters of its stack.
pub proof fn law_free_recorded(state: &mut HeapState, ptr: usize)
    requires
        call_ensures(HeapState::record_dealloc, (state, ptr), ()),
        old(state).wf(),
    ensures
        freed_at(old(state)@, final(state)@, ptr),
{
    lemma_freed(old(state)@, ptr);
}

/// Whether a sample was recorded for a stack of the running program, no deeper than what is
/// kept of one.
pub open spec fn recorded_now(
    before: HeapView,
    after: HeapView,
    ptr: usize,
    size: usize,
) -> bool {
    exists|ips: Seq<usize>, p: int|
        stack_told(ips) && ips.len() <= 128 && #[trigger] recorded_at(
            before,
            after,
            ips,
            ptr,
            size,
            p,
        )
}

/// A sample is recorded for the stack that makes it.
pub proof fn law_sample_of_caller(state: &mut HeapState, ptr: usize, size: usize)
    requires
        call_ensures(record_sample, (state, ptr, size), ()),
    ensures
        recorded_now(old(state)@, final(state)@, ptr, size),
{
    let ips = choose|ips: Seq<usize>|
        {
            &&& stack_told(ips)
            &&& ips.len() <= MAX_DEPTH
            &&& final(state)@ == #[trigger] old(state)@.sampled(ips, ptr, size)
        };
    lemma_recorded(old(state)@, ips, ptr, size);
}

/// At most 128 addresses of a stack are taken.
pub proof fn law_address_taken(ips: &mut Vec<usize>, ip: usize, more: bool)
    requires
        call_ensures(take_address, (ips, ip), more),
    ensures
        final(ips)@ == old(ips)@.push(ip),
        more <==> final(ips)@.len() < 128,
{
}

/// An allocation is recorded just where it counts and uses up the bytes left, and the
/// sampling interval is left after it; otherwise the profile is as before.
pub proof fn law_on_alloc<A>(
    profiler: &AllocProfiler<A>,
    control: &AllocControl,
    thread: &mut ThreadState,
    state: &mut HeapState,
    ptr: usize,
    size: usize,
)
    requires
        call_ensures(
            AllocProfiler::<A>::on_alloc,
            (profiler, control, thread, state, ptr, size),
            (),
        ),
        old(thread).bytes_left >= 0,
    ensures
        counts_down(*old(thread), *final(thread), *control, ptr, size),
        final(thread).in_alloc == old(thread).in_alloc,
        if counts_in(*old(thread), *control, ptr) && size >= old(thread).bytes_left {
            recorded_now(old(state)@, final(state)@, ptr, size)
        } else {
            final(state)@ == old(state)@
        },
{
    if old(thread).samples(*control, ptr, size) {
        let ips = choose|ips: Seq<usize>|
            {
                &&& stack_told(ips)
                &&& ips.len() <= MAX_DEPTH
                &&& final(state)@ == #[trigger] old(state)@.sampled(ips, ptr, size)
            };
        lemma_recorded(old(state)@, ips, ptr, size);
    }
}

/// A freed allocation is recorded while profiling is on and the thread is outside the
/// profiler; otherwise the profile is as before.
pub proof fn law_on_dealloc<A>(
    profiler: &AllocProfiler<A>,
    control: &AllocControl,
    thread: &mut ThreadState,
    state: &mut HeapState,
    ptr: usize,
)
    requires
        call_ensures(
            AllocProfiler::<A>::on_dealloc,
            (profiler, control, thread, state, ptr),
            (),
        ),
        old(state).wf(),
    ensures
        *final(thread) == *old(thread),
        if control.profiling && !old(thread).in_alloc {
            freed_at(old(state)@, final(state)@, ptr)
        } else {
            final(state)@ == old(state)@
        },
{
    lemma_freed(old(state)@, ptr);
}

/// A moved allocation is freed where it was and recorded where it is, whatever its size,
/// while profiling is on and the thread is outside the profiler; otherwise, and where it
/// could not be moved, the profile is as before.
pub proof fn law_on_realloc<A>(
    profiler: &AllocProfiler<A>,
    control: &AllocControl,
    thread: &mut ThreadState,
    state: &mut HeapState,
    ptr: usize,
    new_ptr: usize,
    new_size: usize,
)
    requires
        call_ensures(
            AllocProfiler::<A>::on_realloc,
            (profiler, control, thread, state, ptr, new_ptr, new_size),
            (),
        ),
        old(state).wf(),
    ensures
        *final(thread) == *old(thread),
        if new_ptr != 0 && control.profiling && !old(thread).in_alloc {
            exists|between: HeapView| #[trigger]
                freed_at(old(state)@, between, ptr) && recorded_now(
                    between,
                    final(state)@,
                    new_ptr,
                    new_size,
                )
        } else {
            final(state)@ == old(state)@
        },
{
    if new_ptr != 0 && control.profiling && !old(thread).in_alloc {
        let between = old(state)@.freed(ptr);
        let ips = choose|ips: Seq<usize>|
            {
                &&& stack_told(ips)
                &&& ips.len() <= MAX_DEPTH
                &&& final(state)@ == #[trigger] old(state)@.freed(ptr).sampled(
                    ips,
                    new_ptr,
                    new_size,
                )
            };
        lemma_freed(old(state)@, ptr);
        lemma_recorded(between, ips, new_ptr, new_size);
        assert(recorded_now(between, final(state)@, new_ptr, new_size));
    }
}

/// A profiler wraps the allocator that it was given, and the system's by itself.
pub proof fn law_profiler_wraps<A>(
    allocator: A,
    given: AllocProfiler<A>,
    system: AllocProfiler<std::alloc::System>,
)
    requires
        call_ensures(AllocProfiler::<A>::new, (allocator,), given),
        call_ensures(AllocProfiler::<std::alloc::System>::system, (), system),
    ensures
        given.inner == allocator,
        system.inner == std::alloc::System,
{
}

} // verus!
