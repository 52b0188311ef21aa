//! What a heap profile tells after any row of events.

use vstd::prelude::*;

use crate::balance::{
    by_number, by_size, lemma_live_total_insert, lemma_live_total_remove, lemma_no_live,
    live_bytes, live_objects, live_total,
};
use crate::heap::{empty_heap, law_freed_wf, law_sampled_wf, no_counts, AllocCounts, HeapView};
use crate::heap_report::{alloc_total, inuse_total, record_counts, HeapRecordView};
use crate::MAX_DEPTH;

verus! {

/// What happens to a heap profile.
pub enum HeapEvent {
    /// An allocation is sampled.
    Sampled { ips: Seq<usize>, ptr: usize, size: usize },
    /// An allocation is freed.
    Freed { ptr: usize },
    /// Everything is forgotten.
    Reset,
}

/// The profile after a row of events, from one in which nothing was recorded.
pub open spec fn heap_after(events: Seq<HeapEvent>) -> HeapView
    decreases events.len(),
{
    if events.len() == 0 {
        empty_heap()
    } else {
        let before = heap_after(events.drop_last());
        match events.last() {
            HeapEvent::Sampled { ips, ptr, size } => before.sampled(ips, ptr, size),
            HeapEvent::Freed { ptr } => before.freed(ptr),
            HeapEvent::Reset => empty_heap(),
        }
    }
}

/// The samples since the last reset, each with its stack and its size.
pub open spec fn samples(events: Seq<HeapEvent>) -> Seq<(Seq<usize>, usize)>
    decreases events.len(),
{
    if events.len() == 0 {
        Seq::empty()
    } else {
        let before = samples(events.drop_last());
        match events.last() {
            HeapEvent::Sampled { ips, size, .. } => before.push((ips, size)),
            HeapEvent::Freed { .. } => before,
            HeapEvent::Reset => Seq::empty(),
        }
    }
}

/// Whether no stack is deeper than what is kept of one.
pub open spec fn depths_fit(events: Seq<HeapEvent>) -> bool {
    forall|i: int|
        0 <= i < events.len() ==> (#[trigger] events[i] matches HeapEvent::Sampled { ips, .. }
            ==> ips.len() <= MAX_DEPTH)
}

/// The number of samples of a stack.
pub open spec fn number_of(samples: Seq<(Seq<usize>, usize)>, ips: Seq<usize>) -> nat
    decreases samples.len(),
{
    if samples.len() == 0 {
        0
    } else {
        number_of(samples.drop_last(), ips) + (if samples.last().0 == ips {
            1nat
        } else {
            0nat
        })
    }
}

/// The bytes in the samples of a stack.
pub open spec fn bytes_of(samples: Seq<(Seq<usize>, usize)>, ips: Seq<usize>) -> nat
    decreases samples.len(),
{
    if samples.len() == 0 {
        0
    } else {
        bytes_of(samples.drop_last(), ips) + (if samples.last().0 == ips {
            samples.last().1 as nat
        } else {
            0nat
        })
    }
}

/// The bytes in all samples.
pub open spec fn sampled_bytes(samples: Seq<(Seq<usize>, usize)>) -> nat
    decreases samples.len(),
{
    if samples.len() == 0 {
        0
    } else {
        sampled_bytes(samples.drop_last()) + samples.last().1 as nat
    }
}

/// The distinct stacks of the samples.
pub open spec fn stacks_of(samples: Seq<(Seq<usize>, usize)>) -> Set<Seq<usize>> {
    Seq::new(samples.len(), |i: int| samples[i].0).to_set()
}

/// The sum of one counter over all callsites.
pub open spec fn sum(counts: Seq<AllocCounts>, pick: spec_fn(AllocCounts) -> int) -> int
    decreases counts.len(),
{
    if counts.len() == 0 {
        0
    } else {
        sum(counts.drop_last(), pick) + pick(counts.last())
    }
}

pub open spec fn alloc_objects() -> spec_fn(AllocCounts) -> int {
    |c: AllocCounts| c.alloc_objects as int
}

pub open spec fn alloc_bytes() -> spec_fn(AllocCounts) -> int {
    |c: AllocCounts| c.alloc_bytes as int
}

pub open spec fn inuse_objects() -> spec_fn(AllocCounts) -> int {
    |c: AllocCounts| c.inuse_objects as int
}

pub open spec fn inuse_bytes() -> spec_fn(AllocCounts) -> int {
    |c: AllocCounts| c.inuse_bytes as int
}

/// The counters of a stack, all 0 where it has no callsite.
pub open spec fn counts_at(h: HeapView, ips: Seq<usize>) -> AllocCounts {
    if h.has_site(ips) {
        h.sites[h.site_index(ips)].counts
    } else {
        no_counts()
    }
}

/// Whether the counters can take one more allocation of `size` bytes without wrapping
/// around.
pub open spec fn has_room(counts: AllocCounts, size: usize) -> bool {
    &&& counts.alloc_objects < u64::MAX
    &&& counts.alloc_bytes + size <= u64::MAX
    &&& counts.inuse_objects < i64::MAX
    &&& counts.inuse_bytes + size <= i64::MAX
    &&& size <= i64::MAX
}

proof fn lemma_sum_update(
    counts: Seq<AllocCounts>,
    pick: spec_fn(AllocCounts) -> int,
    i: int,
    c: AllocCounts,
)
    requires
        0 <= i < counts.len(),
    ensures
        sum(counts.update(i, c), pick) == sum(counts, pick) - pick(counts[i]) + pick(c),
    decreases counts.len(),
{
    let after = counts.update(i, c);
    if i == counts.len() - 1 {
        assert(after.drop_last() =~= counts.drop_last());
    } else {
        lemma_sum_update(counts.drop_last(), pick, i, c);
        assert(after.drop_last() =~= counts.drop_last().update(i, c));
    }
}

proof fn lemma_sum_push(
    counts: Seq<AllocCounts>,
    pick: spec_fn(AllocCounts) -> int,
    c: AllocCounts,
)
    ensures
        sum(counts.push(c), pick) == sum(counts, pick) + pick(c),
{
    assert(counts.push(c).drop_last() =~= counts);
}

/// One sample touches the counters of one callsite, which is new or was there, and moves
/// the sums over all callsites by one object and its size.
pub proof fn law_sample_moves_sums(h: HeapView, ips: Seq<usize>, ptr: usize, size: usize)
    requires
        h.wf(),
        has_room(counts_at(h, ips), size),
    ensures
        ({
            let before = h.counts();
            let after = h.sampled(ips, ptr, size).counts();
            let p = h.site_index(ips);
            let old_counts = counts_at(h, ips);
            &&& 0 <= p < after.len()
            &&& after.len() == before.len() || after.len() == before.len() + 1
            &&& after.len() == before.len() + 1 <==> !h.has_site(ips)
            &&& forall|i: int| 0 <= i < before.len() && i != p ==> #[trigger] after[i] == before[i]
            &&& after[p].alloc_objects == old_counts.alloc_objects + 1
            &&& after[p].alloc_bytes == old_counts.alloc_bytes + size
            &&& after[p].inuse_objects == old_counts.inuse_objects + 1
            &&& after[p].inuse_bytes == old_counts.inuse_bytes + size
            &&& sum(after, alloc_objects()) == sum(before, alloc_objects()) + 1
            &&& sum(after, alloc_bytes()) == sum(before, alloc_bytes()) + size
            &&& sum(after, inuse_objects()) == sum(before, inuse_objects()) + 1
            &&& sum(after, inuse_bytes()) == sum(before, inuse_bytes()) + size
        }),
{
    let before = h.counts();
    let after = h.sampled(ips, ptr, size).counts();
    let p = h.site_index(ips);
    if h.has_site(ips) {
        assert(h.is_site(ips, p));
        let c = before[p].after_alloc(size);
        assert(after =~= before.update(p, c));
        lemma_sum_update(before, alloc_objects(), p, c);
        lemma_sum_update(before, alloc_bytes(), p, c);
        lemma_sum_update(before, inuse_objects(), p, c);
        lemma_sum_update(before, inuse_bytes(), p, c);
    } else {
        let c = no_counts().after_alloc(size);
        assert(after =~= before.push(c));
        lemma_sum_push(before, alloc_objects(), c);
        lemma_sum_push(before, alloc_bytes(), c);
        lemma_sum_push(before, inuse_objects(), c);
        lemma_sum_push(before, inuse_bytes(), c);
    }
}

/// The profile stays well-formed, whatever happens.
pub proof fn law_history_wf(events: Seq<HeapEvent>)
    requires
        depths_fit(events),
    ensures
        heap_after(events).wf(),
    decreases events.len(),
{
    if events.len() > 0 {
        let shorter = events.drop_last();
        lemma_depths_shorter(events);
        law_history_wf(shorter);
        assert(events[events.len() - 1] == events.last());
        match events.last() {
            HeapEvent::Sampled { ips, ptr, size } => {
                law_sampled_wf(heap_after(shorter), ips, ptr, size);
            },
            HeapEvent::Freed { ptr } => {
                law_freed_wf(heap_after(shorter), ptr);
            },
            HeapEvent::Reset => {},
        }
    }
}

proof fn lemma_depths_shorter(events: Seq<HeapEvent>)
    requires
        depths_fit(events),
        events.len() > 0,
    ensures
        depths_fit(events.drop_last()),
{
    let shorter = events.drop_last();
    assert forall|i: int| 0 <= i < shorter.len() implies (
    #[trigger] shorter[i] matches HeapEvent::Sampled { ips, .. } ==> ips.len() <= MAX_DEPTH) by {
        assert(events[i] == shorter[i]);
    }
}

proof fn lemma_parts_of_whole(samples: Seq<(Seq<usize>, usize)>, ips: Seq<usize>)
    ensures
        number_of(samples, ips) <= samples.len(),
        bytes_of(samples, ips) <= sampled_bytes(samples),
    decreases samples.len(),
{
    if samples.len() > 0 {
        lemma_parts_of_whole(samples.drop_last(), ips);
    }
}

/// Whether the counters of a callsite tell its samples: as many objects and bytes were
/// allocated as were sampled, at least one, and what is in use lies between what is live
/// and what was allocated.
pub open spec fn tells(h: HeapView, i: int, samples: Seq<(Seq<usize>, usize)>) -> bool {
    let site = h.sites[i];
    &&& site.counts.alloc_objects == number_of(samples, site.ips)
    &&& site.counts.alloc_bytes == bytes_of(samples, site.ips)
    &&& site.counts.alloc_objects >= 1
    &&& live_objects(h.live, i + 1) <= site.counts.inuse_objects <= site.counts.alloc_objects
    &&& live_bytes(h.live, i + 1) <= site.counts.inuse_bytes <= site.counts.alloc_bytes
}

/// Whether each callsite tells its samples, and each stack that was sampled has one.
pub open spec fn all_tell(h: HeapView, samples: Seq<(Seq<usize>, usize)>) -> bool {
    &&& forall|i: int| 0 <= i < h.sites.len() ==> #[trigger] tells(h, i, samples)
    &&& forall|ips: Seq<usize>| #[trigger] h.has_site(ips) <==> number_of(samples, ips) > 0
    &&& sum(h.counts(), alloc_objects()) == samples.len()
    &&& sum(h.counts(), alloc_bytes()) == sampled_bytes(samples)
}

/// Live totals after an insertion: the new weight, and no more than before besides.
proof fn lemma_live_after_insert(
    live: Map<usize, (nat, usize)>,
    weigh: spec_fn((nat, usize)) -> nat,
    ptr: usize,
    entry: (nat, usize),
)
    requires
        live.dom().finite(),
    ensures
        live_total(live.insert(ptr, entry), weigh) <= weigh(entry) + live_total(live, weigh),
{
    if live.contains_key(ptr) {
        lemma_live_total_remove(live, weigh, ptr);
        let less = live.remove(ptr);
        assert(less.dom() =~= live.dom().remove(ptr));
        lemma_live_total_insert(less, weigh, ptr, entry);
        assert(less.insert(ptr, entry) =~= live.insert(ptr, entry));
    } else {
        lemma_live_total_insert(live, weigh, ptr, entry);
    }
}

proof fn lemma_sampled_tells(
    h: HeapView,
    before: Seq<(Seq<usize>, usize)>,
    ips: Seq<usize>,
    ptr: usize,
    size: usize,
)
    requires
        h.wf(),
        all_tell(h, before),
        before.len() < i64::MAX,
        sampled_bytes(before) + size <= i64::MAX,
    ensures
        all_tell(h.sampled(ips, ptr, size), before.push((ips, size))),
{
    let after = h.sampled(ips, ptr, size);
    let samples = before.push((ips, size));
    let p = h.site_index(ips);
    let entry = ((p + 1) as nat, size);
    assert(samples.drop_last() =~= before);
    lemma_parts_of_whole(before, ips);
    if h.has_site(ips) {
        assert(h.is_site(ips, p));
        assert(tells(h, p, before));
    }
    law_sample_moves_sums(h, ips, ptr, size);
    assert forall|i: int| 0 <= i < after.sites.len() implies #[trigger] tells(after, i, samples) by {
        lemma_live_after_insert(h.live, by_number(i + 1), ptr, entry);
        lemma_live_after_insert(h.live, by_size(i + 1), ptr, entry);
        if i < h.sites.len() {
            assert(tells(h, i, before));
            if i != p {
                assert(after.sites[i] == h.sites[i]);
                assert(h.sites[i].ips != ips) by {
                    if h.sites[i].ips == ips {
                        assert(h.is_site(ips, i));
                        if i < p {
                            assert(h.sites[i].ips != h.sites[p].ips);
                        } else {
                            assert(h.sites[p].ips != h.sites[i].ips);
                        }
                    }
                }
            } else {
                assert(h.has_site(ips));
                assert(h.counts()[i] == h.sites[i].counts);
                assert(after.counts()[i] == after.sites[i].counts);
            }
        } else {
            lemma_no_live(h.live, i + 1);
            assert(!h.has_site(ips));
            assert(number_of(before, ips) == 0);
            lemma_none_no_bytes(before, ips);
            assert(after.counts()[i] == after.sites[i].counts);
        }
    }
    assert forall|other: Seq<usize>| #[trigger]
        after.has_site(other) <==> number_of(samples, other) > 0 by {
        if h.has_site(other) {
            let q = choose|q: int| h.is_site(other, q);
            assert(after.is_site(other, q));
        }
        if other == ips {
            assert(after.is_site(ips, p));
        }
        if after.has_site(other) && other != ips {
            let q = choose|q: int| after.is_site(other, q);
            assert(h.is_site(other, q));
        }
    }
}

proof fn lemma_none_no_bytes(samples: Seq<(Seq<usize>, usize)>, ips: Seq<usize>)
    requires
        number_of(samples, ips) == 0,
    ensures
        bytes_of(samples, ips) == 0,
    decreases samples.len(),
{
    if samples.len() > 0 {
        lemma_none_no_bytes(samples.drop_last(), ips);
    }
}

proof fn lemma_freed_tells(h: HeapView, samples: Seq<(Seq<usize>, usize)>, ptr: usize)
    requires
        h.wf(),
        all_tell(h, samples),
        samples.len() <= i64::MAX,
        sampled_bytes(samples) <= i64::MAX,
    ensures
        all_tell(h.freed(ptr), samples),
{
    if h.live.contains_key(ptr) {
        let after = h.freed(ptr);
        let (id, size) = h.live[ptr];
        let p = id - 1;
        assert(tells(h, p, samples));
        lemma_parts_of_whole(samples, h.sites[p].ips);
        assert forall|i: int| 0 <= i < after.sites.len() implies #[trigger] tells(
            after,
            i,
            samples,
        ) by {
            assert(tells(h, i, samples));
            lemma_live_total_remove(h.live, by_number(i + 1), ptr);
            lemma_live_total_remove(h.live, by_size(i + 1), ptr);
        }
        assert forall|ips: Seq<usize>| #[trigger]
            after.has_site(ips) <==> number_of(samples, ips) > 0 by {
            if h.has_site(ips) {
                let q = choose|q: int| h.is_site(ips, q);
                assert(after.is_site(ips, q));
            }
            if after.has_site(ips) {
                let q = choose|q: int| after.is_site(ips, q);
                assert(h.is_site(ips, q));
            }
        }
        let c = h.counts()[p].after_free(size);
        assert(after.counts() =~= h.counts().update(p, c));
        lemma_sum_update(h.counts(), alloc_objects(), p, c);
        lemma_sum_update(h.counts(), alloc_bytes(), p, c);
    }
}

/// After any row of samples, frees and resets, as long as what was sampled since the last
/// reset fits in a counter: there is one callsite for each distinct stack; it tells as many
/// objects and bytes allocated as were sampled from that stack, at least one object; what
/// it tells in use lies between 0 and what was allocated; and the callsites together tell
/// all samples.
pub proof fn law_history(events: Seq<HeapEvent>)
    requires
        depths_fit(events),
        samples(events).len() <= i64::MAX,
        sampled_bytes(samples(events)) <= i64::MAX,
    ensures
        heap_after(events).wf(),
        all_tell(heap_after(events), samples(events)),
        heap_after(events).sites.len() == stacks_of(samples(events)).len(),
{
    law_history_wf(events);
    lemma_history_tells(events);
    lemma_one_site_each(heap_after(events), samples(events));
}

proof fn lemma_history_tells(events: Seq<HeapEvent>)
    requires
        depths_fit(events),
        samples(events).len() <= i64::MAX,
        sampled_bytes(samples(events)) <= i64::MAX,
    ensures
        all_tell(heap_after(events), samples(events)),
    decreases events.len(),
{
    if events.len() == 0 || events.last() is Reset {
        lemma_empty_tells();
    } else {
        let shorter = events.drop_last();
        let before = heap_after(shorter);
        lemma_depths_shorter(events);
        law_history_wf(shorter);
        match events.last() {
            HeapEvent::Sampled { ips, ptr, size } => {
                assert(samples(events).drop_last() =~= samples(shorter));
                lemma_history_tells(shorter);
                lemma_sampled_tells(before, samples(shorter), ips, ptr, size);
            },
            HeapEvent::Freed { ptr } => {
                lemma_history_tells(shorter);
                lemma_freed_tells(before, samples(shorter), ptr);
            },
            HeapEvent::Reset => {},
        }
    }
}

proof fn lemma_empty_tells()
    ensures
        all_tell(empty_heap(), Seq::empty()),
{
    let h = empty_heap();
    assert(h.counts() =~= Seq::empty());
    assert forall|ips: Seq<usize>| #[trigger] h.has_site(ips) implies number_of(
        Seq::empty(),
        ips,
    ) > 0 by {
        let q = choose|q: int| h.is_site(ips, q);
        assert(h.is_site(ips, q));
    }
}

proof fn lemma_number_positive(samples: Seq<(Seq<usize>, usize)>, ips: Seq<usize>)
    ensures
        number_of(samples, ips) > 0 <==> stacks_of(samples).contains(ips),
    decreases samples.len(),
{
    let list = Seq::new(samples.len(), |i: int| samples[i].0);
    if samples.len() == 0 {
        assert(list =~= Seq::empty());
    } else {
        let shorter = samples.drop_last();
        let less = Seq::new(shorter.len(), |i: int| shorter[i].0);
        lemma_number_positive(shorter, ips);
        assert(list =~= less.push(samples.last().0));
        if less.contains(ips) {
            assert(list[less.index_of(ips)] == ips);
        }
        if samples.last().0 == ips {
            assert(list[samples.len() - 1] == ips);
        }
        if list.contains(ips) && samples.last().0 != ips {
            let i = list.index_of(ips);
            assert(less[i] == ips);
        }
    }
}

proof fn lemma_one_site_each(h: HeapView, samples: Seq<(Seq<usize>, usize)>)
    requires
        h.wf(),
        all_tell(h, samples),
    ensures
        h.sites.len() == stacks_of(samples).len(),
{
    let list = Seq::new(h.sites.len(), |i: int| h.sites[i].ips);
    assert forall|i: int, j: int|
        0 <= i < list.len() && 0 <= j < list.len() && i != j implies list[i] != list[j] by {
        if i < j {
            assert(h.sites[i].ips != h.sites[j].ips);
        } else {
            assert(h.sites[j].ips != h.sites[i].ips);
        }
    }
    list.unique_seq_to_set();
    assert forall|ips: Seq<usize>| list.to_set().contains(ips) <==> stacks_of(samples).contains(
        ips,
    ) by {
        lemma_number_positive(samples, ips);
        if list.contains(ips) {
            assert(h.is_site(ips, list.index_of(ips)));
            assert(h.has_site(ips));
        }
        if h.has_site(ips) {
            let q = choose|q: int| h.is_site(ips, q);
            assert(list[q] == ips);
        }
    }
    assert(list.to_set() =~= stacks_of(samples));
}

/// Where each record has no more in use than was allocated, neither have all together.
pub proof fn law_inuse_within_alloc(records: Seq<HeapRecordView>)
    requires
        forall|i: int|
            0 <= i < records.len() ==> (#[trigger] records[i]).counts.inuse_bytes
                <= records[i].counts.alloc_bytes,
    ensures
        inuse_total(records) <= alloc_total(records),
    decreases records.len(),
{
    if records.len() > 0 {
        let shorter = records.drop_last();
        assert forall|i: int| 0 <= i < shorter.len() implies (
        #[trigger] shorter[i]).counts.inuse_bytes <= shorter[i].counts.alloc_bytes by {
            assert(records[i].counts.inuse_bytes <= records[i].counts.alloc_bytes);
        }
        assert(records[records.len() - 1] == records.last());
        law_inuse_within_alloc(shorter);
    }
}

/// The records of a profile after any row of events: each tells at least one object, and
/// what is in use lies between 0 and what was allocated, record by record and in all.
pub proof fn law_records_within_bounds(events: Seq<HeapEvent>, records: Seq<HeapRecordView>)
    requires
        depths_fit(events),
        samples(events).len() <= i64::MAX,
        sampled_bytes(samples(events)) <= i64::MAX,
        record_counts(records) == heap_after(events).counts(),
    ensures
        forall|i: int|
            0 <= i < records.len() ==> {
                let c = (#[trigger] records[i]).counts;
                &&& c.alloc_objects >= 1
                &&& 0 <= c.inuse_objects <= c.alloc_objects
                &&& 0 <= c.inuse_bytes <= c.alloc_bytes
            },
        inuse_total(records) <= alloc_total(records),
{
    law_history(events);
    let h = heap_after(events);
    assert(record_counts(records).len() == records.len() && h.counts().len() == h.sites.len());
    assert forall|i: int| 0 <= i < records.len() implies {
        let c = (#[trigger] records[i]).counts;
        &&& c.alloc_objects >= 1
        &&& 0 <= c.inuse_objects <= c.alloc_objects
        &&& 0 <= c.inuse_bytes <= c.alloc_bytes
    } by {
        assert(record_counts(records)[i] == h.counts()[i]);
        assert(tells(h, i, samples(events)));
    }
    law_inuse_within_alloc(records);
}

} // verus!
