//! The books of the heap profile balance: the in-use counters of each callsite tell
//! what is live.

use vstd::prelude::*;

use crate::heap::{empty_heap, no_counts, AllocCounts, HeapView};
use crate::heap_report::{inuse_total, record_counts, HeapRecordView};

verus! {

/// The sum of the weights of all live allocations.
pub open spec fn live_total(
    live: Map<usize, (nat, usize)>,
    weigh: spec_fn((nat, usize)) -> nat,
) -> nat
    decreases live.dom().len(),
    when live.dom().finite()
{
    if live.dom().len() == 0 {
        0
    } else {
        let ptr = live.dom().choose();
        weigh(live[ptr]) + live_total(live.remove(ptr), weigh)
    }
}

/// Weighs the allocations of one callsite by number.
pub open spec fn by_number(id: int) -> spec_fn((nat, usize)) -> nat {
    |entry: (nat, usize)|
        if entry.0 == id {
            1nat
        } else {
            0nat
        }
}

/// Weighs the allocations of one callsite by size.
pub open spec fn by_size(id: int) -> spec_fn((nat, usize)) -> nat {
    |entry: (nat, usize)|
        if entry.0 == id {
            entry.1 as nat
        } else {
            0nat
        }
}

/// The number of live allocations of a callsite.
pub open spec fn live_objects(live: Map<usize, (nat, usize)>, id: int) -> nat {
    live_total(live, by_number(id))
}

/// The bytes in live allocations of a callsite.
pub open spec fn live_bytes(live: Map<usize, (nat, usize)>, id: int) -> nat {
    live_total(live, by_size(id))
}

/// Whether a counter of 64 bits that wraps around stands at `n`.
pub open spec fn stands_at(counter: i64, n: nat) -> bool {
    (n - counter) % 0x1_0000_0000_0000_0000 == 0
}

/// Whether the in-use counters of every callsite tell what is live.
pub open spec fn balanced(h: HeapView) -> bool {
    forall|i: int|
        0 <= i < h.sites.len() ==> {
            &&& stands_at((#[trigger] h.sites[i]).counts.inuse_objects, live_objects(h.live, i + 1))
            &&& stands_at(h.sites[i].counts.inuse_bytes, live_bytes(h.live, i + 1))
        }
}

/// As long as the truth fits in a counter, the counter tells it exactly.
pub proof fn law_counter_exact(counter: i64, n: nat)
    requires
        stands_at(counter, n),
        n <= i64::MAX,
    ensures
        counter == n,
{
}

/// An allocation weighs as much as its leaving takes away.
pub proof fn lemma_live_total_remove(
    live: Map<usize, (nat, usize)>,
    weigh: spec_fn((nat, usize)) -> nat,
    ptr: usize,
)
    requires
        live.dom().finite(),
        live.contains_key(ptr),
    ensures
        live_total(live, weigh) == weigh(live[ptr]) + live_total(live.remove(ptr), weigh),
    decreases live.dom().len(),
{
    let first = live.dom().choose();
    assert(live.dom().contains(ptr));
    assert(live.dom().len() > 0) by {
        if live.dom().len() == 0 {
            assert(live.dom() =~= Set::empty());
        }
    }
    assert(live.dom().contains(first));
    assert(live.remove(first).dom() =~= live.dom().remove(first));
    assert(live.remove(ptr).dom() =~= live.dom().remove(ptr));
    if first != ptr {
        lemma_live_total_remove(live.remove(first), weigh, ptr);
        lemma_live_total_remove(live.remove(ptr), weigh, first);
        assert(live.remove(first).remove(ptr) =~= live.remove(ptr).remove(first));
    }
}

/// A new allocation adds its weight.
pub proof fn lemma_live_total_insert(
    live: Map<usize, (nat, usize)>,
    weigh: spec_fn((nat, usize)) -> nat,
    ptr: usize,
    entry: (nat, usize),
)
    requires
        live.dom().finite(),
        !live.contains_key(ptr),
    ensures
        live_total(live.insert(ptr, entry), weigh) == weigh(entry) + live_total(live, weigh),
{
    let more = live.insert(ptr, entry);
    assert(more.dom() =~= live.dom().insert(ptr));
    lemma_live_total_remove(more, weigh, ptr);
    assert(more.remove(ptr) =~= live);
}

/// An empty profile balances.
pub proof fn law_empty_balanced()
    ensures
        balanced(empty_heap()),
{
}

proof fn lemma_size_as_i64(size: usize)
    ensures
        size as i64 == size || size as i64 == size - 0x1_0000_0000_0000_0000,
{
    let wide = size as u64;
    assert(wide as i64 == wide || wide as i64 == wide - 0x1_0000_0000_0000_0000) by (bit_vector);
}

/// Counting an allocation moves the in-use counters with the truth.
proof fn lemma_after_alloc(counts: AllocCounts, size: usize, objects: nat, bytes: nat)
    requires
        stands_at(counts.inuse_objects, objects),
        stands_at(counts.inuse_bytes, bytes),
    ensures
        stands_at(counts.after_alloc(size).inuse_objects, objects + 1),
        stands_at(counts.after_alloc(size).inuse_bytes, bytes + size as nat),
{
    lemma_size_as_i64(size);
}

/// Counting a freed allocation moves the in-use counters with the truth.
proof fn lemma_after_free(counts: AllocCounts, size: usize, objects: nat, bytes: nat)
    requires
        stands_at(counts.inuse_objects, objects + 1),
        stands_at(counts.inuse_bytes, bytes + size as nat),
    ensures
        stands_at(counts.after_free(size).inuse_objects, objects),
        stands_at(counts.after_free(size).inuse_bytes, bytes),
{
    lemma_size_as_i64(size);
}

/// No live allocation has the id of a callsite that is yet to come.
pub proof fn lemma_no_live(live: Map<usize, (nat, usize)>, id: int)
    requires
        live.dom().finite(),
        forall|ptr: usize| #[trigger] live.contains_key(ptr) ==> live[ptr].0 != id,
    ensures
        live_objects(live, id) == 0,
        live_bytes(live, id) == 0,
    decreases live.dom().len(),
{
    if live.dom().len() > 0 {
        let ptr = live.dom().choose();
        assert(live.dom().contains(ptr));
        assert(live.contains_key(ptr));
        let less = live.remove(ptr);
        assert(less.dom() =~= live.dom().remove(ptr));
        assert forall|p: usize| #[trigger] less.contains_key(p) implies less[p].0 != id by {
            assert(live.contains_key(p));
        }
        lemma_no_live(less, id);
    }
}

/// Sampling an allocation at an address that is not live keeps the books balanced.
pub proof fn law_sampled_balanced(h: HeapView, ips: Seq<usize>, ptr: usize, size: usize)
    requires
        h.wf(),
        balanced(h),
        !h.live.contains_key(ptr),
    ensures
        balanced(h.sampled(ips, ptr, size)),
{
    let after = h.sampled(ips, ptr, size);
    let p = h.site_index(ips);
    if h.has_site(ips) {
        assert(h.is_site(ips, p));
    }
    let entry = ((p + 1) as nat, size);
    assert forall|i: int| 0 <= i < after.sites.len() implies {
        &&& stands_at(
            (#[trigger] after.sites[i]).counts.inuse_objects,
            live_objects(after.live, i + 1),
        )
        &&& stands_at(after.sites[i].counts.inuse_bytes, live_bytes(after.live, i + 1))
    } by {
        lemma_live_total_insert(h.live, by_number(i + 1), ptr, entry);
        lemma_live_total_insert(h.live, by_size(i + 1), ptr, entry);
        if i < h.sites.len() {
            assert(stands_at(h.sites[i].counts.inuse_objects, live_objects(h.live, i + 1)));
            assert(stands_at(h.sites[i].counts.inuse_bytes, live_bytes(h.live, i + 1)));
            if i == p {
                lemma_after_alloc(
                    h.sites[i].counts,
                    size,
                    live_objects(h.live, i + 1),
                    live_bytes(h.live, i + 1),
                );
            } else {
                assert(after.sites[i] == h.sites[i]);
            }
        } else {
            lemma_no_live(h.live, i + 1);
            lemma_after_alloc(no_counts(), size, 0, 0);
        }
    }
}

/// Freeing keeps the books balanced.
pub proof fn law_freed_balanced(h: HeapView, ptr: usize)
    requires
        h.wf(),
        balanced(h),
    ensures
        balanced(h.freed(ptr)),
{
    if h.live.contains_key(ptr) {
        let after = h.freed(ptr);
        let (id, size) = h.live[ptr];
        assert forall|i: int| 0 <= i < after.sites.len() implies {
            &&& stands_at(
                (#[trigger] after.sites[i]).counts.inuse_objects,
                live_objects(after.live, i + 1),
            )
            &&& stands_at(after.sites[i].counts.inuse_bytes, live_bytes(after.live, i + 1))
        } by {
            lemma_live_total_remove(h.live, by_number(i + 1), ptr);
            lemma_live_total_remove(h.live, by_size(i + 1), ptr);
            assert(stands_at(h.sites[i].counts.inuse_objects, live_objects(h.live, i + 1)));
            assert(stands_at(h.sites[i].counts.inuse_bytes, live_bytes(h.live, i + 1)));
            if i == id - 1 {
                lemma_after_free(
                    h.sites[i].counts,
                    size,
                    live_objects(after.live, i + 1),
                    live_bytes(after.live, i + 1),
                );
            }
        }
    }
}

/// Freeing what was just sampled leaves the live allocations and all in-use counters
/// as they were before, and the cumulative counters as the sample left them.
pub proof fn law_free_undoes_sample(h: HeapView, ips: Seq<usize>, ptr: usize, size: usize)
    requires
        h.wf(),
        !h.live.contains_key(ptr),
    ensures
        ({
            let sampled = h.sampled(ips, ptr, size);
            let freed = sampled.freed(ptr);
            &&& freed.live == h.live
            &&& freed.sites.len() == sampled.sites.len()
            &&& forall|i: int|
                0 <= i < freed.sites.len() ==> {
                    &&& (#[trigger] freed.sites[i]).ips == sampled.sites[i].ips
                    &&& freed.sites[i].counts.alloc_objects == sampled.sites[i].counts.alloc_objects
                    &&& freed.sites[i].counts.alloc_bytes == sampled.sites[i].counts.alloc_bytes
                }
            &&& forall|i: int|
                0 <= i < h.sites.len() ==> {
                    &&& (#[trigger] freed.sites[i]).ips == h.sites[i].ips
                    &&& freed.sites[i].counts.inuse_objects == h.sites[i].counts.inuse_objects
                    &&& freed.sites[i].counts.inuse_bytes == h.sites[i].counts.inuse_bytes
                }
            &&& freed.sites.len() > h.sites.len() ==> {
                &&& freed.sites.last().counts.inuse_objects == 0
                &&& freed.sites.last().counts.inuse_bytes == 0
            }
        }),
{
    let sampled = h.sampled(ips, ptr, size);
    let freed = sampled.freed(ptr);
    let p = h.site_index(ips);
    if h.has_site(ips) {
        assert(h.is_site(ips, p));
    }
    assert(sampled.live.contains_key(ptr));
    assert(sampled.live[ptr] == ((p + 1) as nat, size));
    assert(freed.live =~= h.live);
}

/// An allocation that was sampled is live until it is freed, whatever else is
/// sampled or freed.
pub proof fn law_live_until_freed(
    h: HeapView,
    ips: Seq<usize>,
    ptr: usize,
    other: usize,
    size: usize,
)
    requires
        h.live.contains_key(ptr),
        other != ptr,
    ensures
        h.sampled(ips, other, size).live.contains_key(ptr),
        h.sampled(ips, other, size).live[ptr] == h.live[ptr],
        h.freed(other).live.contains_key(ptr),
        h.freed(other).live[ptr] == h.live[ptr],
        !h.freed(ptr).live.contains_key(ptr),
{
}

/// Weighs every allocation by size.
pub open spec fn sizes() -> spec_fn((nat, usize)) -> nat {
    |entry: (nat, usize)| entry.1 as nat
}

/// Weighs the allocations of the first callsites by size.
spec fn sizes_up_to(n: int) -> spec_fn((nat, usize)) -> nat {
    |entry: (nat, usize)|
        if 1 <= entry.0 <= n {
            entry.1 as nat
        } else {
            0nat
        }
}

proof fn lemma_live_total_add(
    live: Map<usize, (nat, usize)>,
    a: spec_fn((nat, usize)) -> nat,
    b: spec_fn((nat, usize)) -> nat,
    both: spec_fn((nat, usize)) -> nat,
)
    requires
        live.dom().finite(),
        forall|ptr: usize| #[trigger]
            live.contains_key(ptr) ==> both(live[ptr]) == a(live[ptr]) + b(live[ptr]),
    ensures
        live_total(live, both) == live_total(live, a) + live_total(live, b),
    decreases live.dom().len(),
{
    if live.dom().len() > 0 {
        let ptr = live.dom().choose();
        assert(live.dom().contains(ptr));
        assert(live.contains_key(ptr));
        let less = live.remove(ptr);
        assert(less.dom() =~= live.dom().remove(ptr));
        assert forall|p: usize| #[trigger] less.contains_key(p) implies both(less[p]) == a(less[p])
            + b(less[p]) by {
            assert(live.contains_key(p));
        }
        lemma_live_total_add(less, a, b, both);
    }
}

proof fn lemma_live_total_zero(live: Map<usize, (nat, usize)>)
    requires
        live.dom().finite(),
    ensures
        live_total(live, sizes_up_to(0)) == 0,
    decreases live.dom().len(),
{
    if live.dom().len() > 0 {
        let ptr = live.dom().choose();
        assert(live.dom().contains(ptr));
        assert(live.remove(ptr).dom() =~= live.dom().remove(ptr));
        lemma_live_total_zero(live.remove(ptr));
    }
}

/// The callsites up to `n` of a balanced profile tell their live bytes.
proof fn lemma_sites_tell(h: HeapView, records: Seq<HeapRecordView>, n: int)
    requires
        h.wf(),
        balanced(h),
        record_counts(records) == h.counts(),
        live_total(h.live, sizes()) <= i64::MAX,
        0 <= n <= records.len(),
    ensures
        inuse_total(records.take(n)) == live_total(h.live, sizes_up_to(n)),
    decreases n,
{
    if n == 0 {
        lemma_live_total_zero(h.live);
    } else {
        assert(record_counts(records).len() == records.len());
        assert(h.counts().len() == h.sites.len());
        lemma_sites_tell(h, records, n - 1);
        assert(records.take(n).drop_last() =~= records.take(n - 1));
        assert(record_counts(records)[n - 1] == records[n - 1].counts);
        assert(h.counts()[n - 1] == h.sites[n - 1].counts);
        assert(records.take(n).last() == records[n - 1]);
        lemma_live_total_add(h.live, sizes_up_to(n - 1), by_size(n), sizes_up_to(n));
        let rest = |entry: (nat, usize)|
            if entry.0 == n {
                0nat
            } else {
                entry.1 as nat
            };
        lemma_live_total_add(h.live, by_size(n), rest, sizes());
        assert(stands_at(h.sites[n - 1].counts.inuse_bytes, live_bytes(h.live, n)));
        law_counter_exact(h.sites[n - 1].counts.inuse_bytes, live_bytes(h.live, n));
    }
}

/// The records of a balanced profile's callsites add up to the bytes that are live, as
/// long as a counter can hold them.
pub proof fn law_records_tell_live_bytes(h: HeapView, records: Seq<HeapRecordView>)
    requires
        h.wf(),
        balanced(h),
        record_counts(records) == h.counts(),
        live_total(h.live, sizes()) <= i64::MAX,
    ensures
        inuse_total(records) == live_total(h.live, sizes()),
{
    let n = records.len() as int;
    assert(record_counts(records).len() == records.len());
    assert(h.counts().len() == h.sites.len());
    lemma_sites_tell(h, records, n);
    assert(records.take(n) =~= records);
    lemma_live_total_zero(h.live);
    lemma_live_total_add(h.live, sizes_up_to(n), sizes_up_to(0), sizes());
}

} // verus!
