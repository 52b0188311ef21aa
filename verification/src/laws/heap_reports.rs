//! Laws of the snapshots of a heap profile.

use vstd::prelude::*;

use crate::error::Error;
use crate::frames::{Frames, FramesKey, Symbol, SymbolView};
use crate::heap::{AllocCounts, HeapState};
use crate::heap_report::{
    alloc_entries, alloc_total, heap_report, inuse_entries, inuse_total, is_record_of, make_record,
    record_of, HeapRecord, HeapReport,
};
use crate::report::Report;
use crate::resolve::{all_found, parts_view};
use crate::sampler::AllocControl;
use crate::tally::{
    count_at, distinct, entry_index, has_key, is_entry, law_with_count, models, with_count, Stack,
};
use crate::timer::{ClockType, Timestamp};

use super::documents::{lemma_sum_push, sum_of};
use super::reports::{found_for, frames_of, lemma_frames_of, lemma_resolved_frames};
use super::stacks::{calls, lemma_calls, lemma_same_key, same_calls};

verus! {

/// Whether the record tells the counters.
pub open spec fn tells_counts(record: HeapRecord, counts: AllocCounts) -> bool {
    &&& record.alloc_objects == counts.alloc_objects
    &&& record.alloc_bytes == counts.alloc_bytes
    &&& record.inuse_objects == counts.inuse_objects
    &&& record.inuse_bytes == counts.inuse_bytes
}

/// Whether the record has the frames of the addresses that have symbols, and no thread.
pub open spec fn tells_symbols(record: HeapRecord, parts: Seq<Seq<SymbolView>>) -> bool {
    &&& frames_of(record.frames) == parts.filter(|p: Seq<SymbolView>| p.len() > 0)
    &&& record.frames.thread_name@.len() == 0
    &&& record.frames.thread_id == 0
}

/// A record holds the symbols, the counters and the time that it was made of.
pub proof fn law_record_made(
    parts: Vec<Vec<Symbol>>,
    counts: AllocCounts,
    at: Timestamp,
    r: HeapRecord,
)
    requires
        call_ensures(make_record, (parts, counts, at), r),
    ensures
        tells_counts(r, counts),
        tells_symbols(
            r,
            parts@.map_values(|frame: Vec<Symbol>| frame@.map_values(|s: Symbol| s@)),
        ),
        r.frames.sample_timestamp == at,
{
    lemma_record(r, parts_view(parts@), counts, at);
    let look = |frame: Vec<Symbol>| frame@.map_values(|s: Symbol| s@);
    assert forall|i: int| 0 <= i < parts@.len() implies parts_view(parts@)[i]
        =~= parts@.map_values(look)[i] by {}
    assert(parts_view(parts@) =~= parts@.map_values(look));
}

proof fn lemma_record(
    r: HeapRecord,
    parts: Seq<Seq<SymbolView>>,
    counts: AllocCounts,
    at: Timestamp,
)
    requires
        r@ == record_of(parts, counts, at),
    ensures
        tells_counts(r, counts),
        tells_symbols(r, parts),
        r.frames.sample_timestamp == at,
{
    lemma_frames_of(r.frames);
    lemma_resolved_frames(parts);
    assert(r@.frames.thread_name == r.frames.thread_name@);
}

/// A heap report holds one record for each callsite, in order, with its counters as they
/// are and the symbols that are found for its addresses, at times that the clock told, and
/// the sampling interval.
pub proof fn law_heap_report<C: Fn() -> Timestamp>(
    state: &HeapState,
    control: &AllocControl,
    clock: C,
    r: Result<HeapReport, Error>,
)
    requires
        call_ensures(heap_report::<C>, (state, control, clock), r),
    ensures
        r matches Ok(report) && {
            &&& report.sample_rate == control.sample_rate
            &&& call_ensures(clock, (), report.timestamp)
            &&& report.records@.len() == state@.sites.len()
            &&& forall|i: int|
                0 <= i < report.records@.len() ==> {
                    &&& tells_counts(#[trigger] report.records@[i], state@.sites[i].counts)
                    &&& call_ensures(clock, (), report.records@[i].frames.sample_timestamp)
                    &&& exists|parts: Seq<Seq<SymbolView>>| #[trigger]
                        found_for(state@.sites[i].ips, parts) && tells_symbols(
                            report.records@[i],
                            parts,
                        )
                }
        },
{
    let report = r->Ok_0;
    assert(report.entries().len() == report.records@.len());
    assert forall|i: int| 0 <= i < report.records@.len() implies {
        &&& tells_counts(#[trigger] report.records@[i], state@.sites[i].counts)
        &&& call_ensures(clock, (), report.records@[i].frames.sample_timestamp)
        &&& exists|parts: Seq<Seq<SymbolView>>| #[trigger]
            found_for(state@.sites[i].ips, parts) && tells_symbols(report.records@[i], parts)
    } by {
        let site = state@.sites[i];
        assert(report.entries()[i] == report.records@[i]@);
        assert(is_record_of(report.entries()[i], site, clock));
        let (parts, at) = choose|parts: Seq<Seq<SymbolView>>, at: Timestamp|
            {
                &&& #[trigger] all_found(site.ips, parts)
                &&& #[trigger] call_ensures(clock, (), at)
                &&& report.entries()[i] == record_of(parts, site.counts, at)
            };
        lemma_record(report.records@[i], parts, site.counts, at);
        assert(found_for(site.ips, parts));
    }
}

/// The live bytes of each record, those below zero as none.
pub open spec fn live_in(records: Seq<HeapRecord>) -> Seq<int> {
    records.map_values(
        |c: HeapRecord|
            if c.inuse_bytes > 0 {
                c.inuse_bytes as int
            } else {
                0
            },
    )
}

/// The allocated bytes of each record.
pub open spec fn allocated_in(records: Seq<HeapRecord>) -> Seq<int> {
    records.map_values(|c: HeapRecord| c.alloc_bytes as int)
}

proof fn lemma_totals(records: Seq<HeapRecord>)
    ensures
        inuse_total(crate::heap_report::records_view(records)) == sum_of(live_in(records)),
        alloc_total(crate::heap_report::records_view(records)) == sum_of(allocated_in(records)),
    decreases records.len(),
{
    let views = crate::heap_report::records_view(records);
    if records.len() > 0 {
        let shorter = records.drop_last();
        lemma_totals(shorter);
        assert(views.drop_last() =~= crate::heap_report::records_view(shorter));
        assert(views.last() == records.last()@);
        assert(live_in(records) =~= live_in(shorter).push(live_in(records).last()));
        lemma_sum_push(live_in(shorter), live_in(records).last());
        assert(allocated_in(records) =~= allocated_in(shorter).push(
            records.last().alloc_bytes as int,
        ));
        lemma_sum_push(allocated_in(shorter), records.last().alloc_bytes as int);
    }
}

/// The totals of a heap report are the live and the allocated bytes of its records
/// together, and are told unless they are too many.
pub proof fn law_heap_totals(
    report: &HeapReport,
    inuse: Option<i64>,
    allocated: Option<u64>,
    total_inuse: i64,
    total_allocated: u64,
)
    requires
        call_ensures(HeapReport::checked_inuse_bytes, (report,), inuse),
        call_ensures(HeapReport::checked_alloc_bytes, (report,), allocated),
        call_ensures(HeapReport::total_inuse_bytes, (report,), total_inuse),
        call_ensures(HeapReport::total_alloc_bytes, (report,), total_allocated),
    ensures
        inuse is Some <==> sum_of(live_in(report.records@)) <= i64::MAX,
        inuse matches Some(n) ==> n == sum_of(live_in(report.records@)),
        allocated is Some <==> sum_of(allocated_in(report.records@)) <= u64::MAX,
        allocated matches Some(n) ==> n == sum_of(allocated_in(report.records@)),
        total_inuse == sum_of(live_in(report.records@)),
        total_allocated == sum_of(allocated_in(report.records@)),
{
    lemma_totals(report.records@);
}

/// Whether the record at `i` is the last one of its stack with a positive value.
pub open spec fn last_of_stack(
    records: Seq<HeapRecord>,
    value: spec_fn(HeapRecord) -> int,
    i: int,
) -> bool {
    &&& 0 <= i < records.len()
    &&& value(records[i]) > 0
    &&& forall|x: int|
        i < x < records.len() ==> value(#[trigger] records[x]) <= 0 || !same_calls(
            records[x].frames,
            records[i].frames,
        )
}

/// Whether the entry tells the stack and the value of the record at `i`, the last one of its
/// stack.
pub open spec fn stands_for(
    entry: (Frames, isize),
    records: Seq<HeapRecord>,
    value: spec_fn(HeapRecord) -> int,
    i: int,
) -> bool {
    &&& last_of_stack(records, value, i)
    &&& same_calls(entry.0, records[i].frames)
    &&& entry.1 == value(records[i]) as isize
}

/// Whether the entry at `k` tells of a record.
pub open spec fn tells_record(
    data: Seq<(Frames, isize)>,
    records: Seq<HeapRecord>,
    value: spec_fn(HeapRecord) -> int,
    k: int,
) -> bool {
    exists|i: int| stands_for(data[k], records, value, i)
}

/// Whether the list holds each stack with a positive value once, with the value of its last
/// record, and nothing else.
pub open spec fn weighs(
    data: Seq<(Frames, isize)>,
    records: Seq<HeapRecord>,
    value: spec_fn(HeapRecord) -> int,
) -> bool {
    &&& forall|i: int, j: int|
        #![trigger data[i], data[j]]
        0 <= i < j < data.len() ==> !same_calls(data[i].0, data[j].0)
    &&& forall|k: int| 0 <= k < data.len() ==> #[trigger] tells_record(data, records, value, k)
    &&& forall|i: int|
        0 <= i < records.len() && value(#[trigger] records[i]) > 0 ==> exists|k: int|
            0 <= k < data.len() && same_calls((#[trigger] data[k]).0, records[i].frames)
}

/// The live bytes of a record.
pub open spec fn live_bytes() -> spec_fn(HeapRecord) -> int {
    |c: HeapRecord| c.inuse_bytes as int
}

/// The allocated bytes of a record.
pub open spec fn allocated_bytes() -> spec_fn(HeapRecord) -> int {
    |c: HeapRecord| c.alloc_bytes as int
}

/// The entries of a report that is made stack by stack.
spec fn entries_of<S: Stack>(
    records: Seq<HeapRecord>,
    stack: spec_fn(HeapRecord) -> S,
    value: spec_fn(HeapRecord) -> int,
) -> Seq<(S::Model, isize)>
    decreases records.len(),
{
    if records.len() == 0 {
        Seq::empty()
    } else {
        let before = entries_of(records.drop_last(), stack, value);
        if value(records.last()) > 0 {
            with_count::<S>(
                before,
                stack(records.last()).model(),
                value(records.last()) as isize,
            )
        } else {
            before
        }
    }
}

/// The stack of a record.
spec fn stack_of() -> spec_fn(HeapRecord) -> Frames {
    |c: HeapRecord| c.frames
}

proof fn lemma_entries_of(records: Seq<HeapRecord>)
    ensures
        inuse_entries(crate::heap_report::records_view(records)) == entries_of::<Frames>(
            records,
            stack_of(),
            live_bytes(),
        ),
        alloc_entries(crate::heap_report::records_view(records)) == entries_of::<Frames>(
            records,
            stack_of(),
            allocated_bytes(),
        ),
    decreases records.len(),
{
    let views = crate::heap_report::records_view(records);
    if records.len() > 0 {
        let shorter = records.drop_last();
        lemma_entries_of(shorter);
        assert(views.drop_last() =~= crate::heap_report::records_view(shorter));
        assert(views.last() == records.last()@);
        let c = records.last();
        assert(live_bytes()(c) as isize == c.inuse_bytes as isize);
        assert(allocated_bytes()(c) as isize == c.alloc_bytes as isize);
    }
}

proof fn lemma_entry_of_key(
    records: Seq<HeapRecord>,
    value: spec_fn(HeapRecord) -> int,
    key: FramesKey,
) -> (i: int)
    ensures
        distinct::<Frames>(entries_of::<Frames>(records, stack_of(), value)),
        has_key::<Frames>(entries_of::<Frames>(records, stack_of(), value), key) ==> {
            &&& last_of_stack(records, value, i)
            &&& records[i].frames@.key() == key
            &&& count_at::<Frames>(entries_of::<Frames>(records, stack_of(), value), key)
                == value(records[i]) as isize
        },
        !has_key::<Frames>(entries_of::<Frames>(records, stack_of(), value), key) ==> forall|x: int|
            0 <= x < records.len() && value(#[trigger] records[x]) > 0
                ==> records[x].frames@.key() != key,
    decreases records.len(),
{
    let entries = entries_of::<Frames>(records, stack_of(), value);
    if records.len() == 0 {
        assert(!has_key::<Frames>(entries, key)) by {
            if has_key::<Frames>(entries, key) {
                assert(is_entry::<Frames>(entries, key, entry_index::<Frames>(entries, key)));
            }
        }
        0
    } else {
        let shorter = records.drop_last();
        let last = records.last();
        let at = records.len() - 1;
        let i = lemma_entry_of_key(shorter, value, key);
        let before = entries_of::<Frames>(shorter, stack_of(), value);
        assert(records[at] == last);
        if value(last) > 0 {
            law_with_count::<Frames>(before, last.frames@, value(last) as isize, key);
        }
        if value(last) > 0 && last.frames@.key() == key {
            at
        } else {
            if has_key::<Frames>(entries, key) {
                assert forall|x: int| i < x < records.len() implies value(#[trigger] records[x])
                    <= 0 || !same_calls(records[x].frames, records[i].frames) by {
                    lemma_same_key(records[x].frames, records[i].frames);
                    if x < at {
                        assert(shorter[x] == records[x]);
                    }
                }
                assert(shorter[i] == records[i]);
            } else {
                assert forall|x: int|
                    0 <= x < records.len() && value(#[trigger] records[x])
                        > 0 implies records[x].frames@.key() != key by {
                    if x < at {
                        assert(shorter[x] == records[x]);
                    }
                }
            }
            i
        }
    }
}

proof fn lemma_weighs(
    data: Seq<(Frames, isize)>,
    records: Seq<HeapRecord>,
    value: spec_fn(HeapRecord) -> int,
)
    requires
        models(data) == entries_of::<Frames>(records, stack_of(), value),
    ensures
        weighs(data, records, value),
{
    let list = models(data);
    assert(list.len() == data.len());
    assert forall|i: int, j: int|
        #![trigger data[i], data[j]]
        0 <= i < j < data.len() implies !same_calls(data[i].0, data[j].0) by {
        let x = lemma_entry_of_key(records, value, data[i].0@.key());
        assert(list[i].0 == data[i].0@ && list[j].0 == data[j].0@);
        lemma_same_key(data[i].0, data[j].0);
    }
    assert forall|k: int| 0 <= k < data.len() implies #[trigger] tells_record(
        data,
        records,
        value,
        k,
    ) by {
        let key = data[k].0@.key();
        let i = lemma_entry_of_key(records, value, key);
        assert(list[k] == (data[k].0@, data[k].1));
        assert(is_entry::<Frames>(list, key, k));
        let p = entry_index::<Frames>(list, key);
        assert(is_entry::<Frames>(list, key, p));
        assert(p == k) by {
            if p < k {
                assert(list[p].0.key() != list[k].0.key());
            } else if k < p {
                assert(list[k].0.key() != list[p].0.key());
            }
        }
        lemma_same_key(data[k].0, records[i].frames);
        assert(stands_for(data[k], records, value, i));
    }
    assert forall|i: int| 0 <= i < records.len() && value(#[trigger] records[i]) > 0 implies exists|
        k: int,
    | 0 <= k < data.len() && same_calls((#[trigger] data[k]).0, records[i].frames) by {
        let key = records[i].frames@.key();
        let x = lemma_entry_of_key(records, value, key);
        let k = entry_index::<Frames>(list, key);
        assert(is_entry::<Frames>(list, key, k));
        assert(list[k].0 == data[k].0@);
        lemma_same_key(data[k].0, records[i].frames);
    }
}

/// The reports of live and of allocated bytes hold each stack that has some, with the bytes
/// of its last record; they are dated as the heap report, of no duration, at the sampling
/// interval in place of a frequency.
pub proof fn law_heap_converted(report: &HeapReport, inuse: Report, allocated: Report)
    requires
        call_ensures(HeapReport::to_inuse_report, (report,), inuse),
        call_ensures(HeapReport::to_alloc_report, (report,), allocated),
    ensures
        weighs(inuse.data@, report.records@, live_bytes()),
        weighs(allocated.data@, report.records@, allocated_bytes()),
        inuse.timing == allocated.timing,
        inuse.timing.frequency == report.sample_rate as i32,
        inuse.timing.start_time == report.timestamp,
        inuse.timing.duration.secs == 0 && inuse.timing.duration.nanos == 0,
        inuse.timing.clock_type == ClockType::Cpu,
        inuse.missed_samples == 0 && allocated.missed_samples == 0,
{
    lemma_entries_of(report.records@);
    lemma_weighs(inuse.data@, report.records@, live_bytes());
    lemma_weighs(allocated.data@, report.records@, allocated_bytes());
}

/// A copy of a heap report holds the same.
pub proof fn law_heap_report_copied(report: &HeapReport, r: HeapReport)
    requires
        call_ensures(<HeapReport as Clone>::clone, (report,), r),
    ensures
        r.sample_rate == report.sample_rate && r.timestamp == report.timestamp,
        r.records@.len() == report.records@.len(),
        forall|i: int|
            0 <= i < r.records@.len() ==> {
                let a = #[trigger] r.records@[i];
                let b = report.records@[i];
                &&& a.alloc_objects == b.alloc_objects && a.alloc_bytes == b.alloc_bytes
                &&& a.inuse_objects == b.inuse_objects && a.inuse_bytes == b.inuse_bytes
                &&& calls(a.frames).map_values(|s: Symbol| s@) == calls(b.frames).map_values(
                    |s: Symbol| s@,
                )
            },
{
    let x = crate::heap_report::records_view(r.records@);
    let y = crate::heap_report::records_view(report.records@);
    assert(x.len() == r.records@.len() && y.len() == report.records@.len());
    assert forall|i: int| 0 <= i < r.records@.len() implies {
        let a = #[trigger] r.records@[i];
        let b = report.records@[i];
        &&& a.alloc_objects == b.alloc_objects && a.alloc_bytes == b.alloc_bytes
        &&& a.inuse_objects == b.inuse_objects && a.inuse_bytes == b.inuse_bytes
        &&& calls(a.frames).map_values(|s: Symbol| s@) == calls(b.frames).map_values(
            |s: Symbol| s@,
        )
    } by {
        assert(x[i] == y[i]);
        assert(x[i] == r.records@[i]@ && y[i] == report.records@[i]@);
        lemma_calls(r.records@[i].frames);
        lemma_calls(report.records@[i].frames);
    }
}

} // verus!
