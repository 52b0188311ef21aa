//! Snapshots of a heap profile.

use vstd::prelude::*;

use crate::error::Error;
use crate::frames::{Frames, FramesKey, FramesView, Symbol, SymbolView};
use crate::heap::{AllocCounts, HeapState, SiteView};
use crate::pprof::{heap_profile, profile_of_heap, stacks_view, StackText, StackTextView};
use crate::protos::Profile;
use crate::report::Report;
use crate::resolve::{
    all_found, keep_resolved, lemma_resolved_len, parts_view, resolve_addresses, resolved_frames,
};
use crate::sampler::AllocControl;
use crate::tally::{
    distinct, entry_index, has_key, is_entry, law_with_count, models, positive_total, set_count,
    with_count,
};
use crate::timer::{ClockType, Duration, ReportTiming, Timestamp};
use crate::MAX_DEPTH;

verus! {

/// A single callsite entry in a heap profile report.
#[derive(Debug)]
pub struct HeapRecord {
    pub frames: Frames,
    pub alloc_objects: u64,
    pub alloc_bytes: u64,
    pub inuse_objects: i64,
    pub inuse_bytes: i64,
}

/// The contents of a `HeapRecord`.
#[verifier::ext_equal]
pub struct HeapRecordView {
    pub frames: FramesView,
    pub counts: AllocCounts,
}

impl View for HeapRecord {
    type V = HeapRecordView;

    open spec fn view(&self) -> HeapRecordView {
        HeapRecordView {
            frames: self.frames@,
            counts: AllocCounts {
                alloc_objects: self.alloc_objects,
                alloc_bytes: self.alloc_bytes,
                inuse_objects: self.inuse_objects,
                inuse_bytes: self.inuse_bytes,
            },
        }
    }
}

impl Clone for HeapRecord {
    fn clone(&self) -> (r: Self)
        ensures
            r@ == self@,
    {
        HeapRecord {
            frames: self.frames.clone(),
            alloc_objects: self.alloc_objects,
            alloc_bytes: self.alloc_bytes,
            inuse_objects: self.inuse_objects,
            inuse_bytes: self.inuse_bytes,
        }
    }
}

/// A collected heap profile containing allocation and in-use memory records.
#[derive(Debug)]
pub struct HeapReport {
    pub records: Vec<HeapRecord>,
    pub sample_rate: usize,
    pub timestamp: Timestamp,
}

/// The contents of a list of records.
pub open spec fn records_view(records: Seq<HeapRecord>) -> Seq<HeapRecordView> {
    Seq::new(records.len(), |i: int| records[i]@)
}

impl Clone for HeapReport {
    fn clone(&self) -> (r: Self)
        ensures
            records_view(r.records@) == records_view(self.records@),
            r.sample_rate == self.sample_rate,
            r.timestamp == self.timestamp,
    {
        let mut records: Vec<HeapRecord> = Vec::new();
        let mut i: usize = 0;
        while i < self.records.len()
            invariant
                i <= self.records@.len(),
                records@.len() == i,
                forall|k: int| 0 <= k < i ==> (#[trigger] records@[k])@ == self.records@[k]@,
            decreases self.records@.len() - i,
        {
            records.push(self.records[i].clone());
            i += 1;
        }
        assert(records_view(records@) =~= records_view(self.records@));
        HeapReport { records, sample_rate: self.sample_rate, timestamp: self.timestamp }
    }
}

/// The live bytes of all records; a record below zero counts as nothing.
pub open spec fn inuse_total(records: Seq<HeapRecordView>) -> nat
    decreases records.len(),
{
    if records.len() == 0 {
        0
    } else {
        inuse_total(records.drop_last()) + (if records.last().counts.inuse_bytes > 0 {
            records.last().counts.inuse_bytes as nat
        } else {
            0
        })
    }
}

/// The allocated bytes of all records.
pub open spec fn alloc_total(records: Seq<HeapRecordView>) -> nat
    decreases records.len(),
{
    if records.len() == 0 {
        0
    } else {
        alloc_total(records.drop_last()) + records.last().counts.alloc_bytes as nat
    }
}

/// The stacks that hold live bytes, with those bytes. Of records of one stack the
/// last one stands.
pub open spec fn inuse_entries(records: Seq<HeapRecordView>) -> Seq<(FramesView, isize)>
    decreases records.len(),
{
    if records.len() == 0 {
        Seq::empty()
    } else {
        let before = inuse_entries(records.drop_last());
        let last = records.last();
        if last.counts.inuse_bytes > 0 {
            with_count::<Frames>(before, last.frames, last.counts.inuse_bytes as isize)
        } else {
            before
        }
    }
}

/// The stacks that have allocated, with the bytes. Of records of one stack the last
/// one stands.
pub open spec fn alloc_entries(records: Seq<HeapRecordView>) -> Seq<(FramesView, isize)>
    decreases records.len(),
{
    if records.len() == 0 {
        Seq::empty()
    } else {
        let before = alloc_entries(records.drop_last());
        let last = records.last();
        if last.counts.alloc_bytes > 0 {
            with_count::<Frames>(before, last.frames, last.counts.alloc_bytes as isize)
        } else {
            before
        }
    }
}

/// The texts of the stacks of all records.
pub open spec fn record_texts(records: Seq<HeapRecordView>) -> Seq<StackTextView> {
    Seq::new(records.len(), |i: int| records[i].frames.text())
}

/// The counters of all records.
pub open spec fn record_counts(records: Seq<HeapRecordView>) -> Seq<AllocCounts> {
    Seq::new(records.len(), |i: int| records[i].counts)
}

proof fn lemma_inuse_total_grows(records: Seq<HeapRecordView>, i: int)
    requires
        0 <= i <= records.len(),
    ensures
        inuse_total(records.take(i)) <= inuse_total(records),
    decreases records.len() - i,
{
    if i < records.len() {
        lemma_inuse_total_grows(records, i + 1);
        assert(records.take(i + 1).drop_last() =~= records.take(i));
    } else {
        assert(records.take(i) =~= records);
    }
}

proof fn lemma_alloc_total_grows(records: Seq<HeapRecordView>, i: int)
    requires
        0 <= i <= records.len(),
    ensures
        alloc_total(records.take(i)) <= alloc_total(records),
    decreases records.len() - i,
{
    if i < records.len() {
        lemma_alloc_total_grows(records, i + 1);
        assert(records.take(i + 1).drop_last() =~= records.take(i));
    } else {
        assert(records.take(i) =~= records);
    }
}

impl HeapReport {
    /// The records.
    pub open spec fn entries(&self) -> Seq<HeapRecordView> {
        records_view(self.records@)
    }

    /// The live bytes of all records; `None` where the sum is too large to tell.
    pub fn checked_inuse_bytes(&self) -> (r: Option<i64>)
        ensures
            r is Some <==> inuse_total(self.entries()) <= i64::MAX,
            r matches Some(n) ==> n == inuse_total(self.entries()),
    {
        let ghost records = self.entries();
        let mut total: i64 = 0;
        let mut i: usize = 0;
        assert(records.take(0) =~= Seq::empty());
        while i < self.records.len()
            invariant
                i <= self.records@.len(),
                records == self.entries(),
                total == inuse_total(records.take(i as int)),
            decreases self.records@.len() - i,
        {
            let bytes: i64 = self.records[i].inuse_bytes;
            proof {
                assert(records.take(i + 1).drop_last() =~= records.take(i as int));
                assert(records.take(i + 1).last() == records[i as int]);
                lemma_inuse_total_grows(records, i + 1);
            }
            if bytes > 0 {
                if bytes > i64::MAX - total {
                    return None;
                }
                total = total + bytes;
            }
            i += 1;
        }
        assert(records.take(i as int) =~= records);
        Some(total)
    }

    /// Total live bytes across all recorded stack traces.
    pub fn total_inuse_bytes(&self) -> (r: i64)
        requires
            inuse_total(self.entries()) <= i64::MAX,
        ensures
            r == inuse_total(self.entries()),
    {
        match self.checked_inuse_bytes() {
            Some(n) => n,
            None => 0,
        }
    }

    /// The allocated bytes of all records; `None` where the sum is too large to tell.
    pub fn checked_alloc_bytes(&self) -> (r: Option<u64>)
        ensures
            r is Some <==> alloc_total(self.entries()) <= u64::MAX,
            r matches Some(n) ==> n == alloc_total(self.entries()),
    {
        let ghost records = self.entries();
        let mut total: u64 = 0;
        let mut i: usize = 0;
        assert(records.take(0) =~= Seq::empty());
        while i < self.records.len()
            invariant
                i <= self.records@.len(),
                records == self.entries(),
                total == alloc_total(records.take(i as int)),
            decreases self.records@.len() - i,
        {
            let bytes: u64 = self.records[i].alloc_bytes;
            proof {
                assert(records.take(i + 1).drop_last() =~= records.take(i as int));
                assert(records.take(i + 1).last() == records[i as int]);
                lemma_alloc_total_grows(records, i + 1);
            }
            if bytes > u64::MAX - total {
                return None;
            }
            total = total + bytes;
            i += 1;
        }
        assert(records.take(i as int) =~= records);
        Some(total)
    }

    /// Total cumulative allocated bytes across all recorded stack traces.
    pub fn total_alloc_bytes(&self) -> (r: u64)
        requires
            alloc_total(self.entries()) <= u64::MAX,
        ensures
            r == alloc_total(self.entries()),
    {
        match self.checked_alloc_bytes() {
            Some(n) => n,
            None => 0,
        }
    }

    /// The timing of a report that is made of this one.
    pub open spec fn report_timing(&self) -> ReportTiming {
        ReportTiming {
            frequency: self.sample_rate as i32,
            start_time: self.timestamp,
            duration: Duration { secs: 0, nanos: 0 },
            clock_type: ClockType::Cpu,
        }
    }

    fn timing(&self) -> (r: ReportTiming)
        ensures
            r == self.report_timing(),
    {
        ReportTiming {
            frequency: self.sample_rate as i32,
            start_time: self.timestamp,
            duration: Duration::from_secs(0),
            clock_type: ClockType::Cpu,
        }
    }

    /// Converts in-use (live) heap allocations into a standard `Report` in bytes.
    pub fn to_inuse_report(&self) -> (r: Report)
        ensures
            r.entries() == inuse_entries(self.entries()),
            r.wf(),
            r.timing == self.report_timing(),
            r.missed_samples == 0,
    {
        let ghost records = self.entries();
        let mut data: Vec<(Frames, isize)> = Vec::new();
        let mut i: usize = 0;
        assert(models(data@) =~= inuse_entries(records.take(0)));
        while i < self.records.len()
            invariant
                i <= self.records@.len(),
                records == self.entries(),
                models(data@) == inuse_entries(records.take(i as int)),
                distinct::<Frames>(models(data@)),
            decreases self.records@.len() - i,
        {
            let record = &self.records[i];
            proof {
                assert(records.take(i + 1).drop_last() =~= records.take(i as int));
                assert(records.take(i + 1).last() == record@);
            }
            if record.inuse_bytes > 0 {
                set_count(&mut data, record.frames.clone(), record.inuse_bytes as isize);
            }
            i += 1;
        }
        assert(records.take(i as int) =~= records);
        Report { data, timing: self.timing(), missed_samples: 0 }
    }

    /// Converts cumulative allocated heap memory into a standard `Report` in bytes.
    pub fn to_alloc_report(&self) -> (r: Report)
        ensures
            r.entries() == alloc_entries(self.entries()),
            r.wf(),
            r.timing == self.report_timing(),
            r.missed_samples == 0,
    {
        let ghost records = self.entries();
        let mut data: Vec<(Frames, isize)> = Vec::new();
        let mut i: usize = 0;
        assert(models(data@) =~= alloc_entries(records.take(0)));
        while i < self.records.len()
            invariant
                i <= self.records@.len(),
                records == self.entries(),
                models(data@) == alloc_entries(records.take(i as int)),
                distinct::<Frames>(models(data@)),
            decreases self.records@.len() - i,
        {
            let record = &self.records[i];
            proof {
                assert(records.take(i + 1).drop_last() =~= records.take(i as int));
                assert(records.take(i + 1).last() == record@);
            }
            if record.alloc_bytes > 0 {
                set_count(&mut data, record.frames.clone(), record.alloc_bytes as isize);
            }
            i += 1;
        }
        assert(records.take(i as int) =~= records);
        Report { data, timing: self.timing(), missed_samples: 0 }
    }

    /// The report in the pprof format, with the sample types `alloc_objects`,
    /// `alloc_space`, `inuse_objects` and `inuse_space`.
    pub fn pprof(&self) -> (r: Result<Profile, Error>)
        ensures
            r matches Ok(profile) && profile@ == heap_profile(
                record_texts(self.entries()),
                record_counts(self.entries()),
                self.sample_rate,
                self.timestamp,
            ),
    {
        let ghost records = self.entries();
        let mut stacks: Vec<StackText> = Vec::new();
        let mut list: Vec<AllocCounts> = Vec::new();
        let mut i: usize = 0;
        while i < self.records.len()
            invariant
                i <= self.records@.len(),
                records == self.entries(),
                stacks@.len() == i,
                list@.len() == i,
                forall|k: int| 0 <= k < i ==> (#[trigger] stacks@[k])@ == records[k].frames.text(),
                forall|k: int| 0 <= k < i ==> #[trigger] list@[k] == records[k].counts,
            decreases self.records@.len() - i,
        {
            let record = &self.records[i];
            stacks.push(record.frames.text());
            list.push(
                AllocCounts {
                    alloc_objects: record.alloc_objects,
                    alloc_bytes: record.alloc_bytes,
                    inuse_objects: record.inuse_objects,
                    inuse_bytes: record.inuse_bytes,
                },
            );
            i += 1;
        }
        assert(stacks_view(stacks@) =~= record_texts(records));
        assert(list@ =~= record_counts(records));
        Ok(profile_of_heap(&stacks, &list, self.sample_rate, &self.timestamp))
    }
}

/// The record of a callsite whose addresses have the given symbols.
pub open spec fn record_of(
    parts: Seq<Seq<SymbolView>>,
    counts: AllocCounts,
    at: Timestamp,
) -> HeapRecordView {
    HeapRecordView {
        frames: FramesView {
            frames: resolved_frames(parts),
            thread_name: Seq::empty(),
            thread_id: 0,
            sample_timestamp: at,
        },
        counts,
    }
}

/// Makes the record of a callsite whose addresses have the given symbols.
pub fn make_record(parts: Vec<Vec<Symbol>>, counts: AllocCounts, at: Timestamp) -> (r: HeapRecord)
    ensures
        r@ == record_of(parts_view(parts@), counts, at),
{
    let ghost all = parts_view(parts@);
    let frames = keep_resolved(parts);
    let r = HeapRecord {
        frames: Frames {
            frames,
            thread_name: String::new(),
            thread_id: 0,
            sample_timestamp: at,
        },
        alloc_objects: counts.alloc_objects,
        alloc_bytes: counts.alloc_bytes,
        inuse_objects: counts.inuse_objects,
        inuse_bytes: counts.inuse_bytes,
    };
    assert(r@.frames.frames =~= parts_view(frames@));
    assert(r@ =~= record_of(all, counts, at));
    r
}

/// Whether `record` can be the record of a callsite: its frames are the symbols that
/// were found for its addresses, at a time that the clock told.
pub open spec fn is_record_of<C: Fn() -> Timestamp>(
    record: HeapRecordView,
    site: SiteView,
    clock: C,
) -> bool {
    exists|parts: Seq<Seq<SymbolView>>, at: Timestamp|
        {
            &&& #[trigger] all_found(site.ips, parts)
            &&& #[trigger] call_ensures(clock, (), at)
            &&& record == record_of(parts, site.counts, at)
        }
}

/// Takes a snapshot of recorded heap allocations and resolves symbol information: one
/// record for each callsite, in the order in which they were first seen.
pub fn heap_report<C: Fn() -> Timestamp>(
    state: &HeapState,
    control: &AllocControl,
    clock: C,
) -> (r: Result<HeapReport, Error>)
    requires
        call_requires(clock, ()),
    ensures
        r matches Ok(report) && {
            &&& report.sample_rate == control.sample_rate
            &&& call_ensures(clock, (), report.timestamp)
            &&& report.entries().len() == state@.sites.len()
            &&& record_counts(report.entries()) == state@.counts()
            &&& state.wf() ==> forall|i: int|
                0 <= i < state@.sites.len() ==> (
                #[trigger] report.entries()[i]).frames.frames.len() <= MAX_DEPTH
            &&& forall|i: int|
                0 <= i < state@.sites.len() ==> is_record_of(
                    #[trigger] report.entries()[i],
                    state@.sites[i],
                    clock,
                )
        },
{
    let mut records: Vec<HeapRecord> = Vec::new();
    let mut i: usize = 0;
    while i < state.site_count()
        invariant
            i <= state@.sites.len(),
            call_requires(clock, ()),
            records@.len() == i,
            forall|k: int|
                0 <= k < i ==> is_record_of((#[trigger] records@[k])@, state@.sites[k], clock),
        decreases state@.sites.len() - i,
    {
        let parts = resolve_addresses(state.site_ips(i));
        let ghost found = parts_view(parts@);
        assert(all_found(state@.sites[i as int].ips, found));
        let at = clock();
        let record = make_record(parts, state.site_counts(i), at);
        assert(is_record_of(record@, state@.sites[i as int], clock));
        records.push(record);
        i += 1;
    }
    let report = HeapReport { records, sample_rate: control.sample_rate, timestamp: clock() };
    proof {
        assert forall|k: int| 0 <= k < state@.sites.len() implies {
            &&& (#[trigger] report.entries()[k]).counts == state@.sites[k].counts
            &&& report.entries()[k].frames.frames.len() <= state@.sites[k].ips.len()
        } by {
            assert(is_record_of(records@[k]@, state@.sites[k], clock));
            let (parts, at) = choose|parts: Seq<Seq<SymbolView>>, at: Timestamp|
                {
                    &&& #[trigger] all_found(state@.sites[k].ips, parts)
                    &&& #[trigger] call_ensures(clock, (), at)
                    &&& records@[k]@ == record_of(parts, state@.sites[k].counts, at)
                };
            lemma_resolved_len(parts);
        }
        assert(record_counts(report.entries()) =~= state@.counts());
    }
    Ok(report)
}

/// Whether no two records have the same stack.
pub open spec fn distinct_records(records: Seq<HeapRecordView>) -> bool {
    forall|i: int, j: int|
        #![trigger records[i], records[j]]
        0 <= i < j < records.len() ==> records[i].frames.key() != records[j].frames.key()
}

proof fn lemma_entries_keys(records: Seq<HeapRecordView>, entries: Seq<(FramesView, isize)>)
    requires
        entries == inuse_entries(records) || entries == alloc_entries(records),
    ensures
        distinct::<Frames>(entries),
        forall|key: FramesKey| #[trigger]
            has_key::<Frames>(entries, key) ==> exists|i: int|
                0 <= i < records.len() && (#[trigger] records[i]).frames.key() == key,
    decreases records.len(),
{
    if records.len() > 0 {
        let shorter = records.drop_last();
        let last = records.last();
        lemma_entries_keys(shorter, inuse_entries(shorter));
        lemma_entries_keys(shorter, alloc_entries(shorter));
        assert forall|key: FramesKey| #[trigger] has_key::<Frames>(entries, key) implies exists|
            i: int,
        | 0 <= i < records.len() && (#[trigger] records[i]).frames.key() == key by {
            law_with_count::<Frames>(
                inuse_entries(shorter),
                last.frames,
                last.counts.inuse_bytes as isize,
                key,
            );
            law_with_count::<Frames>(
                alloc_entries(shorter),
                last.frames,
                last.counts.alloc_bytes as isize,
                key,
            );
            if last.frames.key() == key {
                assert(records[records.len() - 1].frames.key() == key);
            } else if has_key::<Frames>(inuse_entries(shorter), key) {
                let i = choose|i: int|
                    0 <= i < shorter.len() && (#[trigger] shorter[i]).frames.key() == key;
                assert(records[i].frames.key() == key);
            } else {
                let i = choose|i: int|
                    0 <= i < shorter.len() && (#[trigger] shorter[i]).frames.key() == key;
                assert(records[i].frames.key() == key);
            }
        }
        law_with_count::<Frames>(
            inuse_entries(shorter),
            last.frames,
            last.counts.inuse_bytes as isize,
            last.frames.key(),
        );
        law_with_count::<Frames>(
            alloc_entries(shorter),
            last.frames,
            last.counts.alloc_bytes as isize,
            last.frames.key(),
        );
    } else {
        assert forall|key: FramesKey| #[trigger] has_key::<Frames>(entries, key) implies false by {
            let i = entry_index::<Frames>(entries, key);
            assert(is_entry::<Frames>(entries, key, i));
        }
    }
}

/// The in-use report of records of distinct stacks tells the same live bytes, as long as
/// those of each record fit in a count.
pub proof fn law_inuse_report_total(records: Seq<HeapRecordView>)
    requires
        distinct_records(records),
        forall|i: int|
            0 <= i < records.len() ==> (#[trigger] records[i]).counts.inuse_bytes <= isize::MAX,
    ensures
        positive_total(inuse_entries(records)) == inuse_total(records),
    decreases records.len(),
{
    if records.len() > 0 {
        let shorter = records.drop_last();
        let last = records.last();
        assert(distinct_records(shorter)) by {
            assert forall|i: int, j: int|
                #![trigger shorter[i], shorter[j]]
                0 <= i < j < shorter.len() implies shorter[i].frames.key()
                != shorter[j].frames.key() by {
                assert(records[i].frames.key() != records[j].frames.key());
            }
        }
        assert forall|i: int| 0 <= i < shorter.len() implies (
        #[trigger] shorter[i]).counts.inuse_bytes <= isize::MAX by {
            assert(records[i].counts.inuse_bytes <= isize::MAX);
        }
        assert(records[records.len() - 1].counts.inuse_bytes <= isize::MAX);
        law_inuse_report_total(shorter);
        let before = inuse_entries(shorter);
        lemma_entries_keys(shorter, before);
        if last.counts.inuse_bytes > 0 {
            assert(!has_key::<Frames>(before, last.frames.key())) by {
                if has_key::<Frames>(before, last.frames.key()) {
                    let i = choose|i: int|
                        0 <= i < shorter.len() && (#[trigger] shorter[i]).frames.key()
                            == last.frames.key();
                    assert(records[i].frames.key() != records[records.len() - 1].frames.key());
                }
            }
            let entry = (last.frames, last.counts.inuse_bytes as isize);
            assert(before.push(entry).drop_last() =~= before);
        }
    }
}

/// The allocation report of records of distinct stacks tells the same allocated bytes, as
/// long as those of each record fit in a count.
pub proof fn law_alloc_report_total(records: Seq<HeapRecordView>)
    requires
        distinct_records(records),
        forall|i: int|
            0 <= i < records.len() ==> (#[trigger] records[i]).counts.alloc_bytes <= isize::MAX,
    ensures
        positive_total(alloc_entries(records)) == alloc_total(records),
    decreases records.len(),
{
    if records.len() > 0 {
        let shorter = records.drop_last();
        let last = records.last();
        assert(distinct_records(shorter)) by {
            assert forall|i: int, j: int|
                #![trigger shorter[i], shorter[j]]
                0 <= i < j < shorter.len() implies shorter[i].frames.key()
                != shorter[j].frames.key() by {
                assert(records[i].frames.key() != records[j].frames.key());
            }
        }
        assert forall|i: int| 0 <= i < shorter.len() implies (
        #[trigger] shorter[i]).counts.alloc_bytes <= isize::MAX by {
            assert(records[i].counts.alloc_bytes <= isize::MAX);
        }
        assert(records[records.len() - 1].counts.alloc_bytes <= isize::MAX);
        law_alloc_report_total(shorter);
        let before = alloc_entries(shorter);
        lemma_entries_keys(shorter, before);
        if last.counts.alloc_bytes > 0 {
            assert(!has_key::<Frames>(before, last.frames.key())) by {
                if has_key::<Frames>(before, last.frames.key()) {
                    let i = choose|i: int|
                        0 <= i < shorter.len() && (#[trigger] shorter[i]).frames.key()
                            == last.frames.key();
                    assert(records[i].frames.key() != records[records.len() - 1].frames.key());
                }
            }
            let entry = (last.frames, last.counts.alloc_bytes as isize);
            assert(before.push(entry).drop_last() =~= before);
        }
    }
}

} // verus!
