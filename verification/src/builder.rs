//! Building reports from collected samples.

use vstd::prelude::*;

use crate::error::Error;
use crate::frames::{Frames, FramesKey, FramesView, UnresolvedFrames};
use crate::report::{Report, UnresolvedReport};
use crate::resolve::{is_resolved, resolve_frames};
use crate::tally::{
    count_of, has_key, is_entry, law_merged_counts, law_merged_positive, law_merged_total, merge,
    merged, models, positive_total, sums_fit, Stack,
};
use crate::timer::ReportTiming;

verus! {

/// What a profiler has collected.
#[derive(Debug)]
pub enum Collected {
    /// The profiler could not be created.
    NotCreated,
    /// The samples could not be read; the operating system's error code.
    Unreadable(i32),
    /// The samples, each with the number of times that it was seen.
    Entries(Vec<(UnresolvedFrames, isize)>),
}

/// A builder of `Report` and `UnresolvedReport` from what a profiler has collected.
pub struct ReportBuilder<P> {
    pub frames_post_processor: Option<P>,
    pub profiler: Collected,
    pub timing: ReportTiming,
    pub missed_samples: u64,
}

/// The entries with a positive count.
pub open spec fn seen(entries: Seq<(UnresolvedFrames, isize)>) -> Seq<(UnresolvedFrames, isize)>
    decreases entries.len(),
{
    if entries.len() == 0 {
        Seq::empty()
    } else if entries.last().1 > 0 {
        seen(entries.drop_last()).push(entries.last())
    } else {
        seen(entries.drop_last())
    }
}

/// Stacks with the counts of the entries that they were made from.
pub open spec fn counted(
    stacks: Seq<Frames>,
    entries: Seq<(UnresolvedFrames, isize)>,
) -> Seq<(FramesView, isize)> {
    Seq::new(stacks.len(), |i: int| (stacks[i]@, entries[i].1))
}

/// Whether `r` is the report of the stacks with the counts of the entries: the stacks
/// merged, or the error where the sum of one is too large to tell.
pub open spec fn is_report_of(
    r: Result<Report, Error>,
    stacks: Seq<Frames>,
    entries: Seq<(UnresolvedFrames, isize)>,
    timing: ReportTiming,
    missed_samples: u64,
) -> bool {
    match r {
        Ok(report) => {
            &&& sums_fit::<Frames>(counted(stacks, entries))
            &&& report.entries() == merged::<Frames>(counted(stacks, entries))
            &&& report.wf()
            &&& report.timing == timing
            &&& report.missed_samples == missed_samples
        },
        Err(error) => {
            &&& !sums_fit::<Frames>(counted(stacks, entries))
            &&& error == Error::CountOverflow
        },
    }
}

impl<P: Fn(Frames) -> Frames> ReportBuilder<P> {
    /// Whether `stack` can come of an entry: it is what `resolve` made of it, put
    /// through the post-processor where there is one.
    pub open spec fn comes_of<R: Fn(&UnresolvedFrames) -> Frames>(
        &self,
        resolve: R,
        item: UnresolvedFrames,
        stack: Frames,
    ) -> bool {
        match self.frames_post_processor {
            None => call_ensures(resolve, (&item,), stack),
            Some(processor) => exists|raw: Frames| #[trigger]
                call_ensures(resolve, (&item,), raw) && call_ensures(processor, (raw,), stack),
        }
    }

    /// Whether `stack` can come of an entry whose symbols are those that were found.
    pub open spec fn found(&self, item: UnresolvedFrames, stack: Frames) -> bool {
        match self.frames_post_processor {
            None => is_resolved(item@, stack@),
            Some(processor) => exists|raw: Frames| #[trigger]
                is_resolved(item@, raw@) && call_ensures(processor, (raw,), stack),
        }
    }

    /// Whether the stacks can come of the entries with the symbols that were found, one
    /// of each, in order.
    pub open spec fn all_found(
        &self,
        entries: Seq<(UnresolvedFrames, isize)>,
        stacks: Seq<Frames>,
    ) -> bool {
        &&& stacks.len() == entries.len()
        &&& forall|i: int|
            0 <= i < stacks.len() ==> self.found(entries[i].0, #[trigger] stacks[i])
    }

    /// Whether the stacks can come of the entries, one of each, in order.
    pub open spec fn all_come_of<R: Fn(&UnresolvedFrames) -> Frames>(
        &self,
        resolve: R,
        entries: Seq<(UnresolvedFrames, isize)>,
        stacks: Seq<Frames>,
    ) -> bool {
        &&& stacks.len() == entries.len()
        &&& forall|i: int|
            0 <= i < stacks.len() ==> self.comes_of(resolve, entries[i].0, #[trigger] stacks[i])
    }

    pub fn new(profiler: Collected, timing: ReportTiming, missed_samples: u64) -> (r: Self)
        ensures
            r == (ReportBuilder {
                frames_post_processor: None::<P>,
                profiler,
                timing,
                missed_samples,
            }),
    {
        ReportBuilder { frames_post_processor: None, profiler, timing, missed_samples }
    }

    /// Sets the function that is applied to every stack before a report is built.
    pub fn frames_post_processor(&mut self, frames_post_processor: P) -> (r: &mut Self)
        ensures
            *r == (ReportBuilder {
                frames_post_processor: Some(frames_post_processor),
                ..*old(self)
            }),
            *final(self) == *final(r),
    {
        self.frames_post_processor = Some(frames_post_processor);
        self
    }

    /// Builds an `UnresolvedReport`.
    pub fn build_unresolved(&self) -> (r: Result<UnresolvedReport, Error>)
        ensures
            match self.profiler {
                Collected::NotCreated => r == Err::<UnresolvedReport, Error>(Error::CreatingError),
                Collected::Unreadable(code) => r == Err::<UnresolvedReport, Error>(
                    Error::IoError(code),
                ),
                Collected::Entries(entries) => match r {
                    Ok(report) => {
                        &&& sums_fit::<UnresolvedFrames>(models(entries@))
                        &&& report.entries() == merged::<UnresolvedFrames>(models(entries@))
                        &&& report.wf()
                        &&& report.timing == self.timing
                        &&& report.missed_samples == self.missed_samples
                    },
                    Err(error) => {
                        &&& !sums_fit::<UnresolvedFrames>(models(entries@))
                        &&& error == Error::CountOverflow
                    },
                },
            },
    {
        match &self.profiler {
            Collected::NotCreated => Err(Error::CreatingError),
            Collected::Unreadable(code) => Err(Error::IoError(*code)),
            Collected::Entries(entries) => match merge(entries) {
                Some(data) => Ok(
                    UnresolvedReport {
                        data,
                        timing: self.timing,
                        missed_samples: self.missed_samples,
                    },
                ),
                None => Err(Error::CountOverflow),
            },
        }
    }

    /// Builds a `Report`: the symbols of each sample that was seen are found, the
    /// post-processor is applied, and equal stacks are counted together.
    pub fn build(&self) -> (r: Result<Report, Error>)
        requires
            self.frames_post_processor matches Some(processor) ==> forall|frames: Frames| #[trigger]
                call_requires(processor, (frames,)),
        ensures
            match self.profiler {
                Collected::NotCreated => r == Err::<Report, Error>(Error::CreatingError),
                Collected::Unreadable(code) => r == Err::<Report, Error>(Error::IoError(code)),
                Collected::Entries(entries) => exists|stacks: Seq<Frames>|
                    {
                        &&& #[trigger] self.all_found(seen(entries@), stacks)
                        &&& is_report_of(
                            r,
                            stacks,
                            seen(entries@),
                            self.timing,
                            self.missed_samples,
                        )
                    },
            },
    {
        let resolve = |item: &UnresolvedFrames| -> (raw: Frames)
            ensures
                is_resolved(item@, raw@),
            { resolve_frames(item) };
        let r = self.build_with(resolve);
        proof {
            if let Collected::Entries(entries) = &self.profiler {
                let list = seen(entries@);
                assert forall|stacks: Seq<Frames>| #[trigger]
                    self.all_come_of(resolve, list, stacks) implies self.all_found(list, stacks) by {
                    assert forall|i: int| 0 <= i < stacks.len() implies self.found(
                        list[i].0,
                        #[trigger] stacks[i],
                    ) by {
                        assert(self.comes_of(resolve, list[i].0, stacks[i]));
                    }
                }
            }
        }
        r
    }

    /// Builds a `Report`: each sample that was seen is resolved, put through the
    /// post-processor, and counted.
    pub fn build_with<R: Fn(&UnresolvedFrames) -> Frames>(&self, resolve: R) -> (r: Result<
        Report,
        Error,
    >)
        requires
            forall|item: &UnresolvedFrames| #[trigger] call_requires(resolve, (item,)),
            self.frames_post_processor matches Some(processor) ==> forall|frames: Frames| #[trigger]
                call_requires(processor, (frames,)),
        ensures
            match self.profiler {
                Collected::NotCreated => r == Err::<Report, Error>(Error::CreatingError),
                Collected::Unreadable(code) => r == Err::<Report, Error>(Error::IoError(code)),
                Collected::Entries(entries) => exists|stacks: Seq<Frames>|
                    {
                        &&& #[trigger] self.all_come_of(resolve, seen(entries@), stacks)
                        &&& is_report_of(
                            r,
                            stacks,
                            seen(entries@),
                            self.timing,
                            self.missed_samples,
                        )
                    },
            },
    {
        match &self.profiler {
            Collected::NotCreated => Err(Error::CreatingError),
            Collected::Unreadable(code) => Err(Error::IoError(*code)),
            Collected::Entries(entries) => {
                let ghost mut stacks: Seq<Frames> = Seq::empty();
                let mut list: Vec<(Frames, isize)> = Vec::new();
                let mut i: usize = 0;
                assert(entries@.take(0) =~= Seq::empty());
                while i < entries.len()
                    invariant
                        i <= entries@.len(),
                        forall|item: &UnresolvedFrames| #[trigger] call_requires(resolve, (item,)),
                        self.frames_post_processor matches Some(processor) ==> forall|
                            frames: Frames,
                        | #[trigger] call_requires(processor, (frames,)),
                        self.all_come_of(resolve, seen(entries@.take(i as int)), stacks),
                        list@.len() == stacks.len(),
                        forall|k: int|
                            0 <= k < list@.len() ==> (#[trigger] list@[k]) == (
                                stacks[k],
                                seen(entries@.take(i as int))[k].1,
                            ),
                    decreases entries@.len() - i,
                {
                    let count: isize = entries[i].1;
                    let ghost shorter = entries@.take(i as int);
                    let ghost longer = entries@.take(i + 1);
                    proof {
                        assert(longer.drop_last() =~= shorter);
                        assert(longer.last() == entries@[i as int]);
                    }
                    if count > 0 {
                        let raw = resolve(&entries[i].0);
                        let stack = match &self.frames_post_processor {
                            Some(processor) => processor(raw),
                            None => raw,
                        };
                        proof {
                            stacks = stacks.push(stack);
                            assert(self.comes_of(resolve, entries@[i as int].0, stack));
                        }
                        list.push((stack, count));
                    }
                    i += 1;
                }
                assert(entries@.take(i as int) =~= entries@);
                assert(models(list@) =~= counted(stacks, seen(entries@)));
                match merge(&list) {
                    Some(data) => Ok(
                        Report { data, timing: self.timing, missed_samples: self.missed_samples },
                    ),
                    None => Err(Error::CountOverflow),
                }
            },
        }
    }
}

proof fn lemma_seen_total(entries: Seq<(UnresolvedFrames, isize)>)
    ensures
        positive_total(seen(entries)) == positive_total(entries),
    decreases entries.len(),
{
    if entries.len() > 0 {
        let shorter = entries.drop_last();
        lemma_seen_total(shorter);
        assert(seen(shorter).push(entries.last()).drop_last() =~= seen(shorter));
    }
}

proof fn lemma_same_counts<M, N>(a: Seq<(M, isize)>, b: Seq<(N, isize)>)
    requires
        a.len() == b.len(),
        forall|i: int| 0 <= i < a.len() ==> (#[trigger] a[i]).1 == b[i].1,
    ensures
        positive_total(a) == positive_total(b),
    decreases a.len(),
{
    if a.len() > 0 {
        assert(a[a.len() - 1].1 == b[a.len() - 1].1);
        assert forall|i: int| 0 <= i < a.len() - 1 implies (#[trigger] a.drop_last()[i]).1
            == b.drop_last()[i].1 by {
            assert(a[i].1 == b[i].1);
        }
        lemma_same_counts(a.drop_last(), b.drop_last());
    }
}

/// Whatever the stacks are resolved to, a report has as many samples as were
/// collected.
pub proof fn law_report_total(stacks: Seq<Frames>, entries: Seq<(UnresolvedFrames, isize)>)
    requires
        stacks.len() == seen(entries).len(),
        sums_fit::<Frames>(counted(stacks, seen(entries))),
    ensures
        positive_total(merged::<Frames>(counted(stacks, seen(entries)))) == positive_total(entries),
{
    law_merged_total::<Frames>(counted(stacks, seen(entries)));
    lemma_same_counts(counted(stacks, seen(entries)), seen(entries));
    lemma_seen_total(entries);
}

/// Every stack of a report was seen.
pub proof fn law_report_seen(stacks: Seq<Frames>, entries: Seq<(UnresolvedFrames, isize)>)
    requires
        stacks.len() == seen(entries).len(),
        sums_fit::<Frames>(counted(stacks, seen(entries))),
    ensures
        ({
            let data = merged::<Frames>(counted(stacks, seen(entries)));
            forall|i: int| 0 <= i < data.len() ==> (#[trigger] data[i]).1 > 0
        }),
{
    law_merged_positive::<Frames>(counted(stacks, seen(entries)));
}

/// Every stack of an unresolved report was seen.
pub proof fn law_unresolved_report_seen(entries: Seq<(UnresolvedFrames, isize)>)
    requires
        sums_fit::<UnresolvedFrames>(models(entries)),
    ensures
        ({
            let data = merged::<UnresolvedFrames>(models(entries));
            forall|i: int| 0 <= i < data.len() ==> (#[trigger] data[i]).1 > 0
        }),
{
    law_merged_positive::<UnresolvedFrames>(models(entries));
}

/// An unresolved report has as many samples as were collected.
pub proof fn law_unresolved_report_total(entries: Seq<(UnresolvedFrames, isize)>)
    requires
        sums_fit::<UnresolvedFrames>(models(entries)),
    ensures
        positive_total(merged::<UnresolvedFrames>(models(entries))) == positive_total(entries),
{
    law_merged_total::<UnresolvedFrames>(models(entries));
    lemma_same_counts(models(entries), entries);
}

/// Whether entries that are the same stack without symbols are the same stack with
/// them.
pub open spec fn keeps_stacks(
    stacks: Seq<Frames>,
    entries: Seq<(UnresolvedFrames, isize)>,
) -> bool {
    forall|i: int, j: int|
        #![trigger stacks[i], stacks[j]]
        0 <= i < stacks.len() && 0 <= j < stacks.len() && UnresolvedFrames::key_of(entries[i].0@)
            == UnresolvedFrames::key_of(entries[j].0@) ==> stacks[i]@.key() == stacks[j]@.key()
}

/// Whether a key was seen.
proof fn lemma_merged_has<S: Stack>(entries: Seq<(S::Model, isize)>, key: S::Key)
    requires
        sums_fit::<S>(entries),
        forall|i: int| 0 <= i < entries.len() ==> (#[trigger] entries[i]).1 > 0,
    ensures
        has_key::<S>(merged::<S>(entries), key) <==> exists|i: int| is_entry::<S>(entries, key, i),
{
    law_merged_counts::<S>(entries, key);
    lemma_count_positive::<S>(entries, key);
}

proof fn lemma_count_positive<S: Stack>(entries: Seq<(S::Model, isize)>, key: S::Key)
    requires
        forall|i: int| 0 <= i < entries.len() ==> (#[trigger] entries[i]).1 > 0,
    ensures
        count_of::<S>(entries, key) > 0 <==> exists|i: int| is_entry::<S>(entries, key, i),
    decreases entries.len(),
{
    if entries.len() > 0 {
        let shorter = entries.drop_last();
        assert forall|i: int| 0 <= i < shorter.len() implies (#[trigger] shorter[i]).1 > 0 by {
            assert(entries[i].1 > 0);
        }
        lemma_count_positive::<S>(shorter, key);
        assert(entries[entries.len() - 1].1 > 0);
        if S::key_of(entries.last().0) == key {
            assert(is_entry::<S>(entries, key, entries.len() - 1));
        }
        if exists|i: int| is_entry::<S>(shorter, key, i) {
            let i = choose|i: int| is_entry::<S>(shorter, key, i);
            assert(is_entry::<S>(entries, key, i));
        }
        if exists|i: int| is_entry::<S>(entries, key, i) {
            let i = choose|i: int| is_entry::<S>(entries, key, i);
            if i < shorter.len() {
                assert(is_entry::<S>(shorter, key, i));
            }
        }
    }
}

proof fn lemma_fit_shorter<S: Stack>(entries: Seq<(S::Model, isize)>)
    requires
        sums_fit::<S>(entries),
        entries.len() > 0,
    ensures
        sums_fit::<S>(entries.drop_last()),
{
    assert forall|key: S::Key| #[trigger] count_of::<S>(entries.drop_last(), key)
        <= isize::MAX by {
        assert(count_of::<S>(entries, key) <= isize::MAX);
    }
}

proof fn lemma_no_more_stacks(stacks: Seq<Frames>, entries: Seq<(UnresolvedFrames, isize)>)
    requires
        stacks.len() == entries.len(),
        forall|i: int| 0 <= i < entries.len() ==> (#[trigger] entries[i]).1 > 0,
        keeps_stacks(stacks, entries),
        sums_fit::<Frames>(counted(stacks, entries)),
        sums_fit::<UnresolvedFrames>(models(entries)),
    ensures
        merged::<Frames>(counted(stacks, entries)).len() <= merged::<UnresolvedFrames>(
            models(entries),
        ).len(),
    decreases entries.len(),
{
    if entries.len() > 0 {
        let less_stacks = stacks.drop_last();
        let less = entries.drop_last();
        let named = counted(stacks, entries);
        let raw = models(entries);
        assert forall|i: int| 0 <= i < less.len() implies (#[trigger] less[i]).1 > 0 by {
            assert(entries[i].1 > 0);
        }
        assert(keeps_stacks(less_stacks, less)) by {
            assert forall|i: int, j: int|
                #![trigger less_stacks[i], less_stacks[j]]
                0 <= i < less_stacks.len() && 0 <= j < less_stacks.len()
                    && UnresolvedFrames::key_of(less[i].0@) == UnresolvedFrames::key_of(
                    less[j].0@,
                ) implies less_stacks[i]@.key() == less_stacks[j]@.key() by {
                assert(stacks[i]@.key() == stacks[j]@.key());
            }
        }
        assert(named.drop_last() =~= counted(less_stacks, less));
        assert(raw.drop_last() =~= models(less));
        lemma_fit_shorter::<Frames>(named);
        lemma_fit_shorter::<UnresolvedFrames>(raw);
        lemma_no_more_stacks(less_stacks, less);
        let n = entries.len() - 1;
        assert(entries[n].1 > 0);
        let raw_key = UnresolvedFrames::key_of(entries[n].0@);
        let named_key = stacks[n]@.key();
        assert forall|i: int| 0 <= i < less.len() implies (#[trigger] models(less)[i]).1 > 0 by {
            assert(entries[i].1 > 0);
        }
        assert forall|i: int| 0 <= i < less.len() implies (
        #[trigger] counted(less_stacks, less)[i]).1 > 0 by {
            assert(entries[i].1 > 0);
        }
        lemma_merged_has::<UnresolvedFrames>(models(less), raw_key);
        lemma_merged_has::<Frames>(counted(less_stacks, less), named_key);
        if has_key::<UnresolvedFrames>(merged::<UnresolvedFrames>(models(less)), raw_key) {
            let i = choose|i: int| is_entry::<UnresolvedFrames>(models(less), raw_key, i);
            assert(stacks[i]@.key() == stacks[n]@.key());
            assert(is_entry::<Frames>(counted(less_stacks, less), named_key, i));
        }
    }
}

proof fn lemma_seen_positive(entries: Seq<(UnresolvedFrames, isize)>)
    ensures
        forall|i: int| 0 <= i < seen(entries).len() ==> (#[trigger] seen(entries)[i]).1 > 0,
        merged::<UnresolvedFrames>(models(seen(entries))) == merged::<UnresolvedFrames>(
            models(entries),
        ),
        forall|key: (u64, Seq<usize>)| #[trigger]
            count_of::<UnresolvedFrames>(models(seen(entries)), key) == count_of::<
                UnresolvedFrames,
            >(models(entries), key),
    decreases entries.len(),
{
    if entries.len() > 0 {
        let shorter = entries.drop_last();
        lemma_seen_positive(shorter);
        assert(models(entries).drop_last() =~= models(shorter));
        if entries.last().1 > 0 {
            let s = seen(entries);
            assert(s.drop_last() =~= seen(shorter));
            assert(models(s).drop_last() =~= models(seen(shorter)));
            assert(models(s).last() == models(entries).last());
        }
        assert forall|key: (u64, Seq<usize>)| #[trigger]
            count_of::<UnresolvedFrames>(models(seen(entries)), key) == count_of::<
                UnresolvedFrames,
            >(models(entries), key) by {
            assert(count_of::<UnresolvedFrames>(models(seen(shorter)), key) == count_of::<
                UnresolvedFrames,
            >(models(shorter), key));
        }
    } else {
        assert(models(seen(entries)) =~= models(entries));
    }
}

/// A report and the unresolved report of the same entries have the same samples, and the
/// report has no more stacks, where entries that are the same stack without symbols are
/// the same with them.
pub proof fn law_resolving_merges(stacks: Seq<Frames>, entries: Seq<(UnresolvedFrames, isize)>)
    requires
        stacks.len() == seen(entries).len(),
        keeps_stacks(stacks, seen(entries)),
        sums_fit::<Frames>(counted(stacks, seen(entries))),
        sums_fit::<UnresolvedFrames>(models(entries)),
    ensures
        positive_total(merged::<Frames>(counted(stacks, seen(entries)))) == positive_total(
            merged::<UnresolvedFrames>(models(entries)),
        ),
        merged::<Frames>(counted(stacks, seen(entries))).len() <= merged::<UnresolvedFrames>(
            models(entries),
        ).len(),
{
    law_report_total(stacks, entries);
    law_unresolved_report_total(entries);
    lemma_seen_positive(entries);
    assert forall|key: (u64, Seq<usize>)| #[trigger]
        count_of::<UnresolvedFrames>(models(seen(entries)), key) <= isize::MAX by {
        assert(count_of::<UnresolvedFrames>(models(entries), key) <= isize::MAX);
    }
    lemma_no_more_stacks(stacks, seen(entries));
}

/// Where all samples fit in one count, no report of them is refused.
pub proof fn law_samples_that_fit(stacks: Seq<Frames>, entries: Seq<(UnresolvedFrames, isize)>)
    requires
        stacks.len() == seen(entries).len(),
        positive_total(entries) <= isize::MAX,
    ensures
        sums_fit::<Frames>(counted(stacks, seen(entries))),
        sums_fit::<UnresolvedFrames>(models(entries)),
{
    lemma_same_counts(counted(stacks, seen(entries)), seen(entries));
    lemma_seen_total(entries);
    lemma_same_counts(models(entries), entries);
    assert forall|key: FramesKey| #[trigger]
        count_of::<Frames>(counted(stacks, seen(entries)), key) <= isize::MAX by {
        lemma_count_within_total::<Frames>(counted(stacks, seen(entries)), key);
    }
    assert forall|key: (u64, Seq<usize>)| #[trigger]
        count_of::<UnresolvedFrames>(models(entries), key) <= isize::MAX by {
        lemma_count_within_total::<UnresolvedFrames>(models(entries), key);
    }
}

proof fn lemma_count_within_total<S: Stack>(entries: Seq<(S::Model, isize)>, key: S::Key)
    ensures
        count_of::<S>(entries, key) <= positive_total(entries),
    decreases entries.len(),
{
    if entries.len() > 0 {
        lemma_count_within_total::<S>(entries.drop_last(), key);
    }
}

} // verus!
