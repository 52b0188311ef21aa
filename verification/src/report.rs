//! Reports: counted stacks with the timing of their collection.

use vstd::prelude::*;

use crate::error::Error;
use crate::folded::{
    folded, push_folded, total_weight, weighted_view, WeightedStack, WeightedStackView,
};
use crate::frames::{Frames, FramesView, UnresolvedFrames};
use crate::json::{field, numbers, read_value, render, Json};
use crate::pprof::{
    nanos_fit, profile_of_samples, samples_profile, stacks_view, StackText, StackTextView,
};
use crate::protos::Profile;
use crate::speedscope::{
    document, frames_value, law_document_fields, law_document_reads_back, lemma_weight_sum,
    numbered, profile_value, samples_value, weight_sum, Speedscope,
};
use crate::tally::{distinct, models, positive_total, Stack};
use crate::text::{push_signed, signed_decimal, texts};
use crate::timer::{ClockType, Duration, ReportTiming};

verus! {

/// The final presentation of a report: distinct stacks with a count each.
#[derive(Debug)]
pub struct Report {
    /// Each backtrace with the number of times that it was seen.
    pub data: Vec<(Frames, isize)>,
    /// Collection frequency, start time, duration.
    pub timing: ReportTiming,
    /// Number of samples dropped while the profile was collected.
    pub missed_samples: u64,
}

/// A report whose addresses have no symbols yet.
#[derive(Debug)]
pub struct UnresolvedReport {
    /// Each backtrace with the number of times that it was seen.
    pub data: Vec<(UnresolvedFrames, isize)>,
    /// Collection frequency, start time, duration.
    pub timing: ReportTiming,
    /// Number of samples dropped while the profile was collected.
    pub missed_samples: u64,
}

/// The counts do not depend on what is counted.
pub proof fn lemma_total_of_models<S: Stack>(data: Seq<(S, isize)>)
    ensures
        positive_total(models(data)) == positive_total(data),
    decreases data.len(),
{
    if data.len() > 0 {
        lemma_total_of_models(data.drop_last());
        assert(models(data).drop_last() =~= models(data.drop_last()));
    }
}

/// Adds up the positive counts; `None` where the sum is too large to tell.
fn sum_counts<S>(data: &Vec<(S, isize)>) -> (r: Option<usize>)
    ensures
        r is Some <==> positive_total(data@) <= usize::MAX,
        r matches Some(n) ==> n == positive_total(data@),
{
    let mut total: usize = 0;
    let mut i: usize = 0;
    assert(data@.take(0) =~= Seq::empty());
    while i < data.len()
        invariant
            i <= data@.len(),
            total == positive_total(data@.take(i as int)),
        decreases data@.len() - i,
    {
        let count: isize = data[i].1;
        proof {
            assert(data@.take(i + 1).drop_last() =~= data@.take(i as int));
            lemma_total_grows(data@, i + 1);
        }
        if count > 0 {
            let n: usize = count as usize;
            if n > usize::MAX - total {
                return None;
            }
            total = total + n;
        }
        i += 1;
    }
    assert(data@.take(i as int) =~= data@);
    Some(total)
}

proof fn lemma_total_grows<M>(data: Seq<(M, isize)>, i: int)
    requires
        0 <= i <= data.len(),
    ensures
        positive_total(data.take(i)) <= positive_total(data),
    decreases data.len() - i,
{
    if i < data.len() {
        lemma_total_grows(data, i + 1);
        assert(data.take(i + 1).drop_last() =~= data.take(i));
    } else {
        assert(data.take(i) =~= data);
    }
}

/// The keys of a list of stacks.
pub open spec fn keys<S: Stack>(data: Seq<(S, isize)>) -> Seq<S::Key> {
    Seq::new(data.len(), |i: int| S::key_of(data[i].0.model()))
}

/// A list of distinct stacks has as many keys as entries.
proof fn lemma_keys_counted<S: Stack>(data: Seq<(S, isize)>)
    requires
        distinct::<S>(models(data)),
    ensures
        keys(data).to_set().len() == data.len(),
{
    let list = keys(data);
    let entries = models(data);
    assert forall|i: int, j: int|
        0 <= i < list.len() && 0 <= j < list.len() && i != j implies list[i] != list[j] by {
        if i < j {
            assert(S::key_of(entries[i].0) != S::key_of(entries[j].0));
        } else {
            assert(S::key_of(entries[j].0) != S::key_of(entries[i].0));
        }
    }
    list.unique_seq_to_set();
}

/// The stacks that were seen, as words with their counts.
pub open spec fn weighted(data: Seq<(FramesView, isize)>) -> Seq<WeightedStackView>
    decreases data.len(),
{
    if data.len() == 0 {
        Seq::empty()
    } else if data.last().1 > 0 {
        weighted(data.drop_last()).push(
            WeightedStackView { words: data.last().0.words(), weight: data.last().1 as usize },
        )
    } else {
        weighted(data.drop_last())
    }
}

/// The weights of the stacks that were seen add up to the samples of the report.
pub proof fn law_weighted_total(data: Seq<(FramesView, isize)>)
    ensures
        total_weight(weighted(data)) == positive_total(data),
    decreases data.len(),
{
    if data.len() > 0 {
        law_weighted_total(data.drop_last());
        let w = weighted(data);
        if data.last().1 > 0 {
            assert(w.drop_last() =~= weighted(data.drop_last()));
        }
    }
}

/// Tells the stacks that were seen.
pub open spec fn was_seen() -> spec_fn((FramesView, isize)) -> bool {
    |entry: (FramesView, isize)| entry.1 > 0
}

/// There is one weighted stack for each stack that was seen, none without weight.
proof fn lemma_weighted(data: Seq<(FramesView, isize)>)
    ensures
        weighted(data).len() == data.filter(was_seen()).len(),
        forall|i: int| 0 <= i < weighted(data).len() ==> (#[trigger] weighted(data)[i]).weight > 0,
    decreases data.len(),
{
    reveal(Seq::filter);
    if data.len() > 0 {
        lemma_weighted(data.drop_last());
    }
}

/// The Speedscope document of a report reads back as JSON, with the name that it was
/// given, a profile from 0 to the number of samples, one sample and one positive weight
/// for each stack that was seen, and weights that add up to the samples.
pub proof fn law_speedscope_document(name: Seq<char>, data: Seq<(FramesView, isize)>)
    ensures
        ({
            let s = numbered(weighted(data));
            let profile = profile_value(name, s);
            &&& read_value(render(document(name, s))) matches Some((j, rest)) && {
                &&& rest.len() == 0
                &&& field(j, "name"@) == Some(Json::Text(name))
                &&& field(j, "profiles"@) == Some(Json::List(seq![profile]))
                &&& field(j, "shared"@) matches Some(shared) && field(shared, "frames"@) == Some(
                    frames_value(s.frames),
                )
            }
            &&& field(profile, "name"@) == Some(Json::Text(name))
            &&& field(profile, "startValue"@) == Some(Json::Number(0))
            &&& field(profile, "endValue"@) == Some(Json::Number(positive_total(data)))
            &&& field(profile, "samples"@) == Some(samples_value(s.samples))
            &&& field(profile, "weights"@) == Some(numbers(s.weights))
            &&& s.samples.len() == data.filter(was_seen()).len()
            &&& s.weights.len() == data.filter(was_seen()).len()
            &&& forall|i: int| 0 <= i < s.weights.len() ==> #[trigger] s.weights[i] > 0
            &&& weight_sum(s.weights) == positive_total(data)
        }),
{
    let s = numbered(weighted(data));
    law_document_reads_back(name, s);
    law_document_fields(name, s);
    lemma_weighted(data);
    law_weighted_total(data);
    lemma_weight_sum(weighted(data));
    assert forall|i: int| 0 <= i < s.weights.len() implies #[trigger] s.weights[i] > 0 by {
        assert(weighted(data)[i].weight > 0);
    }
}

/// The lines of a human-readable report.
pub open spec fn debug_text(data: Seq<(FramesView, isize)>) -> Seq<char>
    decreases data.len(),
{
    if data.len() == 0 {
        Seq::empty()
    } else {
        debug_text(data.drop_last()) + (data.last().0.described().push(' ') + signed_decimal(
            data.last().1 as int,
        )).push('\n')
    }
}

/// The texts of all stacks.
pub open spec fn stack_texts(data: Seq<(FramesView, isize)>) -> Seq<StackTextView> {
    Seq::new(data.len(), |i: int| data[i].0.text())
}

/// The counts of all stacks.
pub open spec fn counts<M>(data: Seq<(M, isize)>) -> Seq<isize> {
    Seq::new(data.len(), |i: int| data[i].1)
}

impl Report {
    /// The stacks and their counts.
    pub open spec fn entries(&self) -> Seq<(FramesView, isize)> {
        models(self.data@)
    }

    /// No stack stands twice in the report.
    pub open spec fn wf(&self) -> bool {
        distinct::<Frames>(self.entries())
    }

    /// The total number of sample hits; `None` where it is too large to tell.
    pub fn checked_total_samples(&self) -> (r: Option<usize>)
        ensures
            r is Some <==> positive_total(self.entries()) <= usize::MAX,
            r matches Some(n) ==> n == positive_total(self.entries()),
    {
        proof {
            lemma_total_of_models(self.data@);
        }
        sum_counts(&self.data)
    }

    /// The total number of sample hits collected across all stack traces.
    pub fn total_samples(&self) -> (r: usize)
        requires
            positive_total(self.entries()) <= usize::MAX,
        ensures
            r == positive_total(self.entries()),
    {
        match self.checked_total_samples() {
            Some(n) => n,
            None => 0,
        }
    }

    /// The number of unique backtraces recorded.
    pub fn unique_stacks(&self) -> (r: usize)
        ensures
            r == self.entries().len(),
            self.wf() ==> r == keys(self.data@).to_set().len(),
    {
        proof {
            if self.wf() {
                lemma_keys_counted(self.data@);
            }
        }
        self.data.len()
    }

    /// The collection duration.
    pub fn duration(&self) -> (r: Duration)
        ensures
            r == self.timing.duration,
    {
        self.timing.duration
    }

    /// The clock type used for profiling.
    pub fn clock_type(&self) -> (r: ClockType)
        ensures
            r == self.timing.clock_type,
    {
        self.timing.clock_type
    }

    /// The sample hits and the nanoseconds in which they were collected, whose
    /// quotient is the effective rate; `None` for a report of no duration.
    pub fn samples_over_duration(&self) -> (r: Option<(usize, u128)>)
        requires
            positive_total(self.entries()) <= usize::MAX,
        ensures
            r == (if self.timing.duration.total_nanos() > 0 {
                Some(
                    (
                        positive_total(self.entries()) as usize,
                        self.timing.duration.total_nanos() as u128,
                    ),
                )
            } else {
                None
            }),
    {
        let nanos: u128 = self.timing.duration.as_nanos();
        if nanos > 0 {
            Some((self.total_samples(), nanos))
        } else {
            None
        }
    }

    /// The stacks that were seen, as words with their counts.
    pub fn weighted_stacks(&self) -> (r: Vec<WeightedStack>)
        ensures
            weighted_view(r@) == weighted(self.entries()),
            forall|i: int| 0 <= i < r@.len() ==> 0 < (#[trigger] r@[i]).weight <= isize::MAX,
    {
        let ghost data = self.entries();
        let mut r: Vec<WeightedStack> = Vec::new();
        let mut i: usize = 0;
        assert(weighted_view(r@) =~= weighted(data.take(0)));
        while i < self.data.len()
            invariant
                i <= self.data@.len(),
                data == self.entries(),
                weighted_view(r@) == weighted(data.take(i as int)),
                forall|k: int| 0 <= k < r@.len() ==> 0 < (#[trigger] r@[k]).weight <= isize::MAX,
            decreases self.data@.len() - i,
        {
            let count: isize = self.data[i].1;
            proof {
                assert(data.take(i + 1).drop_last() =~= data.take(i as int));
                assert(data.take(i + 1).last() == data[i as int]);
            }
            if count > 0 {
                let ghost before = weighted_view(r@);
                let stack = WeightedStack { words: self.data[i].0.words(), weight: count as usize };
                r.push(stack);
                assert(weighted_view(r@) =~= before.push(stack@));
            }
            i += 1;
        }
        assert(data.take(i as int) =~= data);
        r
    }

    /// Appends folded stacks, one line for each stack that was seen:
    /// `thread;frame1;frame2 count`.
    pub fn write_folded(&self, out: &mut String)
        ensures
            final(out)@ == old(out)@ + folded(weighted(self.entries())),
    {
        let stacks = self.weighted_stacks();
        push_folded(out, &stacks);
    }

    /// Appends the report as a JSON document in the Speedscope file format.
    pub fn write_speedscope(&self, out: &mut String, name: &str)
        requires
            positive_total(self.entries()) <= usize::MAX,
        ensures
            final(out)@ == old(out)@ + render(document(name@, numbered(weighted(self.entries())))),
            numbered(weighted(self.entries())).frames.len() <= usize::MAX,
    {
        let stacks = self.weighted_stacks();
        proof {
            law_weighted_total(self.entries());
        }
        let numbers = Speedscope::number(&stacks);
        assert(numbers.frames.len() == numbers@.frames.len());
        numbers.write(out, name);
    }

    /// Appends the report for a human reader, one line for each stack.
    pub fn write_debug(&self, out: &mut String)
        ensures
            final(out)@ == old(out)@ + debug_text(self.entries()),
    {
        let ghost start = out@;
        let ghost data = self.entries();
        let mut i: usize = 0;
        assert(out@ =~= start + debug_text(data.take(0)));
        while i < self.data.len()
            invariant
                i <= self.data@.len(),
                data == self.entries(),
                out@ == start + debug_text(data.take(i as int)),
            decreases self.data@.len() - i,
        {
            self.data[i].0.describe(out);
            out.push(' ');
            push_signed(out, self.data[i].1 as i64);
            out.push('\n');
            proof {
                assert(data.take(i + 1).drop_last() =~= data.take(i as int));
                assert(data.take(i + 1).last() == data[i as int]);
                assert(out@ =~= start + debug_text(data.take(i + 1)));
            }
            i += 1;
        }
        assert(data.take(i as int) =~= data);
    }

    /// Whether the report can be told in the pprof format: it has a frequency, and its
    /// times fit in 64 bits.
    pub fn fits_pprof(&self) -> (r: bool)
        ensures
            r == (self.timing.frequency != 0 && nanos_fit(counts(self.entries()))),
    {
        let ghost list = counts(self.entries());
        let mut i: usize = 0;
        while i < self.data.len()
            invariant
                i <= self.data@.len(),
                list == counts(self.entries()),
                forall|k: int|
                    0 <= k < i ==> i64::MIN <= #[trigger] list[k] * 1_000_000_000 <= i64::MAX,
            decreases self.data@.len() - i,
        {
            let nanos: i128 = self.data[i].1 as i128 * 1_000_000_000i128;
            assert(list[i as int] == self.data@[i as int].1);
            if nanos < i64::MIN as i128 || nanos > i64::MAX as i128 {
                return false;
            }
            i += 1;
        }
        self.timing.frequency != 0
    }

    /// The report in the pprof format.
    pub fn pprof(&self) -> (r: Result<Profile, Error>)
        requires
            self.timing.frequency != 0,
            nanos_fit(counts(self.entries())),
        ensures
            r matches Ok(profile) && profile@ == samples_profile(
                stack_texts(self.entries()),
                counts(self.entries()),
                self.timing,
                self.missed_samples,
            ),
    {
        let mut stacks: Vec<StackText> = Vec::new();
        let mut list: Vec<isize> = Vec::new();
        let ghost data = self.entries();
        let mut i: usize = 0;
        while i < self.data.len()
            invariant
                i <= self.data@.len(),
                data == self.entries(),
                stacks@.len() == i,
                list@.len() == i,
                forall|k: int| 0 <= k < i ==> (#[trigger] stacks@[k])@ == data[k].0.text(),
                forall|k: int| 0 <= k < i ==> #[trigger] list@[k] == data[k].1,
            decreases self.data@.len() - i,
        {
            stacks.push(self.data[i].0.text());
            list.push(self.data[i].1);
            i += 1;
        }
        assert(stacks_view(stacks@) =~= stack_texts(data));
        assert(list@ =~= counts(data));
        Ok(profile_of_samples(&stacks, &list, &self.timing, self.missed_samples))
    }
}

impl UnresolvedReport {
    /// The stacks and their counts.
    pub open spec fn entries(&self) -> Seq<(crate::frames::UnresolvedFramesView, isize)> {
        models(self.data@)
    }

    /// No stack stands twice in the report.
    pub open spec fn wf(&self) -> bool {
        distinct::<UnresolvedFrames>(self.entries())
    }

    /// The total number of sample hits; `None` where it is too large to tell.
    pub fn checked_total_samples(&self) -> (r: Option<usize>)
        ensures
            r is Some <==> positive_total(self.entries()) <= usize::MAX,
            r matches Some(n) ==> n == positive_total(self.entries()),
    {
        proof {
            lemma_total_of_models(self.data@);
        }
        sum_counts(&self.data)
    }

    /// The total number of sample hits collected across all stack traces.
    pub fn total_samples(&self) -> (r: usize)
        requires
            positive_total(self.entries()) <= usize::MAX,
        ensures
            r == positive_total(self.entries()),
    {
        match self.checked_total_samples() {
            Some(n) => n,
            None => 0,
        }
    }

    /// The number of unique backtraces recorded.
    pub fn unique_stacks(&self) -> (r: usize)
        ensures
            r == self.entries().len(),
            self.wf() ==> r == keys(self.data@).to_set().len(),
    {
        proof {
            if self.wf() {
                lemma_keys_counted(self.data@);
            }
        }
        self.data.len()
    }

    /// The collection duration.
    pub fn duration(&self) -> (r: Duration)
        ensures
            r == self.timing.duration,
    {
        self.timing.duration
    }

    /// The clock type used for profiling.
    pub fn clock_type(&self) -> (r: ClockType)
        ensures
            r == self.timing.clock_type,
    {
        self.timing.clock_type
    }

    /// The sample hits and the nanoseconds in which they were collected, whose
    /// quotient is the effective rate; `None` for a report of no duration.
    pub fn samples_over_duration(&self) -> (r: Option<(usize, u128)>)
        requires
            positive_total(self.entries()) <= usize::MAX,
        ensures
            r == (if self.timing.duration.total_nanos() > 0 {
                Some(
                    (
                        positive_total(self.entries()) as usize,
                        self.timing.duration.total_nanos() as u128,
                    ),
                )
            } else {
                None
            }),
    {
        let nanos: u128 = self.timing.duration.as_nanos();
        if nanos > 0 {
            Some((self.total_samples(), nanos))
        } else {
            None
        }
    }
}

} // verus!
