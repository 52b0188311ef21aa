//! Laws of building reports, and of what they tell.

use vstd::prelude::*;

use crate::builder::{counted, is_report_of, seen, Collected, ReportBuilder};
use crate::error::Error;
use crate::frames::{Frames, Symbol, SymbolView, UnresolvedFrames};
use crate::report::{Report, UnresolvedReport};
use crate::resolve::{
    is_resolved, keep_resolved, parts_view, resolve_addresses, resolve_frames, resolved_frames,
    symbols_found, take_symbol, with_symbols,
};
use crate::tally::{
    count_of, entry_index, has_key, is_entry, law_merged_counts, law_merged_positive, merge,
    merged, models, positive_total, sums_fit, Stack,
};
use crate::timer::{ClockType, Duration};

use super::documents::{lemma_sum_push, lemma_total_seen, sum_of, times_seen};
use super::stacks::{lemma_same_key, same_calls};

verus! {

/// The counts of the entries that were seen and are the same stack as `stack`.
pub open spec fn counts_of<S>(
    entries: Seq<(S, isize)>,
    stack: S,
    same: spec_fn(S, S) -> bool,
) -> Seq<int> {
    entries.filter(|e: (S, isize)| e.1 > 0 && same(e.0, stack)).map_values(
        |e: (S, isize)| e.1 as int,
    )
}

/// Whether the entry at `i` is the first of its stack that was seen.
pub open spec fn first_seen<S>(
    entries: Seq<(S, isize)>,
    same: spec_fn(S, S) -> bool,
    i: int,
) -> bool {
    &&& 0 <= i < entries.len()
    &&& entries[i].1 > 0
    &&& forall|x: int|
        0 <= x < i ==> (#[trigger] entries[x]).1 <= 0 || !same(entries[x].0, entries[i].0)
}

/// Whether the list holds each stack that was seen once, with all its counts together, and
/// nothing else; a stack holds what the first entry of it held.
pub open spec fn merges<S>(
    entries: Seq<(S, isize)>,
    data: Seq<(S, isize)>,
    same: spec_fn(S, S) -> bool,
    holds: spec_fn(S, S) -> bool,
) -> bool {
    &&& forall|i: int, j: int|
        #![trigger data[i], data[j]]
        0 <= i < j < data.len() ==> !same(data[i].0, data[j].0)
    &&& forall|k: int|
        0 <= k < data.len() ==> {
            &&& (#[trigger] data[k]).1 > 0
            &&& data[k].1 == sum_of(counts_of(entries, data[k].0, same))
            &&& exists|i: int|
                #[trigger] first_seen(entries, same, i) && holds(entries[i].0, data[k].0)
        }
    &&& forall|i: int|
        0 <= i < entries.len() && (#[trigger] entries[i]).1 > 0 ==> exists|k: int|
            0 <= k < data.len() && same(entries[i].0, (#[trigger] data[k]).0)
}

/// Whether the counts of some stack add up to more than a count can hold.
pub open spec fn too_many<S>(entries: Seq<(S, isize)>, same: spec_fn(S, S) -> bool) -> bool {
    exists|i: int|
        0 <= i < entries.len() && sum_of(
            counts_of(entries, (#[trigger] entries[i]).0, same),
        ) > isize::MAX
}

/// Whether two stacks have one key.
pub open spec fn of_one_key<S: Stack>() -> spec_fn(S, S) -> bool {
    |a: S, b: S| S::key_of(a.model()) == S::key_of(b.model())
}

/// Whether two stacks hold the same.
pub open spec fn of_one_model<S: Stack>() -> spec_fn(S, S) -> bool {
    |a: S, b: S| a.model() == b.model()
}

proof fn lemma_count_of<S: Stack>(entries: Seq<(S, isize)>, stack: S)
    ensures
        count_of::<S>(models(entries), S::key_of(stack.model())) == sum_of(
            counts_of(entries, stack, of_one_key::<S>()),
        ),
    decreases entries.len(),
{
    reveal(Seq::filter);
    let same = of_one_key::<S>();
    let pick = |e: (S, isize)| e.1 as int;
    if entries.len() > 0 {
        let shorter = entries.drop_last();
        lemma_count_of(shorter, stack);
        assert(models(entries).drop_last() =~= models(shorter));
        assert(models(entries).last() == (entries.last().0.model(), entries.last().1));
        if entries.last().1 > 0 && same(entries.last().0, stack) {
            let before = counts_of(shorter, stack, same);
            assert(counts_of(entries, stack, same) =~= before.push(entries.last().1 as int));
            lemma_sum_push(before, entries.last().1 as int);
        } else {
            assert(counts_of(entries, stack, same) =~= counts_of(shorter, stack, same));
        }
    } else {
        assert(counts_of(entries, stack, same) =~= Seq::empty());
    }
}

/// Each stack of the merged list holds what its first entry held.
proof fn lemma_merged_model<S: Stack>(entries: Seq<(S, isize)>, k: int) -> (i: int)
    requires
        sums_fit::<S>(models(entries)),
        0 <= k < merged::<S>(models(entries)).len(),
    ensures
        first_seen(entries, of_one_key::<S>(), i),
        entries[i].0.model() == merged::<S>(models(entries))[k].0,
    decreases entries.len(),
{
    let same = of_one_key::<S>();
    let all = models(entries);
    let shorter = entries.drop_last();
    assert(all.drop_last() =~= models(shorter));
    assert(sums_fit::<S>(models(shorter))) by {
        assert forall|key: S::Key| #[trigger] count_of::<S>(models(shorter), key)
            <= isize::MAX by {
            assert(count_of::<S>(all, key) <= isize::MAX);
        }
    }
    let before = merged::<S>(models(shorter));
    if k < before.len() {
        let i = lemma_merged_model(shorter, k);
        if entries.last().1 > 0 {
            let key = S::key_of(entries.last().0.model());
            if has_key::<S>(before, key) {
                assert(is_entry::<S>(before, key, entry_index::<S>(before, key)));
            }
        }
        assert forall|x: int| 0 <= x < i implies (#[trigger] entries[x]).1 <= 0 || !same(
            entries[x].0,
            entries[i].0,
        ) by {
            assert(shorter[x] == entries[x]);
        }
        assert(shorter[i] == entries[i]);
        i
    } else {
        let i = entries.len() - 1;
        let key = S::key_of(entries.last().0.model());
        if has_key::<S>(before, key) {
            assert(is_entry::<S>(before, key, entry_index::<S>(before, key)));
        }
        law_merged_counts::<S>(models(shorter), key);
        assert forall|x: int| 0 <= x < i implies (#[trigger] entries[x]).1 <= 0 || !same(
            entries[x].0,
            entries[i].0,
        ) by {
            if entries[x].1 > 0 && same(entries[x].0, entries[i].0) {
                lemma_counted::<S>(models(shorter), key, x);
            }
        }
        i
    }
}

proof fn lemma_counted<S: Stack>(entries: Seq<(S::Model, isize)>, key: S::Key, x: int)
    requires
        0 <= x < entries.len(),
        entries[x].1 > 0,
        S::key_of(entries[x].0) == key,
    ensures
        count_of::<S>(entries, key) > 0,
    decreases entries.len(),
{
    if x < entries.len() - 1 {
        lemma_counted::<S>(entries.drop_last(), key, x);
    }
}

proof fn lemma_has_entry<S: Stack>(entries: Seq<(S::Model, isize)>, key: S::Key) -> (x: int)
    requires
        count_of::<S>(entries, key) > 0,
    ensures
        0 <= x < entries.len(),
        entries[x].1 > 0,
        S::key_of(entries[x].0) == key,
    decreases entries.len(),
{
    let (model, count) = entries.last();
    if count > 0 && S::key_of(model) == key {
        entries.len() - 1
    } else {
        lemma_has_entry::<S>(entries.drop_last(), key)
    }
}

pub proof fn lemma_merges<S: Stack>(entries: Seq<(S, isize)>, data: Seq<(S, isize)>)
    requires
        sums_fit::<S>(models(entries)),
        models(data) == merged::<S>(models(entries)),
    ensures
        merges(entries, data, of_one_key::<S>(), of_one_model::<S>()),
{
    let same = of_one_key::<S>();
    let holds = of_one_model::<S>();
    let all = models(entries);
    let list = models(data);
    law_merged_positive::<S>(all);
    assert(list.len() == data.len());
    assert forall|i: int, j: int|
        #![trigger data[i], data[j]]
        0 <= i < j < data.len() implies !same(data[i].0, data[j].0) by {
        law_merged_counts::<S>(all, S::key_of(list[i].0));
        assert(list[i].0 == data[i].0.model() && list[j].0 == data[j].0.model());
        assert(S::key_of(list[i].0) != S::key_of(list[j].0));
    }
    assert forall|k: int| 0 <= k < data.len() implies {
        &&& (#[trigger] data[k]).1 > 0
        &&& data[k].1 == sum_of(counts_of(entries, data[k].0, same))
        &&& exists|i: int|
            #[trigger] first_seen(entries, same, i) && holds(entries[i].0, data[k].0)
    } by {
        let key = S::key_of(data[k].0.model());
        assert(list[k] == (data[k].0.model(), data[k].1));
        law_merged_counts::<S>(all, key);
        assert(is_entry::<S>(list, key, k));
        let p = entry_index::<S>(list, key);
        assert(is_entry::<S>(list, key, p));
        assert(p == k) by {
            if p < k {
                assert(S::key_of(list[p].0) != S::key_of(list[k].0));
            } else if k < p {
                assert(S::key_of(list[k].0) != S::key_of(list[p].0));
            }
        }
        lemma_count_of(entries, data[k].0);
        let i = lemma_merged_model(entries, k);
        assert(first_seen(entries, same, i));
    }
    assert forall|i: int| 0 <= i < entries.len() && (#[trigger] entries[i]).1 > 0 implies exists|
        k: int,
    | 0 <= k < data.len() && same(entries[i].0, (#[trigger] data[k]).0) by {
        let key = S::key_of(entries[i].0.model());
        assert(all[i] == (entries[i].0.model(), entries[i].1));
        lemma_counted::<S>(all, key, i);
        law_merged_counts::<S>(all, key);
        let k = entry_index::<S>(list, key);
        assert(is_entry::<S>(list, key, k));
        assert(list[k].0 == data[k].0.model());
        assert(same(entries[i].0, data[k].0));
    }
}

pub proof fn lemma_too_many<S: Stack>(entries: Seq<(S, isize)>)
    ensures
        !sums_fit::<S>(models(entries)) <==> too_many(entries, of_one_key::<S>()),
{
    let same = of_one_key::<S>();
    let all = models(entries);
    if !sums_fit::<S>(all) {
        let key = choose|key: S::Key| #[trigger] count_of::<S>(all, key) > isize::MAX;
        let x = lemma_has_entry::<S>(all, key);
        assert(all[x].0 == entries[x].0.model());
        lemma_count_of(entries, entries[x].0);
        assert(sum_of(counts_of(entries, entries[x].0, same)) > isize::MAX);
    }
    if too_many(entries, same) {
        let i = choose|i: int|
            0 <= i < entries.len() && sum_of(
                counts_of(entries, (#[trigger] entries[i]).0, same),
            ) > isize::MAX;
        lemma_count_of(entries, entries[i].0);
        assert(count_of::<S>(all, S::key_of(entries[i].0.model())) > isize::MAX);
    }
}

/// Whether two raw backtraces are of one thread and have the same addresses.
pub open spec fn same_addresses() -> spec_fn(UnresolvedFrames, UnresolvedFrames) -> bool {
    |a: UnresolvedFrames, b: UnresolvedFrames|
        a.thread_id == b.thread_id && a.frames@ == b.frames@
}

/// Whether two backtraces are of one thread and one time, and call the same functions.
pub open spec fn same_backtrace() -> spec_fn(Frames, Frames) -> bool {
    |a: Frames, b: Frames| same_calls(a, b)
}

/// Whether two raw backtraces hold the same.
pub open spec fn hold_the_same() -> spec_fn(UnresolvedFrames, UnresolvedFrames) -> bool {
    |a: UnresolvedFrames, b: UnresolvedFrames|
        a.frames@ == b.frames@ && a.thread_name@ == b.thread_name@ && a.thread_id == b.thread_id
            && a.sample_timestamp == b.sample_timestamp
}

/// Whether two backtraces hold the same.
pub open spec fn tell_the_same() -> spec_fn(Frames, Frames) -> bool {
    |a: Frames, b: Frames|
        frames_of(a) == frames_of(b) && a.thread_name@ == b.thread_name@ && a.thread_id
            == b.thread_id && a.sample_timestamp == b.sample_timestamp
}

proof fn lemma_same_addresses()
    ensures
        of_one_key::<UnresolvedFrames>() == same_addresses(),
        of_one_model::<UnresolvedFrames>() == hold_the_same(),
{
    assert(of_one_key::<UnresolvedFrames>() =~= same_addresses());
    let f = of_one_model::<UnresolvedFrames>();
    let g = hold_the_same();
    assert forall|a: UnresolvedFrames, b: UnresolvedFrames| #[trigger] f(a, b) == g(a, b) by {
        if g(a, b) {
            assert(a@ =~= b@);
        }
    }
    assert(f =~= g);
}

proof fn lemma_same_backtrace()
    ensures
        of_one_key::<Frames>() == same_backtrace(),
        of_one_model::<Frames>() == tell_the_same(),
{
    let f = of_one_key::<Frames>();
    let g = same_backtrace();
    assert forall|a: Frames, b: Frames| #[trigger] f(a, b) == g(a, b) by {
        lemma_same_key(a, b);
    }
    assert(f =~= g);
    let x = of_one_model::<Frames>();
    let y = tell_the_same();
    assert forall|a: Frames, b: Frames| #[trigger] x(a, b) == y(a, b) by {
        lemma_frames_of(a);
        lemma_frames_of(b);
        if y(a, b) {
            assert(a@ =~= b@);
        }
    }
    assert(x =~= y);
}

/// Merging adds up the counts of each stack that was seen, and fails just where they are
/// too many to count.
pub proof fn law_merge(
    raw: &Vec<(UnresolvedFrames, isize)>,
    a: Option<Vec<(UnresolvedFrames, isize)>>,
    stacks: &Vec<(Frames, isize)>,
    b: Option<Vec<(Frames, isize)>>,
)
    requires
        call_ensures(merge::<UnresolvedFrames>, (raw,), a),
        call_ensures(merge::<Frames>, (stacks,), b),
    ensures
        a is None <==> too_many(raw@, same_addresses()),
        a matches Some(data) ==> merges(raw@, data@, same_addresses(), hold_the_same()),
        b is None <==> too_many(stacks@, same_backtrace()),
        b matches Some(data) ==> merges(stacks@, data@, same_backtrace(), tell_the_same()),
{
    lemma_same_addresses();
    lemma_same_backtrace();
    lemma_too_many(raw@);
    lemma_too_many(stacks@);
    if let Some(data) = a {
        lemma_merges(raw@, data@);
    }
    if let Some(data) = b {
        lemma_merges(stacks@, data@);
    }
}

/// A builder holds what it was made with, and the post-processor that it was given.
pub proof fn law_builder<P: Fn(Frames) -> Frames>(
    profiler: Collected,
    timing: crate::timer::ReportTiming,
    missed: u64,
    made: ReportBuilder<P>,
    builder: &mut ReportBuilder<P>,
    processor: P,
    set: &mut ReportBuilder<P>,
)
    requires
        call_ensures(ReportBuilder::<P>::new, (profiler, timing, missed), made),
        call_ensures(ReportBuilder::<P>::frames_post_processor, (builder, processor), set),
    ensures
        made.profiler == profiler && made.timing == timing && made.missed_samples == missed,
        made.frames_post_processor is None,
        old(set).frames_post_processor == Some(processor),
        old(set).profiler == old(builder).profiler,
        old(set).timing == old(builder).timing,
        old(set).missed_samples == old(builder).missed_samples,
{
}

/// An unresolved report holds each stack that was collected, with all its counts together,
/// and the timing and the dropped samples of its collection; it fails just where there was
/// nothing to read, or the counts of a stack are too many.
pub proof fn law_build_unresolved<P: Fn(Frames) -> Frames>(
    builder: &ReportBuilder<P>,
    r: Result<UnresolvedReport, Error>,
)
    requires
        call_ensures(ReportBuilder::<P>::build_unresolved, (builder,), r),
    ensures
        builder.profiler is NotCreated ==> r == Err::<UnresolvedReport, Error>(
            Error::CreatingError,
        ),
        builder.profiler matches Collected::Unreadable(code) ==> r == Err::<
            UnresolvedReport,
            Error,
        >(Error::IoError(code)),
        builder.profiler matches Collected::Entries(entries) ==> match r {
            Ok(report) => {
                &&& merges(entries@, report.data@, same_addresses(), hold_the_same())
                &&& report.timing == builder.timing
                &&& report.missed_samples == builder.missed_samples
            },
            Err(error) => error == Error::CountOverflow && too_many(entries@, same_addresses()),
        },
{
    lemma_same_addresses();
    if let Collected::Entries(entries) = builder.profiler {
        lemma_too_many(entries@);
        if let Ok(report) = r {
            lemma_merges(entries@, report.data@);
        }
    }
}

/// Whether `raw` is the backtrace `item` with the symbols that were found for its addresses:
/// one frame for each address that has a symbol.
pub open spec fn has_symbols_of(item: UnresolvedFrames, raw: Frames) -> bool {
    &&& raw.thread_name@ == item.thread_name@
    &&& raw.thread_id == item.thread_id
    &&& raw.sample_timestamp == item.sample_timestamp
    &&& exists|parts: Seq<Seq<SymbolView>>| #[trigger]
        found_for(item.frames@, parts) && frames_of(raw) == parts.filter(
            |p: Seq<SymbolView>| p.len() > 0,
        )
}

/// Whether the symbols were found for the addresses, one list for each.
pub open spec fn found_for(ips: Seq<usize>, parts: Seq<Seq<SymbolView>>) -> bool {
    &&& parts.len() == ips.len()
    &&& forall|i: int| 0 <= i < ips.len() ==> symbols_found(ips[i], #[trigger] parts[i])
}

/// The symbols of a backtrace, frame by frame.
pub open spec fn frames_of(f: Frames) -> Seq<Seq<SymbolView>> {
    f.frames@.map_values(|frame: Vec<Symbol>| frame@.map_values(|s: Symbol| s@))
}

pub proof fn lemma_frames_of(f: Frames)
    ensures
        f@.frames == frames_of(f),
{
    assert forall|i: int| 0 <= i < f.frames@.len() implies f@.frames[i] =~= frames_of(f)[i] by {}
    assert(f@.frames =~= frames_of(f));
}

pub proof fn lemma_resolved_frames(parts: Seq<Seq<SymbolView>>)
    ensures
        resolved_frames(parts) == parts.filter(|p: Seq<SymbolView>| p.len() > 0),
    decreases parts.len(),
{
    reveal(Seq::filter);
    if parts.len() > 0 {
        lemma_resolved_frames(parts.drop_last());
    }
}

pub proof fn lemma_has_symbols(item: UnresolvedFrames, raw: Frames)
    requires
        is_resolved(item@, raw@),
    ensures
        has_symbols_of(item, raw),
{
    let parts = choose|parts: Seq<Seq<SymbolView>>| #[trigger]
        crate::resolve::all_found(item@.frames, parts) && raw@ == crate::resolve::resolved(
            item@,
            parts,
        );
    lemma_frames_of(raw);
    lemma_resolved_frames(parts);
    assert(found_for(item.frames@, parts));
}

/// A backtrace gets the symbols that are found for its addresses.
pub proof fn law_resolve_frames(item: &UnresolvedFrames, r: Frames)
    requires
        call_ensures(resolve_frames, (item,), r),
    ensures
        has_symbols_of(*item, r),
{
    lemma_has_symbols(*item, r);
}

/// The addresses without a symbol have no frame, and the others keep their order and their
/// symbols.
pub proof fn law_frames_kept(
    item: &UnresolvedFrames,
    parts: Vec<Vec<Symbol>>,
    kept: Vec<Vec<Symbol>>,
    r: Frames,
)
    requires
        call_ensures(keep_resolved, (parts,), kept),
        call_ensures(with_symbols, (item, parts), r),
    ensures
        ({
            let look = |frame: Vec<Symbol>| frame@.map_values(|s: Symbol| s@);
            let some = parts@.map_values(look).filter(|p: Seq<SymbolView>| p.len() > 0);
            &&& kept@.map_values(look) == some
            &&& r.frames@.map_values(look) == some
            &&& r.thread_name@ == item.thread_name@
            &&& r.thread_id == item.thread_id
            &&& r.sample_timestamp == item.sample_timestamp
        }),
{
    let look = |frame: Vec<Symbol>| frame@.map_values(|s: Symbol| s@);
    lemma_parts(parts@);
    lemma_parts(kept@);
    lemma_frames_of(r);
    lemma_resolved_frames(parts@.map_values(look));
}

proof fn lemma_parts(parts: Seq<Vec<Symbol>>)
    ensures
        parts_view(parts) == parts.map_values(
            |frame: Vec<Symbol>| frame@.map_values(|s: Symbol| s@),
        ),
{
    let look = |frame: Vec<Symbol>| frame@.map_values(|s: Symbol| s@);
    assert forall|i: int| 0 <= i < parts.len() implies parts_view(parts)[i] =~= parts.map_values(
        look,
    )[i] by {}
    assert(parts_view(parts) =~= parts.map_values(look));
}

/// A symbol that was found is taken as it is.
pub proof fn law_symbol_taken(
    symbols: &mut Vec<Symbol>,
    name: Option<Vec<u8>>,
    addr: Option<usize>,
    lineno: Option<u32>,
    filename: Option<String>,
)
    requires
        call_ensures(take_symbol, (symbols, name, addr, lineno, filename), ()),
    ensures
        final(symbols)@.len() == old(symbols)@.len() + 1,
        final(symbols)@.drop_last() == old(symbols)@,
        final(symbols)@.last().name == name,
        final(symbols)@.last().addr == addr,
        final(symbols)@.last().lineno == lineno,
        final(symbols)@.last().filename == filename,
{
    assert(final(symbols)@.drop_last() =~= old(symbols)@);
}

/// The symbols of addresses are found for each address, in order.
pub proof fn law_resolve_addresses(ips: &Vec<usize>, parts: Vec<Vec<Symbol>>)
    requires
        call_ensures(resolve_addresses, (ips,), parts),
    ensures
        parts@.len() == ips@.len(),
        forall|i: int|
            0 <= i < ips@.len() ==> symbols_found(
                ips@[i],
                (#[trigger] parts@[i])@.map_values(|s: Symbol| s@),
            ),
{
    lemma_parts(parts@);
    assert(parts_view(parts@).len() == parts@.len());
    assert forall|i: int| 0 <= i < ips@.len() implies symbols_found(
        ips@[i],
        (#[trigger] parts@[i])@.map_values(|s: Symbol| s@),
    ) by {
        assert(symbols_found(ips@[i], parts_view(parts@)[i]));
        assert(parts_view(parts@)[i] =~= parts@[i]@.map_values(|s: Symbol| s@));
    }
}

/// The entries that were seen.
pub open spec fn entries_seen(
    entries: Seq<(UnresolvedFrames, isize)>,
) -> Seq<(UnresolvedFrames, isize)> {
    entries.filter(|e: (UnresolvedFrames, isize)| e.1 > 0)
}

proof fn lemma_seen(entries: Seq<(UnresolvedFrames, isize)>)
    ensures
        seen(entries) == entries_seen(entries),
    decreases entries.len(),
{
    reveal(Seq::filter);
    if entries.len() > 0 {
        lemma_seen(entries.drop_last());
    }
}

/// Stacks with the counts of the entries that they came of.
pub open spec fn with_counts(
    stacks: Seq<Frames>,
    entries: Seq<(UnresolvedFrames, isize)>,
) -> Seq<(Frames, isize)> {
    Seq::new(stacks.len(), |i: int| (stacks[i], entries[i].1))
}

/// Whether a report holds each of the stacks, with all its counts together.
pub open spec fn reports(
    r: Result<Report, Error>,
    list: Seq<(Frames, isize)>,
    timing: crate::timer::ReportTiming,
    missed: u64,
) -> bool {
    match r {
        Ok(report) => {
            &&& merges(list, report.data@, same_backtrace(), tell_the_same())
            &&& report.timing == timing
            &&& report.missed_samples == missed
        },
        Err(error) => error == Error::CountOverflow && too_many(list, same_backtrace()),
    }
}

proof fn lemma_reports(
    r: Result<Report, Error>,
    stacks: Seq<Frames>,
    entries: Seq<(UnresolvedFrames, isize)>,
    timing: crate::timer::ReportTiming,
    missed: u64,
)
    requires
        stacks.len() == entries.len(),
        is_report_of(r, stacks, entries, timing, missed),
    ensures
        reports(r, with_counts(stacks, entries), timing, missed),
{
    let list = with_counts(stacks, entries);
    lemma_same_backtrace();
    lemma_too_many(list);
    assert(models(list) =~= counted(stacks, entries));
    if let Ok(report) = r {
        lemma_merges(list, report.data@);
    }
}

/// Whether the stack comes of an entry: what `resolve` made of it, put through the
/// post-processor where there is one.
pub open spec fn made_of<P: Fn(Frames) -> Frames, R: Fn(&UnresolvedFrames) -> Frames>(
    processor: Option<P>,
    resolve: R,
    item: UnresolvedFrames,
    stack: Frames,
) -> bool {
    exists|raw: Frames| #[trigger]
        call_ensures(resolve, (&item,), raw) && match processor {
            Some(p) => call_ensures(p, (raw,), stack),
            None => stack == raw,
        }
}

/// A report is built of what the entries that were seen resolve to, and its timing and
/// dropped samples are those of the collection.
pub proof fn law_build_with<P: Fn(Frames) -> Frames, R: Fn(&UnresolvedFrames) -> Frames>(
    builder: &ReportBuilder<P>,
    resolve: R,
    r: Result<Report, Error>,
)
    requires
        call_ensures(ReportBuilder::<P>::build_with::<R>, (builder, resolve), r),
    ensures
        builder.profiler is NotCreated ==> r == Err::<Report, Error>(Error::CreatingError),
        builder.profiler matches Collected::Unreadable(code) ==> r == Err::<Report, Error>(
            Error::IoError(code),
        ),
        builder.profiler matches Collected::Entries(entries) ==> exists|stacks: Seq<Frames>|
            {
                &&& stacks.len() == entries_seen(entries@).len()
                &&& forall|i: int|
                    0 <= i < stacks.len() ==> made_of(
                        builder.frames_post_processor,
                        resolve,
                        entries_seen(entries@)[i].0,
                        #[trigger] stacks[i],
                    )
                &&& reports(
                    r,
                    #[trigger] with_counts(stacks, entries_seen(entries@)),
                    builder.timing,
                    builder.missed_samples,
                )
            },
{
    if let Collected::Entries(entries) = builder.profiler {
        let list = entries_seen(entries@);
        lemma_seen(entries@);
        let stacks = choose|stacks: Seq<Frames>|
            {
                &&& #[trigger] builder.all_come_of(resolve, list, stacks)
                &&& is_report_of(r, stacks, list, builder.timing, builder.missed_samples)
            };
        assert(builder.all_come_of(resolve, list, stacks));
        lemma_reports(r, stacks, list, builder.timing, builder.missed_samples);
        assert forall|i: int| 0 <= i < stacks.len() implies made_of(
            builder.frames_post_processor,
            resolve,
            list[i].0,
            #[trigger] stacks[i],
        ) by {
            assert(builder.comes_of(resolve, list[i].0, stacks[i]));
        }
    }
}

/// Whether the stack is an entry with the symbols that were found for it, put through the
/// post-processor where there is one.
pub open spec fn made_of_symbols<P: Fn(Frames) -> Frames>(
    processor: Option<P>,
    item: UnresolvedFrames,
    stack: Frames,
) -> bool {
    exists|raw: Frames| #[trigger]
        has_symbols_of(item, raw) && match processor {
            Some(p) => call_ensures(p, (raw,), stack),
            None => stack == raw,
        }
}

/// A report is built of the entries that were seen, with the symbols that are found for
/// them, and its timing and dropped samples are those of the collection.
pub proof fn law_build<P: Fn(Frames) -> Frames>(
    builder: &ReportBuilder<P>,
    r: Result<Report, Error>,
)
    requires
        call_ensures(ReportBuilder::<P>::build, (builder,), r),
    ensures
        builder.profiler is NotCreated ==> r == Err::<Report, Error>(Error::CreatingError),
        builder.profiler matches Collected::Unreadable(code) ==> r == Err::<Report, Error>(
            Error::IoError(code),
        ),
        builder.profiler matches Collected::Entries(entries) ==> exists|stacks: Seq<Frames>|
            {
                &&& stacks.len() == entries_seen(entries@).len()
                &&& forall|i: int|
                    0 <= i < stacks.len() ==> made_of_symbols(
                        builder.frames_post_processor,
                        entries_seen(entries@)[i].0,
                        #[trigger] stacks[i],
                    )
                &&& reports(
                    r,
                    #[trigger] with_counts(stacks, entries_seen(entries@)),
                    builder.timing,
                    builder.missed_samples,
                )
            },
{
    if let Collected::Entries(entries) = builder.profiler {
        let list = entries_seen(entries@);
        lemma_seen(entries@);
        let stacks = choose|stacks: Seq<Frames>|
            {
                &&& #[trigger] builder.all_found(list, stacks)
                &&& is_report_of(r, stacks, list, builder.timing, builder.missed_samples)
            };
        assert(builder.all_found(list, stacks));
        lemma_reports(r, stacks, list, builder.timing, builder.missed_samples);
        assert forall|i: int| 0 <= i < stacks.len() implies made_of_symbols(
            builder.frames_post_processor,
            list[i].0,
            #[trigger] stacks[i],
        ) by {
            assert(builder.found(list[i].0, stacks[i]));
            match builder.frames_post_processor {
                None => {
                    lemma_has_symbols(list[i].0, stacks[i]);
                    assert(has_symbols_of(list[i].0, stacks[i]));
                },
                Some(p) => {
                    let raw = choose|raw: Frames| #[trigger]
                        is_resolved(list[i].0@, raw@) && call_ensures(p, (raw,), stacks[i]);
                    lemma_has_symbols(list[i].0, raw);
                    assert(has_symbols_of(list[i].0, raw));
                },
            }
        }
    }
}

/// How often each stack of an unresolved report was seen.
pub open spec fn raw_times_seen(data: Seq<(UnresolvedFrames, isize)>) -> Seq<int> {
    entries_seen(data).map_values(|e: (UnresolvedFrames, isize)| e.1 as int)
}

proof fn lemma_raw_total(data: Seq<(UnresolvedFrames, isize)>)
    ensures
        positive_total(models(data)) == sum_of(raw_times_seen(data)),
    decreases data.len(),
{
    reveal(Seq::filter);
    if data.len() > 0 {
        let shorter = data.drop_last();
        lemma_raw_total(shorter);
        assert(models(data).drop_last() =~= models(shorter));
        if data.last().1 > 0 {
            assert(raw_times_seen(data) =~= raw_times_seen(shorter).push(data.last().1 as int));
            lemma_sum_push(raw_times_seen(shorter), data.last().1 as int);
        } else {
            assert(raw_times_seen(data) =~= raw_times_seen(shorter));
        }
    } else {
        assert(raw_times_seen(data) =~= Seq::empty());
    }
}

/// What a report tells of itself: its samples are the positive counts together, told unless
/// they are too many; its stacks, its duration and its clock are those that it holds.
pub proof fn law_report(
    report: &Report,
    checked: Option<usize>,
    total: usize,
    stacks: usize,
    duration: Duration,
    clock: ClockType,
    rate: Option<(usize, u128)>,
)
    requires
        call_ensures(Report::checked_total_samples, (report,), checked),
        call_ensures(Report::total_samples, (report,), total),
        call_ensures(Report::unique_stacks, (report,), stacks),
        call_ensures(Report::duration, (report,), duration),
        call_ensures(Report::clock_type, (report,), clock),
        call_ensures(Report::samples_over_duration, (report,), rate),
        sum_of(times_seen(report.data@)) <= usize::MAX,
    ensures
        total == sum_of(times_seen(report.data@)),
        checked == Some(total),
        stacks == report.data@.len(),
        duration == report.timing.duration,
        clock == report.timing.clock_type,
        ({
            let nanos = report.timing.duration.secs * 1_000_000_000 + report.timing.duration.nanos;
            if nanos > 0 {
                rate matches Some((samples, time)) && samples == total && time == nanos
            } else {
                rate is None
            }
        }),
{
    lemma_total_seen(report.data@);
}

/// What an unresolved report tells of itself, as a report does.
pub proof fn law_unresolved_report(
    report: &UnresolvedReport,
    checked: Option<usize>,
    total: usize,
    stacks: usize,
    duration: Duration,
    clock: ClockType,
    rate: Option<(usize, u128)>,
)
    requires
        call_ensures(UnresolvedReport::checked_total_samples, (report,), checked),
        call_ensures(UnresolvedReport::total_samples, (report,), total),
        call_ensures(UnresolvedReport::unique_stacks, (report,), stacks),
        call_ensures(UnresolvedReport::duration, (report,), duration),
        call_ensures(UnresolvedReport::clock_type, (report,), clock),
        call_ensures(UnresolvedReport::samples_over_duration, (report,), rate),
        sum_of(raw_times_seen(report.data@)) <= usize::MAX,
    ensures
        total == sum_of(raw_times_seen(report.data@)),
        checked == Some(total),
        stacks == report.data@.len(),
        duration == report.timing.duration,
        clock == report.timing.clock_type,
        ({
            let nanos = report.timing.duration.secs * 1_000_000_000 + report.timing.duration.nanos;
            if nanos > 0 {
                rate matches Some((samples, time)) && samples == total && time == nanos
            } else {
                rate is None
            }
        }),
{
    lemma_raw_total(report.data@);
}

/// A total that a count cannot hold is not told.
pub proof fn law_total_refused(
    report: &Report,
    a: Option<usize>,
    raw: &UnresolvedReport,
    b: Option<usize>,
)
    requires
        call_ensures(Report::checked_total_samples, (report,), a),
        call_ensures(UnresolvedReport::checked_total_samples, (raw,), b),
    ensures
        a is None <==> sum_of(times_seen(report.data@)) > usize::MAX,
        b is None <==> sum_of(raw_times_seen(raw.data@)) > usize::MAX,
{
    lemma_total_seen(report.data@);
    lemma_raw_total(raw.data@);
}

/// A report can be told in the pprof format just where it has a frequency and each count,
/// in nanoseconds, fits in 64 bits.
pub proof fn law_fits_pprof(report: &Report, r: bool)
    requires
        call_ensures(Report::fits_pprof, (report,), r),
    ensures
        r <==> report.timing.frequency != 0 && forall|i: int|
            0 <= i < report.data@.len() ==> i64::MIN <= (#[trigger] report.data@[i]).1
                * 1_000_000_000 <= i64::MAX,
{
    let list = crate::report::counts(report.entries());
    assert(list.len() == report.data@.len());
    assert forall|i: int| 0 <= i < list.len() implies list[i] == (
    #[trigger] report.data@[i]).1 by {}
    if r {
        assert forall|i: int| 0 <= i < report.data@.len() implies i64::MIN <= (
        #[trigger] report.data@[i]).1 * 1_000_000_000 <= i64::MAX by {
            assert(i64::MIN <= list[i] * 1_000_000_000 <= i64::MAX);
        }
    }
    if forall|i: int|
        0 <= i < report.data@.len() ==> i64::MIN <= (#[trigger] report.data@[i]).1 * 1_000_000_000
            <= i64::MAX {
        assert forall|i: int| 0 <= i < list.len() implies i64::MIN <= #[trigger] list[i]
            * 1_000_000_000 <= i64::MAX by {
            assert(report.data@[i].1 == list[i]);
        }
    }
}

} // verus!
