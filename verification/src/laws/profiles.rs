//! Laws of profiles in the pprof format.

use vstd::prelude::*;

use crate::error::Error;
use crate::frames::{Frames, Symbol};
use crate::heap_report::{record_texts, HeapRecord, HeapReport};
use crate::intern::{first_occurrences, law_first_occurrences};
use crate::pprof::{
    all_symbols, first_by_name, function_table, heap_extra, law_functions_distinct,
    law_string_id_reads_back, lemma_first_by_name, lemma_strings_hold, lemma_symbol_words,
    lemma_thread_word, location_ids, location_table, missed_comment, names_of,
    quotient, samples_extra, stack_words, string_id, string_table, strings, StackTextView,
    SymbolTextView,
};
use crate::protos::{Profile, ValueType};
use crate::report::{stack_texts, Report};
use crate::text::decimal;

use super::stacks::{
    binary_name, calls, lemma_calls, lemma_concat_flatten, lemma_flatten_map, source_file,
    source_line, source_name, thread_of,
};

verus! {

/// The string that a profile has at a place of its string table.
pub open spec fn string_at(p: Profile, id: i64) -> Seq<char> {
    p.string_table@[id as int]@
}

/// Whether a kind of value has the given name and unit.
pub open spec fn measures(p: Profile, kind: ValueType, name: Seq<char>, unit: Seq<char>) -> bool {
    &&& 0 < kind.ty < p.string_table@.len()
    &&& 0 < kind.unit < p.string_table@.len()
    &&& string_at(p, kind.ty) == name
    &&& string_at(p, kind.unit) == unit
}

/// The calls of several stacks, one stack after the other.
pub open spec fn all_calls(stacks: Seq<Frames>) -> Seq<Symbol> {
    stacks.map_values(|f: Frames| calls(f)).flatten()
}

/// Whether the function and the location at `k` tell of the call `s`: its names, its file
/// and its line.
pub open spec fn tells_of(p: Profile, k: int, s: Symbol) -> bool {
    &&& string_at(p, p.function@[k].name) == source_name(s)
    &&& string_at(p, p.function@[k].system_name) == binary_name(s)
    &&& string_at(p, p.function@[k].filename) == source_file(s)
    &&& p.location@[k].line@[0].line == source_line(s)
}

/// Whether the call at `m` is the first of its name.
pub open spec fn first_of_name(all: Seq<Symbol>, m: int) -> bool {
    &&& 0 <= m < all.len()
    &&& forall|x: int| 0 <= x < m ==> source_name(#[trigger] all[x]) != source_name(all[m])
}

/// Whether the call has the name of a function before `k`.
pub open spec fn is_named(p: Profile, k: int, s: Symbol) -> bool {
    exists|l: int| 0 <= l < k && string_at(p, (#[trigger] p.function@[l]).name) == source_name(s)
}

/// Whether each call before `m` has the name of a function before `k`.
pub open spec fn named_before(p: Profile, k: int, all: Seq<Symbol>, m: int) -> bool {
    forall|x: int| 0 <= x < m ==> is_named(p, k, #[trigger] all[x])
}

/// Whether the word is the thread of a stack, or a name or the file of a call.
pub open spec fn word_of(stacks: Seq<Frames>, w: Seq<char>) -> bool {
    ||| exists|i: int| 0 <= i < stacks.len() && thread_of(#[trigger] stacks[i]) == w
    ||| exists|m: int|
        0 <= m < all_calls(stacks).len() && {
            let s = #[trigger] all_calls(stacks)[m];
            source_name(s) == w || binary_name(s) == w || source_file(s) == w
        }
}

/// Whether the tables of a profile are those of the stacks: the empty string stands first
/// and no other stands twice; functions and locations are numbered from 1, each location
/// has one line, in the function of its number, and each function is that of the first call
/// of its name, no two of one name, in the order of those calls; and the locations of each
/// stack are those of its calls.
pub open spec fn tells_calls(p: Profile, stacks: Seq<Frames>) -> bool {
    &&& p.string_table@.len() > 0
    &&& p.string_table@[0]@.len() == 0
    &&& forall|i: int, j: int|
        #![trigger p.string_table@[i], p.string_table@[j]]
        0 < i < j < p.string_table@.len() ==> p.string_table@[i]@ != p.string_table@[j]@
    &&& p.location@.len() == p.function@.len()
    &&& forall|k: int|
        0 <= k < p.function@.len() ==> {
            &&& (#[trigger] p.function@[k]).id == k + 1
            &&& p.location@[k].id == k + 1
            &&& p.location@[k].line@.len() == 1
            &&& p.location@[k].line@[0].function_id == k + 1
            &&& exists|m: int|
                #[trigger] first_of_name(all_calls(stacks), m) && tells_of(
                    p,
                    k,
                    all_calls(stacks)[m],
                ) && named_before(p, k, all_calls(stacks), m)
        }
    &&& forall|k: int, l: int|
        #![trigger p.function@[k], p.function@[l]]
        0 <= k < l < p.function@.len() ==> string_at(p, p.function@[k].name) != string_at(
            p,
            p.function@[l].name,
        )
    &&& p.sample@.len() == stacks.len()
    &&& forall|i: int|
        0 <= i < stacks.len() ==> (#[trigger] p.sample@[i]).location_id@.len() == calls(
            stacks[i],
        ).len()
    &&& forall|i: int, j: int|
        #![trigger p.sample@[i].location_id@[j]]
        0 <= i < stacks.len() && 0 <= j < calls(stacks[i]).len() ==> {
            let id = p.sample@[i].location_id@[j];
            &&& 1 <= id <= p.function@.len()
            &&& string_at(p, p.function@[id - 1].name) == source_name(calls(stacks[i])[j])
        }
}

proof fn lemma_first_symbol(symbols: Seq<SymbolTextView>, k: int) -> (m: int)
    requires
        0 <= k < first_by_name(symbols).len(),
    ensures
        0 <= m < symbols.len(),
        first_by_name(symbols)[k] == symbols[m],
        forall|x: int| 0 <= x < m ==> (#[trigger] symbols[x]).name != symbols[m].name,
        forall|x: int|
            0 <= x < m ==> names_of(first_by_name(symbols).take(k)).contains(
                (#[trigger] symbols[x]).name,
            ),
    decreases symbols.len(),
{
    let shorter = symbols.drop_last();
    let found = first_by_name(shorter);
    if k < found.len() {
        let m = lemma_first_symbol(shorter, k);
        assert forall|x: int| 0 <= x < m implies (#[trigger] symbols[x]).name
            != symbols[m].name by {
            assert(shorter[x] == symbols[x]);
        }
        assert(first_by_name(symbols).take(k) =~= found.take(k));
        assert forall|x: int| 0 <= x < m implies names_of(
            first_by_name(symbols).take(k),
        ).contains((#[trigger] symbols[x]).name) by {
            assert(shorter[x] == symbols[x]);
        }
        m
    } else {
        let m = symbols.len() - 1;
        lemma_first_by_name(shorter);
        law_first_occurrences(names_of(shorter));
        assert forall|x: int| 0 <= x < m implies (#[trigger] symbols[x]).name
            != symbols[m].name by {
            assert(names_of(shorter)[x] == symbols[x].name);
            assert(names_of(shorter).contains(symbols[x].name));
            assert(first_occurrences(names_of(shorter)).contains(symbols[x].name));
        }
        assert(first_by_name(symbols).take(k) =~= found);
        assert forall|x: int| 0 <= x < m implies names_of(
            first_by_name(symbols).take(k),
        ).contains((#[trigger] symbols[x]).name) by {
            assert(names_of(shorter)[x] == symbols[x].name);
            assert(names_of(shorter).contains(symbols[x].name));
            assert(first_occurrences(names_of(shorter)).contains(symbols[x].name));
        }
        m
    }
}

proof fn lemma_all_symbols(stacks: Seq<Frames>, views: Seq<StackTextView>)
    requires
        views.len() == stacks.len(),
        forall|i: int| 0 <= i < stacks.len() ==> (#[trigger] views[i]) == stacks[i]@.text(),
    ensures
        all_symbols(views) == all_calls(stacks).map_values(|s: Symbol| s@.text()),
{
    let look = |s: Symbol| s@.text();
    let parts = stacks.map_values(|f: Frames| calls(f));
    let mapped = parts.map_values(|p: Seq<Symbol>| p.map_values(look));
    let symbols = Seq::new(views.len(), |i: int| views[i].symbols);
    assert forall|i: int| 0 <= i < stacks.len() implies symbols[i] =~= mapped[i] by {
        lemma_calls(stacks[i]);
    }
    assert(symbols =~= mapped);
    lemma_concat_flatten(symbols);
    lemma_flatten_map(parts, look);
}

/// What the tables of a profile tell, from what they are made of.
proof fn lemma_tells_calls(
    p: Profile,
    stacks: Seq<Frames>,
    views: Seq<StackTextView>,
    extra: Seq<Seq<char>>,
)
    requires
        views.len() == stacks.len(),
        forall|i: int| 0 <= i < stacks.len() ==> (#[trigger] views[i]) == stacks[i]@.text(),
        p.string_table@.len() <= i64::MAX,
        p@.string_table == string_table(strings(views, extra)),
        p@.function == function_table(strings(views, extra), first_by_name(all_symbols(views))),
        p@.location == location_table(first_by_name(all_symbols(views))),
        p@.sample.len() == stacks.len(),
        forall|i: int|
            0 <= i < stacks.len() ==> (#[trigger] p@.sample[i]).location_id == location_ids(
                first_by_name(all_symbols(views)),
                views[i].symbols,
            ),
    ensures
        tells_calls(p, stacks),
        forall|w: Seq<char>|
            #![trigger extra.contains(w)]
            #![trigger stack_words(views).contains(w)]
            extra.contains(w) || stack_words(views).contains(w) ==> {
                &&& 0 < string_id(strings(views, extra), w) < p.string_table@.len()
                &&& string_at(p, string_id(strings(views, extra), w)) == w
            },
        forall|i: int|
            0 < i < p.string_table@.len() ==> word_of(stacks, (#[trigger] p.string_table@[i])@)
                || extra.contains(p.string_table@[i]@),
{
    let words = strings(views, extra);
    let all = all_symbols(views);
    let functions = first_by_name(all);
    let symbols = all_calls(stacks);
    lemma_strings_hold(views, extra);
    lemma_all_symbols(stacks, views);
    law_functions_distinct(all);
    assert(p@.string_table.len() == p.string_table@.len());
    assert(p@.location.len() == p.location@.len());
    assert(p.function.len() == functions.len());
    assert(p@.sample.len() == p.sample@.len());
    assert forall|id: int| 0 <= id < p.string_table@.len() implies (
    #[trigger] p.string_table@[id])@ == string_table(words)[id] by {
        assert(p@.string_table[id] == p.string_table@[id]@);
    }
    assert forall|w: Seq<char>|
        #![trigger extra.contains(w)]
        #![trigger stack_words(views).contains(w)]
        extra.contains(w) || stack_words(views).contains(w) implies {
        &&& 0 < string_id(words, w) < p.string_table@.len()
        &&& string_at(p, string_id(words, w)) == w
    } by {
        law_string_id_reads_back(words, w);
    }
    assert forall|i: int, j: int|
        #![trigger p.string_table@[i], p.string_table@[j]]
        0 < i < j < p.string_table@.len() implies p.string_table@[i]@ != p.string_table@[j]@ by {
        assert(words[i - 1] != words[j - 1]);
    }
    assert forall|k: int| 0 <= k < functions.len() implies string_at(
        p,
        (#[trigger] p.function@[k]).name,
    ) == functions[k].name by {
        let m = lemma_first_symbol(all, k);
        lemma_symbol_in_words(views, m);
        law_string_id_reads_back(words, functions[k].name);
        assert(p@.function[k] == p.function@[k]);
    }
    assert forall|i: int| 0 < i < p.string_table@.len() implies word_of(
        stacks,
        (#[trigger] p.string_table@[i])@,
    ) || extra.contains(p.string_table@[i]@) by {
        let w = p.string_table@[i]@;
        assert(words[i - 1] == w);
        assert(words.contains(w));
        law_first_occurrences(stack_words(views) + extra);
        let at = (stack_words(views) + extra).index_of(w);
        if at < stack_words(views).len() {
            assert(stack_words(views)[at] == w);
            lemma_word_of(stacks, views, at);
        } else {
            assert(extra[at - stack_words(views).len()] == w);
        }
    }
    assert forall|k: int| 0 <= k < functions.len() implies {
        &&& string_at(p, (#[trigger] p.function@[k]).name) == functions[k].name
        &&& string_at(p, p.function@[k].system_name) == functions[k].sys_name
        &&& string_at(p, p.function@[k].filename) == functions[k].filename
        &&& p.location@[k].id == k + 1
        &&& p.location@[k].line@.len() == 1
        &&& p.location@[k].line@[0].function_id == k + 1
        &&& p.location@[k].line@[0].line == functions[k].lineno
        &&& exists|m: int| #[trigger]
            first_of_name(symbols, m) && tells_of(p, k, symbols[m]) && named_before(
                p,
                k,
                symbols,
                m,
            )
    } by {
        let m = lemma_first_symbol(all, k);
        assert(all[m] == symbols[m]@.text());
        lemma_symbol_in_words(views, m);
        law_string_id_reads_back(words, functions[k].name);
        law_string_id_reads_back(words, functions[k].sys_name);
        law_string_id_reads_back(words, functions[k].filename);
        assert(p@.function[k] == p.function@[k]);
        assert(p@.location[k] == p.location@[k]@);
        assert forall|x: int| 0 <= x < m implies source_name(#[trigger] symbols[x])
            != source_name(symbols[m]) by {
            assert(all[x].name != all[m].name);
            assert(all[x] == symbols[x]@.text());
        }
        assert(first_of_name(symbols, m));
        assert(tells_of(p, k, symbols[m]));
        assert forall|x: int| 0 <= x < m implies is_named(p, k, #[trigger] symbols[x]) by {
            let names = names_of(functions.take(k));
            assert(all[x] == symbols[x]@.text());
            assert(names.contains(all[x].name));
            let l = names.index_of(all[x].name);
            assert(functions[l].name == all[x].name);
            assert(string_at(p, p.function@[l].name) == functions[l].name);
        }
        assert(named_before(p, k, symbols, m));
    }
    assert forall|k: int, l: int|
        #![trigger p.function@[k], p.function@[l]]
        0 <= k < l < p.function@.len() implies string_at(p, p.function@[k].name) != string_at(
        p,
        p.function@[l].name,
    ) by {
        assert(names_of(functions)[k] != names_of(functions)[l]);
    }
    assert forall|i: int| 0 <= i < stacks.len() implies (
    #[trigger] p.sample@[i]).location_id@.len() == calls(stacks[i]).len() by {
        lemma_calls(stacks[i]);
        assert(p@.sample[i] == p.sample@[i]@);
        assert(views[i].symbols.len() == calls(stacks[i]).len());
    }
    assert forall|i: int, j: int|
        #![trigger p.sample@[i].location_id@[j]]
        0 <= i < stacks.len() && 0 <= j < calls(stacks[i]).len() implies {
        let id = p.sample@[i].location_id@[j];
        &&& 1 <= id <= p.function@.len()
        &&& string_at(p, p.function@[id - 1].name) == source_name(calls(stacks[i])[j])
    } by {
        lemma_calls(stacks[i]);
        assert(p@.sample[i] == p.sample@[i]@);
        assert(views[i].symbols.len() == calls(stacks[i]).len());
        assert(views[i].symbols[j] == calls(stacks[i])[j]@.text());
        lemma_id_leads_back(views, i, j);
        let id = p.sample@[i].location_id@[j];
        assert(functions[id - 1].name == views[i].symbols[j].name);
        assert(string_at(p, p.function@[id - 1].name) == functions[id - 1].name);
    }
}

/// Every string of the stacks is a thread, or belongs to a call.
proof fn lemma_word_of(stacks: Seq<Frames>, views: Seq<StackTextView>, at: int)
    requires
        views.len() == stacks.len(),
        forall|i: int| 0 <= i < stacks.len() ==> (#[trigger] views[i]) == stacks[i]@.text(),
        0 <= at < stack_words(views).len(),
    ensures
        word_of(stacks, stack_words(views)[at]),
{
    let w = stack_words(views)[at];
    let parts = Seq::new(views.len(), |i: int| views[i].words());
    let (i, j) = lemma_concat_place(parts, at);
    let view = views[i];
    lemma_calls(stacks[i]);
    if j == 0 {
        assert(w == view.thread);
        assert(thread_of(stacks[i]) == w);
    } else {
        let inner = Seq::new(view.symbols.len(), |k: int| view.symbols[k].words());
        let (k, l) = lemma_concat_place(inner, j - 1);
        let symbol = view.symbols[k];
        assert(w == symbol.words()[l]);
        lemma_all_symbols(stacks, views);
        let lists = Seq::new(views.len(), |x: int| views[x].symbols);
        assert(lists[i].contains(symbol));
        crate::frames::lemma_concat_contains(lists, i, symbol);
        let m = all_symbols(views).index_of(symbol);
        let s = all_calls(stacks)[m];
        assert(symbol == s@.text());
        assert(source_name(s) == w || binary_name(s) == w || source_file(s) == w);
    }
}

/// The id of a symbol is the place of the function of its name.
proof fn lemma_id_leads_back(views: Seq<StackTextView>, i: int, j: int)
    requires
        0 <= i < views.len(),
        0 <= j < views[i].symbols.len(),
        first_by_name(all_symbols(views)).len() <= usize::MAX,
    ensures
        ({
            let functions = first_by_name(all_symbols(views));
            let id = location_ids(functions, views[i].symbols)[j];
            1 <= id <= functions.len() && functions[id - 1].name == views[i].symbols[j].name
        }),
{
    let all = all_symbols(views);
    let functions = first_by_name(all);
    let symbol = views[i].symbols[j];
    let parts = Seq::new(views.len(), |k: int| views[k].symbols);
    assert(parts[i].contains(symbol));
    crate::frames::lemma_concat_contains(parts, i, symbol);
    let k = all.index_of(symbol);
    assert(names_of(all)[k] == symbol.name);
    lemma_first_by_name(all);
    law_first_occurrences(names_of(all));
    assert(names_of(functions).contains(symbol.name));
    let at = crate::intern::place(names_of(functions), symbol.name);
    assert(0 <= at < functions.len() && functions[at].name == symbol.name);
}

/// The strings of every symbol are among those of the stacks.
proof fn lemma_symbol_in_words(views: Seq<StackTextView>, m: int)
    requires
        0 <= m < all_symbols(views).len(),
    ensures
        stack_words(views).contains(all_symbols(views)[m].name),
        stack_words(views).contains(all_symbols(views)[m].sys_name),
        stack_words(views).contains(all_symbols(views)[m].filename),
{
    let parts = Seq::new(views.len(), |k: int| views[k].symbols);
    let (i, j) = lemma_concat_place(parts, m);
    lemma_symbol_words(views, i, j);
}

/// Every element of the whole is an element of a part.
proof fn lemma_concat_place<A>(parts: Seq<Seq<A>>, m: int) -> (r: (int, int))
    requires
        0 <= m < crate::frames::concat_all(parts).len(),
    ensures
        0 <= r.0 < parts.len(),
        0 <= r.1 < parts[r.0].len(),
        parts[r.0][r.1] == crate::frames::concat_all(parts)[m],
    decreases parts.len(),
{
    let before = crate::frames::concat_all(parts.drop_last());
    if m < before.len() {
        lemma_concat_place(parts.drop_last(), m)
    } else {
        (parts.len() - 1, m - before.len())
    }
}

/// Whether `q` is the quotient of `n` by `d`, rounded towards zero.
pub open spec fn divides(n: int, d: int, q: int) -> bool {
    let rest = n - q * d;
    &&& vstd::math::abs(rest) < vstd::math::abs(d)
    &&& n >= 0 ==> rest >= 0
    &&& n <= 0 ==> rest <= 0
}

proof fn lemma_quotient(n: int, d: int)
    requires
        d != 0,
    ensures
        divides(n, d, quotient(n, d)),
        -vstd::math::abs(n) <= quotient(n, d) <= vstd::math::abs(n),
{
    let x = vstd::math::abs(n) as int;
    let y = vstd::math::abs(d) as int;
    let size = x / y;
    vstd::arithmetic::div_mod::lemma_fundamental_div_mod(x, y);
    vstd::arithmetic::div_mod::lemma_mod_bound(x, y);
    vstd::arithmetic::div_mod::lemma_div_pos_is_pos(x, y);
    vstd::arithmetic::div_mod::lemma_div_nonincreasing(x, y);
    let q = quotient(n, d);
    assert(q * d == (if n < 0 {
        -(y * size)
    } else {
        y * size
    })) by (nonlinear_arith)
        requires
            d != 0,
            y == (if d < 0 {
                -d
            } else {
                d
            }),
            q == (if (n < 0) == (d < 0) {
                size
            } else {
                -size
            }),
    ;
}

/// The pprof profile of a report: one sample for each stack, with its count and the time
/// that its samples stand for, on its thread; functions, files and lines of the calls;
/// and the frequency, the times and the dropped samples of the report.
pub proof fn law_pprof(report: &Report, r: Result<Profile, Error>)
    requires
        call_ensures(Report::pprof, (report,), r),
        report.timing.frequency != 0,
        forall|i: int|
            0 <= i < report.data@.len() ==> i64::MIN <= (#[trigger] report.data@[i]).1
                * 1_000_000_000 <= i64::MAX,
        r matches Ok(p) ==> p.string_table@.len() <= i64::MAX,
    ensures
        r matches Ok(p) && {
            &&& tells_calls(p, report.data@.map_values(|e: (Frames, isize)| e.0))
            &&& p.sample_type@.len() == 2
            &&& measures(p, p.sample_type@[0], "samples"@, "count"@)
            &&& measures(p, p.sample_type@[1], "cpu"@, "nanoseconds"@)
            &&& p.period_type matches Some(kind) && measures(p, kind, "cpu"@, "nanoseconds"@)
            &&& divides(1_000_000_000, report.timing.frequency as int, p.period as int)
            &&& p.sample@.len() == report.data@.len()
            &&& forall|i: int|
                0 <= i < report.data@.len() ==> {
                    let count = report.data@[i].1;
                    &&& (#[trigger] p.sample@[i]).value@.len() == 2
                    &&& p.sample@[i].value@[0] == count
                    &&& divides(
                        count * 1_000_000_000,
                        report.timing.frequency as int,
                        p.sample@[i].value@[1] as int,
                    )
                    &&& p.sample@[i].label@.len() == 1
                    &&& string_at(p, p.sample@[i].label@[0].key) == "thread"@
                    &&& string_at(p, p.sample@[i].label@[0].str) == thread_of(report.data@[i].0)
                }
            &&& forall|i: int|
                0 < i < p.string_table@.len() ==> {
                    let w = (#[trigger] p.string_table@[i])@;
                    ||| word_of(report.data@.map_values(|e: (Frames, isize)| e.0), w)
                    ||| w == "samples"@ || w == "count"@ || w == "cpu"@ || w == "nanoseconds"@
                    ||| w == "thread"@ || w == "missed samples due to lock contention: "@
                        + decimal(report.missed_samples as nat)
                }
            &&& p.comment@.len() == 1
            &&& string_at(p, p.comment@[0]) == "missed samples due to lock contention: "@
                + decimal(report.missed_samples as nat)
            &&& report.timing.start_time.nanos <= 0 ==> p.time_nanos == 0
            &&& report.timing.start_time.nanos >= 0 ==> p.time_nanos
                == report.timing.start_time.nanos as int as i64
            &&& p.duration_nanos == (report.timing.duration.secs * 1_000_000_000
                + report.timing.duration.nanos) as i64
        },
{
    let p = r->Ok_0;
    let stacks = report.data@.map_values(|e: (Frames, isize)| e.0);
    let data = report.entries();
    let views = stack_texts(data);
    let list = crate::report::counts(data);
    let missed = report.missed_samples;
    let extra = samples_extra(missed);
    let words = strings(views, extra);
    let f = report.timing.frequency as int;
    assert(crate::pprof::nanos_fit(list)) by {
        assert forall|i: int| 0 <= i < list.len() implies i64::MIN <= #[trigger] list[i]
            * 1_000_000_000 <= i64::MAX by {
            assert(report.data@[i].1 == list[i]);
        }
    }
    assert(p@ == crate::pprof::samples_profile(views, list, report.timing, missed));
    assert forall|i: int| 0 <= i < stacks.len() implies (#[trigger] views[i])
        == stacks[i]@.text() by {}
    lemma_tells_calls(p, stacks, views, extra);
    assert(extra[0] == "samples"@ && extra[1] == "count"@ && extra[2] == "cpu"@ && extra[3]
        == "nanoseconds"@ && extra[4] == "thread"@ && extra[5] == missed_comment(missed));
    assert(extra.contains("samples"@) && extra.contains("count"@) && extra.contains("cpu"@)
        && extra.contains("nanoseconds"@) && extra.contains("thread"@) && extra.contains(
        missed_comment(missed),
    ));
    lemma_quotient(1_000_000_000, f);
    assert(p@.sample.len() == p.sample@.len());
    assert forall|i: int| 0 <= i < report.data@.len() implies {
        let count = report.data@[i].1;
        &&& (#[trigger] p.sample@[i]).value@.len() == 2
        &&& p.sample@[i].value@[0] == count
        &&& divides(count * 1_000_000_000, f, p.sample@[i].value@[1] as int)
        &&& p.sample@[i].label@.len() == 1
        &&& string_at(p, p.sample@[i].label@[0].key) == "thread"@
        &&& string_at(p, p.sample@[i].label@[0].str) == thread_of(report.data@[i].0)
    } by {
        let count = report.data@[i].1;
        assert(p@.sample[i] == p.sample@[i]@);
        lemma_calls(stacks[i]);
        lemma_thread_word(views, i);
        assert(stack_words(views).contains(views[i].thread));
        lemma_quotient(count * 1_000_000_000, f);
        lemma_quotient_fits(count * 1_000_000_000, f);
    }
}

proof fn lemma_quotient_fits(n: int, d: int)
    requires
        d != 0,
        d != i64::MIN,
        i64::MIN <= n <= i64::MAX,
        n % 1_000_000_000 == 0,
    ensures
        i64::MIN <= quotient(n, d) <= i64::MAX,
{
    lemma_quotient(n, d);
}

/// The pprof profile of a heap report: one sample for each record, with its four counters,
/// those in use as 0 below zero; functions, files and lines of the calls; and the sampling
/// interval and the time of the report.
pub proof fn law_heap_pprof(report: &HeapReport, r: Result<Profile, Error>)
    requires
        call_ensures(HeapReport::pprof, (report,), r),
        r matches Ok(p) ==> p.string_table@.len() <= i64::MAX,
    ensures
        r matches Ok(p) && {
            &&& tells_calls(p, report.records@.map_values(|c: HeapRecord| c.frames))
            &&& p.sample_type@.len() == 4
            &&& measures(p, p.sample_type@[0], "alloc_objects"@, "count"@)
            &&& measures(p, p.sample_type@[1], "alloc_space"@, "bytes"@)
            &&& measures(p, p.sample_type@[2], "inuse_objects"@, "count"@)
            &&& measures(p, p.sample_type@[3], "inuse_space"@, "bytes"@)
            &&& p.period_type matches Some(kind) && measures(p, kind, "space"@, "bytes"@)
            &&& p.period == report.sample_rate as i64
            &&& p.sample@.len() == report.records@.len()
            &&& forall|i: int|
                0 <= i < report.records@.len() ==> {
                    let c = report.records@[i];
                    &&& (#[trigger] p.sample@[i]).value@.len() == 4
                    &&& p.sample@[i].value@[0] == c.alloc_objects as i64
                    &&& p.sample@[i].value@[1] == c.alloc_bytes as i64
                    &&& p.sample@[i].value@[2] == (if c.inuse_objects > 0 {
                        c.inuse_objects
                    } else {
                        0
                    })
                    &&& p.sample@[i].value@[3] == (if c.inuse_bytes > 0 {
                        c.inuse_bytes
                    } else {
                        0
                    })
                    &&& p.sample@[i].label@.len() == 0
                }
            &&& forall|i: int|
                0 < i < p.string_table@.len() ==> {
                    let w = (#[trigger] p.string_table@[i])@;
                    ||| word_of(report.records@.map_values(|c: HeapRecord| c.frames), w)
                    ||| w == "alloc_objects"@ || w == "alloc_space"@ || w == "inuse_objects"@
                    ||| w == "inuse_space"@ || w == "count"@ || w == "bytes"@ || w == "space"@
                }
            &&& p.comment@.len() == 0
            &&& p.duration_nanos == 0
            &&& report.timestamp.nanos <= 0 ==> p.time_nanos == 0
            &&& report.timestamp.nanos >= 0 ==> p.time_nanos == report.timestamp.nanos as int as i64
        },
{
    let p = r->Ok_0;
    let stacks = report.records@.map_values(|c: HeapRecord| c.frames);
    let records = report.entries();
    let views = record_texts(records);
    let extra = heap_extra();
    assert forall|i: int| 0 <= i < stacks.len() implies (#[trigger] views[i])
        == stacks[i]@.text() by {
        assert(records[i] == report.records@[i]@);
    }
    lemma_tells_calls(p, stacks, views, extra);
    assert(extra[0] == "alloc_objects"@ && extra[1] == "alloc_space"@ && extra[2]
        == "inuse_objects"@ && extra[3] == "inuse_space"@ && extra[4] == "count"@ && extra[5]
        == "bytes"@ && extra[6] == "space"@);
    assert(extra.contains("alloc_objects"@) && extra.contains("alloc_space"@) && extra.contains(
        "inuse_objects"@,
    ) && extra.contains("inuse_space"@) && extra.contains("count"@) && extra.contains("bytes"@)
        && extra.contains("space"@));
    assert(p@.sample.len() == p.sample@.len());
    assert forall|i: int| 0 <= i < report.records@.len() implies {
        let c = report.records@[i];
        &&& (#[trigger] p.sample@[i]).value@.len() == 4
        &&& p.sample@[i].value@[0] == c.alloc_objects as i64
        &&& p.sample@[i].value@[1] == c.alloc_bytes as i64
        &&& p.sample@[i].value@[2] == (if c.inuse_objects > 0 {
            c.inuse_objects
        } else {
            0
        })
        &&& p.sample@[i].value@[3] == (if c.inuse_bytes > 0 {
            c.inuse_bytes
        } else {
            0
        })
        &&& p.sample@[i].label@.len() == 0
    } by {
        assert(p@.sample[i] == p.sample@[i]@);
        assert(records[i] == report.records@[i]@);
    }
}

} // verus!
