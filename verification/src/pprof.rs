//! Profiles in the pprof format: the string table, the functions and locations, and
//! the samples that refer to them.

use vstd::prelude::*;

use crate::frames::{concat_all, lemma_concat_contains, lemma_concat_split};
use crate::heap::AllocCounts;
use crate::intern::{
    first_occurrences, law_first_occurrences, lemma_first_occurrences_push, lemma_place,
    lemma_place_kept, place, NameTable,
};
use crate::protos::{
    locations_view, Function, Label, Line, Location, LocationView, Profile, ProfileView, Sample,
    SampleView, ValueType,
};
use crate::text::{decimal, push_decimal, texts};
use crate::timer::{ReportTiming, Timestamp};

verus! {

/// The texts of one symbol.
#[derive(Debug)]
pub struct SymbolText {
    pub name: String,
    pub sys_name: String,
    pub filename: String,
    pub lineno: u32,
}

/// The contents of a `SymbolText`.
#[verifier::ext_equal]
pub struct SymbolTextView {
    pub name: Seq<char>,
    pub sys_name: Seq<char>,
    pub filename: Seq<char>,
    pub lineno: u32,
}

impl View for SymbolText {
    type V = SymbolTextView;

    open spec fn view(&self) -> SymbolTextView {
        SymbolTextView {
            name: self.name@,
            sys_name: self.sys_name@,
            filename: self.filename@,
            lineno: self.lineno,
        }
    }
}

/// The texts of one stack, innermost call first.
#[derive(Debug)]
pub struct StackText {
    pub thread: String,
    pub symbols: Vec<SymbolText>,
}

/// The contents of a `StackText`.
#[verifier::ext_equal]
pub struct StackTextView {
    pub thread: Seq<char>,
    pub symbols: Seq<SymbolTextView>,
}

impl View for StackText {
    type V = StackTextView;

    open spec fn view(&self) -> StackTextView {
        StackTextView {
            thread: self.thread@,
            symbols: Seq::new(self.symbols@.len(), |i: int| self.symbols@[i]@),
        }
    }
}

/// The contents of a list of stacks.
pub open spec fn stacks_view(stacks: Seq<StackText>) -> Seq<StackTextView> {
    Seq::new(stacks.len(), |i: int| stacks[i]@)
}

impl SymbolTextView {
    /// The strings of one symbol.
    pub open spec fn words(self) -> Seq<Seq<char>> {
        seq![self.name, self.sys_name, self.filename]
    }
}

impl StackTextView {
    /// The strings of one stack.
    pub open spec fn words(self) -> Seq<Seq<char>> {
        seq![self.thread] + concat_all(
            Seq::new(self.symbols.len(), |i: int| self.symbols[i].words()),
        )
    }
}

/// The strings of several stacks.
pub open spec fn stack_words(stacks: Seq<StackTextView>) -> Seq<Seq<char>> {
    concat_all(Seq::new(stacks.len(), |i: int| stacks[i].words()))
}

/// The distinct strings of a profile: those of its stacks, then `extra`.
pub open spec fn strings(stacks: Seq<StackTextView>, extra: Seq<Seq<char>>) -> Seq<Seq<char>> {
    first_occurrences(stack_words(stacks) + extra)
}

/// The string table: the empty string, then the distinct strings.
pub open spec fn string_table(strings: Seq<Seq<char>>) -> Seq<Seq<char>> {
    seq![Seq::<char>::empty()] + strings
}

/// The place of a string in the string table.
pub open spec fn string_id(strings: Seq<Seq<char>>, word: Seq<char>) -> i64 {
    (1 + place(strings, word)) as i64
}

/// All symbols of several stacks.
pub open spec fn all_symbols(stacks: Seq<StackTextView>) -> Seq<SymbolTextView> {
    concat_all(Seq::new(stacks.len(), |i: int| stacks[i].symbols))
}

/// The names of several symbols.
pub open spec fn names_of(symbols: Seq<SymbolTextView>) -> Seq<Seq<char>> {
    Seq::new(symbols.len(), |i: int| symbols[i].name)
}

/// The functions of a profile: of the symbols of one name, the first.
pub open spec fn first_by_name(symbols: Seq<SymbolTextView>) -> Seq<SymbolTextView>
    decreases symbols.len(),
{
    if symbols.len() == 0 {
        Seq::empty()
    } else {
        let found = first_by_name(symbols.drop_last());
        if names_of(found).contains(symbols.last().name) {
            found
        } else {
            found.push(symbols.last())
        }
    }
}

/// The id of the function, and of the location, with the given name.
pub open spec fn function_id(functions: Seq<SymbolTextView>, name: Seq<char>) -> u64 {
    (1 + place(names_of(functions), name)) as u64
}

/// The function at place `i`.
pub open spec fn function_at(
    strings: Seq<Seq<char>>,
    functions: Seq<SymbolTextView>,
    i: int,
) -> Function {
    Function {
        id: (i + 1) as u64,
        name: string_id(strings, functions[i].name),
        system_name: string_id(strings, functions[i].sys_name),
        filename: string_id(strings, functions[i].filename),
    }
}

/// The function table.
pub open spec fn function_table(
    strings: Seq<Seq<char>>,
    functions: Seq<SymbolTextView>,
) -> Seq<Function> {
    Seq::new(functions.len(), |i: int| function_at(strings, functions, i))
}

/// The location at place `i`: one line, in the function of the same id.
pub open spec fn location_at(functions: Seq<SymbolTextView>, i: int) -> LocationView {
    LocationView {
        id: (i + 1) as u64,
        line: seq![Line { function_id: (i + 1) as u64, line: functions[i].lineno as i64 }],
    }
}

/// The location table.
pub open spec fn location_table(functions: Seq<SymbolTextView>) -> Seq<LocationView> {
    Seq::new(functions.len(), |i: int| location_at(functions, i))
}

/// The location ids of one stack.
pub open spec fn location_ids(
    functions: Seq<SymbolTextView>,
    symbols: Seq<SymbolTextView>,
) -> Seq<u64> {
    Seq::new(symbols.len(), |i: int| function_id(functions, symbols[i].name))
}

/// The names of the functions are the distinct names of the symbols.
pub proof fn lemma_first_by_name(symbols: Seq<SymbolTextView>)
    ensures
        names_of(first_by_name(symbols)) == first_occurrences(names_of(symbols)),
    decreases symbols.len(),
{
    if symbols.len() == 0 {
        assert(names_of(first_by_name(symbols)) =~= first_occurrences(names_of(symbols)));
    } else {
        lemma_first_by_name(symbols.drop_last());
        assert(names_of(symbols).drop_last() =~= names_of(symbols.drop_last()));
        let found = first_by_name(symbols.drop_last());
        assert(names_of(found.push(symbols.last())) =~= names_of(found).push(symbols.last().name));
    }
}

/// Symbols further on only add functions at the end.
pub proof fn lemma_first_by_name_prefix(symbols: Seq<SymbolTextView>, more: Seq<SymbolTextView>)
    ensures
        first_by_name(symbols).is_prefix_of(first_by_name(symbols + more)),
    decreases more.len(),
{
    if more.len() == 0 {
        assert(symbols + more =~= symbols);
    } else {
        lemma_first_by_name_prefix(symbols, more.drop_last());
        assert((symbols + more).drop_last() =~= symbols + more.drop_last());
    }
}

/// All symbols, split behind the first `j` symbols of the stack at `i`.
pub proof fn lemma_symbols_split(stacks: Seq<StackTextView>, i: int, j: int)
    requires
        0 <= i < stacks.len(),
        0 <= j <= stacks[i].symbols.len(),
    ensures
        ({
            let parts = Seq::new(stacks.len(), |k: int| stacks[k].symbols);
            all_symbols(stacks) == (concat_all(parts.take(i)) + stacks[i].symbols.take(j)) + (
            stacks[i].symbols.skip(j) + concat_all(parts.skip(i + 1)))
        }),
{
    let parts = Seq::new(stacks.len(), |k: int| stacks[k].symbols);
    lemma_concat_split(parts, i + 1);
    assert(parts.take(i + 1).drop_last() =~= parts.take(i));
    assert(parts.take(i + 1).last() == stacks[i].symbols);
    assert(all_symbols(stacks) =~= (concat_all(parts.take(i)) + stacks[i].symbols.take(j)) + (
    stacks[i].symbols.skip(j) + concat_all(parts.skip(i + 1))));
}

/// The names of a prefix are a prefix of the names.
pub proof fn lemma_names_prefix(symbols: Seq<SymbolTextView>, longer: Seq<SymbolTextView>)
    requires
        symbols.is_prefix_of(longer),
    ensures
        names_of(symbols).is_prefix_of(names_of(longer)),
{
    assert forall|i: int| 0 <= i < symbols.len() implies names_of(symbols)[i] == names_of(
        longer,
    )[i] by {
        assert(symbols[i] == longer[i]);
    }
    assert(names_of(symbols) =~= names_of(longer).take(symbols.len() as int));
}

/// The strings of a symbol are among the strings of the stacks.
pub proof fn lemma_symbol_words(stacks: Seq<StackTextView>, i: int, j: int)
    requires
        0 <= i < stacks.len(),
        0 <= j < stacks[i].symbols.len(),
    ensures
        stack_words(stacks).contains(stacks[i].symbols[j].name),
        stack_words(stacks).contains(stacks[i].symbols[j].sys_name),
        stack_words(stacks).contains(stacks[i].symbols[j].filename),
{
    let symbol = stacks[i].symbols[j];
    let parts = Seq::new(stacks.len(), |k: int| stacks[k].words());
    let inner = Seq::new(stacks[i].symbols.len(), |k: int| stacks[i].symbols[k].words());
    assert forall|w: Seq<char>| symbol.words().contains(w) implies stack_words(stacks).contains(
        w,
    ) by {
        lemma_concat_contains(inner, j, w);
        let k = concat_all(inner).index_of(w);
        assert(stacks[i].words()[k + 1] == w);
        assert(parts[i].contains(w));
        lemma_concat_contains(parts, i, w);
    }
    assert(symbol.words()[0] == symbol.name);
    assert(symbol.words()[1] == symbol.sys_name);
    assert(symbol.words()[2] == symbol.filename);
    assert(symbol.words().contains(symbol.name));
    assert(symbol.words().contains(symbol.sys_name));
    assert(symbol.words().contains(symbol.filename));
}

/// The thread of a stack is among the strings of the stacks.
pub proof fn lemma_thread_word(stacks: Seq<StackTextView>, i: int)
    requires
        0 <= i < stacks.len(),
    ensures
        stack_words(stacks).contains(stacks[i].thread),
{
    let parts = Seq::new(stacks.len(), |k: int| stacks[k].words());
    assert(stacks[i].words()[0] == stacks[i].thread);
    assert(parts[i].contains(stacks[i].thread));
    lemma_concat_contains(parts, i, stacks[i].thread);
}

/// Collects the distinct strings of the stacks, then of `extra`.
pub fn collect_strings(stacks: &Vec<StackText>, extra: &Vec<String>) -> (table: NameTable)
    ensures
        table.wf(),
        table@ == strings(stacks_view(stacks@), texts(extra@)),
{
    let mut table = NameTable::new();
    let ghost views = stacks_view(stacks@);
    let ghost parts = Seq::new(views.len(), |i: int| views[i].words());
    let ghost mut seen: Seq<Seq<char>> = Seq::empty();
    assert(parts.take(0) =~= Seq::empty());
    let mut i: usize = 0;
    while i < stacks.len()
        invariant
            i <= stacks@.len(),
            views == stacks_view(stacks@),
            parts == Seq::new(views.len(), |i: int| views[i].words()),
            table.wf(),
            seen == concat_all(parts.take(i as int)),
            table@ == first_occurrences(seen),
        decreases stacks@.len() - i,
    {
        let stack = &stacks[i];
        let ghost before = seen;
        let ghost view = stack@;
        let ghost words = Seq::new(view.symbols.len(), |k: int| view.symbols[k].words());
        table.intern(stack.thread.as_str());
        proof {
            lemma_first_occurrences_push(seen, stack.thread@);
            seen = seen.push(stack.thread@);
            assert(words.take(0) =~= Seq::empty());
            assert(seen =~= before + (seq![stack.thread@] + concat_all(words.take(0))));
        }
        let mut j: usize = 0;
        while j < stack.symbols.len()
            invariant
                j <= stack.symbols@.len(),
                view == stack@,
                words == Seq::new(view.symbols.len(), |k: int| view.symbols[k].words()),
                table.wf(),
                seen == before + (seq![stack.thread@] + concat_all(words.take(j as int))),
                table@ == first_occurrences(seen),
            decreases stack.symbols@.len() - j,
        {
            let symbol = &stack.symbols[j];
            let ghost start = seen;
            table.intern(symbol.name.as_str());
            proof {
                lemma_first_occurrences_push(seen, symbol.name@);
                seen = seen.push(symbol.name@);
            }
            table.intern(symbol.sys_name.as_str());
            proof {
                lemma_first_occurrences_push(seen, symbol.sys_name@);
                seen = seen.push(symbol.sys_name@);
            }
            table.intern(symbol.filename.as_str());
            proof {
                lemma_first_occurrences_push(seen, symbol.filename@);
                seen = seen.push(symbol.filename@);
                assert(words.take(j + 1).drop_last() =~= words.take(j as int));
                assert(words.take(j + 1).last() == symbol@.words());
                assert(seen =~= before + (seq![stack.thread@] + concat_all(words.take(j + 1))));
            }
            j += 1;
        }
        proof {
            assert(words.take(j as int) =~= words);
            assert(parts.take(i + 1).drop_last() =~= parts.take(i as int));
            assert(parts.take(i + 1).last() == view.words());
            assert(seen =~= concat_all(parts.take(i + 1)));
        }
        i += 1;
    }
    assert(parts.take(i as int) =~= parts);
    let ghost stack_part = seen;
    let mut k: usize = 0;
    assert(texts(extra@).take(0) =~= Seq::empty());
    assert(seen =~= stack_part + texts(extra@).take(0));
    while k < extra.len()
        invariant
            k <= extra@.len(),
            table.wf(),
            seen == stack_part + texts(extra@).take(k as int),
            table@ == first_occurrences(seen),
        decreases extra@.len() - k,
    {
        table.intern(extra[k].as_str());
        proof {
            lemma_first_occurrences_push(seen, extra@[k as int]@);
            seen = seen.push(extra@[k as int]@);
            assert(seen =~= stack_part + texts(extra@).take(k + 1));
        }
        k += 1;
    }
    assert(texts(extra@).take(k as int) =~= texts(extra@));
    table
}

/// The place of `word` in the string table.
pub fn find_string(table: &NameTable, word: &str) -> (r: i64)
    requires
        table.wf(),
        table@.contains(word@),
    ensures
        r == string_id(table@, word@),
{
    match table.find(word) {
        Some(i) => (i + 1) as i64,
        None => 0,
    }
}

/// The strings of a profile hold those of its stacks and the extra ones.
pub proof fn lemma_strings_hold(stacks: Seq<StackTextView>, extra: Seq<Seq<char>>)
    ensures
        strings(stacks, extra).no_duplicates(),
        forall|w: Seq<char>| #[trigger]
            stack_words(stacks).contains(w) ==> strings(stacks, extra).contains(w),
        forall|w: Seq<char>| #[trigger]
            extra.contains(w) ==> strings(stacks, extra).contains(w),
{
    let words = stack_words(stacks);
    law_first_occurrences(words + extra);
    assert forall|w: Seq<char>| #[trigger] words.contains(w) implies strings(
        stacks,
        extra,
    ).contains(w) by {
        assert((words + extra)[words.index_of(w)] == w);
    }
    assert forall|w: Seq<char>| #[trigger] extra.contains(w) implies strings(
        stacks,
        extra,
    ).contains(w) by {
        assert((words + extra)[words.len() + extra.index_of(w)] == w);
    }
}

/// The functions, the locations, and for each stack its locations.
pub struct Tables {
    pub function: Vec<Function>,
    pub location: Vec<Location>,
    pub location_ids: Vec<Vec<u64>>,
}

/// Numbers the functions of the stacks in the order of their first appearance, and
/// gives each the location of the same number.
pub fn build_tables(table: &NameTable, stacks: &Vec<StackText>) -> (r: Tables)
    requires
        table.wf(),
        forall|w: Seq<char>| #[trigger]
            stack_words(stacks_view(stacks@)).contains(w) ==> table@.contains(w),
    ensures
        r.function@ == function_table(table@, first_by_name(all_symbols(stacks_view(stacks@)))),
        locations_view(r.location@) == location_table(
            first_by_name(all_symbols(stacks_view(stacks@))),
        ),
        r.location_ids@.len() == stacks@.len(),
        forall|k: int|
            0 <= k < stacks@.len() ==> (#[trigger] r.location_ids@[k])@ == location_ids(
                first_by_name(all_symbols(stacks_view(stacks@))),
                stacks_view(stacks@)[k].symbols,
            ),
{
    let mut names = NameTable::new();
    let mut function: Vec<Function> = Vec::new();
    let mut location: Vec<Location> = Vec::new();
    let mut ids: Vec<Vec<u64>> = Vec::new();
    let ghost views = stacks_view(stacks@);
    let ghost parts = Seq::new(views.len(), |i: int| views[i].symbols);
    let ghost all = first_by_name(all_symbols(views));
    let ghost mut seen: Seq<SymbolTextView> = Seq::empty();
    proof {
        assert(parts.take(0) =~= Seq::empty());
        assert(names@ =~= names_of(first_by_name(seen)));
        assert(function@ =~= function_table(table@, first_by_name(seen)));
        assert(locations_view(location@) =~= location_table(first_by_name(seen)));
    }
    let mut i: usize = 0;
    while i < stacks.len()
        invariant
            i <= stacks@.len(),
            table.wf(),
            forall|w: Seq<char>| #[trigger] stack_words(views).contains(w) ==> table@.contains(w),
            views == stacks_view(stacks@),
            parts == Seq::new(views.len(), |i: int| views[i].symbols),
            all == first_by_name(all_symbols(views)),
            seen == concat_all(parts.take(i as int)),
            names.wf(),
            names@ == names_of(first_by_name(seen)),
            function@ == function_table(table@, first_by_name(seen)),
            locations_view(location@) == location_table(first_by_name(seen)),
            ids@.len() == i,
            forall|k: int|
                0 <= k < i ==> (#[trigger] ids@[k])@ == location_ids(all, views[k].symbols),
        decreases stacks@.len() - i,
    {
        let stack = &stacks[i];
        let ghost symbols = stack@.symbols;
        let ghost before = seen;
        let mut locs: Vec<u64> = Vec::new();
        let mut j: usize = 0;
        assert(seen =~= before + symbols.take(0));
        while j < stack.symbols.len()
            invariant
                i < stacks@.len(),
                j <= stack.symbols@.len(),
                *stack == stacks@[i as int],
                symbols == stack@.symbols,
                table.wf(),
                forall|w: Seq<char>| #[trigger]
                    stack_words(views).contains(w) ==> table@.contains(w),
                views == stacks_view(stacks@),
                parts == Seq::new(views.len(), |i: int| views[i].symbols),
                all == first_by_name(all_symbols(views)),
                before == concat_all(parts.take(i as int)),
                seen == before + symbols.take(j as int),
                names.wf(),
                names@ == names_of(first_by_name(seen)),
                function@ == function_table(table@, first_by_name(seen)),
                locations_view(location@) == location_table(first_by_name(seen)),
                locs@ == location_ids(all, symbols.take(j as int)),
            decreases stack.symbols@.len() - j,
        {
            let symbol = &stack.symbols[j];
            let ghost found = first_by_name(seen);
            let ghost next = seen.push(symbol@);
            proof {
                assert(views[i as int].symbols[j as int] == symbol@);
                lemma_symbol_words(views, i as int, j as int);
                assert(next.drop_last() =~= seen);
                assert(next =~= before + symbols.take(j + 1));
                lemma_symbols_split(views, i as int, j + 1);
                lemma_first_by_name_prefix(
                    next,
                    symbols.skip(j + 1) + concat_all(parts.skip(i + 1)),
                );
                assert(first_by_name(next).is_prefix_of(all));
                lemma_names_prefix(first_by_name(next), all);
                lemma_first_by_name(all_symbols(views));
                law_first_occurrences(names_of(all_symbols(views)));
                assert(symbols.take(j + 1) =~= symbols.take(j as int).push(symbol@));
            }
            match names.find(symbol.name.as_str()) {
                Some(place) => {
                    let id: u64 = place as u64 + 1;
                    locs.push(id);
                    proof {
                        assert(first_by_name(next) == found);
                        lemma_place_kept(names@, names_of(all), symbol.name@);
                        assert(id == function_id(all, symbol.name@));
                    }
                },
                None => {
                    let place: usize = names.intern(symbol.name.as_str());
                    let id: u64 = place as u64 + 1;
                    proof {
                        assert(first_by_name(next) == found.push(symbol@));
                        assert(names_of(found.push(symbol@)) =~= names_of(found).push(
                            symbol.name@,
                        ));
                        assert(names@ == names_of(first_by_name(next)));
                        lemma_place(names@, found.len() as int);
                        lemma_place_kept(names@, names_of(all), symbol.name@);
                        assert(id == function_id(all, symbol.name@));
                    }
                    function.push(
                        Function {
                            id,
                            name: find_string(table, symbol.name.as_str()),
                            system_name: find_string(table, symbol.sys_name.as_str()),
                            filename: find_string(table, symbol.filename.as_str()),
                        },
                    );
                    let ghost earlier = location@;
                    let mut lines: Vec<Line> = Vec::new();
                    lines.push(Line { function_id: id, line: symbol.lineno as i64 });
                    location.push(Location { id, line: lines });
                    locs.push(id);
                    proof {
                        let more = first_by_name(next);
                        assert(function@ =~= function_table(table@, more));
                        assert(locations_view(earlier).len() == location_table(found).len());
                        assert(location@[found.len() as int]@ =~= location_at(
                            more,
                            found.len() as int,
                        ));
                        assert forall|k: int| 0 <= k < more.len() implies locations_view(
                            location@,
                        )[k] == location_table(more)[k] by {
                            if k < found.len() {
                                assert(locations_view(earlier)[k] == location_table(found)[k]);
                                assert(location_at(found, k) =~= location_at(more, k));
                            }
                        }
                        assert(locations_view(location@) =~= location_table(more));
                    }
                },
            }
            proof {
                seen = next;
                assert(locs@ =~= location_ids(all, symbols.take(j + 1)));
            }
            j += 1;
        }
        ids.push(locs);
        proof {
            assert(symbols.take(j as int) =~= symbols);
            assert(parts.take(i + 1).drop_last() =~= parts.take(i as int));
            assert(parts.take(i + 1).last() == symbols);
        }
        i += 1;
    }
    assert(parts.take(i as int) =~= parts);
    Tables { function, location, location_ids: ids }
}

/// The quotient of `a` by `b`, rounded towards zero.
pub open spec fn quotient(a: int, b: int) -> int {
    let size = vstd::math::abs(a) as int / vstd::math::abs(b) as int;
    if (a < 0) == (b < 0) {
        size
    } else {
        -size
    }
}

/// Divides, rounding towards zero.
fn divide(a: i64, b: i64) -> (r: i64)
    requires
        b != 0,
        a != i64::MIN,
        b != i64::MIN,
    ensures
        r == quotient(a as int, b as int),
{
    let x: i64 = if a < 0 { -a } else { a };
    let y: i64 = if b < 0 { -b } else { b };
    let size: i64 = x / y;
    proof {
        vstd::arithmetic::div_mod::lemma_div_pos_is_pos(x as int, y as int);
        vstd::arithmetic::div_mod::lemma_div_nonincreasing(x as int, y as int);
    }
    if (a < 0) == (b < 0) {
        size
    } else {
        -size
    }
}

/// The string table: the empty string, then the distinct strings.
fn into_string_table(table: NameTable) -> (r: Vec<String>)
    ensures
        texts(r@) == string_table(table@),
{
    let mut names = table.into_names();
    let mut r: Vec<String> = Vec::new();
    r.push(String::new());
    r.append(&mut names);
    assert(texts(r@) =~= string_table(table@));
    r
}

pub const SAMPLES: &'static str = "samples";

pub const COUNT: &'static str = "count";

pub const CPU: &'static str = "cpu";

pub const NANOSECONDS: &'static str = "nanoseconds";

pub const THREAD: &'static str = "thread";

pub const MISSED: &'static str = "missed samples due to lock contention: ";

/// The comment on samples that were dropped.
pub open spec fn missed_comment(missed: u64) -> Seq<char> {
    MISSED@ + decimal(missed as nat)
}

/// The strings of a profile of samples besides those of its stacks.
pub open spec fn samples_extra(missed: u64) -> Seq<Seq<char>> {
    seq![SAMPLES@, COUNT@, CPU@, NANOSECONDS@, THREAD@, missed_comment(missed)]
}

/// The time that `count` samples stand for, in nanoseconds.
pub open spec fn sampled_nanos(count: isize, frequency: i32) -> int {
    quotient(count * 1_000_000_000, frequency as int)
}

/// One sample: the stack, how often it was seen and for how long, and its thread.
pub open spec fn sample_at(
    strings: Seq<Seq<char>>,
    functions: Seq<SymbolTextView>,
    stack: StackTextView,
    count: isize,
    frequency: i32,
) -> SampleView {
    SampleView {
        location_id: location_ids(functions, stack.symbols),
        value: seq![count as i64, sampled_nanos(count, frequency) as i64],
        label: seq![
            Label { key: string_id(strings, THREAD@), str: string_id(strings, stack.thread) },
        ],
    }
}

/// The profile of counted stacks.
pub open spec fn samples_profile(
    stacks: Seq<StackTextView>,
    counts: Seq<isize>,
    timing: ReportTiming,
    missed: u64,
) -> ProfileView {
    let words = strings(stacks, samples_extra(missed));
    let functions = first_by_name(all_symbols(stacks));
    let time = ValueType { ty: string_id(words, CPU@), unit: string_id(words, NANOSECONDS@) };
    ProfileView {
        sample_type: seq![
            ValueType { ty: string_id(words, SAMPLES@), unit: string_id(words, COUNT@) },
            time,
        ],
        sample: Seq::new(
            stacks.len(),
            |i: int| sample_at(words, functions, stacks[i], counts[i], timing.frequency),
        ),
        location: location_table(functions),
        function: function_table(words, functions),
        string_table: string_table(words),
        time_nanos: timing.start_time.since_epoch() as i64,
        duration_nanos: timing.duration.total_nanos() as i64,
        period_type: Some(time),
        period: quotient(1_000_000_000, timing.frequency as int) as i64,
        comment: seq![string_id(words, missed_comment(missed))],
    }
}

/// Whether the times of the samples can be told in 64 bits.
pub open spec fn nanos_fit(counts: Seq<isize>) -> bool {
    forall|i: int|
        0 <= i < counts.len() ==> i64::MIN <= #[trigger] counts[i] * 1_000_000_000 <= i64::MAX
}

/// Makes the profile of counted stacks.
pub fn profile_of_samples(
    stacks: &Vec<StackText>,
    counts: &Vec<isize>,
    timing: &ReportTiming,
    missed: u64,
) -> (r: Profile)
    requires
        stacks@.len() == counts@.len(),
        timing.frequency != 0,
        nanos_fit(counts@),
    ensures
        r@ == samples_profile(stacks_view(stacks@), counts@, *timing, missed),
{
    let ghost views = stacks_view(stacks@);
    let mut comment_text = MISSED.to_string();
    push_decimal(&mut comment_text, missed);
    let mut extra: Vec<String> = Vec::new();
    extra.push(SAMPLES.to_string());
    extra.push(COUNT.to_string());
    extra.push(CPU.to_string());
    extra.push(NANOSECONDS.to_string());
    extra.push(THREAD.to_string());
    extra.push(comment_text.clone());
    assert(texts(extra@) =~= samples_extra(missed));
    let table = collect_strings(stacks, &extra);
    let ghost words = table@;
    proof {
        lemma_strings_hold(views, samples_extra(missed));
        let e = samples_extra(missed);
        assert(e[0] == SAMPLES@ && e[1] == COUNT@ && e[2] == CPU@ && e[3] == NANOSECONDS@ && e[4]
            == THREAD@ && e[5] == missed_comment(missed));
        assert(e.contains(SAMPLES@) && e.contains(COUNT@) && e.contains(CPU@) && e.contains(
            NANOSECONDS@,
        ) && e.contains(THREAD@) && e.contains(missed_comment(missed)));
    }
    let tables = build_tables(&table, stacks);
    let ghost functions = first_by_name(all_symbols(views));
    let thread_key: i64 = find_string(&table, THREAD);
    let mut sample: Vec<Sample> = Vec::new();
    let mut i: usize = 0;
    while i < stacks.len()
        invariant
            i <= stacks@.len(),
            stacks@.len() == counts@.len(),
            timing.frequency != 0,
            nanos_fit(counts@),
            views == stacks_view(stacks@),
            table.wf(),
            words == table@,
            forall|w: Seq<char>| #[trigger] stack_words(views).contains(w) ==> words.contains(w),
            thread_key == string_id(words, THREAD@),
            functions == first_by_name(all_symbols(views)),
            tables.location_ids@.len() == stacks@.len(),
            forall|k: int|
                0 <= k < stacks@.len() ==> (#[trigger] tables.location_ids@[k])@ == location_ids(
                    functions,
                    views[k].symbols,
                ),
            sample@.len() == i,
            forall|k: int|
                0 <= k < i ==> (#[trigger] sample@[k])@ == sample_at(
                    words,
                    functions,
                    views[k],
                    counts@[k],
                    timing.frequency,
                ),
        decreases stacks@.len() - i,
    {
        let count: i64 = counts[i] as i64;
        proof {
            assert(i64::MIN <= counts@[i as int] * 1_000_000_000 <= i64::MAX);
            lemma_thread_word(views, i as int);
        }
        let nanos: i64 = divide(count * 1_000_000_000, timing.frequency as i64);
        let mut value: Vec<i64> = Vec::new();
        value.push(count);
        value.push(nanos);
        let mut label: Vec<Label> = Vec::new();
        label.push(
            Label { key: thread_key, str: find_string(&table, stacks[i].thread.as_str()) },
        );
        let location_id: Vec<u64> = tables.location_ids[i].clone();
        assert(location_id@ =~= tables.location_ids@[i as int]@);
        let s = Sample { location_id, value, label };
        assert(s@ =~= sample_at(
            words,
            functions,
            views[i as int],
            counts@[i as int],
            timing.frequency,
        ));
        sample.push(s);
        i += 1;
    }
    let time = ValueType {
        ty: find_string(&table, CPU),
        unit: find_string(&table, NANOSECONDS),
    };
    let mut sample_type: Vec<ValueType> = Vec::new();
    sample_type.push(
        ValueType { ty: find_string(&table, SAMPLES), unit: find_string(&table, COUNT) },
    );
    sample_type.push(time);
    let mut comment: Vec<i64> = Vec::new();
    comment.push(find_string(&table, comment_text.as_str()));
    let r = Profile {
        sample_type,
        sample,
        location: tables.location,
        function: tables.function,
        string_table: into_string_table(table),
        time_nanos: timing.start_time.epoch_nanos(),
        duration_nanos: timing.duration.as_nanos() as i64,
        period_type: Some(time),
        period: divide(1_000_000_000, timing.frequency as i64),
        comment,
    };
    assert(r@ =~= samples_profile(views, counts@, *timing, missed));
    r
}

pub const ALLOC_OBJECTS: &'static str = "alloc_objects";

pub const ALLOC_SPACE: &'static str = "alloc_space";

pub const INUSE_OBJECTS: &'static str = "inuse_objects";

pub const INUSE_SPACE: &'static str = "inuse_space";

pub const BYTES: &'static str = "bytes";

pub const SPACE: &'static str = "space";

/// The strings of a heap profile besides those of its stacks.
pub open spec fn heap_extra() -> Seq<Seq<char>> {
    seq![ALLOC_OBJECTS@, ALLOC_SPACE@, INUSE_OBJECTS@, INUSE_SPACE@, COUNT@, BYTES@, SPACE@]
}

/// `n`, or 0 below zero.
pub open spec fn at_least_zero(n: i64) -> i64 {
    if n < 0 {
        0
    } else {
        n
    }
}

/// One heap sample: the stack and its four counters.
pub open spec fn heap_sample_at(
    functions: Seq<SymbolTextView>,
    stack: StackTextView,
    counts: AllocCounts,
) -> SampleView {
    SampleView {
        location_id: location_ids(functions, stack.symbols),
        value: seq![
            counts.alloc_objects as i64,
            counts.alloc_bytes as i64,
            at_least_zero(counts.inuse_objects),
            at_least_zero(counts.inuse_bytes),
        ],
        label: Seq::empty(),
    }
}

/// The profile of allocating stacks.
pub open spec fn heap_profile(
    stacks: Seq<StackTextView>,
    counts: Seq<AllocCounts>,
    sample_rate: usize,
    timestamp: Timestamp,
) -> ProfileView {
    let words = strings(stacks, heap_extra());
    let functions = first_by_name(all_symbols(stacks));
    let count = string_id(words, COUNT@);
    let bytes = string_id(words, BYTES@);
    ProfileView {
        sample_type: seq![
            ValueType { ty: string_id(words, ALLOC_OBJECTS@), unit: count },
            ValueType { ty: string_id(words, ALLOC_SPACE@), unit: bytes },
            ValueType { ty: string_id(words, INUSE_OBJECTS@), unit: count },
            ValueType { ty: string_id(words, INUSE_SPACE@), unit: bytes },
        ],
        sample: Seq::new(stacks.len(), |i: int| heap_sample_at(functions, stacks[i], counts[i])),
        location: location_table(functions),
        function: function_table(words, functions),
        string_table: string_table(words),
        time_nanos: timestamp.since_epoch() as i64,
        duration_nanos: 0,
        period_type: Some(ValueType { ty: string_id(words, SPACE@), unit: bytes }),
        period: sample_rate as i64,
        comment: Seq::empty(),
    }
}

/// `n`, or 0 below zero.
fn clamp_zero(n: i64) -> (r: i64)
    ensures
        r == at_least_zero(n),
{
    if n < 0 {
        0
    } else {
        n
    }
}

/// Makes the profile of allocating stacks.
pub fn profile_of_heap(
    stacks: &Vec<StackText>,
    counts: &Vec<AllocCounts>,
    sample_rate: usize,
    timestamp: &Timestamp,
) -> (r: Profile)
    requires
        stacks@.len() == counts@.len(),
    ensures
        r@ == heap_profile(stacks_view(stacks@), counts@, sample_rate, *timestamp),
{
    let ghost views = stacks_view(stacks@);
    let mut extra: Vec<String> = Vec::new();
    extra.push(ALLOC_OBJECTS.to_string());
    extra.push(ALLOC_SPACE.to_string());
    extra.push(INUSE_OBJECTS.to_string());
    extra.push(INUSE_SPACE.to_string());
    extra.push(COUNT.to_string());
    extra.push(BYTES.to_string());
    extra.push(SPACE.to_string());
    assert(texts(extra@) =~= heap_extra());
    let table = collect_strings(stacks, &extra);
    let ghost words = table@;
    proof {
        lemma_strings_hold(views, heap_extra());
        let e = heap_extra();
        assert(e[0] == ALLOC_OBJECTS@ && e[1] == ALLOC_SPACE@ && e[2] == INUSE_OBJECTS@ && e[3]
            == INUSE_SPACE@ && e[4] == COUNT@ && e[5] == BYTES@ && e[6] == SPACE@);
        assert(e.contains(ALLOC_OBJECTS@) && e.contains(ALLOC_SPACE@) && e.contains(
            INUSE_OBJECTS@,
        ) && e.contains(INUSE_SPACE@) && e.contains(COUNT@) && e.contains(BYTES@) && e.contains(
            SPACE@,
        ));
    }
    let tables = build_tables(&table, stacks);
    let ghost functions = first_by_name(all_symbols(views));
    let mut sample: Vec<Sample> = Vec::new();
    let mut i: usize = 0;
    while i < stacks.len()
        invariant
            i <= stacks@.len(),
            stacks@.len() == counts@.len(),
            views == stacks_view(stacks@),
            functions == first_by_name(all_symbols(views)),
            tables.location_ids@.len() == stacks@.len(),
            forall|k: int|
                0 <= k < stacks@.len() ==> (#[trigger] tables.location_ids@[k])@ == location_ids(
                    functions,
                    views[k].symbols,
                ),
            sample@.len() == i,
            forall|k: int|
                0 <= k < i ==> (#[trigger] sample@[k])@ == heap_sample_at(
                    functions,
                    views[k],
                    counts@[k],
                ),
        decreases stacks@.len() - i,
    {
        let c: AllocCounts = counts[i];
        let mut value: Vec<i64> = Vec::new();
        value.push(c.alloc_objects as i64);
        value.push(c.alloc_bytes as i64);
        value.push(clamp_zero(c.inuse_objects));
        value.push(clamp_zero(c.inuse_bytes));
        let location_id: Vec<u64> = tables.location_ids[i].clone();
        assert(location_id@ =~= tables.location_ids@[i as int]@);
        let s = Sample { location_id, value, label: Vec::new() };
        assert(s@ =~= heap_sample_at(functions, views[i as int], counts@[i as int]));
        sample.push(s);
        i += 1;
    }
    let count: i64 = find_string(&table, COUNT);
    let bytes: i64 = find_string(&table, BYTES);
    let mut sample_type: Vec<ValueType> = Vec::new();
    sample_type.push(ValueType { ty: find_string(&table, ALLOC_OBJECTS), unit: count });
    sample_type.push(ValueType { ty: find_string(&table, ALLOC_SPACE), unit: bytes });
    sample_type.push(ValueType { ty: find_string(&table, INUSE_OBJECTS), unit: count });
    sample_type.push(ValueType { ty: find_string(&table, INUSE_SPACE), unit: bytes });
    let period_type = ValueType { ty: find_string(&table, SPACE), unit: bytes };
    let r = Profile {
        sample_type,
        sample,
        location: tables.location,
        function: tables.function,
        string_table: into_string_table(table),
        time_nanos: timestamp.epoch_nanos(),
        duration_nanos: 0,
        period_type: Some(period_type),
        period: sample_rate as i64,
        comment: Vec::new(),
    };
    assert(r@ =~= heap_profile(views, counts@, sample_rate, *timestamp));
    r
}

/// A string's place in the string table leads back to the string.
pub proof fn law_string_id_reads_back(words: Seq<Seq<char>>, word: Seq<char>)
    requires
        words.contains(word),
        words.len() < i64::MAX,
    ensures
        0 < string_id(words, word) < string_table(words).len(),
        string_table(words)[string_id(words, word) as int] == word,
{
    let i = place(words, word);
    assert(0 <= i < words.len() && words[i] == word);
}

/// Each symbol of each stack has a location and a function of its id, whose names
/// are found in the string table.
pub proof fn law_locations_refer(
    stacks: Seq<StackTextView>,
    words: Seq<Seq<char>>,
    i: int,
    j: int,
)
    requires
        forall|w: Seq<char>| #[trigger] stack_words(stacks).contains(w) ==> words.contains(w),
        words.len() < i64::MAX,
        first_by_name(all_symbols(stacks)).len() < u64::MAX,
        0 <= i < stacks.len(),
        0 <= j < stacks[i].symbols.len(),
    ensures
        ({
            let functions = first_by_name(all_symbols(stacks));
            let id = location_ids(functions, stacks[i].symbols)[j];
            let location = location_table(functions)[id - 1];
            let function = function_table(words, functions)[id - 1];
            let table = string_table(words);
            &&& 1 <= id <= functions.len()
            &&& location.id == id
            &&& location.line.len() == 1
            &&& location.line[0].function_id == id
            &&& function.id == id
            &&& 0 < function.name < table.len()
            &&& table[function.name as int] == stacks[i].symbols[j].name
        }),
{
    let functions = first_by_name(all_symbols(stacks));
    let name = stacks[i].symbols[j].name;
    let parts = Seq::new(stacks.len(), |k: int| stacks[k].symbols);
    assert(parts[i].contains(stacks[i].symbols[j]));
    lemma_concat_contains(parts, i, stacks[i].symbols[j]);
    let symbols = all_symbols(stacks);
    let k = symbols.index_of(stacks[i].symbols[j]);
    assert(names_of(symbols)[k] == name);
    lemma_first_by_name(symbols);
    law_first_occurrences(names_of(symbols));
    assert(names_of(functions).contains(name));
    let p = place(names_of(functions), name);
    assert(0 <= p < functions.len() && functions[p].name == name);
    lemma_symbol_words(stacks, i, j);
    law_string_id_reads_back(words, name);
}

/// No two functions have the same name.
pub proof fn law_functions_distinct(symbols: Seq<SymbolTextView>)
    ensures
        names_of(first_by_name(symbols)).no_duplicates(),
{
    lemma_first_by_name(symbols);
    law_first_occurrences(names_of(symbols));
}

/// In a profile of counted stacks everything that a sample refers to is there: its
/// locations, their functions, its thread's name and the comment on dropped samples.
pub proof fn law_samples_profile_refers(
    stacks: Seq<StackTextView>,
    counts: Seq<isize>,
    timing: ReportTiming,
    missed: u64,
)
    requires
        stacks.len() == counts.len(),
        samples_profile(stacks, counts, timing, missed).string_table.len() <= i64::MAX,
        samples_profile(stacks, counts, timing, missed).function.len() < u64::MAX,
    ensures
        ({
            let p = samples_profile(stacks, counts, timing, missed);
            &&& p.string_table[0] == Seq::<char>::empty()
            &&& p.location.len() == p.function.len()
            &&& p.sample.len() == stacks.len()
            &&& p.string_table[p.comment[0] as int] == missed_comment(missed)
            &&& forall|i: int|
                0 <= i < stacks.len() ==> {
                    let sample = #[trigger] p.sample[i];
                    &&& p.string_table[sample.label[0].key as int] == THREAD@
                    &&& p.string_table[sample.label[0].str as int] == stacks[i].thread
                    &&& sample.location_id.len() == stacks[i].symbols.len()
                    &&& forall|j: int|
                        0 <= j < sample.location_id.len() ==> {
                            let id = #[trigger] sample.location_id[j];
                            &&& 1 <= id <= p.function.len()
                            &&& p.location[id - 1].id == id
                            &&& p.function[id - 1].id == id
                            &&& p.string_table[p.function[id - 1].name as int]
                                == stacks[i].symbols[j].name
                        }
                }
        }),
{
    let p = samples_profile(stacks, counts, timing, missed);
    let extra = samples_extra(missed);
    let words = strings(stacks, extra);
    lemma_strings_hold(stacks, extra);
    assert(extra[4] == THREAD@ && extra[5] == missed_comment(missed));
    assert(extra.contains(THREAD@) && extra.contains(missed_comment(missed)));
    law_string_id_reads_back(words, THREAD@);
    law_string_id_reads_back(words, missed_comment(missed));
    assert forall|i: int| 0 <= i < stacks.len() implies {
        let sample = #[trigger] p.sample[i];
        &&& p.string_table[sample.label[0].key as int] == THREAD@
        &&& p.string_table[sample.label[0].str as int] == stacks[i].thread
        &&& sample.location_id.len() == stacks[i].symbols.len()
        &&& forall|j: int|
            0 <= j < sample.location_id.len() ==> {
                let id = #[trigger] sample.location_id[j];
                &&& 1 <= id <= p.function.len()
                &&& p.location[id - 1].id == id
                &&& p.function[id - 1].id == id
                &&& p.string_table[p.function[id - 1].name as int] == stacks[i].symbols[j].name
            }
    } by {
        lemma_thread_word(stacks, i);
        law_string_id_reads_back(words, stacks[i].thread);
        let sample = p.sample[i];
        assert forall|j: int| 0 <= j < sample.location_id.len() implies {
            let id = #[trigger] sample.location_id[j];
            &&& 1 <= id <= p.function.len()
            &&& p.location[id - 1].id == id
            &&& p.function[id - 1].id == id
            &&& p.string_table[p.function[id - 1].name as int] == stacks[i].symbols[j].name
        } by {
            law_locations_refer(stacks, words, i, j);
        }
    }
}

/// In a heap profile everything that a sample refers to is there.
pub proof fn law_heap_profile_refers(
    stacks: Seq<StackTextView>,
    counts: Seq<AllocCounts>,
    sample_rate: usize,
    timestamp: Timestamp,
)
    requires
        stacks.len() == counts.len(),
        heap_profile(stacks, counts, sample_rate, timestamp).string_table.len() <= i64::MAX,
        heap_profile(stacks, counts, sample_rate, timestamp).function.len() < u64::MAX,
    ensures
        ({
            let p = heap_profile(stacks, counts, sample_rate, timestamp);
            &&& p.string_table[0] == Seq::<char>::empty()
            &&& p.location.len() == p.function.len()
            &&& p.sample.len() == stacks.len()
            &&& p.string_table[p.sample_type[0].ty as int] == ALLOC_OBJECTS@
            &&& p.string_table[p.sample_type[1].ty as int] == ALLOC_SPACE@
            &&& p.string_table[p.sample_type[2].ty as int] == INUSE_OBJECTS@
            &&& p.string_table[p.sample_type[3].ty as int] == INUSE_SPACE@
            &&& forall|i: int|
                0 <= i < stacks.len() ==> {
                    let sample = #[trigger] p.sample[i];
                    &&& sample.value.len() == p.sample_type.len()
                    &&& sample.location_id.len() == stacks[i].symbols.len()
                    &&& forall|j: int|
                        0 <= j < sample.location_id.len() ==> {
                            let id = #[trigger] sample.location_id[j];
                            &&& 1 <= id <= p.function.len()
                            &&& p.location[id - 1].id == id
                            &&& p.function[id - 1].id == id
                            &&& p.string_table[p.function[id - 1].name as int]
                                == stacks[i].symbols[j].name
                        }
                }
        }),
{
    let p = heap_profile(stacks, counts, sample_rate, timestamp);
    let extra = heap_extra();
    let words = strings(stacks, extra);
    lemma_strings_hold(stacks, extra);
    assert(extra[0] == ALLOC_OBJECTS@ && extra[1] == ALLOC_SPACE@ && extra[2] == INUSE_OBJECTS@
        && extra[3] == INUSE_SPACE@);
    assert(extra.contains(ALLOC_OBJECTS@) && extra.contains(ALLOC_SPACE@) && extra.contains(
        INUSE_OBJECTS@,
    ) && extra.contains(INUSE_SPACE@));
    law_string_id_reads_back(words, ALLOC_OBJECTS@);
    law_string_id_reads_back(words, ALLOC_SPACE@);
    law_string_id_reads_back(words, INUSE_OBJECTS@);
    law_string_id_reads_back(words, INUSE_SPACE@);
    assert forall|i: int| 0 <= i < stacks.len() implies {
        let sample = #[trigger] p.sample[i];
        &&& sample.value.len() == p.sample_type.len()
        &&& sample.location_id.len() == stacks[i].symbols.len()
        &&& forall|j: int|
            0 <= j < sample.location_id.len() ==> {
                let id = #[trigger] sample.location_id[j];
                &&& 1 <= id <= p.function.len()
                &&& p.location[id - 1].id == id
                &&& p.function[id - 1].id == id
                &&& p.string_table[p.function[id - 1].name as int] == stacks[i].symbols[j].name
            }
    } by {
        let sample = p.sample[i];
        assert forall|j: int| 0 <= j < sample.location_id.len() implies {
            let id = #[trigger] sample.location_id[j];
            &&& 1 <= id <= p.function.len()
            &&& p.location[id - 1].id == id
            &&& p.function[id - 1].id == id
            &&& p.string_table[p.function[id - 1].name as int] == stacks[i].symbols[j].name
        } by {
            law_locations_refer(stacks, words, i, j);
        }
    }
}

} // verus!
