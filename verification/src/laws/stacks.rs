//! Laws of symbols and backtraces, and the words in which other laws speak of them.

use vstd::prelude::*;
use vstd::std_specs::cmp::PartialEqSpec;

use crate::demangle::{demangled, shown};
use crate::frames::{concat_all, frame_view, lossy_text, Frames, Symbol, UnresolvedFrames};
use crate::pprof::StackText;
use crate::tally::Stack;
use crate::text::{decimal, texts};

verus! {

/// The name of a symbol as it stands in the binary.
pub open spec fn binary_name(s: Symbol) -> Seq<char> {
    match s.name {
        Some(bytes) => lossy_text(bytes@),
        None => "Unknown"@,
    }
}

/// The name of a symbol, demangled.
pub open spec fn source_name(s: Symbol) -> Seq<char> {
    shown(binary_name(s))
}

/// The source file of a symbol.
pub open spec fn source_file(s: Symbol) -> Seq<char> {
    match s.filename {
        Some(text) => text@,
        None => "Unknown"@,
    }
}

/// The source line of a symbol.
pub open spec fn source_line(s: Symbol) -> u32 {
    match s.lineno {
        Some(n) => n,
        None => 0,
    }
}

/// The calls of a backtrace, innermost first.
pub open spec fn calls(f: Frames) -> Seq<Symbol> {
    f.frames@.map_values(|frame: Vec<Symbol>| frame@).flatten()
}

/// The thread of a backtrace: its name, or its number where it has none.
pub open spec fn thread_of(f: Frames) -> Seq<char> {
    if f.thread_name@.len() > 0 {
        f.thread_name@
    } else {
        decimal(f.thread_id as nat)
    }
}

/// The names of the calls of a backtrace, innermost first.
pub open spec fn call_names(f: Frames) -> Seq<Seq<char>> {
    calls(f).map_values(|s: Symbol| source_name(s))
}

/// A list flattened from its end is the list flattened.
pub proof fn lemma_concat_flatten<A>(parts: Seq<Seq<A>>)
    ensures
        concat_all(parts) == parts.flatten(),
    decreases parts.len(),
{
    if parts.len() > 0 {
        lemma_concat_flatten(parts.drop_last());
        parts.drop_last().lemma_flatten_push(parts.last());
        assert(parts.drop_last().push(parts.last()) =~= parts);
    } else {
        assert(concat_all(parts) =~= parts.flatten());
    }
}

/// Flattening goes with a change of every element.
pub proof fn lemma_flatten_map<A, B>(parts: Seq<Seq<A>>, f: spec_fn(A) -> B)
    ensures
        parts.map_values(|p: Seq<A>| p.map_values(f)).flatten() == parts.flatten().map_values(f),
    decreases parts.len(),
{
    let each = |p: Seq<A>| p.map_values(f);
    let mapped = parts.map_values(each);
    if parts.len() > 0 {
        lemma_flatten_map(parts.drop_first(), f);
        assert(mapped.drop_first() =~= parts.drop_first().map_values(each));
        assert(mapped.flatten() =~= parts.flatten().map_values(f));
    } else {
        assert(mapped.flatten() =~= parts.flatten().map_values(f));
    }
}

/// The calls of a backtrace are the symbols of its contents.
pub proof fn lemma_calls(f: Frames)
    ensures
        f@.symbols() == calls(f).map_values(|s: Symbol| s@),
        f@.names() == call_names(f),
        f@.thread_text() == thread_of(f),
        f@.symbols().len() == calls(f).len(),
        forall|i: int| 0 <= i < calls(f).len() ==> #[trigger] f@.symbols()[i] == calls(f)[i]@,
{
    let parts = f.frames@.map_values(|frame: Vec<Symbol>| frame@);
    let look = |s: Symbol| s@;
    lemma_concat_flatten(f@.frames);
    assert(f@.frames =~= parts.map_values(|p: Seq<Symbol>| p.map_values(look))) by {
        assert forall|i: int| 0 <= i < parts.len() implies f@.frames[i] =~= parts.map_values(
            |p: Seq<Symbol>| p.map_values(look),
        )[i] by {}
    }
    lemma_flatten_map(parts, look);
    assert(f@.names() =~= call_names(f));
}

/// Unless it is a C++ name that holds a `T` with the largest number behind it, a name is
/// shown as the demangler gives it.
pub proof fn law_shown_demangled(text: Seq<char>)
    requires
        text.len() < 2 || text[0] != '_' || forall|k: int|
            #![trigger text[k]]
            0 <= k < text.len() && text[k] == 'T' ==> !decimal(isize::MAX as nat).is_prefix_of(
                text.skip(k + 1),
            ),
    ensures
        shown(text) == demangled(text),
{
    if crate::demangle::at_the_edge(text) {
        let number = decimal(isize::MAX as nat);
        let i = choose|i: int| crate::demangle::param_at(text, i, number);
        assert(crate::demangle::param_at(text, i, number));
        assert(text[0] == '_');
        assert(text[i] == 'T');
        let rest = text.skip(i + 1);
        assert(text.subrange(i + 1, i + 1 + number.len()) =~= rest.take(number.len() as int));
        assert(number.is_prefix_of(rest));
    }
}

/// What a symbol tells of itself: its name as in the binary and demangled, its file and
/// its line, with `Unknown` and 0 for what is not known.
pub proof fn law_symbol(
    s: &Symbol,
    name: String,
    sys_name: String,
    filename: String,
    lineno: u32,
)
    requires
        call_ensures(Symbol::name, (s,), name),
        call_ensures(Symbol::sys_name, (s,), sys_name),
        call_ensures(Symbol::filename, (s,), filename),
        call_ensures(Symbol::lineno, (s,), lineno),
    ensures
        sys_name@ == (match s.name {
            Some(bytes) => lossy_text(bytes@),
            None => "Unknown"@,
        }),
        s.name matches Some(bytes) ==> vstd::utf8::valid_utf8(bytes@) ==> sys_name@
            == vstd::utf8::decode_utf8(bytes@),
        name@ == shown(sys_name@),
        s.filename matches Some(text) ==> filename@ == text@,
        s.filename is None ==> filename@ == "Unknown"@,
        s.lineno matches Some(n) ==> lineno == n,
        s.lineno is None ==> lineno == 0,
{
}

/// The raw name of a symbol is its name, byte by byte.
pub proof fn law_raw_name(s: &Symbol, r: &[u8])
    requires
        call_ensures(Symbol::raw_name, (s,), r),
    ensures
        s.name matches Some(bytes) ==> r@ == bytes@,
        s.name is None ==> r@ == seq![
            'U' as u8,
            'n' as u8,
            'k' as u8,
            'n' as u8,
            'o' as u8,
            'w' as u8,
            'n' as u8,
        ],
{
}

/// What a backtrace tells of itself: its thread, its calls from the innermost, and as words
/// the thread and then the calls from the outermost.
pub proof fn law_backtrace(
    f: &Frames,
    thread: String,
    symbols: Vec<&Symbol>,
    names: Vec<String>,
    words: Vec<String>,
)
    requires
        call_ensures(Frames::thread_name_or_id, (f,), thread),
        call_ensures(Frames::symbols, (f,), symbols),
        call_ensures(Frames::names, (f,), names),
        call_ensures(Frames::words, (f,), words),
    ensures
        f.thread_name@.len() > 0 ==> thread@ == f.thread_name@,
        f.thread_name@.len() == 0 ==> thread@ == decimal(f.thread_id as nat),
        symbols@.len() == calls(*f).len(),
        forall|i: int| 0 <= i < calls(*f).len() ==> (#[trigger] symbols@[i])@ == calls(*f)[i]@,
        names@.len() == calls(*f).len(),
        forall|i: int|
            0 <= i < calls(*f).len() ==> (#[trigger] names@[i])@ == source_name(calls(*f)[i]),
        words@.len() == calls(*f).len() + 1,
        words@[0]@ == thread@,
        forall|i: int|
            0 < i < words@.len() ==> (#[trigger] words@[i])@ == source_name(
                calls(*f)[calls(*f).len() - i],
            ),
{
    lemma_calls(*f);
    let n = calls(*f).len() as int;
    let all = texts(words@);
    assert(texts(names@).len() == names@.len() && all.len() == words@.len());
    assert forall|i: int| 0 <= i < n implies (#[trigger] names@[i])@ == source_name(
        calls(*f)[i],
    ) by {
        assert(texts(names@)[i] == call_names(*f)[i]);
    }
    assert(all[0] == words@[0]@);
    assert forall|i: int| 0 < i < words@.len() implies (#[trigger] words@[i])@ == source_name(
        calls(*f)[n - i],
    ) by {
        assert(all[i] == f@.names().reverse()[i - 1]);
        assert(f@.names().reverse()[i - 1] == call_names(*f)[n - i]);
    }
}

/// The texts of a backtrace are those of its thread and of its calls.
pub proof fn law_stack_text(f: &Frames, r: StackText)
    requires
        call_ensures(Frames::text, (f,), r),
    ensures
        r.thread@ == thread_of(*f),
        r.symbols@.len() == calls(*f).len(),
        forall|i: int|
            0 <= i < calls(*f).len() ==> {
                &&& (#[trigger] r.symbols@[i]).name@ == source_name(calls(*f)[i])
                &&& r.symbols@[i].sys_name@ == binary_name(calls(*f)[i])
                &&& r.symbols@[i].filename@ == source_file(calls(*f)[i])
                &&& r.symbols@[i].lineno == source_line(calls(*f)[i])
            },
{
    lemma_calls(*f);
    assert(r@.symbols.len() == r.symbols@.len());
    assert forall|i: int| 0 <= i < calls(*f).len() implies {
        &&& (#[trigger] r.symbols@[i]).name@ == source_name(calls(*f)[i])
        &&& r.symbols@[i].sys_name@ == binary_name(calls(*f)[i])
        &&& r.symbols@[i].filename@ == source_file(calls(*f)[i])
        &&& r.symbols@[i].lineno == source_line(calls(*f)[i])
    } by {
        assert(r@.symbols[i] == r.symbols@[i]@);
        assert(f@.symbols()[i] == calls(*f)[i]@);
    }
}

/// Two symbols are equal where their raw names are.
pub proof fn law_symbols_equal(a: Symbol, b: Symbol)
    requires
        a.name is Some,
        b.name is Some,
    ensures
        a.eq_spec(&b) <==> a.name->0@ == b.name->0@,
{
}

/// Whether two frames hold as many symbols, of the same raw names.
pub open spec fn alike(a: Seq<Symbol>, b: Seq<Symbol>) -> bool {
    &&& a.len() == b.len()
    &&& forall|j: int|
        #![trigger a[j], b[j]]
        0 <= j < a.len() ==> a[j]@.raw_name() == b[j]@.raw_name()
}

/// Whether two backtraces are of one thread and one time, and call the same functions.
pub open spec fn same_calls(a: Frames, b: Frames) -> bool {
    &&& a.thread_name@ == b.thread_name@
    &&& a.thread_id == b.thread_id
    &&& a.sample_timestamp == b.sample_timestamp
    &&& a.frames@.len() == b.frames@.len()
    &&& forall|i: int|
        #![trigger a.frames@[i], b.frames@[i]]
        0 <= i < a.frames@.len() ==> alike(a.frames@[i]@, b.frames@[i]@)
}

pub proof fn lemma_same_key(a: Frames, b: Frames)
    ensures
        a@.key() == b@.key() <==> same_calls(a, b),
{
    let x = a@.key().names;
    let y = b@.key().names;
    assert(x.len() == a.frames@.len() && y.len() == b.frames@.len());
    if a@.key() == b@.key() {
        assert forall|i: int|
            #![trigger a.frames@[i], b.frames@[i]]
            0 <= i < a.frames@.len() implies alike(a.frames@[i]@, b.frames@[i]@) by {
            let p = a.frames@[i]@;
            let q = b.frames@[i]@;
            assert(x[i] == y[i]);
            assert(x[i].len() == p.len() && y[i].len() == q.len());
            assert forall|j: int|
                #![trigger p[j], q[j]]
                0 <= j < p.len() implies p[j]@.raw_name() == q[j]@.raw_name() by {
                assert(x[i][j] == y[i][j]);
            }
        }
    }
    if same_calls(a, b) {
        assert forall|i: int| 0 <= i < x.len() implies x[i] =~= y[i] by {
            let p = a.frames@[i]@;
            let q = b.frames@[i]@;
            assert(alike(p, q));
            assert forall|j: int| 0 <= j < p.len() implies x[i][j] == y[i][j] by {
                assert(p[j]@.raw_name() == q[j]@.raw_name());
            }
        }
        assert(x =~= y);
        assert(a@.key() =~= b@.key());
    }
}

/// Two backtraces are equal, and are one stack, where they are of one thread and one time
/// and call the same functions.
pub proof fn law_backtraces_equal(a: &Frames, b: &Frames, same: bool)
    requires
        call_ensures(<Frames as Stack>::same_stack, (a, b), same),
    ensures
        a.eq_spec(b) == same_calls(*a, *b),
        same == same_calls(*a, *b),
{
    lemma_same_key(*a, *b);
}

/// Two raw backtraces are one stack where they are of one thread and have the same
/// addresses.
pub proof fn law_raw_backtraces_same(a: &UnresolvedFrames, b: &UnresolvedFrames, same: bool)
    requires
        call_ensures(<UnresolvedFrames as Stack>::same_stack, (a, b), same),
    ensures
        same == (a.thread_id == b.thread_id && a.frames@ == b.frames@),
{
}

/// A copy of a backtrace holds the same.
pub proof fn law_backtrace_copied(
    f: &Frames,
    a: Frames,
    b: Frames,
    u: &UnresolvedFrames,
    c: UnresolvedFrames,
)
    requires
        call_ensures(<Frames as Clone>::clone, (f,), a),
        call_ensures(<Frames as Stack>::copy, (f,), b),
        call_ensures(<UnresolvedFrames as Stack>::copy, (u,), c),
    ensures
        a.thread_name@ == f.thread_name@ && b.thread_name@ == f.thread_name@,
        a.thread_id == f.thread_id && b.thread_id == f.thread_id,
        a.sample_timestamp == f.sample_timestamp && b.sample_timestamp == f.sample_timestamp,
        calls(a).map_values(|s: Symbol| s@) == calls(*f).map_values(|s: Symbol| s@),
        calls(b).map_values(|s: Symbol| s@) == calls(*f).map_values(|s: Symbol| s@),
        c.frames@ == u.frames@ && c.thread_name@ == u.thread_name@,
        c.thread_id == u.thread_id && c.sample_timestamp == u.sample_timestamp,
{
    lemma_calls(*f);
    lemma_calls(a);
    lemma_calls(b);
    assert(a@ == f@ && b@ == f@ && c@ == u@);
}

/// A backtrace for a human reader: each frame behind a mark, each call before an arrow,
/// then the thread.
pub open spec fn description(f: Frames) -> Seq<char> {
    f.frames@.map_values(
        |frame: Vec<Symbol>|
            "FRAME: "@ + frame@.map_values(|s: Symbol| source_name(s) + " -> "@).flatten(),
    ).flatten() + "THREAD: "@ + (if f.thread_name@.len() > 0 {
        f.thread_name@
    } else {
        "ThreadId("@ + decimal(f.thread_id as nat) + ")"@
    })
}

pub proof fn lemma_description(f: Frames)
    ensures
        f@.described() == description(f),
{
    reveal_strlit(")");
    lemma_described_frames(f.frames@);
    assert(f@.frames =~= f.frames@.map_values(|frame: Vec<Symbol>| frame_view(frame@)));
    assert(")"@ =~= seq![')']);
    assert(f@.described() =~= description(f));
}

/// A backtrace is described by its frames, its calls and its thread.
pub proof fn law_described(f: &Frames, out: &mut String)
    requires
        call_ensures(Frames::describe, (f, out), ()),
    ensures
        final(out)@ == old(out)@ + description(*f),
{
    lemma_description(*f);
}

pub proof fn lemma_described_symbols(frame: Seq<Symbol>)
    ensures
        crate::frames::described_symbols(frame_view(frame)) == frame.map_values(
            |s: Symbol| source_name(s) + " -> "@,
        ).flatten(),
    decreases frame.len(),
{
    let each = |s: Symbol| source_name(s) + " -> "@;
    let view = frame_view(frame);
    if frame.len() > 0 {
        let shorter = frame.drop_last();
        lemma_described_symbols(shorter);
        assert(view.drop_last() =~= frame_view(shorter));
        assert(frame.map_values(each) =~= shorter.map_values(each).push(each(frame.last())));
        shorter.map_values(each).lemma_flatten_push(each(frame.last()));
        assert(view.last() == frame.last()@);
    } else {
        assert(frame.map_values(each).flatten() =~= Seq::empty());
    }
}

pub proof fn lemma_described_frames(frames: Seq<Vec<Symbol>>)
    ensures
        crate::frames::described_frames(
            frames.map_values(|frame: Vec<Symbol>| frame_view(frame@)),
        ) == frames.map_values(
            |frame: Vec<Symbol>|
                "FRAME: "@ + frame@.map_values(|s: Symbol| source_name(s) + " -> "@).flatten(),
        ).flatten(),
    decreases frames.len(),
{
    let each = |frame: Vec<Symbol>|
        "FRAME: "@ + frame@.map_values(|s: Symbol| source_name(s) + " -> "@).flatten();
    let look = |frame: Vec<Symbol>| frame_view(frame@);
    let views = frames.map_values(look);
    if frames.len() > 0 {
        let shorter = frames.drop_last();
        lemma_described_frames(shorter);
        lemma_described_symbols(frames.last()@);
        assert(views.drop_last() =~= shorter.map_values(look));
        assert(views.last() == frame_view(frames.last()@));
        assert(frames.map_values(each) =~= shorter.map_values(each).push(each(frames.last())));
        shorter.map_values(each).lemma_flatten_push(each(frames.last()));
    } else {
        assert(frames.map_values(each).flatten() =~= Seq::empty());
    }
}

} // verus!
