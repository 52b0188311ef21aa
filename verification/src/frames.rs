//! Backtraces: symbols, resolved stacks and stacks of raw addresses.

use vstd::prelude::*;

use crate::demangle::{show, shown};
use crate::pprof::{StackText, StackTextView, SymbolText, SymbolTextView};
use crate::tally::Stack;
use crate::text::{decimal, push_decimal, texts};
use crate::timer::Timestamp;

verus! {

/// What stands for a symbol or a file whose name is not known.
pub const UNKNOWN: &'static str = "Unknown";

/// The bytes of `UNKNOWN`.
pub open spec fn unknown_bytes() -> Seq<u8> {
    seq![85u8, 110u8, 107u8, 110u8, 111u8, 119u8, 110u8]
}

/// The text that `String::from_utf8_lossy` gives for `bytes`.
pub uninterp spec fn lossy_text(bytes: Seq<u8>) -> Seq<char>;

/// Calls `String::from_utf8_lossy`: the text is fixed by the bytes, and for
/// bytes that are valid UTF-8 it is their decoding.
#[verifier::external_body]
fn text_of_bytes(bytes: &Vec<u8>) -> (r: String)
    ensures
        r@ == lossy_text(bytes@),
        vstd::utf8::valid_utf8(bytes@) ==> r@ == vstd::utf8::decode_utf8(bytes@),
{
    String::from_utf8_lossy(bytes.as_slice()).into_owned()
}

/// A function symbol. `name` is the raw name, not demangled.
#[derive(Debug)]
pub struct Symbol {
    pub name: Option<Vec<u8>>,
    /// The address of the function.
    pub addr: Option<usize>,
    pub lineno: Option<u32>,
    pub filename: Option<String>,
}

/// The contents of a `Symbol`.
#[verifier::ext_equal]
pub struct SymbolView {
    pub name: Option<Seq<u8>>,
    pub addr: Option<usize>,
    pub lineno: Option<u32>,
    pub filename: Option<Seq<char>>,
}

impl View for Symbol {
    type V = SymbolView;

    open spec fn view(&self) -> SymbolView {
        SymbolView {
            name: match self.name {
                Some(bytes) => Some(bytes@),
                None => None,
            },
            addr: self.addr,
            lineno: self.lineno,
            filename: match self.filename {
                Some(text) => Some(text@),
                None => None,
            },
        }
    }
}

impl SymbolView {
    /// The raw name, by which symbols are told apart.
    pub open spec fn raw_name(self) -> Seq<u8> {
        match self.name {
            Some(bytes) => bytes,
            None => unknown_bytes(),
        }
    }

    /// The raw name as text.
    pub open spec fn sys_name(self) -> Seq<char> {
        match self.name {
            Some(bytes) => lossy_text(bytes),
            None => UNKNOWN@,
        }
    }

    /// The name to show.
    pub open spec fn shown_name(self) -> Seq<char> {
        shown(self.sys_name())
    }

    pub open spec fn file_text(self) -> Seq<char> {
        match self.filename {
            Some(text) => text,
            None => UNKNOWN@,
        }
    }

    pub open spec fn line(self) -> u32 {
        match self.lineno {
            Some(n) => n,
            None => 0,
        }
    }
}

impl Clone for Symbol {
    fn clone(&self) -> (r: Self)
        ensures
            r@ == self@,
    {
        let name = match &self.name {
            Some(bytes) => {
                let copy: Vec<u8> = bytes.clone();
                assert(copy@ =~= bytes@);
                Some(copy)
            },
            None => None,
        };
        let filename = match &self.filename {
            Some(text) => Some(text.clone()),
            None => None,
        };
        Symbol { name, addr: self.addr, lineno: self.lineno, filename }
    }
}

/// Whether two byte strings are equal.
fn same_bytes(a: &[u8], b: &[u8]) -> (r: bool)
    ensures
        r == (a@ == b@),
{
    if a.len() != b.len() {
        return false;
    }
    let mut i: usize = 0;
    while i < a.len()
        invariant
            a@.len() == b@.len(),
            i <= a@.len(),
            forall|k: int| 0 <= k < i ==> a@[k] == b@[k],
        decreases a@.len() - i,
    {
        if a[i] != b[i] {
            return false;
        }
        i += 1;
    }
    assert(a@ =~= b@);
    true
}

impl vstd::std_specs::cmp::PartialEqSpecImpl for Symbol {
    open spec fn obeys_eq_spec() -> bool {
        true
    }

    open spec fn eq_spec(&self, other: &Self) -> bool {
        self@.raw_name() == other@.raw_name()
    }
}

impl PartialEq for Symbol {
    fn eq(&self, other: &Self) -> (r: bool) {
        same_bytes(self.raw_name(), other.raw_name())
    }
}

impl Eq for Symbol {

}

impl Symbol {
    /// The raw name, `Unknown` where there is none.
    pub fn raw_name(&self) -> (r: &[u8])
        ensures
            r@ == self@.raw_name(),
    {
        match &self.name {
            Some(bytes) => bytes.as_slice(),
            None => {
                let unknown: &[u8] = &[85u8, 110u8, 107u8, 110u8, 111u8, 119u8, 110u8];
                assert(unknown@ =~= unknown_bytes());
                unknown
            },
        }
    }

    /// The name as it stands in the binary.
    pub fn sys_name(&self) -> (r: String)
        ensures
            r@ == self@.sys_name(),
            self@.name matches Some(bytes) ==> vstd::utf8::valid_utf8(bytes) ==> r@
                == vstd::utf8::decode_utf8(bytes),
    {
        match &self.name {
            Some(bytes) => text_of_bytes(bytes),
            None => UNKNOWN.to_string(),
        }
    }

    /// The demangled name.
    pub fn name(&self) -> (r: String)
        ensures
            r@ == self@.shown_name(),
    {
        show(&self.sys_name())
    }

    /// The source file, `Unknown` where there is none.
    pub fn filename(&self) -> (r: String)
        ensures
            r@ == self@.file_text(),
    {
        match &self.filename {
            Some(text) => text.clone(),
            None => UNKNOWN.to_string(),
        }
    }

    /// The line number, 0 where there is none.
    pub fn lineno(&self) -> (r: u32)
        ensures
            r == self@.line(),
    {
        match self.lineno {
            Some(n) => n,
            None => 0,
        }
    }
}

/// All elements of all parts, in order.
pub open spec fn concat_all<A>(parts: Seq<Seq<A>>) -> Seq<A>
    decreases parts.len(),
{
    if parts.len() == 0 {
        Seq::empty()
    } else {
        concat_all(parts.drop_last()) + parts.last()
    }
}

/// The parts before `i` come first in the whole.
pub proof fn lemma_concat_split<A>(parts: Seq<Seq<A>>, i: int)
    requires
        0 <= i <= parts.len(),
    ensures
        concat_all(parts) == concat_all(parts.take(i)) + concat_all(parts.skip(i)),
    decreases parts.len() - i,
{
    if i == parts.len() {
        assert(parts.take(i) =~= parts);
        assert(parts.skip(i) =~= Seq::empty());
        assert(concat_all(parts) =~= concat_all(parts.take(i)) + concat_all(parts.skip(i)));
    } else {
        let last = parts.last();
        lemma_concat_split(parts.drop_last(), i);
        assert(parts.drop_last().take(i) =~= parts.take(i));
        assert(parts.drop_last().skip(i) =~= parts.skip(i).drop_last());
        assert(parts.skip(i).last() == last);
        assert(concat_all(parts) =~= concat_all(parts.take(i)) + concat_all(parts.skip(i)));
    }
}

/// An element of a part is an element of the whole.
pub proof fn lemma_concat_contains<A>(parts: Seq<Seq<A>>, i: int, x: A)
    requires
        0 <= i < parts.len(),
        parts[i].contains(x),
    ensures
        concat_all(parts).contains(x),
    decreases parts.len(),
{
    let shorter = concat_all(parts.drop_last());
    if i < parts.len() - 1 {
        lemma_concat_contains(parts.drop_last(), i, x);
        let k = shorter.index_of(x);
        assert(concat_all(parts)[k] == x);
    } else {
        let k = parts.last().index_of(x);
        assert(concat_all(parts)[shorter.len() + k] == x);
    }
}

/// A resolved backtrace. `frames` starts with the innermost call; each frame
/// holds the symbols that were inlined into it, innermost first.
#[derive(Debug)]
pub struct Frames {
    pub frames: Vec<Vec<Symbol>>,
    pub thread_name: String,
    pub thread_id: u64,
    pub sample_timestamp: Timestamp,
}

/// The contents of a `Frames`.
#[verifier::ext_equal]
pub struct FramesView {
    pub frames: Seq<Seq<SymbolView>>,
    pub thread_name: Seq<char>,
    pub thread_id: u64,
    pub sample_timestamp: Timestamp,
}

/// What tells two backtraces apart: the raw names of their symbols, frame by
/// frame, the thread, and the time of the sample.
#[verifier::ext_equal]
pub struct FramesKey {
    pub names: Seq<Seq<Seq<u8>>>,
    pub thread_name: Seq<char>,
    pub thread_id: u64,
    pub sample_timestamp: Timestamp,
}

/// The contents of one frame.
pub open spec fn frame_view(frame: Seq<Symbol>) -> Seq<SymbolView> {
    Seq::new(frame.len(), |j: int| frame[j]@)
}

/// The raw names of one frame.
pub open spec fn frame_names(frame: Seq<SymbolView>) -> Seq<Seq<u8>> {
    Seq::new(frame.len(), |j: int| frame[j].raw_name())
}

impl View for Frames {
    type V = FramesView;

    open spec fn view(&self) -> FramesView {
        FramesView {
            frames: Seq::new(self.frames@.len(), |i: int| frame_view(self.frames@[i]@)),
            thread_name: self.thread_name@,
            thread_id: self.thread_id,
            sample_timestamp: self.sample_timestamp,
        }
    }
}

impl FramesView {
    pub open spec fn key(self) -> FramesKey {
        FramesKey {
            names: Seq::new(self.frames.len(), |i: int| frame_names(self.frames[i])),
            thread_name: self.thread_name,
            thread_id: self.thread_id,
            sample_timestamp: self.sample_timestamp,
        }
    }

    /// All symbols, innermost call first.
    pub open spec fn symbols(self) -> Seq<SymbolView> {
        concat_all(self.frames)
    }

    /// The shown names of all symbols, innermost call first.
    pub open spec fn names(self) -> Seq<Seq<char>> {
        Seq::new(self.symbols().len(), |i: int| self.symbols()[i].shown_name())
    }

    /// The name of the thread, or its id where it has no name.
    pub open spec fn thread_text(self) -> Seq<char> {
        if self.thread_name.len() > 0 {
            self.thread_name
        } else {
            decimal(self.thread_id as nat)
        }
    }
}

pub fn clone_frame(frame: &Vec<Symbol>) -> (r: Vec<Symbol>)
    ensures
        frame_view(r@) == frame_view(frame@),
{
    let mut r: Vec<Symbol> = Vec::new();
    let mut j: usize = 0;
    while j < frame.len()
        invariant
            j <= frame@.len(),
            r@.len() == j,
            forall|k: int| 0 <= k < j ==> (#[trigger] r@[k])@ == frame@[k]@,
        decreases frame@.len() - j,
    {
        r.push(frame[j].clone());
        j += 1;
    }
    assert(frame_view(r@) =~= frame_view(frame@));
    r
}

impl Clone for Frames {
    fn clone(&self) -> (r: Self)
        ensures
            r@ == self@,
    {
        let mut frames: Vec<Vec<Symbol>> = Vec::new();
        let mut i: usize = 0;
        while i < self.frames.len()
            invariant
                i <= self.frames@.len(),
                frames@.len() == i,
                forall|k: int|
                    0 <= k < i ==> frame_view((#[trigger] frames@[k])@) == frame_view(
                        self.frames@[k]@,
                    ),
            decreases self.frames@.len() - i,
        {
            frames.push(clone_frame(&self.frames[i]));
            i += 1;
        }
        let r = Frames {
            frames,
            thread_name: self.thread_name.clone(),
            thread_id: self.thread_id,
            sample_timestamp: self.sample_timestamp,
        };
        assert(r@ =~= self@);
        r
    }
}

/// Whether two frames hold symbols of the same raw names.
fn same_frame(a: &Vec<Symbol>, b: &Vec<Symbol>) -> (r: bool)
    ensures
        r == (frame_names(frame_view(a@)) == frame_names(frame_view(b@))),
{
    let ghost x = frame_names(frame_view(a@));
    let ghost y = frame_names(frame_view(b@));
    if a.len() != b.len() {
        assert(x.len() != y.len());
        return false;
    }
    let mut j: usize = 0;
    while j < a.len()
        invariant
            a@.len() == b@.len(),
            j <= a@.len(),
            x == frame_names(frame_view(a@)),
            y == frame_names(frame_view(b@)),
            forall|k: int| 0 <= k < j ==> x[k] == y[k],
        decreases a@.len() - j,
    {
        if a[j] != b[j] {
            assert(x[j as int] != y[j as int]);
            return false;
        }
        j += 1;
    }
    assert(x =~= y);
    true
}

impl vstd::std_specs::cmp::PartialEqSpecImpl for Frames {
    open spec fn obeys_eq_spec() -> bool {
        true
    }

    open spec fn eq_spec(&self, other: &Self) -> bool {
        self@.key() == other@.key()
    }
}

impl PartialEq for Frames {
    fn eq(&self, other: &Self) -> (r: bool) {
        let ghost x = self@.key().names;
        let ghost y = other@.key().names;
        if self.thread_id != other.thread_id || self.sample_timestamp != other.sample_timestamp
            || self.thread_name != other.thread_name {
            return false;
        }
        if self.frames.len() != other.frames.len() {
            assert(x.len() != y.len());
            return false;
        }
        let mut i: usize = 0;
        while i < self.frames.len()
            invariant
                self.frames@.len() == other.frames@.len(),
                i <= self.frames@.len(),
                x == self@.key().names,
                y == other@.key().names,
                forall|k: int| 0 <= k < i ==> x[k] == y[k],
            decreases self.frames@.len() - i,
        {
            if !same_frame(&self.frames[i], &other.frames[i]) {
                assert(x[i as int] != y[i as int]);
                return false;
            }
            i += 1;
        }
        assert(x =~= y);
        assert(self@.key() =~= other@.key());
        true
    }
}

impl Eq for Frames {

}

impl Frames {
    /// The name of the thread, or its id where it has no name.
    pub fn thread_name_or_id(&self) -> (r: String)
        ensures
            r@ == self@.thread_text(),
    {
        if !self.thread_name.as_str().is_empty() {
            self.thread_name.clone()
        } else {
            let mut r = String::new();
            push_decimal(&mut r, self.thread_id);
            assert(r@ =~= decimal(self.thread_id as nat));
            r
        }
    }

    /// All symbols, innermost call first.
    pub fn symbols(&self) -> (r: Vec<&Symbol>)
        ensures
            r@.len() == self@.symbols().len(),
            forall|k: int| 0 <= k < r@.len() ==> (#[trigger] r@[k])@ == self@.symbols()[k],
    {
        let mut r: Vec<&Symbol> = Vec::new();
        let mut i: usize = 0;
        let ghost parts = self@.frames;
        assert(parts.take(0) =~= Seq::empty());
        while i < self.frames.len()
            invariant
                i <= self.frames@.len(),
                parts == self@.frames,
                r@.len() == concat_all(parts.take(i as int)).len(),
                forall|k: int|
                    0 <= k < r@.len() ==> (#[trigger] r@[k])@ == concat_all(
                        parts.take(i as int),
                    )[k],
            decreases self.frames@.len() - i,
        {
            let frame = &self.frames[i];
            let ghost before = concat_all(parts.take(i as int));
            let ghost after = concat_all(parts.take(i + 1));
            proof {
                assert(parts.take(i + 1).drop_last() =~= parts.take(i as int));
                assert(after == before + frame_view(frame@));
            }
            let mut j: usize = 0;
            while j < frame.len()
                invariant
                    j <= frame@.len(),
                    r@.len() == before.len() + j,
                    after == before + frame_view(frame@),
                    forall|k: int| 0 <= k < r@.len() ==> (#[trigger] r@[k])@ == after[k],
                decreases frame@.len() - j,
            {
                r.push(&frame[j]);
                j += 1;
            }
            i += 1;
        }
        assert(parts.take(i as int) =~= parts);
        r
    }

    /// The shown names of all symbols, innermost call first.
    pub fn names(&self) -> (r: Vec<String>)
        ensures
            texts(r@) == self@.names(),
    {
        let symbols = self.symbols();
        let mut r: Vec<String> = Vec::new();
        let mut i: usize = 0;
        while i < symbols.len()
            invariant
                i <= symbols@.len(),
                r@.len() == i,
                symbols@.len() == self@.symbols().len(),
                forall|k: int|
                    0 <= k < symbols@.len() ==> (#[trigger] symbols@[k])@ == self@.symbols()[k],
                forall|k: int| 0 <= k < i ==> (#[trigger] r@[k])@ == self@.names()[k],
            decreases symbols@.len() - i,
        {
            r.push(symbols[i].name());
            i += 1;
        }
        assert(texts(r@) =~= self@.names());
        r
    }
}

impl FramesView {
    /// The stack as words: the thread, then the calls from the outermost to the
    /// innermost.
    pub open spec fn words(self) -> Seq<Seq<char>> {
        seq![self.thread_text()] + self.names().reverse()
    }

    /// The texts of the stack.
    pub open spec fn text(self) -> StackTextView {
        StackTextView {
            thread: self.thread_text(),
            symbols: Seq::new(self.symbols().len(), |i: int| self.symbols()[i].text()),
        }
    }

    /// A line for a human reader: the calls from the innermost, then the thread.
    pub open spec fn described(self) -> Seq<char> {
        described_frames(self.frames) + THREAD_MARK@ + (if self.thread_name.len() > 0 {
            self.thread_name
        } else {
            THREAD_ID_OPEN@ + decimal(self.thread_id as nat) + seq![')']
        })
    }
}

pub const FRAME_MARK: &'static str = "FRAME: ";

pub const ARROW: &'static str = " -> ";

pub const THREAD_MARK: &'static str = "THREAD: ";

pub const THREAD_ID_OPEN: &'static str = "ThreadId(";

/// The symbols of one frame, each with an arrow behind it.
pub open spec fn described_symbols(symbols: Seq<SymbolView>) -> Seq<char>
    decreases symbols.len(),
{
    if symbols.len() == 0 {
        Seq::empty()
    } else {
        described_symbols(symbols.drop_last()) + (symbols.last().shown_name() + ARROW@)
    }
}

/// The frames, each with a mark before it.
pub open spec fn described_frames(frames: Seq<Seq<SymbolView>>) -> Seq<char>
    decreases frames.len(),
{
    if frames.len() == 0 {
        Seq::empty()
    } else {
        described_frames(frames.drop_last()) + (FRAME_MARK@ + described_symbols(frames.last()))
    }
}

impl SymbolView {
    /// The texts of the symbol.
    pub open spec fn text(self) -> SymbolTextView {
        SymbolTextView {
            name: self.shown_name(),
            sys_name: self.sys_name(),
            filename: self.file_text(),
            lineno: self.line(),
        }
    }
}

fn describe_frame(out: &mut String, frame: &Vec<Symbol>)
    ensures
        final(out)@ == old(out)@ + described_symbols(frame_view(frame@)),
{
    let ghost start = out@;
    let ghost symbols = frame_view(frame@);
    let mut j: usize = 0;
    assert(out@ =~= start + described_symbols(symbols.take(0)));
    while j < frame.len()
        invariant
            j <= frame@.len(),
            symbols == frame_view(frame@),
            out@ == start + described_symbols(symbols.take(j as int)),
        decreases frame@.len() - j,
    {
        out.append(frame[j].name().as_str());
        out.append(ARROW);
        proof {
            assert(symbols.take(j + 1).drop_last() =~= symbols.take(j as int));
            assert(symbols.take(j + 1).last() == frame@[j as int]@);
            assert(out@ =~= start + described_symbols(symbols.take(j + 1)));
        }
        j += 1;
    }
    assert(symbols.take(j as int) =~= symbols);
}

impl Frames {
    /// Appends a line for a human reader.
    pub fn describe(&self, out: &mut String)
        ensures
            final(out)@ == old(out)@ + self@.described(),
    {
        let ghost start = out@;
        let ghost frames = self@.frames;
        let mut i: usize = 0;
        assert(out@ =~= start + described_frames(frames.take(0)));
        while i < self.frames.len()
            invariant
                i <= self.frames@.len(),
                frames == self@.frames,
                out@ == start + described_frames(frames.take(i as int)),
            decreases self.frames@.len() - i,
        {
            out.append(FRAME_MARK);
            describe_frame(out, &self.frames[i]);
            proof {
                assert(frames.take(i + 1).drop_last() =~= frames.take(i as int));
                assert(frames.take(i + 1).last() == frame_view(self.frames@[i as int]@));
                assert(out@ =~= start + described_frames(frames.take(i + 1)));
            }
            i += 1;
        }
        assert(frames.take(i as int) =~= frames);
        out.append(THREAD_MARK);
        if !self.thread_name.as_str().is_empty() {
            out.append(self.thread_name.as_str());
        } else {
            out.append(THREAD_ID_OPEN);
            push_decimal(out, self.thread_id);
            out.push(')');
        }
        assert(out@ =~= start + self@.described());
    }

    /// The stack as words: the thread, then the calls from the outermost to the
    /// innermost.
    pub fn words(&self) -> (r: Vec<String>)
        ensures
            texts(r@) == self@.words(),
    {
        let mut names = self.names();
        let mut r: Vec<String> = Vec::new();
        r.push(self.thread_name_or_id());
        let ghost all = self@.names();
        let ghost n = all.len() as int;
        assert(texts(r@) =~= seq![self@.thread_text()] + all.reverse().take(0));
        assert(all.take(n) =~= all);
        while names.len() > 0
            invariant
                n == all.len(),
                names@.len() <= n,
                texts(names@) == all.take(names@.len() as int),
                texts(r@) == seq![self@.thread_text()] + all.reverse().take(n - names@.len()),
            decreases names@.len(),
        {
            let ghost k = names@.len() as int;
            match names.pop() {
                Some(name) => {
                    proof {
                        assert(all.take(k)[k - 1] == all[k - 1]);
                        assert(texts(names@) =~= all.take(k - 1)) by {
                            assert forall|x: int| 0 <= x < k - 1 implies names@[x]@ == all[x] by {
                                assert(all.take(k)[x] == all[x]);
                            }
                        }
                        assert(name@ == all[k - 1]);
                    }
                    let ghost before = texts(r@);
                    r.push(name);
                    proof {
                        let back = all.reverse();
                        assert(back[n - k] == all[k - 1]);
                        assert(back.take(n - k + 1) =~= back.take(n - k).push(all[k - 1]));
                        assert(texts(r@) =~= before.push(all[k - 1]));
                        assert(texts(r@) =~= seq![self@.thread_text()] + back.take(n - k + 1));
                    }
                },
                None => {},
            }
        }
        assert(all.reverse().take(n) =~= all.reverse());
        r
    }

    /// The texts of the stack.
    pub fn text(&self) -> (r: StackText)
        ensures
            r@ == self@.text(),
    {
        let symbols = self.symbols();
        let mut list: Vec<SymbolText> = Vec::new();
        let mut i: usize = 0;
        while i < symbols.len()
            invariant
                i <= symbols@.len(),
                list@.len() == i,
                symbols@.len() == self@.symbols().len(),
                forall|k: int|
                    0 <= k < symbols@.len() ==> (#[trigger] symbols@[k])@ == self@.symbols()[k],
                forall|k: int| 0 <= k < i ==> (#[trigger] list@[k])@ == self@.symbols()[k].text(),
            decreases symbols@.len() - i,
        {
            let symbol = symbols[i];
            list.push(
                SymbolText {
                    name: symbol.name(),
                    sys_name: symbol.sys_name(),
                    filename: symbol.filename(),
                    lineno: symbol.lineno(),
                },
            );
            i += 1;
        }
        let r = StackText { thread: self.thread_name_or_id(), symbols: list };
        assert(r@ =~= self@.text());
        r
    }
}

impl Stack for Frames {
    type Model = FramesView;

    type Key = FramesKey;

    open spec fn model(&self) -> FramesView {
        self@
    }

    open spec fn key_of(model: FramesView) -> FramesKey {
        model.key()
    }

    fn same_stack(&self, other: &Self) -> (r: bool) {
        *self == *other
    }

    fn copy(&self) -> (r: Self) {
        self.clone()
    }
}

/// A backtrace of raw instruction addresses, innermost call first.
#[derive(Debug)]
pub struct UnresolvedFrames {
    pub frames: Vec<usize>,
    pub thread_name: String,
    pub thread_id: u64,
    pub sample_timestamp: Timestamp,
}

/// The contents of an `UnresolvedFrames`.
#[verifier::ext_equal]
pub struct UnresolvedFramesView {
    pub frames: Seq<usize>,
    pub thread_name: Seq<char>,
    pub thread_id: u64,
    pub sample_timestamp: Timestamp,
}

impl View for UnresolvedFrames {
    type V = UnresolvedFramesView;

    open spec fn view(&self) -> UnresolvedFramesView {
        UnresolvedFramesView {
            frames: self.frames@,
            thread_name: self.thread_name@,
            thread_id: self.thread_id,
            sample_timestamp: self.sample_timestamp,
        }
    }
}

impl Clone for UnresolvedFrames {
    fn clone(&self) -> (r: Self)
        ensures
            r@ == self@,
    {
        let frames: Vec<usize> = self.frames.clone();
        assert(frames@ =~= self.frames@);
        UnresolvedFrames {
            frames,
            thread_name: self.thread_name.clone(),
            thread_id: self.thread_id,
            sample_timestamp: self.sample_timestamp,
        }
    }
}

/// Whether two lists of addresses are equal.
pub fn same_addresses(a: &Vec<usize>, b: &Vec<usize>) -> (r: bool)
    ensures
        r == (a@ == b@),
{
    if a.len() != b.len() {
        return false;
    }
    let mut i: usize = 0;
    while i < a.len()
        invariant
            a@.len() == b@.len(),
            i <= a@.len(),
            forall|k: int| 0 <= k < i ==> a@[k] == b@[k],
        decreases a@.len() - i,
    {
        if a[i] != b[i] {
            return false;
        }
        i += 1;
    }
    assert(a@ =~= b@);
    true
}

impl Stack for UnresolvedFrames {
    type Model = UnresolvedFramesView;

    type Key = (u64, Seq<usize>);

    open spec fn model(&self) -> UnresolvedFramesView {
        self@
    }

    /// Raw backtraces are told apart by their thread and their addresses.
    open spec fn key_of(model: UnresolvedFramesView) -> (u64, Seq<usize>) {
        (model.thread_id, model.frames)
    }

    fn same_stack(&self, other: &Self) -> (r: bool) {
        self.thread_id == other.thread_id && same_addresses(&self.frames, &other.frames)
    }

    fn copy(&self) -> (r: Self) {
        self.clone()
    }
}

} // verus!
