//! Laws of testing addresses, of showing names and of tables of names.

use vstd::layout;
use vstd::prelude::*;

use crate::addr_validate::{advance, check_length, validate, Outcome, Pipes, Step};
use crate::demangle::{demangled, show, shown};
use crate::folded::WeightedStack;
use crate::intern::NameTable;
use crate::report::Report;
use crate::text::{decimal, is_digit, texts};

use super::documents::stacks_seen;
use super::stacks::{call_names, calls, lemma_calls, thread_of};

verus! {

/// A test begins with a read from the pipe, with opening one where there is none, and ends
/// at once for the null address; two addresses are read at a time.
pub proof fn law_validate(addr: usize, pipes: &Pipes, closed: Pipes, len: usize, r: Step)
    requires
        call_ensures(validate, (addr, pipes), r),
        call_ensures(Pipes::new, (), closed),
        call_ensures(check_length, (), len),
    ensures
        closed.read_fd == -1 && closed.write_fd == -1,
        len == 2 * layout::size_of::<usize>(),
        addr == 0 ==> r == Step::Answer(false),
        addr != 0 && pipes.read_fd < 0 ==> r == (Step::Reopen {
            read_fd: pipes.read_fd,
            write_fd: pipes.write_fd,
        }),
        addr != 0 && pipes.read_fd >= 0 ==> r == (Step::Read { fd: pipes.read_fd, len }),
{
}

/// A test goes on: what was interrupted is done again; after a read of something, or of
/// nothing that was there, the address is written from; after another read a new pipe is
/// opened, and the address is written from if one was. The address passes just where bytes
/// were written from it.
pub proof fn law_advance(
    addr: usize,
    pipes: &mut Pipes,
    step: Step,
    outcome: Outcome,
    len: usize,
    r: Step,
)
    requires
        call_ensures(advance, (addr, pipes, step, outcome), r),
        call_ensures(check_length, (), len),
    ensures
        step is Read ==> {
            &&& *final(pipes) == *old(pipes)
            &&& outcome is Interrupted ==> r == step
            &&& (outcome is WouldBlock || (outcome matches Outcome::Bytes(n) && n > 0)) ==> r == (
            Step::Write { fd: old(pipes).write_fd, addr, len })
            &&& (outcome is Failed || outcome is Opened || outcome == Outcome::Bytes(0)) ==> r == (
            Step::Reopen { read_fd: old(pipes).read_fd, write_fd: old(pipes).write_fd })
        },
        step is Reopen ==> match outcome {
            Outcome::Opened { read_fd, write_fd } => {
                &&& *final(pipes) == (Pipes { read_fd, write_fd })
                &&& r == (Step::Write { fd: write_fd, addr, len })
            },
            _ => *final(pipes) == *old(pipes) && r == Step::Answer(false),
        },
        step is Write ==> {
            &&& *final(pipes) == *old(pipes)
            &&& outcome is Interrupted ==> r == step
            &&& !(outcome is Interrupted) ==> r == Step::Answer(
                outcome matches Outcome::Bytes(n) && n > 0,
            )
        },
        step is Answer ==> r == step && *final(pipes) == *old(pipes),
{
}

/// Whether the character at `k` is the first digit of the largest number, behind a `T` and
/// with no further digit behind it.
pub open spec fn is_marked(text: Seq<char>, k: int) -> bool {
    let number = decimal(isize::MAX as nat);
    &&& 0 < k
    &&& k + number.len() <= text.len()
    &&& text[k - 1] == 'T'
    &&& text.subrange(k, k + number.len()) == number
    &&& k + number.len() < text.len() ==> !is_digit(text[k + number.len()])
}

/// Whether `b` is `a` with the digit `d` in all marked places.
pub open spec fn marked_with(a: Seq<char>, b: Seq<char>, d: char) -> bool {
    &&& a.len() == b.len()
    &&& forall|k: int|
        0 <= k < a.len() ==> #[trigger] b[k] == (if is_marked(a, k) {
            d
        } else {
            a[k]
        })
}

/// Whether the name is one of C++, with some marked place: then it cannot be demangled as
/// it stands.
pub open spec fn has_marks(text: Seq<char>) -> bool {
    &&& exists|n: int|
        {
            &&& 1 <= n <= 4 && n < text.len()
            &&& #[trigger] text[n] == 'Z'
            &&& forall|x: int| 0 <= x < n ==> #[trigger] text[x] == '_'
        }
    &&& exists|k: int| is_marked(text, k)
}

proof fn lemma_marks(text: Seq<char>)
    ensures
        has_marks(text) == crate::demangle::at_the_edge(text),
{
    let number = decimal(isize::MAX as nat);
    if crate::demangle::at_the_edge(text) {
        let i = choose|i: int| crate::demangle::param_at(text, i, number);
        assert(crate::demangle::param_at(text, i, number));
        assert(is_marked(text, i + 1));
        let n: int = if crate::demangle::z_behind(text, 1) {
            1
        } else if crate::demangle::z_behind(text, 2) {
            2
        } else if crate::demangle::z_behind(text, 3) {
            3
        } else {
            4
        };
        assert(crate::demangle::z_behind(text, n));
        assert(text[n] == 'Z');
    }
    if has_marks(text) {
        let k = choose|k: int| is_marked(text, k);
        assert(crate::demangle::param_at(text, k - 1, number));
        let n = choose|n: int|
            {
                &&& 1 <= n <= 4 && n < text.len()
                &&& #[trigger] text[n] == 'Z'
                &&& forall|x: int| 0 <= x < n ==> #[trigger] text[x] == '_'
            };
        assert(crate::demangle::z_behind(text, n));
    }
}

/// A name is shown demangled. One that cannot be demangled as it stands is demangled with
/// two other digits in the marked places, and the digit itself is shown where the two are
/// unlike.
pub proof fn law_show(text: &String, r: String)
    requires
        call_ensures(show, (text,), r),
    ensures
        r@ == shown(text@),
        !has_marks(text@) ==> r@ == demangled(text@),
        has_marks(text@) ==> exists|a: Seq<char>, b: Seq<char>, d: char|
            {
                &&& marked_with(text@, a, '1') && d != '1' && is_digit(d)
                &&& #[trigger] marked_with(text@, b, d)
                &&& #[trigger] demangled(a).len() == demangled(b).len() ==> r@.len()
                    == demangled(a).len() && forall|k: int|
                    0 <= k < r@.len() ==> #[trigger] r@[k] == (if demangled(a)[k] == demangled(
                        b,
                    )[k] {
                        demangled(a)[k]
                    } else {
                        decimal(isize::MAX as nat)[0]
                    })
                &&& demangled(a).len() != demangled(b).len() ==> r@ == text@
            },
{
    lemma_marks(text@);
    if crate::demangle::at_the_edge(text@) {
        let number = decimal(isize::MAX as nat);
        let d = crate::demangle::other_digit();
        let a = crate::demangle::swapped(text@, number, '1');
        let b = crate::demangle::swapped(text@, number, d);
        assert forall|k: int| 0 <= k < text@.len() implies crate::demangle::param_at(
            text@,
            k - 1,
            number,
        ) == #[trigger] is_marked(text@, k) by {}
        assert(marked_with(text@, a, '1')) by {
            assert forall|k: int| 0 <= k < a.len() implies #[trigger] a[k] == (if is_marked(
                text@,
                k,
            ) {
                '1'
            } else {
                text@[k]
            }) by {
                assert(crate::demangle::param_at(text@, k - 1, number) == is_marked(text@, k));
            }
        }
        assert(marked_with(text@, b, d)) by {
            assert forall|k: int| 0 <= k < b.len() implies #[trigger] b[k] == (if is_marked(
                text@,
                k,
            ) {
                d
            } else {
                text@[k]
            }) by {
                assert(crate::demangle::param_at(text@, k - 1, number) == is_marked(text@, k));
            }
        }
        let x = demangled(a);
        let y = demangled(b);
        assert(x.len() == y.len() ==> r@.len() == x.len());
    }
}

/// A table of names holds each name once: a name that is in it keeps its place, another one
/// gets the next.
pub proof fn law_name_table(
    fresh: NameTable,
    table: &mut NameTable,
    word: &str,
    at: usize,
    asked: &NameTable,
    found: Option<usize>,
    whole: NameTable,
    names: Vec<String>,
)
    requires
        call_ensures(NameTable::new, (), fresh),
        call_ensures(NameTable::intern, (table, word), at),
        call_ensures(NameTable::find, (asked, word), found),
        call_ensures(NameTable::into_names, (whole,), names),
    ensures
        fresh@.len() == 0,
        at < final(table)@.len() && final(table)@[at as int] == word@,
        old(table)@.contains(word@) ==> final(table)@ == old(table)@,
        !old(table)@.contains(word@) ==> final(table)@ == old(table)@.push(word@),
        found is Some <==> asked@.contains(word@),
        found matches Some(i) ==> i < asked@.len() && asked@[i as int] == word@,
        names@.len() == whole@.len(),
        forall|i: int| 0 <= i < names@.len() ==> (#[trigger] names@[i])@ == whole@[i],
{
    let p = final(table)@.index_of(word@);
    assert(final(table)@[p] == word@);
    if let Some(i) = found {
        assert(asked@[asked@.index_of(word@)] == word@);
    }
    assert(texts(names@).len() == names@.len());
    assert forall|i: int| 0 <= i < names@.len() implies (#[trigger] names@[i])@ == whole@[i] by {
        assert(texts(names@)[i] == whole@[i]);
    }
}

/// The weighted stacks of a report are those that were seen: the thread, the calls from the
/// outermost, and the count.
pub proof fn law_weighted_stacks(report: &Report, r: Vec<WeightedStack>)
    requires
        call_ensures(Report::weighted_stacks, (report,), r),
    ensures
        r@.len() == stacks_seen(report.data@).len(),
        forall|i: int|
            0 <= i < r@.len() ==> {
                let (f, count) = stacks_seen(report.data@)[i];
                &&& (#[trigger] r@[i]).weight == count
                &&& texts(r@[i].words@) == seq![thread_of(f)] + call_names(f).reverse()
            },
{
    super::documents::lemma_weighted_seen(report.data@);
    let views = crate::folded::weighted_view(r@);
    assert(views.len() == r@.len());
    assert forall|i: int| 0 <= i < r@.len() implies {
        let (f, count) = stacks_seen(report.data@)[i];
        &&& (#[trigger] r@[i]).weight == count
        &&& texts(r@[i].words@) == seq![thread_of(f)] + call_names(f).reverse()
    } by {
        assert(views[i] == r@[i]@);
        lemma_calls(stacks_seen(report.data@)[i].0);
    }
}

} // verus!
