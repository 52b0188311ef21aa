//! Laws of flame graphs: when one is drawn, and of what.

use vstd::prelude::*;

use crate::error::Error;
use crate::flamegraph::{
    columns, difference, drawn_or_error, fit_for_drawing, flamegraph_of, is_comment, is_number,
    is_space, is_visible, largest_difference, last_number, law_line_count_reads_back,
    law_line_counts, line_count, line_fits, lines_fit, lines_total, report_lines, trim, trim_front,
    trimmed, white, word_start,
};
use crate::frames::Frames;
use crate::report::Report;
use crate::tally::models;
use crate::text::{decimal, digits_value, is_digit, signed_decimal, texts};

use super::documents::{lemma_stack_line, lemma_sum_push, line_of, sum_of, times_seen};
use super::stacks::{call_names, thread_of};

verus! {

/// Whether `c` is one of Unicode's white space characters.
pub open spec fn blank(c: char) -> bool {
    let n = c as u32;
    ||| n == 9 || n == 10 || n == 11 || n == 12 || n == 13 || n == 32
    ||| n == 133 || n == 160 || n == 5760 || 8192 <= n <= 8202
    ||| n == 8232 || n == 8233 || n == 8239 || n == 8287 || n == 12288
}

/// White space is that of Unicode.
pub proof fn law_white(c: char, r: bool)
    requires
        call_ensures(white, (c,), r),
    ensures
        r == blank(c),
{
}

/// The thread and the calls of a stack, from the outermost, with semicolons between them.
pub open spec fn path_of(f: Frames) -> Seq<char> {
    thread_of(f) + call_names(f).reverse().map_values(
        |name: Seq<char>| seq![';'] + name,
    ).flatten()
}

/// The text of a count.
pub open spec fn count_text(count: isize) -> Seq<char> {
    if count < 0 {
        seq!['-'] + decimal((-count) as nat)
    } else {
        decimal(count as nat)
    }
}

/// The lines of a report, one for each stack: its path and its count.
pub open spec fn lines_of(data: Seq<(Frames, isize)>) -> Seq<Seq<char>> {
    data.map_values(|e: (Frames, isize)| path_of(e.0) + seq![' '] + count_text(e.1))
}

pub proof fn lemma_lines_of(data: Seq<(Frames, isize)>)
    ensures
        report_lines(models(data)) == lines_of(data),
        forall|i: int|
            0 <= i < data.len() ==> #[trigger] lines_of(data)[i] == path_of(data[i].0).push(' ')
                + signed_decimal(data[i].1 as int),
{
    assert forall|i: int| 0 <= i < data.len() implies report_lines(models(data))[i] == lines_of(
        data,
    )[i] && #[trigger] lines_of(data)[i] == path_of(data[i].0).push(' ') + signed_decimal(
        data[i].1 as int,
    ) by {
        lemma_stack_line(data[i].0, data[i].1 as int);
        assert(line_of(data[i].0, signed_decimal(data[i].1 as int)) =~= path_of(data[i].0).push(
            ' ',
        ) + signed_decimal(data[i].1 as int));
        assert(lines_of(data)[i] =~= path_of(data[i].0).push(' ') + signed_decimal(
            data[i].1 as int,
        ));
    }
    assert(report_lines(models(data)) =~= lines_of(data));
}

/// A flame graph is drawn from one line for each stack.
pub proof fn law_flamegraph_lines(report: &Report, lines: Vec<String>)
    requires
        call_ensures(Report::flamegraph_lines, (report,), lines),
    ensures
        lines@.len() == report.data@.len(),
        forall|i: int|
            0 <= i < lines@.len() ==> (#[trigger] lines@[i])@ == path_of(report.data@[i].0) + seq![
                ' ',
            ] + count_text(report.data@[i].1),
{
    lemma_lines_of(report.data@);
    assert(texts(lines@).len() == lines@.len());
    assert forall|i: int| 0 <= i < lines@.len() implies (#[trigger] lines@[i])@ == path_of(
        report.data@[i].0,
    ) + seq![' '] + count_text(report.data@[i].1) by {
        assert(texts(lines@)[i] == lines_of(report.data@)[i]);
    }
}

/// What was drawn is returned, and an error where nothing was.
pub proof fn law_drawn(drawn: Option<Vec<u8>>, r: Result<Vec<u8>, Error>)
    requires
        call_ensures(drawn_or_error, (drawn,), r),
    ensures
        drawn matches Some(svg) ==> r == Ok::<Vec<u8>, Error>(svg),
        drawn is None ==> r == Err::<Vec<u8>, Error>(Error::FlamegraphError),
{
}

/// Whether a stack can be shown: something other than white space is in it, and that is not
/// the mark of a comment.
pub open spec fn shows(stack: Seq<char>) -> bool {
    exists|k: int|
        {
            &&& 0 <= k < stack.len()
            &&& !blank(#[trigger] stack[k])
            &&& forall|x: int| 0 <= x < k ==> blank(#[trigger] stack[x])
            &&& !(stack[k] == '#' && (k + 1 == stack.len() || stack[k + 1] == ' '))
        }
}

proof fn lemma_front(s: Seq<char>)
    ensures
        exists|k: int|
            {
                &&& 0 <= k <= s.len()
                &&& trim_front(s) == #[trigger] s.skip(k)
                &&& forall|x: int| 0 <= x < k ==> blank(#[trigger] s[x])
                &&& k < s.len() ==> !blank(s[k])
            },
    decreases s.len(),
{
    if s.len() > 0 && is_space(s[0]) {
        let rest = s.drop_first();
        lemma_front(rest);
        let k = choose|k: int|
            {
                &&& 0 <= k <= rest.len()
                &&& trim_front(rest) == #[trigger] rest.skip(k)
                &&& forall|x: int| 0 <= x < k ==> blank(#[trigger] rest[x])
                &&& k < rest.len() ==> !blank(rest[k])
            };
        assert(rest.skip(k) =~= s.skip(k + 1));
        assert forall|x: int| 0 <= x < k + 1 implies blank(#[trigger] s[x]) by {
            if x > 0 {
                assert(rest[x - 1] == s[x]);
            }
        }
        if k + 1 < s.len() {
            assert(rest[k] == s[k + 1]);
        }
    } else {
        assert(s.skip(0) =~= s);
    }
}

pub proof fn lemma_shows(stack: Seq<char>)
    ensures
        is_visible(stack) == shows(stack),
{
    lemma_front(stack);
    let k = choose|k: int|
        {
            &&& 0 <= k <= stack.len()
            &&& trim_front(stack) == #[trigger] stack.skip(k)
            &&& forall|x: int| 0 <= x < k ==> blank(#[trigger] stack[x])
            &&& k < stack.len() ==> !blank(stack[k])
        };
    let text = stack.skip(k);
    if k < stack.len() {
        assert(text[0] == stack[k]);
        assert(text.push(' ')[0] == stack[k]);
        if k + 1 < stack.len() {
            assert(text.push(' ')[1] == stack[k + 1]);
        } else {
            assert(text.push(' ')[1] == ' ');
        }
        if shows(stack) {
            let j = choose|j: int|
                {
                    &&& 0 <= j < stack.len()
                    &&& !blank(#[trigger] stack[j])
                    &&& forall|x: int| 0 <= x < j ==> blank(#[trigger] stack[x])
                    &&& !(stack[j] == '#' && (j + 1 == stack.len() || stack[j + 1] == ' '))
                };
            assert(j == k) by {
                if j < k {
                    assert(blank(stack[j]));
                } else if k < j {
                    assert(blank(stack[k]));
                }
            }
        }
    }
}

/// How often each stack that can be shown was seen.
pub open spec fn times_shown(data: Seq<(Frames, isize)>) -> Seq<int> {
    data.filter(|e: (Frames, isize)| e.1 > 0 && shows(path_of(e.0))).map_values(
        |e: (Frames, isize)| e.1 as int,
    )
}

proof fn lemma_total_shown(data: Seq<(Frames, isize)>)
    ensures
        lines_total(lines_of(data)) == sum_of(times_shown(data)),
    decreases data.len(),
{
    reveal(Seq::filter);
    if data.len() > 0 {
        let shorter = data.drop_last();
        let (f, count) = data.last();
        lemma_total_shown(shorter);
        lemma_lines_of(data);
        assert(lines_of(data).drop_last() =~= lines_of(shorter));
        assert(lines_of(data)[data.len() - 1] == lines_of(data).last());
        law_line_counts(path_of(f), count as int);
        lemma_shows(path_of(f));
        if count > 0 && shows(path_of(f)) {
            assert(times_shown(data) =~= times_shown(shorter).push(count as int));
            lemma_sum_push(times_shown(shorter), count as int);
        } else {
            assert(times_shown(data) =~= times_shown(shorter));
        }
    } else {
        assert(times_shown(data) =~= Seq::empty());
    }
}

/// Whether the difference of a line cannot be told, or not be told apart from that of
/// another one in 150 shades.
pub open spec fn difference_overflows(lines: Seq<Seq<char>>) -> bool {
    exists|i: int|
        0 <= i < lines.len() && {
            &&& difference(#[trigger] lines[i]) is Some
            &&& vstd::math::abs(difference(lines[i])->0) > isize::MAX || exists|j: int|
                0 <= j < lines.len() && {
                    &&& difference(#[trigger] lines[j]) is Some
                    &&& difference(lines[i])->0 != 0
                    &&& 150 * (vstd::math::abs(difference(lines[j])->0) - vstd::math::abs(
                        difference(lines[i])->0,
                    )) > isize::MAX
                }
        }
}

proof fn lemma_largest_of(lines: Seq<Seq<char>>)
    ensures
        largest_difference(lines) >= 1,
        forall|j: int|
            0 <= j < lines.len() ==> (difference(#[trigger] lines[j]) matches Some(d)
                ==> vstd::math::abs(d) <= largest_difference(lines)),
        largest_difference(lines) == 1 || exists|j: int|
            0 <= j < lines.len() && difference(#[trigger] lines[j]) is Some && vstd::math::abs(
                difference(lines[j])->0,
            ) == largest_difference(lines),
    decreases lines.len(),
{
    if lines.len() > 0 {
        let shorter = lines.drop_last();
        let last = lines.len() - 1;
        lemma_largest_of(shorter);
        assert(lines[last] == lines.last());
        assert forall|j: int| 0 <= j < lines.len() implies (difference(
            #[trigger] lines[j],
        ) matches Some(d) ==> vstd::math::abs(d) <= largest_difference(lines)) by {
            if j < last {
                assert(shorter[j] == lines[j]);
            }
        }
        if largest_difference(lines) != 1 {
            if largest_difference(lines) == largest_difference(shorter) {
                let j = choose|j: int|
                    0 <= j < shorter.len() && difference(#[trigger] shorter[j]) is Some
                        && vstd::math::abs(difference(shorter[j])->0) == largest_difference(
                        shorter,
                    );
                assert(lines[j] == shorter[j]);
            } else {
                assert(difference(lines[last]) is Some);
            }
        }
    }
}

proof fn lemma_lines_fit(lines: Seq<Seq<char>>)
    ensures
        lines_fit(lines) <==> {
            &&& lines_total(lines) <= u64::MAX
            &&& forall|i: int|
                0 <= i < lines.len() ==> (#[trigger] lines[i]).len() <= usize::MAX / 32
            &&& !difference_overflows(lines)
        },
{
    let largest = largest_difference(lines);
    lemma_largest_of(lines);
    if lines_fit(lines) {
        assert forall|i: int| 0 <= i < lines.len() implies (#[trigger] lines[i]).len() <= usize::MAX
            / 32 by {
            assert(line_fits(lines[i], largest));
        }
        if difference_overflows(lines) {
            let i = choose|i: int|
                0 <= i < lines.len() && {
                    &&& difference(#[trigger] lines[i]) is Some
                    &&& vstd::math::abs(difference(lines[i])->0) > isize::MAX || exists|j: int|
                        0 <= j < lines.len() && {
                            &&& difference(#[trigger] lines[j]) is Some
                            &&& difference(lines[i])->0 != 0
                            &&& 150 * (vstd::math::abs(difference(lines[j])->0) - vstd::math::abs(
                                difference(lines[i])->0,
                            )) > isize::MAX
                        }
                };
            assert(line_fits(lines[i], largest));
        }
    }
    if lines_total(lines) <= u64::MAX && !difference_overflows(lines) && forall|i: int|
        0 <= i < lines.len() ==> (#[trigger] lines[i]).len() <= usize::MAX / 32 {
        assert forall|i: int| 0 <= i < lines.len() implies line_fits(
            #[trigger] lines[i],
            largest,
        ) by {
            if let Some(d) = difference(lines[i]) {
                assert(vstd::math::abs(d) <= isize::MAX);
                if d != 0 && largest != 1 {
                    let j = choose|j: int|
                        0 <= j < lines.len() && difference(#[trigger] lines[j]) is Some
                            && vstd::math::abs(difference(lines[j])->0) == largest;
                    assert(150 * (largest - vstd::math::abs(d)) <= isize::MAX);
                }
            }
        }
    }
}

/// Lines are fit for drawing just where their counts together, the depth of each in pixels
/// and the shades of their differences fit in a machine number.
pub proof fn law_fit_for_drawing(lines: &Vec<String>, r: bool)
    requires
        call_ensures(fit_for_drawing, (lines,), r),
    ensures
        r <==> {
            &&& sum_of(lines@.map_values(|l: String| line_count(l@) as int)) <= u64::MAX
            &&& forall|i: int|
                0 <= i < lines@.len() ==> (#[trigger] lines@[i])@.len() <= usize::MAX / 32
            &&& !difference_overflows(lines@.map_values(|l: String| l@))
        },
{
    let all = texts(lines@);
    assert(all =~= lines@.map_values(|l: String| l@));
    lemma_lines_fit(all);
    lemma_counts_total(lines@);
    if forall|i: int| 0 <= i < all.len() ==> (#[trigger] all[i]).len() <= usize::MAX / 32 {
        assert forall|i: int| 0 <= i < lines@.len() implies (#[trigger] lines@[i])@.len()
            <= usize::MAX / 32 by {
            assert(all[i].len() <= usize::MAX / 32);
        }
    }
}

proof fn lemma_counts_total(lines: Seq<String>)
    ensures
        lines_total(texts(lines)) == sum_of(lines.map_values(|l: String| line_count(l@) as int)),
    decreases lines.len(),
{
    let f = |l: String| line_count(l@) as int;
    if lines.len() > 0 {
        let shorter = lines.drop_last();
        lemma_counts_total(shorter);
        assert(texts(lines).drop_last() =~= texts(shorter));
        assert(lines.map_values(f) =~= shorter.map_values(f).push(f(lines.last())));
        lemma_sum_push(shorter.map_values(f), f(lines.last()));
    }
}

/// Whether a stack ends in something other than a digit, a dot or white space: then no
/// number stands before the count of its line.
pub open spec fn ends_plainly(stack: Seq<char>) -> bool {
    stack.len() > 0 && !is_digit(stack.last()) && stack.last() != '.' && !blank(stack.last())
}

/// A line has a difference only where its stack ends in a number: that is the count less
/// the number, as machine numbers.
pub proof fn law_difference(stack: Seq<char>, number: nat, count: nat)
    requires
        number <= u64::MAX,
        count <= u64::MAX,
    ensures
        ends_plainly(stack) ==> difference(stack.push(' ') + decimal(count)) is None,
        shows(stack) ==> difference(
            (stack.push(' ') + decimal(number)).push(' ') + decimal(count),
        ) == Some((count as u64) as isize as int - (number as u64) as isize as int),
        shows(stack) && number <= isize::MAX && count <= isize::MAX ==> difference(
            (stack.push(' ') + decimal(number)).push(' ') + decimal(count),
        ) == Some(count - number),
{
    if ends_plainly(stack) {
        lemma_plain_end(stack, count as int);
    }
    if shows(stack) {
        lemma_shows(stack);
        let word = decimal(number);
        let whole = stack.push(' ') + word;
        let line = whole.push(' ') + decimal(count);
        lemma_front_kept(stack, (seq![' '] + word) + (seq![' '] + decimal(count)));
        let front = trim_front(stack);
        let inner = front.push(' ') + word;
        assert(line =~= stack + ((seq![' '] + word) + (seq![' '] + decimal(count))));
        assert(front + ((seq![' '] + word) + (seq![' '] + decimal(count))) =~= inner.push(' ')
            + decimal(count));
        assert(signed_decimal(count as int) == decimal(count));
        assert(signed_decimal(number as int) == word);
        law_line_count_reads_back(inner, count as int);
        law_line_count_reads_back(front, number as int);
        let text = trim(line);
        assert(text == inner.push(' ') + decimal(count));
        assert(!is_comment(text)) by {
            assert(text[0] == front[0]);
            assert(text[1] == front.push(' ')[1]);
        }
        assert(trimmed(inner.push(' ')) == trimmed(inner)) by {
            assert(inner.push(' ').drop_last() =~= inner);
        }
        assert(last_number(inner.push(' ')) == last_number(inner));
        assert(columns(line) == Some((count, Some(number))));
    }
}

proof fn lemma_front_kept(s: Seq<char>, more: Seq<char>)
    requires
        trim_front(s).len() > 0,
    ensures
        trim_front(s + more) == trim_front(s) + more,
    decreases s.len(),
{
    if s.len() > 0 && is_space(s[0]) {
        assert((s + more).drop_first() =~= s.drop_first() + more);
        lemma_front_kept(s.drop_first(), more);
    }
}

proof fn lemma_front_last(s: Seq<char>)
    requires
        s.len() > 0,
        !is_space(s.last()),
    ensures
        trim_front(s).len() > 0,
        trim_front(s).last() == s.last(),
    decreases s.len(),
{
    if is_space(s[0]) {
        assert(s.len() > 1);
        assert(s.drop_first().last() == s.last());
        lemma_front_last(s.drop_first());
    }
}

/// The last word of a text with a plain end is no number.
proof fn lemma_plain_end(stack: Seq<char>, count: int)
    requires
        ends_plainly(stack),
        count <= u64::MAX,
    ensures
        difference(stack.push(' ') + signed_decimal(count)) is None,
{
    let line = stack.push(' ') + signed_decimal(count);
    let rest = seq![' '] + signed_decimal(count);
    lemma_front_last(stack);
    lemma_front_kept(stack, rest);
    let front = trim_front(stack);
    assert(line =~= stack + rest);
    assert(front + rest =~= front.push(' ') + signed_decimal(count));
    law_line_count_reads_back(front, count);
    assert(trim(line) == front.push(' ') + signed_decimal(count));
    assert(front.push(' ').drop_last() =~= front);
    assert(trimmed(front) == front);
    assert(trimmed(front.push(' ')) == front);
    let start = word_start(front);
    lemma_word_start(front);
    let word = front.skip(start);
    if last_number(front.push(' ')) is Some {
        assert(word.len() > 0) by {
            assert(front.last() != ' ');
        }
        assert(word.last() == front.last());
        let dot = crate::flamegraph::dot_from(word, 0);
        lemma_dot(word, 0);
        if dot < word.len() {
            if dot + 1 < word.len() {
                let tail = word.skip(dot + 1);
                assert(tail[tail.len() - 1] == word.last());
                assert(is_digit(tail[tail.len() - 1]));
            } else {
                assert(word[dot] == word.last());
            }
        } else {
            assert(word.take(dot)[dot - 1] == word.last());
            assert(is_digit(word.take(dot)[dot - 1]));
        }
    }
}

proof fn lemma_word_start(s: Seq<char>)
    ensures
        0 <= word_start(s) <= s.len(),
        s.len() > 0 && s.last() != ' ' ==> word_start(s) < s.len(),
    decreases s.len(),
{
    if s.len() > 0 && s.last() != ' ' {
        lemma_word_start(s.drop_last());
    }
}

proof fn lemma_dot(word: Seq<char>, i: int)
    requires
        0 <= i <= word.len(),
    ensures
        i <= crate::flamegraph::dot_from(word, i) <= word.len(),
        crate::flamegraph::dot_from(word, i) < word.len() ==> word[crate::flamegraph::dot_from(
            word,
            i,
        )] == '.',
    decreases word.len() - i,
{
    if i < word.len() && word[i] != '.' {
        lemma_dot(word, i + 1);
    }
}

/// A report is drawn, from its lines, unless a sum or a product of the drawing overflows or
/// no stack that was seen can be shown; a report without stacks has an empty drawing.
pub proof fn law_flamegraph(report: &Report, r: Result<Vec<u8>, Error>)
    requires
        call_ensures(Report::flamegraph, (report,), r),
    ensures
        ({
            let data = report.data@;
            let lines = lines_of(data);
            let overflows = {
                ||| sum_of(times_shown(data)) > u64::MAX
                ||| exists|i: int|
                    0 <= i < lines.len() && (#[trigger] lines[i]).len() > usize::MAX / 32
                ||| difference_overflows(lines)
            };
            if data.len() == 0 {
                r matches Ok(svg) && svg@.len() == 0
            } else if overflows {
                r == Err::<Vec<u8>, Error>(Error::FlamegraphOverflow)
            } else if sum_of(times_shown(data)) == 0 {
                r == Err::<Vec<u8>, Error>(Error::FlamegraphError)
            } else {
                r matches Ok(svg) && flamegraph_of(lines, Some(svg@))
            }
        }),
{
    let data = report.data@;
    lemma_lines_of(data);
    lemma_total_shown(data);
    lemma_lines_fit(lines_of(data));
}

/// A report is drawn where its samples are between 1 and the largest count, its stacks can
/// be shown and end in no number, and its lines are of any length that a machine can hold.
pub proof fn law_ordinary_reports_are_drawn(report: &Report, r: Result<Vec<u8>, Error>)
    requires
        call_ensures(Report::flamegraph, (report,), r),
        1 <= sum_of(times_seen(report.data@)) <= u64::MAX,
        forall|i: int|
            0 <= i < report.data@.len() ==> {
                &&& shows(path_of((#[trigger] report.data@[i]).0))
                &&& ends_plainly(path_of(report.data@[i].0))
                &&& lines_of(report.data@)[i].len() <= usize::MAX / 32
            },
    ensures
        r matches Ok(svg) && flamegraph_of(lines_of(report.data@), Some(svg@)),
{
    let data = report.data@;
    let lines = lines_of(data);
    law_flamegraph(report, r);
    lemma_lines_of(data);
    lemma_all_shown(data);
    assert forall|i: int| 0 <= i < lines.len() implies difference(#[trigger] lines[i]) is None by {
        assert(ends_plainly(path_of(data[i].0)));
        lemma_plain_end(path_of(data[i].0), data[i].1 as int);
    }
    assert forall|i: int| 0 <= i < lines.len() implies (#[trigger] lines[i]).len() <= usize::MAX
        / 32 by {
        assert(shows(path_of(data[i].0)));
    }
    assert(data.len() > 0) by {
        if data.len() == 0 {
            reveal(Seq::filter);
            assert(times_seen(data) =~= Seq::empty());
        }
    }
}

proof fn lemma_all_shown(data: Seq<(Frames, isize)>)
    requires
        forall|i: int| 0 <= i < data.len() ==> shows(path_of((#[trigger] data[i]).0)),
    ensures
        times_shown(data) == times_seen(data),
    decreases data.len(),
{
    reveal(Seq::filter);
    if data.len() > 0 {
        let shorter = data.drop_last();
        assert forall|i: int| 0 <= i < shorter.len() implies shows(
            path_of((#[trigger] shorter[i]).0),
        ) by {
            assert(data[i] == shorter[i]);
        }
        lemma_all_shown(shorter);
        assert(shows(path_of(data[data.len() - 1].0)));
        if data.last().1 > 0 {
            assert(times_shown(data) =~= times_shown(shorter).push(data.last().1 as int));
            assert(times_seen(data) =~= times_seen(shorter).push(data.last().1 as int));
        } else {
            assert(times_shown(data) =~= times_shown(shorter));
            assert(times_seen(data) =~= times_seen(shorter));
        }
    } else {
        assert(times_shown(data) =~= times_seen(data));
    }
}

/// A line counts what stands behind its stack, if the stack can be shown, and nothing
/// otherwise.
pub proof fn law_line_counted(stack: Seq<char>, count: nat)
    requires
        count <= u64::MAX,
    ensures
        shows(stack) ==> line_count(stack + seq![' '] + decimal(count)) == count,
        !shows(stack) ==> line_count(stack + seq![' '] + decimal(count)) == 0,
{
    lemma_shows(stack);
    law_line_counts(stack, count as int);
    assert(stack + seq![' '] + decimal(count) =~= stack.push(' ') + signed_decimal(count as int));
}

/// The number that digits stand for.
pub open spec fn value_of(digits: Seq<char>) -> int {
    digits.fold_left(0, |v: int, c: char| 10 * v + (c as int - 48))
}

/// Whether the word is digits, with or without a dot and more digits behind them, and those
/// before the dot stand for `n`.
pub open spec fn denotes(word: Seq<char>, n: nat) -> bool {
    exists|d: int|
        {
            &&& 0 < d <= word.len()
            &&& forall|i: int|
                0 <= i < word.len() && i != d ==> 48 <= (#[trigger] word[i]) as int <= 57
            &&& d < word.len() ==> word[d] == '.'
            &&& n == value_of(#[trigger] word.take(d))
        }
}

proof fn lemma_value_of(digits: Seq<char>)
    requires
        forall|i: int| 0 <= i < digits.len() ==> is_digit(#[trigger] digits[i]),
    ensures
        value_of(digits) == digits_value(digits),
    decreases digits.len(),
{
    reveal(Seq::fold_left);
    if digits.len() > 0 {
        let shorter = digits.drop_last();
        assert forall|i: int| 0 <= i < shorter.len() implies is_digit(#[trigger] shorter[i]) by {
            assert(shorter[i] == digits[i]);
        }
        lemma_value_of(shorter);
        assert(is_digit(digits[digits.len() - 1]));
    }
}

proof fn lemma_dot_place(word: Seq<char>, i: int, d: int)
    requires
        0 <= i <= d <= word.len(),
        forall|k: int| i <= k < d ==> #[trigger] word[k] != '.',
        d < word.len() ==> word[d] == '.',
    ensures
        crate::flamegraph::dot_from(word, i) == d,
    decreases d - i,
{
    if i < d {
        assert(word[i] != '.');
        lemma_dot_place(word, i + 1, d);
    }
}

proof fn lemma_denotes(word: Seq<char>)
    ensures
        ({
            let dot = crate::flamegraph::dot_from(word, 0);
            let number = digits_value(word.take(dot));
            &&& is_number(word) ==> denotes(word, number)
            &&& forall|n: nat| #[trigger] denotes(word, n) ==> is_number(word) && n == number
        }),
{
    let dot = crate::flamegraph::dot_from(word, 0);
    lemma_dot(word, 0);
    if is_number(word) {
        let whole = word.take(dot);
        lemma_value_of(whole);
        assert forall|i: int| 0 <= i < word.len() && i != dot implies 48 <= (
        #[trigger] word[i]) as int <= 57 by {
            if i < dot {
                assert(is_digit(whole[i]));
            } else {
                assert(is_digit(word.skip(dot + 1)[i - dot - 1]));
            }
        }
        assert(digits_value(whole) == value_of(word.take(dot)));
    }
    assert forall|n: nat| #[trigger] denotes(word, n) implies is_number(word) && n
        == digits_value(word.take(dot)) by {
        let d = choose|d: int|
            {
                &&& 0 < d <= word.len()
                &&& forall|i: int|
                    0 <= i < word.len() && i != d ==> 48 <= (#[trigger] word[i]) as int <= 57
                &&& d < word.len() ==> word[d] == '.'
                &&& n == value_of(#[trigger] word.take(d))
            };
        lemma_dot_place(word, 0, d);
        assert forall|i: int| 0 <= i < d implies is_digit(#[trigger] word.take(d)[i]) by {
            assert(word.take(d)[i] == word[i]);
        }
        lemma_value_of(word.take(d));
        if d < word.len() {
            let behind = word.skip(d + 1);
            assert forall|i: int| 0 <= i < behind.len() implies is_digit(#[trigger] behind[i]) by {
                assert(behind[i] == word[d + 1 + i]);
            }
        }
    }
}

proof fn lemma_start(s: Seq<char>, word: Seq<char>)
    requires
        forall|i: int| 0 <= i < word.len() ==> #[trigger] word[i] != ' ',
    ensures
        word_start(s.push(' ') + word) == s.len() + 1,
    decreases word.len(),
{
    let line = s.push(' ') + word;
    if word.len() == 0 {
        assert(line =~= s.push(' '));
    } else {
        let shorter = word.drop_last();
        assert forall|i: int| 0 <= i < shorter.len() implies #[trigger] shorter[i] != ' ' by {
            assert(shorter[i] == word[i]);
        }
        lemma_start(s, shorter);
        assert(line.drop_last() =~= s.push(' ') + shorter);
        assert(line.last() == word[word.len() - 1]);
    }
}

proof fn lemma_last_word(front: Seq<char>, word: Seq<char>)
    requires
        word.len() > 0,
        forall|i: int| 0 <= i < word.len() ==> !blank(#[trigger] word[i]),
    ensures
        forall|n: nat|
            n <= u64::MAX && #[trigger] denotes(word, n) ==> last_number(front.push(' ') + word)
                == Some((front.push(' '), n)),
        (forall|n: nat| n <= u64::MAX ==> !#[trigger] denotes(word, n)) ==> last_number(
            front.push(' ') + word,
        ) is None,
        trimmed(front.push(' ') + word) == front.push(' ') + word,
{
    let line = front.push(' ') + word;
    assert forall|i: int| 0 <= i < word.len() implies #[trigger] word[i] != ' ' by {
        assert(!blank(word[i]));
    }
    lemma_start(front, word);
    lemma_denotes(word);
    assert(line.last() == word[word.len() - 1]);
    assert(!blank(word[word.len() - 1]));
    assert(trimmed(line) == line);
    assert(line.skip(front.len() as int + 1) =~= word);
    assert(line.take(front.len() as int + 1) =~= front.push(' '));
}

/// The last word of a line is its count, and the one before it the number to compare with,
/// where they are numbers of 64 bits; a fraction is cut off.
pub proof fn law_words_read(stack: Seq<char>, word: Seq<char>, n: nat, count: nat)
    requires
        shows(stack),
        word.len() > 0,
        forall|i: int| 0 <= i < word.len() ==> !blank(#[trigger] word[i]),
        count <= u64::MAX,
    ensures
        n <= u64::MAX && denotes(word, n) ==> line_count(stack.push(' ') + word) == n,
        n > u64::MAX && denotes(word, n) ==> line_count(stack.push(' ') + word) == 0,
        (forall|m: nat| !#[trigger] denotes(word, m)) ==> line_count(stack.push(' ') + word) == 0,
        n <= u64::MAX && denotes(word, n) ==> difference(
            (stack.push(' ') + word).push(' ') + decimal(count),
        ) == Some((count as u64) as isize as int - (n as u64) as isize as int),
        n > u64::MAX && denotes(word, n) ==> difference(
            (stack.push(' ') + word).push(' ') + decimal(count),
        ) is None,
        (forall|m: nat| !#[trigger] denotes(word, m)) ==> difference(
            (stack.push(' ') + word).push(' ') + decimal(count),
        ) is None,
{
    lemma_shows(stack);
    lemma_denotes(word);
    let front = trim_front(stack);
    let short = stack.push(' ') + word;
    let inner = front.push(' ') + word;
    lemma_front_kept(stack, seq![' '] + word);
    assert(short =~= stack + (seq![' '] + word));
    assert(front + (seq![' '] + word) =~= inner);
    lemma_last_word(front, word);
    assert(trim(short) == inner);
    assert(!is_comment(inner)) by {
        assert(inner[0] == front[0]);
        assert(inner[1] == front.push(' ')[1]);
    }
    let line = short.push(' ') + decimal(count);
    let tail = (seq![' '] + word) + (seq![' '] + decimal(count));
    lemma_front_kept(stack, tail);
    assert(line =~= stack + tail);
    assert(front + tail =~= inner.push(' ') + decimal(count));
    assert(signed_decimal(count as int) == decimal(count));
    law_line_count_reads_back(inner, count as int);
    let text = trim(line);
    assert(text == inner.push(' ') + decimal(count));
    assert(!is_comment(text)) by {
        assert(text[0] == front[0]);
        assert(text[1] == front.push(' ')[1]);
    }
    assert(inner.push(' ').drop_last() =~= inner);
    assert(trimmed(inner.push(' ')) == trimmed(inner));
    assert(last_number(inner.push(' ')) == last_number(inner));
}

} // verus!
