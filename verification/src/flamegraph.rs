//! Flame graphs, drawn from folded lines.

use vstd::prelude::*;

use crate::error::Error;
use crate::folded::{folded, push_stack_line, stack_line};
use crate::frames::FramesView;
use crate::report::{was_seen, weighted, Report};
use crate::tally::positive_total;
use crate::text::{
    all_digits, chars_of, decimal, digits_value, is_digit, join, law_decimal_reads_back,
    law_joined_parts_split, signed_decimal, split, texts,
};

verus! {

/// Whether `c` is white space.
pub open spec fn is_space(c: char) -> bool {
    let n = c as u32;
    ||| 0x9 <= n <= 0xd
    ||| n == 0x20
    ||| n == 0x85
    ||| n == 0xa0
    ||| n == 0x1680
    ||| 0x2000 <= n <= 0x200a
    ||| n == 0x2028
    ||| n == 0x2029
    ||| n == 0x202f
    ||| n == 0x205f
    ||| n == 0x3000
}

/// Whether `c` is white space.
pub fn white(c: char) -> (r: bool)
    ensures
        r == is_space(c),
{
    let n: u32 = c as u32;
    (0x9 <= n && n <= 0xd) || n == 0x20 || n == 0x85 || n == 0xa0 || n == 0x1680 || (0x2000 <= n
        && n <= 0x200a) || n == 0x2028 || n == 0x2029 || n == 0x202f || n == 0x205f || n == 0x3000
}

/// The text without the white space at its end.
pub open spec fn trimmed(s: Seq<char>) -> Seq<char>
    decreases s.len(),
{
    if s.len() > 0 && is_space(s.last()) {
        trimmed(s.drop_last())
    } else {
        s
    }
}

/// The text without the white space at its start.
pub open spec fn trim_front(s: Seq<char>) -> Seq<char>
    decreases s.len(),
{
    if s.len() > 0 && is_space(s[0]) {
        trim_front(s.drop_first())
    } else {
        s
    }
}

/// The text without the white space at both ends.
pub open spec fn trim(s: Seq<char>) -> Seq<char> {
    trimmed(trim_front(s))
}

/// Where the last word starts: behind the last space, 0 where there is none.
pub open spec fn word_start(s: Seq<char>) -> int
    decreases s.len(),
{
    if s.len() == 0 {
        0
    } else if s.last() == ' ' {
        s.len() as int
    } else {
        word_start(s.drop_last())
    }
}

/// Where the first dot at or behind `i` stands; the length where there is none.
pub open spec fn dot_from(word: Seq<char>, i: int) -> int
    decreases word.len() - i,
{
    if 0 <= i < word.len() && word[i] != '.' {
        dot_from(word, i + 1)
    } else {
        i
    }
}

/// Whether the word is a number: digits, with or without a fraction behind them.
pub open spec fn is_number(word: Seq<char>) -> bool {
    let dot = dot_from(word, 0);
    &&& dot > 0
    &&& all_digits(word.take(dot))
    &&& dot < word.len() ==> all_digits(word.skip(dot + 1))
}

/// The number in the last word of a text, without its fraction, and the text before
/// that word; `None` where there is no such number of 64 bits.
pub open spec fn last_number(s: Seq<char>) -> Option<(Seq<char>, nat)> {
    let text = trimmed(s);
    let start = word_start(text);
    let word = text.skip(start);
    let number = digits_value(word.take(dot_from(word, 0)));
    if start > 0 && is_number(word) && number <= u64::MAX {
        Some((text.take(start), number))
    } else {
        None
    }
}

/// Whether a trimmed line is a comment.
pub open spec fn is_comment(text: Seq<char>) -> bool {
    text.len() >= 2 && text[0] == '#' && text[1] == ' '
}

/// The count of a line, and the number that stands before it where there is one; `None`
/// where the line does not count.
pub open spec fn columns(line: Seq<char>) -> Option<(nat, Option<nat>)> {
    let text = trim(line);
    if is_comment(text) {
        None
    } else {
        match last_number(text) {
            Some((rest, count)) => match last_number(rest) {
                Some((_, before)) => Some((count, Some(before))),
                None => Some((count, None)),
            },
            None => None,
        }
    }
}

/// The count of a line, 0 where it does not count.
pub open spec fn line_count(line: Seq<char>) -> nat {
    match columns(line) {
        Some((count, _)) => count,
        None => 0,
    }
}

/// The sum of the counts of all lines.
pub open spec fn lines_total(lines: Seq<Seq<char>>) -> nat
    decreases lines.len(),
{
    if lines.len() == 0 {
        0
    } else {
        lines_total(lines.drop_last()) + line_count(lines.last())
    }
}

/// How much larger the count of a line is than the number before it, where there is one;
/// both are cut to the size of a count.
pub open spec fn difference(line: Seq<char>) -> Option<int> {
    match columns(line) {
        Some((count, Some(before))) => Some(
            (count as u64) as isize as int - (before as u64) as isize as int,
        ),
        _ => None,
    }
}

/// The largest difference of all lines, at least 1.
pub open spec fn largest_difference(lines: Seq<Seq<char>>) -> nat
    decreases lines.len(),
{
    if lines.len() == 0 {
        1
    } else {
        let largest = largest_difference(lines.drop_last());
        match difference(lines.last()) {
            Some(d) => if vstd::math::abs(d) > largest {
                vstd::math::abs(d)
            } else {
                largest
            },
            None => largest,
        }
    }
}

/// Whether the line can be drawn without overflow: its depth can be told in pixels, and
/// where it has a difference, that fits in a count, and so does its distance from the
/// largest, scaled to a shade.
pub open spec fn line_fits(line: Seq<char>, largest: nat) -> bool {
    &&& line.len() <= usize::MAX / 32
    &&& difference(line) matches Some(d) ==> {
        &&& vstd::math::abs(d) <= isize::MAX
        &&& d != 0 ==> 150 * (largest - vstd::math::abs(d)) <= isize::MAX
    }
}

/// Whether the lines can be drawn without overflow.
pub open spec fn lines_fit(lines: Seq<Seq<char>>) -> bool {
    &&& forall|i: int|
        0 <= i < lines.len() ==> line_fits(#[trigger] lines[i], largest_difference(lines))
    &&& lines_total(lines) <= u64::MAX
}

/// `std::io::Error`, as `inferno::flamegraph::from_lines` returns it.
#[verifier::external_type_specification]
#[verifier::external_body]
pub struct ExIoError(std::io::Error);

/// Whether `svg` is what `inferno::flamegraph::from_lines` has drawn of the lines,
/// `None` standing for its error. Colours are picked at random, so the same lines may
/// have more than one such drawing.
pub uninterp spec fn flamegraph_of(lines: Seq<Seq<char>>, svg: Option<Seq<u8>>) -> bool;

/// Calls `inferno::flamegraph::from_lines` with the default options. The drawing is
/// one of these lines; there is one just where the counts of the lines add up to more
/// than 0. Not said: what the drawing looks like.
#[verifier::external_body]
fn draw(lines: &Vec<String>) -> (r: Result<Vec<u8>, std::io::Error>)
    requires
        lines_fit(texts(lines@)),
    ensures
        flamegraph_of(
            texts(lines@),
            match r {
                Ok(svg) => Some(svg@),
                Err(_) => None,
            },
        ),
        r is Ok <==> lines_total(texts(lines@)) > 0,
{
    let mut svg: Vec<u8> = Vec::new();
    inferno::flamegraph::from_lines(
        &mut inferno::flamegraph::Options::default(),
        lines.iter().map(|line| line.as_str()),
        &mut svg,
    )?;
    Ok(svg)
}

/// The value of a decimal digit; `None` for another character.
fn digit_value(c: char) -> (r: Option<u32>)
    ensures
        r == (if is_digit(c) {
            Some((c as int - 48) as u32)
        } else {
            None
        }),
{
    let code: u32 = c as u32;
    if code < 48 || code > 57 {
        None
    } else {
        Some(code - 48)
    }
}

/// One past the largest count.
const TOO_MANY: u128 = 0x1_0000_0000_0000_0000;

/// The number that the digits of a word denote, cut to one past the largest count;
/// `None` where it holds something else.
fn read_digits(chars: &Vec<char>, from: usize, to: usize) -> (r: Option<u128>)
    requires
        from <= to <= chars@.len(),
    ensures
        r is Some <==> all_digits(chars@.subrange(from as int, to as int)),
        r matches Some(value) ==> value == (if digits_value(
            chars@.subrange(from as int, to as int),
        ) < TOO_MANY {
            digits_value(chars@.subrange(from as int, to as int)) as int
        } else {
            TOO_MANY as int
        }),
{
    let ghost word = chars@.subrange(from as int, to as int);
    let mut value: u128 = 0;
    let mut i: usize = from;
    assert(word.take(0) =~= Seq::empty());
    while i < to
        invariant
            from <= i <= to <= chars@.len(),
            word == chars@.subrange(from as int, to as int),
            all_digits(word.take(i - from)),
            value <= TOO_MANY,
            value == (if digits_value(word.take(i - from)) < TOO_MANY {
                digits_value(word.take(i - from)) as int
            } else {
                TOO_MANY as int
            }),
        decreases to - i,
    {
        let c: char = chars[i];
        let ghost shorter = word.take(i - from);
        let ghost longer = word.take(i - from + 1);
        proof {
            assert(longer.drop_last() =~= shorter);
            assert(longer.last() == chars@[i as int]);
            assert(word[i - from] == chars@[i as int]);
        }
        match digit_value(c) {
            Some(digit) => {
                value = value * 10 + digit as u128;
            },
            None => {
                assert(!is_digit(word[i - from]));
                return None;
            },
        }
        if value > TOO_MANY {
            value = TOO_MANY;
        }
        proof {
            assert forall|k: int| 0 <= k < longer.len() implies is_digit(#[trigger] longer[k]) by {
                if k < shorter.len() {
                    assert(is_digit(shorter[k]));
                } else {
                    assert(longer[k] == c);
                }
            }
        }
        i += 1;
    }
    assert(word.take(i - from) =~= word);
    Some(value)
}

/// The characters of a text without the white space at its start.
fn front_trimmed(text: &String) -> (r: Vec<char>)
    ensures
        r@ == trim_front(text@),
{
    let chars = chars_of(text);
    let mut start: usize = 0;
    assert(chars@.skip(0) =~= text@);
    while start < chars.len() && white(chars[start])
        invariant
            start <= chars@.len(),
            trim_front(chars@.skip(start as int)) == trim_front(text@),
        decreases chars@.len() - start,
    {
        assert(chars@.skip(start as int)[0] == chars@[start as int]);
        assert(chars@.skip(start as int).drop_first() =~= chars@.skip(start + 1));
        start += 1;
    }
    proof {
        if start < chars@.len() {
            assert(chars@.skip(start as int)[0] == chars@[start as int]);
        }
    }
    let ghost kept = chars@.skip(start as int);
    let mut r: Vec<char> = Vec::new();
    let mut i: usize = start;
    while i < chars.len()
        invariant
            start <= i <= chars@.len(),
            kept == chars@.skip(start as int),
            r@ == kept.take(i - start),
        decreases chars@.len() - i,
    {
        r.push(chars[i]);
        assert(r@ =~= kept.take(i - start + 1));
        i += 1;
    }
    assert(r@ =~= kept);
    r
}

/// The length of the first `end` characters without the white space at their end.
fn trimmed_length(chars: &Vec<char>, end: usize) -> (r: usize)
    requires
        end <= chars@.len(),
    ensures
        r <= end,
        chars@.take(r as int) == trimmed(chars@.take(end as int)),
        trimmed(chars@.take(r as int)) == chars@.take(r as int),
{
    let mut last: usize = end;
    while last > 0 && white(chars[last - 1])
        invariant
            last <= end <= chars@.len(),
            trimmed(chars@.take(last as int)) == trimmed(chars@.take(end as int)),
        decreases last,
    {
        assert(chars@.take(last as int).drop_last() =~= chars@.take(last - 1));
        last -= 1;
    }
    last
}

/// The number in the last word of the first `end` characters, and the length of the text
/// before that word.
fn find_number(chars: &Vec<char>, end: usize) -> (r: Option<(usize, u64)>)
    requires
        end <= chars@.len(),
    ensures
        match (r, last_number(chars@.take(end as int))) {
            (None, None) => true,
            (Some((len, value)), Some((rest, number))) => {
                &&& len <= end
                &&& rest == chars@.take(len as int)
                &&& value == number
            },
            _ => false,
        },
{
    let last: usize = trimmed_length(chars, end);
    let ghost text = chars@.take(last as int);
    let mut start: usize = last;
    assert(text.take(last as int) =~= text);
    while start > 0 && chars[start - 1] != ' '
        invariant
            start <= last <= chars@.len(),
            text == chars@.take(last as int),
            word_start(text.take(start as int)) == word_start(text),
        decreases start,
    {
        assert(text.take(start as int).drop_last() =~= text.take(start - 1));
        assert(text.take(start as int).last() == chars@[start - 1]);
        start -= 1;
    }
    assert(start == word_start(text));
    if start == 0 {
        return None;
    }
    let ghost word = text.skip(start as int);
    let mut dot: usize = start;
    while dot < last && chars[dot] != '.'
        invariant
            start <= dot <= last <= chars@.len(),
            text == chars@.take(last as int),
            word == text.skip(start as int),
            dot_from(word, 0) == dot_from(word, dot - start),
        decreases last - dot,
    {
        assert(word[dot - start] == chars@[dot as int]);
        dot += 1;
    }
    proof {
        if dot < last {
            assert(word[dot - start] == chars@[dot as int]);
        }
        assert(dot_from(word, 0) == dot - start);
        assert(word.take(dot - start) =~= chars@.subrange(start as int, dot as int));
        if dot < last {
            assert(word.skip(dot - start + 1) =~= chars@.subrange(dot + 1, last as int));
        }
        assert(text.take(start as int) =~= chars@.take(start as int));
    }
    if dot == start {
        return None;
    }
    let value: u128 = match read_digits(chars, start, dot) {
        Some(value) => value,
        None => {
            return None;
        },
    };
    if dot < last {
        if read_digits(chars, dot + 1, last).is_none() {
            return None;
        }
    }
    if value >= TOO_MANY {
        return None;
    }
    Some((start, value as u64))
}

/// The numbers of a line.
#[derive(Clone, Copy)]
struct Columns {
    count: u64,
    before: Option<u64>,
}

/// Reads the numbers of a line; `None` where the line does not count.
fn read_columns(line: &String) -> (r: Option<Columns>)
    ensures
        match (r, columns(line@)) {
            (None, None) => true,
            (Some(c), Some((count, before))) => {
                &&& c.count == count
                &&& match (c.before, before) {
                    (None, None) => true,
                    (Some(a), Some(b)) => a == b,
                    _ => false,
                }
            },
            _ => false,
        },
{
    let chars = front_trimmed(line);
    assert(chars@.take(chars@.len() as int) =~= chars@);
    let end: usize = trimmed_length(&chars, chars.len());
    let ghost text = trim(line@);
    assert(text == chars@.take(end as int));
    if end >= 2 && chars[0] == '#' && chars[1] == ' ' {
        assert(is_comment(text));
        return None;
    }
    assert(!is_comment(text));
    match find_number(&chars, end) {
        None => None,
        Some((rest, count)) => match find_number(&chars, rest) {
            None => Some(Columns { count, before: None }),
            Some((_, before)) => Some(Columns { count, before: Some(before) }),
        },
    }
}

/// The difference of a line, where it has one.
fn read_difference(columns: &Option<Columns>) -> (r: Option<i128>)
    ensures
        r == match *columns {
            Some(Columns { count, before: Some(before) }) => Some(
                (count as isize - before as isize) as i128,
            ),
            _ => None,
        },
        r matches Some(d) ==> -0x2_0000_0000_0000_0000 < d < 0x2_0000_0000_0000_0000,
{
    match columns {
        Some(Columns { count, before: Some(before) }) => {
            #[verifier::truncate]
            let a: isize = *count as isize;
            #[verifier::truncate]
            let b: isize = *before as isize;
            Some(a as i128 - b as i128)
        },
        _ => None,
    }
}

/// The size of a difference.
fn magnitude(d: i128) -> (r: u128)
    requires
        -0x2_0000_0000_0000_0000 < d < 0x2_0000_0000_0000_0000,
    ensures
        r == vstd::math::abs(d as int),
        r < 0x2_0000_0000_0000_0000,
{
    if d < 0 {
        (-d) as u128
    } else {
        d as u128
    }
}

/// Whether the lines can be drawn without overflow.
pub fn fit_for_drawing(lines: &Vec<String>) -> (r: bool)
    ensures
        r == lines_fit(texts(lines@)),
{
    let ghost all = texts(lines@);
    let mut differences: Vec<Option<i128>> = Vec::new();
    let mut total: u128 = 0;
    let mut largest: u128 = 1;
    let mut i: usize = 0;
    assert(all.take(0) =~= Seq::empty());
    while i < lines.len()
        invariant
            i <= lines@.len(),
            all == texts(lines@),
            differences@.len() == i,
            forall|k: int|
                0 <= k < i ==> match (#[trigger] differences@[k], difference(all[k])) {
                    (None, None) => true,
                    (Some(a), Some(b)) => a == b && -0x2_0000_0000_0000_0000 < a
                        < 0x2_0000_0000_0000_0000,
                    _ => false,
                },
            largest == largest_difference(all.take(i as int)),
            largest < 0x2_0000_0000_0000_0000,
            total == lines_total(all.take(i as int)),
            total < TOO_MANY,
        decreases lines@.len() - i,
    {
        let columns = read_columns(&lines[i]);
        let d = read_difference(&columns);
        proof {
            assert(all[i as int] == lines@[i as int]@);
            assert(all.take(i + 1).drop_last() =~= all.take(i as int));
            assert(all.take(i + 1).last() == all[i as int]);
            lemma_lines_total_grows(all, i + 1);
        }
        if let Some(columns) = columns {
            total = total + columns.count as u128;
        }
        if total >= TOO_MANY {
            return false;
        }
        if let Some(d) = d {
            let size: u128 = magnitude(d);
            if size > largest {
                largest = size;
            }
        }
        differences.push(d);
        i += 1;
    }
    assert(all.take(i as int) =~= all);
    let mut j: usize = 0;
    while j < lines.len()
        invariant
            j <= lines@.len(),
            all == texts(lines@),
            differences@.len() == lines@.len(),
            forall|k: int|
                0 <= k < lines@.len() ==> match (#[trigger] differences@[k], difference(all[k])) {
                    (None, None) => true,
                    (Some(a), Some(b)) => a == b && -0x2_0000_0000_0000_0000 < a
                        < 0x2_0000_0000_0000_0000,
                    _ => false,
                },
            largest == largest_difference(all),
            largest < 0x2_0000_0000_0000_0000,
            forall|k: int| 0 <= k < j ==> line_fits(#[trigger] all[k], largest as nat),
        decreases lines@.len() - j,
    {
        proof {
            assert(all[j as int] == lines@[j as int]@);
            lemma_largest(all, j as int);
        }
        if chars_of(&lines[j]).len() > usize::MAX / 32 {
            assert(!line_fits(all[j as int], largest as nat));
            return false;
        }
        if let Some(d) = differences[j] {
            let size: u128 = magnitude(d);
            if size > isize::MAX as u128 || (d != 0 && 150 * (largest - size)
                > isize::MAX as u128) {
                assert(!line_fits(all[j as int], largest as nat));
                return false;
            }
        }
        assert(line_fits(all[j as int], largest as nat));
        j += 1;
    }
    true
}

/// No difference is larger than the largest.
proof fn lemma_largest(lines: Seq<Seq<char>>, i: int)
    requires
        0 <= i < lines.len(),
    ensures
        difference(lines[i]) matches Some(d) ==> vstd::math::abs(d) <= largest_difference(lines),
    decreases lines.len(),
{
    if i < lines.len() - 1 {
        lemma_largest(lines.drop_last(), i);
    }
}

proof fn lemma_lines_total_grows(lines: Seq<Seq<char>>, i: int)
    requires
        0 <= i <= lines.len(),
    ensures
        lines_total(lines.take(i)) <= lines_total(lines),
    decreases lines.len() - i,
{
    if i < lines.len() {
        lemma_lines_total_grows(lines, i + 1);
        assert(lines.take(i + 1).drop_last() =~= lines.take(i));
    } else {
        assert(lines.take(i) =~= lines);
    }
}

/// The lines of a report, one for each stack.
pub open spec fn report_lines(data: Seq<(FramesView, isize)>) -> Seq<Seq<char>> {
    Seq::new(data.len(), |i: int| stack_line(data[i].0.words(), data[i].1 as int))
}

/// What is returned for a drawing: the drawing itself, or an error where there is none.
pub fn drawn_or_error(drawn: Option<Vec<u8>>) -> (r: Result<Vec<u8>, Error>)
    ensures
        r == match drawn {
            Some(svg) => Ok::<Vec<u8>, Error>(svg),
            None => Err(Error::FlamegraphError),
        },
{
    match drawn {
        Some(svg) => Ok(svg),
        None => Err(Error::FlamegraphError),
    }
}

impl Report {
    /// The lines that a flame graph is drawn from, one for each stack.
    pub fn flamegraph_lines(&self) -> (r: Vec<String>)
        ensures
            texts(r@) == report_lines(self.entries()),
    {
        let ghost data = self.entries();
        let mut r: Vec<String> = Vec::new();
        let mut i: usize = 0;
        while i < self.data.len()
            invariant
                i <= self.data@.len(),
                data == self.entries(),
                r@.len() == i,
                forall|k: int| 0 <= k < i ==> (#[trigger] r@[k])@ == report_lines(data)[k],
            decreases self.data@.len() - i,
        {
            let mut line = String::new();
            let words = self.data[i].0.words();
            push_stack_line(&mut line, &words, self.data[i].1 as i64);
            assert(line@ =~= report_lines(data)[i as int]);
            r.push(line);
            i += 1;
        }
        assert(texts(r@) =~= report_lines(data));
        r
    }

    /// Draws the report as an SVG flame graph. A report without stacks has an empty
    /// drawing; one whose numbers are too large to draw is refused, and so is one of which
    /// nothing can be shown.
    pub fn flamegraph(&self) -> (r: Result<Vec<u8>, Error>)
        ensures
            ({
                let lines = report_lines(self.entries());
                if lines.len() == 0 {
                    r matches Ok(svg) && svg@.len() == 0
                } else if !lines_fit(lines) {
                    r == Err::<Vec<u8>, Error>(Error::FlamegraphOverflow)
                } else if lines_total(lines) == 0 {
                    &&& r == Err::<Vec<u8>, Error>(Error::FlamegraphError)
                    &&& flamegraph_of(lines, None)
                } else {
                    r matches Ok(svg) && flamegraph_of(lines, Some(svg@))
                }
            }),
    {
        let lines = self.flamegraph_lines();
        assert(lines@.len() == texts(lines@).len());
        if lines.len() == 0 {
            return Ok(Vec::new());
        }
        if !fit_for_drawing(&lines) {
            return Err(Error::FlamegraphOverflow);
        }
        drawn_or_error(draw(&lines).ok())
    }
}

proof fn lemma_number_word(s: Seq<char>, word: Seq<char>)
    requires
        forall|i: int| 0 <= i < word.len() ==> (#[trigger] word[i]) != ' ',
    ensures
        word_start(s.push(' ') + word) == s.len() + 1,
    decreases word.len(),
{
    let text = s.push(' ') + word;
    if word.len() == 0 {
        assert(text =~= s.push(' '));
    } else {
        assert(text.drop_last() =~= s.push(' ') + word.drop_last());
        assert(text.last() == word.last());
        lemma_number_word(s, word.drop_last());
    }
}

proof fn lemma_no_dot(word: Seq<char>, i: int)
    requires
        all_digits(word),
        0 <= i <= word.len(),
    ensures
        dot_from(word, i) == word.len(),
    decreases word.len() - i,
{
    if i < word.len() {
        assert(is_digit(word[i]));
        lemma_no_dot(word, i + 1);
    }
}

proof fn lemma_dot_from(word: Seq<char>, i: int)
    requires
        0 <= i <= word.len(),
    ensures
        i <= dot_from(word, i) <= word.len(),
    decreases word.len() - i,
{
    if i < word.len() && word[i] != '.' {
        lemma_dot_from(word, i + 1);
    }
}

/// The count that a line was made with is read back from its end.
pub proof fn law_line_count_reads_back(stack: Seq<char>, count: int)
    requires
        count <= u64::MAX,
    ensures
        count >= 0 ==> last_number(stack.push(' ') + signed_decimal(count)) == Some(
            (stack.push(' '), count as nat),
        ),
        count < 0 ==> last_number(stack.push(' ') + signed_decimal(count)) is None,
        trimmed(stack.push(' ') + signed_decimal(count)) == stack.push(' ') + signed_decimal(count),
{
    let word = signed_decimal(count);
    let line = stack.push(' ') + word;
    let n = (if count < 0 {
        -count
    } else {
        count
    }) as nat;
    law_decimal_reads_back(n);
    assert forall|i: int| 0 <= i < word.len() implies (#[trigger] word[i]) != ' ' by {
        if count >= 0 {
            assert(is_digit(decimal(n)[i]));
        } else if i > 0 {
            assert(is_digit(decimal(n)[i - 1]));
        }
    }
    assert(line.last() == word.last());
    assert(word.last() == decimal(n).last());
    assert(is_digit(decimal(n)[decimal(n).len() - 1]));
    assert(trimmed(line) == line);
    lemma_number_word(stack, word);
    assert(line.skip(stack.len() as int + 1) =~= word);
    assert(line.take(stack.len() as int + 1) =~= stack.push(' '));
    if count >= 0 {
        lemma_no_dot(word, 0);
        assert(word.take(word.len() as int) =~= word);
    } else {
        assert(word[0] == '-');
        lemma_dot_from(word, 0);
        if is_number(word) {
            let dot = dot_from(word, 0);
            assert(is_digit(word.take(dot)[0]));
        }
    }
}

/// The words and the count of a line are found again in it, as long as no word holds
/// a semicolon.
pub proof fn law_stack_line_reads_back(words: Seq<Seq<char>>, count: nat)
    requires
        count <= u64::MAX,
        words.len() > 0,
        forall|i: int| 0 <= i < words.len() ==> !(#[trigger] words[i]).contains(';'),
    ensures
        last_number(stack_line(words, count as int)) matches Some((rest, number)) && number == count
            && split(rest.drop_last(), ';') == words,
{
    let stack = join(words, ';');
    law_line_count_reads_back(stack, count as int);
    law_joined_parts_split(words, ';');
    assert(stack.push(' ').drop_last() =~= stack);
}

/// Whether a line of the stack can be shown: it is not all white space, and does not read
/// as a comment.
pub open spec fn is_visible(stack: Seq<char>) -> bool {
    let text = trim_front(stack);
    text.len() > 0 && !is_comment(text.push(' '))
}

proof fn lemma_trim_front_keeps(s: Seq<char>, more: Seq<char>)
    ensures
        trim_front(s).len() > 0 ==> trim_front(s + more) == trim_front(s) + more,
        trim_front(s).len() == 0 ==> trim_front(s + more) == trim_front(more),
        trim_front(s).len() > 0 ==> !is_space(trim_front(s)[0]),
    decreases s.len(),
{
    if s.len() == 0 {
        assert(s + more =~= more);
    } else if is_space(s[0]) {
        lemma_trim_front_keeps(s.drop_first(), more);
        assert((s + more).drop_first() =~= s.drop_first() + more);
    }
}

/// A line counts what it was made with, if its stack can be shown and the count is
/// positive, and nothing otherwise.
pub proof fn law_line_counts(stack: Seq<char>, count: int)
    requires
        count <= u64::MAX,
    ensures
        line_count(stack.push(' ') + signed_decimal(count)) == (if is_visible(stack) && count > 0 {
            count
        } else {
            0
        }),
{
    let word = signed_decimal(count);
    let line = stack.push(' ') + word;
    let space = seq![' '] + word;
    assert(line =~= stack + space);
    lemma_trim_front_keeps(stack, space);
    let front = trim_front(stack);
    law_line_count_reads_back(stack, count);
    if front.len() > 0 {
        assert(front + space =~= front.push(' ') + word);
        law_line_count_reads_back(front, count);
        let text = trim(line);
        assert(text == front.push(' ') + word);
        assert(is_comment(text) == is_comment(front.push(' '))) by {
            assert(text[0] == front.push(' ')[0]);
            assert(text[1] == front.push(' ')[1]);
        }
    } else {
        law_decimal_reads_back((if count < 0 {
            -count
        } else {
            count
        }) as nat);
        lemma_word_alone(word, count);
    }
}

/// A number that stands alone is no count.
proof fn lemma_word_alone(word: Seq<char>, count: int)
    requires
        word == signed_decimal(count),
    ensures
        last_number(word) is None,
        trim_front(seq![' '] + word) == word,
        trimmed(word) == word,
{
    let n = (if count < 0 {
        -count
    } else {
        count
    }) as nat;
    law_decimal_reads_back(n);
    assert forall|i: int| 0 <= i < word.len() implies !is_space(#[trigger] word[i]) by {
        if count >= 0 {
            assert(is_digit(decimal(n)[i]));
        } else if i > 0 {
            assert(is_digit(decimal(n)[i - 1]));
        }
    }
    assert(word.len() > 0);
    assert(!is_space(word[0]));
    assert(trim_front(word) == word);
    let spaced = seq![' '] + word;
    assert(spaced[0] == ' ' && is_space(' '));
    assert(spaced.drop_first() =~= word);
    assert(word.last() == word[word.len() - 1]);
    lemma_no_space(word);
}

proof fn lemma_no_space(word: Seq<char>)
    requires
        forall|i: int| 0 <= i < word.len() ==> (#[trigger] word[i]) != ' ',
    ensures
        word_start(word) == 0,
    decreases word.len(),
{
    if word.len() > 0 {
        assert(word[word.len() - 1] != ' ');
        lemma_no_space(word.drop_last());
    }
}

/// The counts of a report's lines add up to no more than its samples, and to just those
/// where every stack that was seen can be shown.
pub proof fn law_lines_total(data: Seq<(FramesView, isize)>)
    ensures
        lines_total(report_lines(data)) <= positive_total(data),
        (forall|i: int|
            0 <= i < data.len() && (#[trigger] data[i]).1 > 0 ==> is_visible(
                join(data[i].0.words(), ';'),
            )) ==> lines_total(report_lines(data)) == positive_total(data),
    decreases data.len(),
{
    if data.len() > 0 {
        let shorter = data.drop_last();
        law_lines_total(shorter);
        assert(report_lines(data).drop_last() =~= report_lines(shorter));
        law_line_counts(join(data.last().0.words(), ';'), data.last().1 as int);
        if forall|i: int|
            0 <= i < data.len() && (#[trigger] data[i]).1 > 0 ==> is_visible(
                join(data[i].0.words(), ';'),
            ) {
            assert(data[data.len() - 1] == data.last());
            assert forall|i: int|
                0 <= i < shorter.len() && (#[trigger] shorter[i]).1 > 0 implies is_visible(
                join(shorter[i].0.words(), ';'),
            ) by {
                assert(data[i] == shorter[i]);
            }
        }
    }
}

/// Lines, each with an end of line behind it.
pub open spec fn lines_text(lines: Seq<Seq<char>>) -> Seq<char>
    decreases lines.len(),
{
    if lines.len() == 0 {
        Seq::empty()
    } else {
        lines_text(lines.drop_last()) + lines.last().push('\n')
    }
}

/// The lines of the stacks that were seen are the folded stacks, line by line; where every
/// stack was seen, these are all that a flame graph is drawn from.
pub proof fn law_drawn_from_folded(data: Seq<(FramesView, isize)>)
    ensures
        lines_text(report_lines(data.filter(was_seen()))) == folded(weighted(data)),
        (forall|i: int| 0 <= i < data.len() ==> (#[trigger] data[i]).1 > 0) ==> lines_text(
            report_lines(data),
        ) == folded(weighted(data)),
    decreases data.len(),
{
    reveal(Seq::filter);
    if data.len() > 0 {
        let shorter = data.drop_last();
        let lines = report_lines(data.filter(was_seen()));
        law_drawn_from_folded(shorter);
        if data.last().1 > 0 {
            let seen = shorter.filter(was_seen());
            assert(data.filter(was_seen()) =~= seen.push(data.last()));
            assert(lines.drop_last() =~= report_lines(seen));
            assert(weighted(data).drop_last() =~= weighted(shorter));
        }
        if forall|i: int| 0 <= i < data.len() ==> (#[trigger] data[i]).1 > 0 {
            assert forall|i: int| 0 <= i < shorter.len() implies (#[trigger] shorter[i]).1 > 0 by {
                assert(data[i].1 > 0);
            }
            assert(data[data.len() - 1].1 > 0);
            assert(report_lines(data).drop_last() =~= report_lines(shorter));
        }
    } else {
        assert(report_lines(data.filter(was_seen())) =~= Seq::empty());
    }
}

} // verus!
