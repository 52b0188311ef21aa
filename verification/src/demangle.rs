//! Showing the names of a binary as they were written in the source.

use vstd::prelude::*;

use crate::text::{
    all_digits, chars_of, decimal, digit, digit_char, is_digit, law_decimal_reads_back,
    push_decimal,
};

verus! {

/// Whether `Z` stands behind `n` underscores.
pub open spec fn z_behind(text: Seq<char>, n: int) -> bool {
    &&& n < text.len()
    &&& text[n] == 'Z'
    &&& forall|k: int| 0 <= k < n ==> #[trigger] text[k] == '_'
}

/// Whether the text begins as a C++ name does: one to four underscores, then `Z`.
pub open spec fn is_cpp_name(text: Seq<char>) -> bool {
    z_behind(text, 1) || z_behind(text, 2) || z_behind(text, 3) || z_behind(text, 4)
}

/// Whether the text at `i` reads as a template parameter of the given number: a `T`, the
/// number, and no further digit.
pub open spec fn param_at(text: Seq<char>, i: int, number: Seq<char>) -> bool {
    let end = i + 1 + number.len();
    &&& 0 <= i
    &&& end <= text.len()
    &&& text[i] == 'T'
    &&& text.subrange(i + 1, end) == number
    &&& end < text.len() ==> !is_digit(text[end])
}

/// Whether some part of the text reads as a template parameter of the given number.
pub open spec fn has_param(text: Seq<char>, number: Seq<char>) -> bool {
    exists|i: int| param_at(text, i, number)
}

/// The largest number of a template parameter that can be told.
pub open spec fn largest() -> Seq<char> {
    decimal(isize::MAX as nat)
}

/// The text with another first digit in all that reads as a template parameter of the
/// given number.
pub open spec fn swapped(text: Seq<char>, number: Seq<char>, first: char) -> Seq<char> {
    Seq::new(
        text.len(),
        |k: int|
            if param_at(text, k - 1, number) {
                first
            } else {
                text[k]
            },
    )
}

/// A digit other than 1 and the first of the largest number: 2 where that is 9.
pub open spec fn other_digit() -> char {
    if largest()[0] == '2' {
        '0'
    } else {
        '2'
    }
}

/// The text `a`, with `c` wherever `b` has another character.
pub open spec fn where_unlike(a: Seq<char>, b: Seq<char>, c: char) -> Seq<char> {
    Seq::new(
        a.len(),
        |k: int|
            if a[k] != b[k] {
                c
            } else {
                a[k]
            },
    )
}

/// Whether the name must not be demangled as it stands: a C++ name in which something
/// reads as a template parameter of the largest number, whose successor would overflow.
pub open spec fn at_the_edge(text: Seq<char>) -> bool {
    is_cpp_name(text) && has_param(text, largest())
}

/// The text that `symbolic_demangle::demangle` gives for an identifier.
pub uninterp spec fn demangled(ident: Seq<char>) -> Seq<char>;

/// Calls `symbolic_demangle::demangle`: the text is fixed by the identifier. Left out is a
/// C++ name in which something reads as a template parameter of the largest number: where
/// it is one, its successor would overflow.
#[verifier::external_body]
fn demangle(ident: &str) -> (r: String)
    requires
        !at_the_edge(ident@),
    ensures
        r@ == demangled(ident@),
{
    symbolic_demangle::demangle(ident).into_owned()
}

/// The name to show for a name of the binary: demangled. What reads as a template parameter
/// of the largest number is mostly part of an identifier, which is shown letter by letter.
/// So such a name is demangled with another first digit there, and with a third one: where
/// the two are unlike, the digit itself is shown. A name whose length hangs on the digit is
/// shown as it stands.
pub open spec fn shown(text: Seq<char>) -> Seq<char> {
    if at_the_edge(text) {
        let a = demangled(swapped(text, largest(), '1'));
        let b = demangled(swapped(text, largest(), other_digit()));
        if a.len() == b.len() {
            where_unlike(a, b, largest()[0])
        } else {
            text
        }
    } else {
        demangled(text)
    }
}

/// Whether the text begins as a C++ name does.
fn cpp_name(chars: &Vec<char>) -> (r: bool)
    ensures
        r == is_cpp_name(chars@),
{
    let mut n: usize = 0;
    while n < chars.len() && n < 4 && chars[n] == '_'
        invariant
            n <= 4,
            n <= chars@.len(),
            forall|k: int| 0 <= k < n ==> #[trigger] chars@[k] == '_',
        decreases chars@.len() - n,
    {
        n += 1;
    }
    let r = 1 <= n && n < chars.len() && chars[n] == 'Z';
    proof {
        if r {
            assert(z_behind(chars@, n as int));
        }
        assert forall|m: int| 1 <= m <= 4 && z_behind(chars@, m) implies r by {
            if m > n {
                assert(chars@[n as int] == '_');
            }
        }
    }
    r
}

/// Whether the text at `i` reads as a template parameter of the given number.
fn reads_as_param(chars: &Vec<char>, number: &Vec<char>, i: usize) -> (r: bool)
    requires
        i < chars@.len(),
    ensures
        r == param_at(chars@, i as int, number@),
{
    if chars[i] != 'T' || number.len() > chars.len() - 1 - i {
        return false;
    }
    let mut k: usize = 0;
    while k < number.len()
        invariant
            i < chars@.len(),
            number@.len() <= chars@.len() - 1 - i,
            k <= number@.len(),
            forall|x: int| 0 <= x < k ==> chars@[i + 1 + x] == #[trigger] number@[x],
        decreases number@.len() - k,
    {
        assert(i + 1 + k < chars.len());
        if chars[i + 1 + k] != number[k] {
            proof {
                let part = chars@.subrange(i + 1, i + 1 + number@.len());
                assert(part[k as int] != number@[k as int]);
            }
            return false;
        }
        k += 1;
    }
    assert(chars@.subrange(i + 1, i + 1 + number@.len()) =~= number@);
    let end: usize = i + 1 + number.len();
    if end < chars.len() {
        !digit(chars[end])
    } else {
        true
    }
}

/// Whether some part of the text reads as a template parameter of the given number.
fn holds_param(chars: &Vec<char>, number: &Vec<char>) -> (r: bool)
    ensures
        r == has_param(chars@, number@),
{
    let mut i: usize = 0;
    while i < chars.len()
        invariant
            i <= chars@.len(),
            forall|k: int| 0 <= k < i ==> !#[trigger] param_at(chars@, k, number@),
        decreases chars@.len() - i,
    {
        if reads_as_param(chars, number, i) {
            assert(param_at(chars@, i as int, number@));
            return true;
        }
        i += 1;
    }
    assert forall|k: int| !#[trigger] param_at(chars@, k, number@) by {}
    false
}

/// The text with another first digit in all that reads as a template parameter of the
/// given number.
fn swap_first(chars: &Vec<char>, number: &Vec<char>, first: char) -> (r: String)
    ensures
        r@ == swapped(chars@, number@, first),
{
    let mut r = String::new();
    let mut k: usize = 0;
    while k < chars.len()
        invariant
            k <= chars@.len(),
            r@ == swapped(chars@, number@, first).take(k as int),
        decreases chars@.len() - k,
    {
        if k > 0 && reads_as_param(chars, number, k - 1) {
            r.push(first);
        } else {
            r.push(chars[k]);
        }
        assert(r@ =~= swapped(chars@, number@, first).take(k + 1));
        k += 1;
    }
    assert(r@ =~= swapped(chars@, number@, first));
    r
}

/// The text `a`, with `c` wherever `b` has another character.
fn mark_unlike(a: &Vec<char>, b: &Vec<char>, c: char) -> (r: String)
    requires
        a@.len() == b@.len(),
    ensures
        r@ == where_unlike(a@, b@, c),
{
    let mut r = String::new();
    let mut k: usize = 0;
    while k < a.len()
        invariant
            a@.len() == b@.len(),
            k <= a@.len(),
            r@ == where_unlike(a@, b@, c).take(k as int),
        decreases a@.len() - k,
    {
        if a[k] != b[k] {
            r.push(c);
        } else {
            r.push(a[k]);
        }
        assert(r@ =~= where_unlike(a@, b@, c).take(k + 1));
        k += 1;
    }
    assert(r@ =~= where_unlike(a@, b@, c));
    r
}

/// The name to show for a name of the binary.
pub fn show(text: &String) -> (r: String)
    ensures
        r@ == shown(text@),
{
    let mut digits = String::new();
    push_decimal(&mut digits, isize::MAX as u64);
    assert(digits@ =~= largest());
    let number = chars_of(&digits);
    let chars = chars_of(text);
    proof {
        law_decimal_reads_back(isize::MAX as nat);
        law_swap_undone(text@);
    }
    if !cpp_name(&chars) || !holds_param(&chars, &number) {
        return demangle(text.as_str());
    }
    let other: char = if number[0] == '2' {
        '0'
    } else {
        '2'
    };
    let a = chars_of(&demangle(swap_first(&chars, &number, '1').as_str()));
    let b = chars_of(&demangle(swap_first(&chars, &number, other).as_str()));
    if a.len() == b.len() {
        mark_unlike(&a, &b, number[0])
    } else {
        text.clone()
    }
}

/// The first digit of a number.
spec fn leading(n: nat) -> nat
    decreases n,
{
    if n < 10 {
        n
    } else {
        leading(n / 10)
    }
}

proof fn lemma_leading(n: nat)
    ensures
        decimal(n)[0] == digit_char(leading(n)),
    decreases n,
{
    if n >= 10 {
        lemma_leading(n / 10);
        law_decimal_reads_back(n / 10);
    }
}

/// The largest number does not begin with 1.
proof fn lemma_largest()
    ensures
        largest()[0] != '1',
{
    lemma_leading(isize::MAX as nat);
    reveal_with_fuel(leading, 20);
    assert(isize::MAX == 0x7fff_ffff || isize::MAX == 0x7fff_ffff_ffff_ffff);
    assert(leading(0x7fff_ffff) == 2);
    assert(leading(0x7fff_ffff_ffff_ffff) == 9);
}

proof fn lemma_swapped(text: Seq<char>, number: Seq<char>, first: char, i: int)
    requires
        number.len() > 0,
        all_digits(number),
        is_digit(first),
        first != number[0],
    ensures
        !param_at(swapped(text, number, first), i, number),
{
    let s = swapped(text, number, first);
    let end = i + 1 + number.len();
    if param_at(s, i, number) {
        let before = text.subrange(i + 1, end);
        let after = s.subrange(i + 1, end);
        assert forall|k: int|
            #![trigger text[k]]
            0 <= k < text.len() && param_at(text, k - 1, number) implies text[k - 1] == 'T'
            && is_digit(text[k]) by {
            assert(text.subrange(k, k + number.len())[0] == text[k]);
            assert(is_digit(number[0]));
        }
        assert(text[i] == 'T');
        assert forall|x: int| 0 <= x < number.len() implies #[trigger] before[x] == after[x] by {
            assert(after[x] == s[i + 1 + x]);
            assert(before[x] == text[i + 1 + x]);
            if x > 0 {
                assert(after[x - 1] == s[i + x]);
                assert(is_digit(number[x - 1]));
            }
        }
        assert(before =~= number);
        assert(is_digit(number[number.len() - 1]));
        assert(after[number.len() - 1] == s[end - 1]);
        if end < text.len() {
            assert(s[end] == text[end]);
        }
        assert(param_at(text, i, number));
        assert(after[0] == s[i + 1]);
    }
}

/// With another first digit, nothing is left that reads as a template parameter of the
/// largest number; and the text is found again from two that have different ones.
pub proof fn law_swap_undone(text: Seq<char>)
    ensures
        !has_param(swapped(text, largest(), '1'), largest()),
        !has_param(swapped(text, largest(), other_digit()), largest()),
        where_unlike(
            swapped(text, largest(), '1'),
            swapped(text, largest(), other_digit()),
            largest()[0],
        ) == text,
{
    let number = largest();
    let a = swapped(text, number, '1');
    let b = swapped(text, number, other_digit());
    law_decimal_reads_back(isize::MAX as nat);
    lemma_largest();
    assert forall|i: int| !#[trigger] param_at(a, i, number) by {
        lemma_swapped(text, number, '1', i);
    }
    assert forall|i: int| !#[trigger] param_at(b, i, number) by {
        lemma_swapped(text, number, other_digit(), i);
    }
    assert forall|k: int| 0 <= k < text.len() implies #[trigger] where_unlike(
        a,
        b,
        number[0],
    )[k] == text[k] by {
        if param_at(text, k - 1, number) {
            assert(text.subrange(k, k + number.len())[0] == text[k]);
        }
    }
    assert(where_unlike(a, b, number[0]) =~= text);
}

} // verus!
