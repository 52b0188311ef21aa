//! Laws of what is appended to a text: lines of stacks, and the parts of a JSON document.

use vstd::prelude::*;

use crate::folded::{folded, push_folded, push_stack_line, stack_line, weighted_view, WeightedStack};
use crate::frames::same_addresses;
use crate::json::{
    push_key, push_number_member, push_numbers, push_text, push_text_member, read_value, render,
    Json,
};
use crate::text::{decimal, texts};

use super::documents::{json_char, lemma_escaped};
use super::numbers::lemma_join;

verus! {

/// The words of a stack with semicolons between them, and a number behind a space.
pub open spec fn words_line(words: Seq<String>, count: int) -> Seq<char> {
    (if words.len() == 0 {
        Seq::<char>::empty()
    } else {
        words[0]@ + words.skip(1).map_values(|w: String| seq![';'] + w@).flatten()
    }) + seq![' '] + (if count < 0 {
        seq!['-'] + decimal((-count) as nat)
    } else {
        decimal(count as nat)
    })
}

proof fn lemma_words_line(words: Seq<String>, count: int)
    ensures
        stack_line(texts(words), count) == words_line(words, count),
{
    lemma_join(texts(words), ';');
    if words.len() > 0 {
        let each = |w: String| seq![';'] + w@;
        let of = |w: Seq<char>| seq![';'] + w;
        assert(words.skip(1).map_values(each) =~= texts(words).skip(1).map_values(of));
    }
    assert(stack_line(texts(words), count) =~= words_line(words, count));
}

/// A stack and its count are appended in one line, and folded stacks each in a line of their
/// own.
pub proof fn law_lines_appended(
    words: &Vec<String>,
    count: i64,
    a: &mut String,
    stacks: &Vec<WeightedStack>,
    b: &mut String,
)
    requires
        call_ensures(push_stack_line, (a, words, count), ()),
        call_ensures(push_folded, (b, stacks), ()),
        forall|i: int| 0 <= i < stacks@.len() ==> (#[trigger] stacks@[i]).weight <= isize::MAX,
    ensures
        final(a)@ == old(a)@ + words_line(words@, count as int),
        final(b)@ == old(b)@ + stacks@.map_values(
            |s: WeightedStack| words_line(s.words@, s.weight as int) + seq!['\n'],
        ).flatten(),
{
    lemma_words_line(words@, count as int);
    lemma_folded_lines(stacks@);
}

proof fn lemma_folded_lines(stacks: Seq<WeightedStack>)
    ensures
        folded(weighted_view(stacks)) == stacks.map_values(
            |s: WeightedStack| words_line(s.words@, s.weight as int) + seq!['\n'],
        ).flatten(),
    decreases stacks.len(),
{
    let each = |s: WeightedStack| words_line(s.words@, s.weight as int) + seq!['\n'];
    if stacks.len() > 0 {
        let shorter = stacks.drop_last();
        let last = stacks.last();
        lemma_folded_lines(shorter);
        lemma_words_line(last.words@, last.weight as int);
        assert(weighted_view(stacks).drop_last() =~= weighted_view(shorter));
        assert(stacks.map_values(each) =~= shorter.map_values(each).push(each(last)));
        shorter.map_values(each).lemma_flatten_push(each(last));
        assert(words_line(last.words@, last.weight as int).push('\n') =~= each(last));
    } else {
        assert(stacks.map_values(each).flatten() =~= Seq::empty());
    }
}

/// A text in quotes, escaped character by character.
pub open spec fn in_quotes(s: Seq<char>) -> Seq<char> {
    seq!['"'] + s.map_values(|c: char| json_char(c)).flatten() + seq!['"']
}

/// What stands before a member that is not the first.
pub open spec fn comma_unless(first: bool) -> Seq<char> {
    if first {
        Seq::<char>::empty()
    } else {
        seq![',']
    }
}

/// A string is appended in quotes; a member as its name, a colon and its value, behind a
/// comma unless it is the first.
pub proof fn law_members_appended(
    key: &str,
    first: bool,
    text: &str,
    n: u64,
    a: &mut String,
    b: &mut String,
    c: &mut String,
    d: &mut String,
)
    requires
        call_ensures(push_text, (a, text), ()),
        call_ensures(push_key, (b, first, key), ()),
        call_ensures(push_text_member, (c, first, key, text), ()),
        call_ensures(push_number_member, (d, first, key, n), ()),
    ensures
        final(a)@ == old(a)@ + in_quotes(text@),
        final(b)@ == old(b)@ + comma_unless(first) + in_quotes(key@) + seq![':'],
        final(c)@ == old(c)@ + comma_unless(first) + in_quotes(key@) + seq![':'] + in_quotes(text@),
        final(d)@ == old(d)@ + comma_unless(first) + in_quotes(key@) + seq![':'] + decimal(
            n as nat,
        ),
{
    lemma_escaped(text@);
    lemma_escaped(key@);
    assert(final(b)@ =~= old(b)@ + comma_unless(first) + in_quotes(key@) + seq![':']);
    assert(final(c)@ =~= old(c)@ + comma_unless(first) + in_quotes(key@) + seq![':'] + in_quotes(
        text@,
    ));
    assert(final(d)@ =~= old(d)@ + comma_unless(first) + in_quotes(key@) + seq![':'] + decimal(
        n as nat,
    ));
}

/// Numbers are appended as a list, each in full, and read back as they were.
pub proof fn law_number_list_appended(list: &Vec<usize>, out: &mut String)
    requires
        call_ensures(push_numbers, (out, list), ()),
    ensures
        final(out)@ == old(out)@ + render(
            Json::List(list@.map_values(|n: usize| Json::Number(n as nat))),
        ),
        final(out)@.skip(old(out)@.len() as int) == seq!['['] + (if list@.len() == 0 {
            Seq::<char>::empty()
        } else {
            decimal(list@[0] as nat) + list@.skip(1).map_values(
                |n: usize| seq![','] + decimal(n as nat),
            ).flatten()
        }) + seq![']'],
        read_value(final(out)@.skip(old(out)@.len() as int)) matches Some(
            (Json::List(items), rest),
        ) && {
            &&& rest.len() == 0
            &&& items.len() == list@.len()
            &&& forall|i: int|
                0 <= i < list@.len() ==> #[trigger] items[i] == Json::Number(list@[i] as nat)
        },
{
    let items = list@.map_values(|n: usize| Json::Number(n as nat));
    assert(crate::json::numbers(list@)->List_0 =~= items);
    let text = render(Json::List(items));
    crate::json::law_value_reads_back(Json::List(items), Seq::empty());
    assert(text + Seq::<char>::empty() =~= text);
    assert(final(out)@.skip(old(out)@.len() as int) =~= text);
    let parts = crate::json::render_items(items);
    lemma_number_items(list@);
    lemma_join(parts, ',');
    if list@.len() > 0 {
        let each = |n: usize| seq![','] + decimal(n as nat);
        let of = |p: Seq<char>| seq![','] + p;
        assert(parts.skip(1).map_values(of) =~= list@.skip(1).map_values(each));
    }
}

proof fn lemma_number_items(list: Seq<usize>)
    ensures
        crate::json::render_items(list.map_values(|n: usize| Json::Number(n as nat)))
            == list.map_values(|n: usize| decimal(n as nat)),
    decreases list.len(),
{
    let items = list.map_values(|n: usize| Json::Number(n as nat));
    let parts = list.map_values(|n: usize| decimal(n as nat));
    if list.len() > 0 {
        let shorter = list.drop_last();
        lemma_number_items(shorter);
        assert(items.drop_last() =~= shorter.map_values(|n: usize| Json::Number(n as nat)));
        assert(parts =~= shorter.map_values(|n: usize| decimal(n as nat)).push(parts.last()));
        assert(items.last() == Json::Number(list.last() as nat));
        assert(render(items.last()) == parts.last());
    }
    assert(crate::json::render_items(items) =~= parts);
}

/// Two lists of addresses are the same where they are as long and equal throughout.
pub proof fn law_addresses_same(a: &Vec<usize>, b: &Vec<usize>, r: bool)
    requires
        call_ensures(same_addresses, (a, b), r),
    ensures
        r <==> a@.len() == b@.len() && forall|i: int|
            0 <= i < a@.len() ==> #[trigger] a@[i] == b@[i],
{
    if a@.len() == b@.len() && forall|i: int| 0 <= i < a@.len() ==> #[trigger] a@[i] == b@[i] {
        assert(a@ =~= b@);
    }
}

} // verus!
