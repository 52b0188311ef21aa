//! JSON: values, their text, and what a text stands for.

use vstd::prelude::*;

use crate::text::{
    all_digits, decimal, digits_value, is_digit, join, law_decimal_reads_back, push_decimal,
};

verus! {

/// A JSON value, as far as the documents of this library need it.
pub enum Json {
    Text(Seq<char>),
    Number(nat),
    List(Seq<Json>),
    Object(Seq<Member>),
}

/// A member of a JSON object.
pub struct Member {
    pub key: Seq<char>,
    pub value: Json,
}

/// The character of a hexadecimal digit, in lower case.
pub open spec fn hex_char(d: nat) -> char {
    if d < 10 {
        (48 + d) as char
    } else {
        (87 + d) as char
    }
}

/// One character inside a JSON string.
pub open spec fn escape_char(c: char) -> Seq<char> {
    if c == '"' {
        seq!['\\', '"']
    } else if c == '\\' {
        seq!['\\', '\\']
    } else if c == '\n' {
        seq!['\\', 'n']
    } else if c == '\r' {
        seq!['\\', 'r']
    } else if c == '\t' {
        seq!['\\', 't']
    } else if (c as u32) < 0x20 {
        seq!['\\', 'u', '0', '0', hex_char(c as nat / 16), hex_char(c as nat % 16)]
    } else {
        seq![c]
    }
}

/// A text inside a JSON string.
pub open spec fn escaped(s: Seq<char>) -> Seq<char>
    decreases s.len(),
{
    if s.len() == 0 {
        Seq::empty()
    } else {
        escaped(s.drop_last()) + escape_char(s.last())
    }
}

fn push_hex(out: &mut String, d: u8)
    requires
        d < 16,
    ensures
        final(out)@ == old(out)@.push(hex_char(d as nat)),
{
    if d < 10 {
        out.push((48 + d) as char);
    } else {
        out.push((87 + d) as char);
    }
}

/// Appends one character of a JSON string.
fn push_escaped_char(out: &mut String, c: char)
    ensures
        final(out)@ == old(out)@ + escape_char(c),
{
    if c == '"' {
        out.push('\\');
        out.push('"');
    } else if c == '\\' {
        out.push('\\');
        out.push('\\');
    } else if c == '\n' {
        out.push('\\');
        out.push('n');
    } else if c == '\r' {
        out.push('\\');
        out.push('r');
    } else if c == '\t' {
        out.push('\\');
        out.push('t');
    } else if (c as u32) < 0x20 {
        let code: u8 = (c as u32) as u8;
        out.push('\\');
        out.push('u');
        out.push('0');
        out.push('0');
        push_hex(out, code / 16);
        push_hex(out, code % 16);
    } else {
        out.push(c);
    }
    assert(out@ =~= old(out)@ + escape_char(c));
}

/// Appends a text, escaped for a JSON string.
pub fn push_escaped(out: &mut String, s: &str)
    ensures
        final(out)@ == old(out)@ + escaped(s@),
{
    let ghost start = out@;
    assert(out@ =~= start + escaped(s@.take(0)));
    for c in it: s.chars()
        invariant
            it.seq() == s@,
            out@ == start + escaped(s@.take(it.index() as int)),
    {
        push_escaped_char(out, c);
        proof {
            let i = it.index() as int;
            assert(s@.take(i + 1).drop_last() =~= s@.take(i));
            assert(out@ =~= start + escaped(s@.take(i + 1)));
        }
    }
    assert(s@.take(s@.len() as int) =~= s@);
}

/// The text of a string.
pub open spec fn quoted(s: Seq<char>) -> Seq<char> {
    seq!['"'] + escaped(s) + seq!['"']
}

/// The text of a value, without white space.
pub open spec fn render(v: Json) -> Seq<char>
    decreases v,
{
    match v {
        Json::Text(s) => quoted(s),
        Json::Number(n) => decimal(n),
        Json::List(items) => seq!['['] + join(render_items(items), ',') + seq![']'],
        Json::Object(members) => seq!['{'] + join(render_members(members), ',') + seq!['}'],
    }
}

/// The texts of several values.
pub open spec fn render_items(items: Seq<Json>) -> Seq<Seq<char>>
    decreases items,
{
    if items.len() == 0 {
        Seq::empty()
    } else {
        render_items(items.drop_last()).push(render(items.last()))
    }
}

/// The texts of several members.
pub open spec fn render_members(members: Seq<Member>) -> Seq<Seq<char>>
    decreases members,
{
    if members.len() == 0 {
        Seq::empty()
    } else {
        render_members(members.drop_last()).push(
            quoted(members.last().key).push(':') + render(members.last().value),
        )
    }
}

/// The text of one member.
pub open spec fn member_text(m: Member) -> Seq<char> {
    quoted(m.key).push(':') + render(m.value)
}

/// The text of an object so far, without its closing brace.
pub open spec fn open_object(members: Seq<Member>) -> Seq<char> {
    seq!['{'] + join(render_members(members), ',')
}

/// The text of a list so far, without its closing bracket.
pub open spec fn open_list(items: Seq<Json>) -> Seq<char> {
    seq!['['] + join(render_items(items), ',')
}

/// What stands before all but the first of several texts.
pub open spec fn comma(first: bool) -> Seq<char> {
    if first {
        Seq::empty()
    } else {
        seq![',']
    }
}

/// One more member of an object.
pub proof fn lemma_next_member(start: Seq<char>, members: Seq<Member>, m: Member)
    ensures
        (start + open_object(members)) + (comma(members.len() == 0) + member_text(m)) == start
            + open_object(members.push(m)),
{
    let more = members.push(m);
    assert(more.drop_last() =~= members);
    let parts = render_members(members);
    lemma_render_members(members);
    assert(render_members(more) == parts.push(member_text(m)));
    assert(parts.push(member_text(m)).drop_last() =~= parts);
    assert((start + open_object(members)) + (comma(members.len() == 0) + member_text(m)) =~= start
        + open_object(more));
}

/// One more value of a list.
pub proof fn lemma_next_item(start: Seq<char>, items: Seq<Json>, v: Json)
    ensures
        (start + open_list(items)) + (comma(items.len() == 0) + render(v)) == start + open_list(
            items.push(v),
        ),
{
    let more = items.push(v);
    assert(more.drop_last() =~= items);
    let parts = render_items(items);
    lemma_render_items(items);
    assert(render_items(more) == parts.push(render(v)));
    assert(parts.push(render(v)).drop_last() =~= parts);
    assert((start + open_list(items)) + (comma(items.len() == 0) + render(v)) =~= start
        + open_list(more));
}

/// Appends the name of a member, with a comma before it unless it is the first.
pub fn push_key(out: &mut String, first: bool, key: &str)
    ensures
        final(out)@ == old(out)@ + (comma(first) + quoted(key@).push(':')),
{
    if !first {
        out.push(',');
    }
    push_text(out, key);
    out.push(':');
    assert(out@ =~= old(out)@ + (comma(first) + quoted(key@).push(':')));
}

/// Appends a member that is a string.
pub fn push_text_member(out: &mut String, first: bool, key: &str, value: &str)
    ensures
        final(out)@ == old(out)@ + (comma(first) + member_text(
            Member { key: key@, value: Json::Text(value@) },
        )),
{
    push_key(out, first, key);
    push_text(out, value);
    assert(out@ =~= old(out)@ + (comma(first) + member_text(
        Member { key: key@, value: Json::Text(value@) },
    )));
}

/// Appends a member that is a number.
pub fn push_number_member(out: &mut String, first: bool, key: &str, value: u64)
    ensures
        final(out)@ == old(out)@ + (comma(first) + member_text(
            Member { key: key@, value: Json::Number(value as nat) },
        )),
{
    push_key(out, first, key);
    push_decimal(out, value);
    assert(out@ =~= old(out)@ + (comma(first) + member_text(
        Member { key: key@, value: Json::Number(value as nat) },
    )));
}

/// Numbers as a list.
pub open spec fn numbers(list: Seq<usize>) -> Json {
    Json::List(Seq::new(list.len(), |i: int| Json::Number(list[i] as nat)))
}

/// Appends numbers as a list.
pub fn push_numbers(out: &mut String, list: &Vec<usize>)
    ensures
        final(out)@ == old(out)@ + render(numbers(list@)),
{
    let ghost start = out@;
    let ghost all = Seq::new(list@.len(), |i: int| Json::Number(list@[i] as nat));
    out.push('[');
    let mut i: usize = 0;
    assert(out@ =~= start + open_list(all.take(0)));
    while i < list.len()
        invariant
            i <= list@.len(),
            all == Seq::new(list@.len(), |i: int| Json::Number(list@[i] as nat)),
            out@ == start + open_list(all.take(i as int)),
        decreases list@.len() - i,
    {
        let ghost before = out@;
        if i > 0 {
            out.push(',');
        }
        push_decimal(out, list[i] as u64);
        proof {
            let item = Json::Number(list@[i as int] as nat);
            assert(out@ =~= before + (comma(i == 0) + render(item)));
            lemma_next_item(start, all.take(i as int), item);
            assert(all.take(i + 1) =~= all.take(i as int).push(item));
        }
        i += 1;
    }
    out.push(']');
    assert(all.take(i as int) =~= all);
    assert(out@ =~= start + render(Json::List(all)));
}

/// Appends the text of a string.
pub fn push_text(out: &mut String, s: &str)
    ensures
        final(out)@ == old(out)@ + quoted(s@),
{
    out.push('"');
    push_escaped(out, s);
    out.push('"');
    assert(out@ =~= old(out)@ + quoted(s@));
}

/// The value of a hexadecimal digit in lower case.
pub open spec fn hex_value(c: char) -> nat {
    if is_digit(c) {
        (c as int - 48) as nat
    } else {
        (c as int - 87) as nat
    }
}

/// Whether `c` is a hexadecimal digit in lower case.
pub open spec fn is_hex(c: char) -> bool {
    is_digit(c) || 'a' <= c <= 'f'
}

/// What a string stands for, from behind its opening quote, and the text behind its closing
/// quote; `None` where there is no such string: it does not end, or it holds a control
/// character or an escape that JSON lacks.
pub open spec fn read_text(t: Seq<char>) -> Option<(Seq<char>, Seq<char>)>
    decreases t.len(),
{
    if t.len() == 0 || (t[0] as u32) < 0x20 {
        None
    } else if t[0] == '"' {
        Some((Seq::empty(), t.skip(1)))
    } else if t[0] != '\\' {
        match read_text(t.skip(1)) {
            Some((text, rest)) => Some((seq![t[0]] + text, rest)),
            None => None,
        }
    } else if t.len() >= 6 && t[1] == 'u' {
        let code = ((hex_value(t[2]) * 16 + hex_value(t[3])) * 16 + hex_value(t[4])) * 16
            + hex_value(t[5]);
        match read_text(t.skip(6)) {
            Some((text, rest)) => if is_hex(t[2]) && is_hex(t[3]) && is_hex(t[4]) && is_hex(t[5])
                && code < 0xd800 {
                Some((seq![code as char] + text, rest))
            } else {
                None
            },
            None => None,
        }
    } else if t.len() >= 2 {
        let c = if t[1] == 'n' {
            Some('\n')
        } else if t[1] == 'r' {
            Some('\r')
        } else if t[1] == 't' {
            Some('\t')
        } else if t[1] == '"' || t[1] == '\\' {
            Some(t[1])
        } else {
            None
        };
        match (c, read_text(t.skip(2))) {
            (Some(c), Some((text, rest))) => Some((seq![c] + text, rest)),
            _ => None,
        }
    } else {
        None
    }
}

/// The number of digits that a text starts with.
pub open spec fn digits_ahead(t: Seq<char>) -> int
    decreases t.len(),
{
    if t.len() > 0 && is_digit(t[0]) {
        1 + digits_ahead(t.drop_first())
    } else {
        0
    }
}

/// The value that a text starts with, and the text behind it; `None` where it starts with
/// no such value.
pub open spec fn read_value(t: Seq<char>) -> Option<(Json, Seq<char>)>
    decreases t.len(), 0nat,
{
    if t.len() == 0 {
        None
    } else if t[0] == '"' {
        match read_text(t.skip(1)) {
            Some((text, rest)) => Some((Json::Text(text), rest)),
            None => None,
        }
    } else if t[0] == '[' {
        if t.len() >= 2 && t[1] == ']' {
            Some((Json::List(Seq::empty()), t.skip(2)))
        } else {
            match read_items(t.skip(1)) {
                Some((items, rest)) => Some((Json::List(items), rest)),
                None => None,
            }
        }
    } else if t[0] == '{' {
        if t.len() >= 2 && t[1] == '}' {
            Some((Json::Object(Seq::empty()), t.skip(2)))
        } else {
            match read_members(t.skip(1)) {
                Some((members, rest)) => Some((Json::Object(members), rest)),
                None => None,
            }
        }
    } else {
        let n = digits_ahead(t);
        if n == 0 || (n > 1 && t[0] == '0') {
            None
        } else {
            Some((Json::Number(digits_value(t.take(n))), t.skip(n)))
        }
    }
}

/// The values of a list, up to its closing bracket.
pub open spec fn read_items(t: Seq<char>) -> Option<(Seq<Json>, Seq<char>)>
    decreases t.len(), 1nat,
{
    match read_value(t) {
        Some((value, rest)) => if 0 < rest.len() < t.len() && rest[0] == ']' {
            Some((seq![value], rest.skip(1)))
        } else if 0 < rest.len() < t.len() && rest[0] == ',' {
            match read_items(rest.skip(1)) {
                Some((values, behind)) => Some((seq![value] + values, behind)),
                None => None,
            }
        } else {
            None
        },
        None => None,
    }
}

/// The members of an object, up to its closing brace.
pub open spec fn read_members(t: Seq<char>) -> Option<(Seq<Member>, Seq<char>)>
    decreases t.len(), 1nat,
{
    if t.len() == 0 || t[0] != '"' {
        None
    } else {
        match read_text(t.skip(1)) {
            Some((key, at)) => if 0 < at.len() < t.len() && at[0] == ':' {
                match read_value(at.skip(1)) {
                    Some((value, rest)) => if 0 < rest.len() < t.len() && rest[0] == '}' {
                        Some((seq![Member { key, value }], rest.skip(1)))
                    } else if 0 < rest.len() < t.len() && rest[0] == ',' {
                        match read_members(rest.skip(1)) {
                            Some((members, behind)) => Some(
                                (seq![Member { key, value }] + members, behind),
                            ),
                            None => None,
                        }
                    } else {
                        None
                    },
                    None => None,
                }
            } else {
                None
            },
            None => None,
        }
    }
}

proof fn lemma_escaped_first(s: Seq<char>)
    requires
        s.len() > 0,
    ensures
        escaped(s) == escape_char(s[0]) + escaped(s.drop_first()),
    decreases s.len(),
{
    if s.len() == 1 {
        assert(s.drop_last() =~= Seq::empty());
        assert(s.drop_first() =~= Seq::empty());
        assert(escaped(s) =~= escape_char(s[0]) + escaped(s.drop_first()));
    } else {
        lemma_escaped_first(s.drop_last());
        assert(s.drop_last().drop_first() =~= s.drop_first().drop_last());
        assert(escaped(s) =~= escape_char(s[0]) + escaped(s.drop_first()));
    }
}

proof fn lemma_read_char(c: char, t: Seq<char>)
    ensures
        read_text(escape_char(c) + t) == (match read_text(t) {
            Some((text, rest)) => Some((seq![c] + text, rest)),
            None => None,
        }),
{
    let e = escape_char(c);
    let whole = e + t;
    assert(whole.skip(e.len() as int) =~= t);
    if c != '"' && c != '\\' && c != '\n' && c != '\r' && c != '\t' && (c as u32) < 0x20 {
        let n = c as nat;
        assert(hex_value(hex_char(n / 16)) == n / 16);
        assert(hex_value(hex_char(n % 16)) == n % 16);
        assert(hex_value('0') == 0);
        assert(is_hex('0') && is_hex(hex_char(n / 16)) && is_hex(hex_char(n % 16)));
        assert(whole[4] == hex_char(n / 16) && whole[5] == hex_char(n % 16));
    }
}

/// Escaping loses nothing: what was escaped reads back as it was.
pub proof fn law_escaped_reads_back(s: Seq<char>, rest: Seq<char>)
    ensures
        read_text(escaped(s) + (seq!['"'] + rest)) == Some((s, rest)),
    decreases s.len(),
{
    let end = seq!['"'] + rest;
    if s.len() == 0 {
        assert(escaped(s) + end =~= end);
        assert(end.skip(1) =~= rest);
        assert(s =~= Seq::empty());
    } else {
        lemma_escaped_first(s);
        law_escaped_reads_back(s.drop_first(), rest);
        let t = escaped(s.drop_first()) + end;
        assert(escaped(s) + end =~= escape_char(s[0]) + t);
        lemma_read_char(s[0], t);
        assert(seq![s[0]] + s.drop_first() =~= s);
    }
}

/// Whether a text can stand behind a number without becoming part of it.
pub open spec fn ends_number(rest: Seq<char>) -> bool {
    rest.len() == 0 || !is_digit(rest[0])
}

proof fn lemma_digits_ahead(digits: Seq<char>, rest: Seq<char>)
    requires
        all_digits(digits),
        ends_number(rest),
    ensures
        digits_ahead(digits + rest) == digits.len(),
    decreases digits.len(),
{
    let t = digits + rest;
    if digits.len() == 0 {
        assert(t =~= rest);
    } else {
        assert(is_digit(digits[0]));
        assert(t.drop_first() =~= digits.drop_first() + rest);
        assert forall|i: int| 0 <= i < digits.drop_first().len() implies is_digit(
            #[trigger] digits.drop_first()[i],
        ) by {
            assert(is_digit(digits[i + 1]));
        }
        lemma_digits_ahead(digits.drop_first(), rest);
    }
}

proof fn lemma_no_leading_zero(n: nat)
    ensures
        decimal(n).len() > 1 ==> decimal(n)[0] != '0',
        decimal(n).len() > 0,
        n > 0 ==> decimal(n)[0] != '0',
    decreases n,
{
    if n >= 10 {
        lemma_no_leading_zero(n / 10);
        assert(decimal(n)[0] == decimal(n / 10)[0]);
    }
}

proof fn lemma_render_items(items: Seq<Json>)
    ensures
        render_items(items).len() == items.len(),
        forall|i: int| 0 <= i < items.len() ==> #[trigger] render_items(items)[i] == render(items[i]),
    decreases items.len(),
{
    if items.len() > 0 {
        lemma_render_items(items.drop_last());
        assert forall|i: int| 0 <= i < items.len() implies #[trigger] render_items(items)[i]
            == render(items[i]) by {
            if i < items.len() - 1 {
                assert(render_items(items.drop_last())[i] == render(items.drop_last()[i]));
            }
        }
    }
}

proof fn lemma_render_members(members: Seq<Member>)
    ensures
        render_members(members).len() == members.len(),
        forall|i: int|
            0 <= i < members.len() ==> #[trigger] render_members(members)[i] == quoted(
                members[i].key,
            ).push(':') + render(members[i].value),
    decreases members.len(),
{
    if members.len() > 0 {
        let shorter = members.drop_last();
        lemma_render_members(shorter);
        assert forall|i: int| 0 <= i < members.len() implies #[trigger] render_members(members)[i]
            == quoted(members[i].key).push(':') + render(members[i].value) by {
            if i < members.len() - 1 {
                assert(render_members(shorter)[i] == quoted(shorter[i].key).push(':') + render(
                    shorter[i].value,
                ));
            }
        }
    }
}

/// A joined text, from its first part on.
proof fn lemma_join_first(parts: Seq<Seq<char>>, sep: char)
    requires
        parts.len() > 0,
    ensures
        parts.len() == 1 ==> join(parts, sep) == parts[0],
        parts.len() > 1 ==> join(parts, sep) == parts[0] + (seq![sep] + join(
            parts.drop_first(),
            sep,
        )),
    decreases parts.len(),
{
    if parts.len() == 2 {
        assert(join(parts.drop_last(), sep) == parts[0]);
        assert(join(parts.drop_first(), sep) == parts[1]);
        assert(parts.last() == parts[1]);
        assert(join(parts, sep) =~= parts[0] + (seq![sep] + join(parts.drop_first(), sep)));
    } else if parts.len() > 2 {
        lemma_join_first(parts.drop_last(), sep);
        let behind = parts.drop_first();
        assert(behind.drop_last() =~= parts.drop_last().drop_first());
        assert(behind.last() == parts.last());
        assert(parts.drop_last()[0] == parts[0]);
        assert(join(parts, sep) =~= parts[0] + (seq![sep] + join(behind, sep)));
    }
}

/// No value's text is empty, or starts with what closes a list or an object.
proof fn lemma_render_starts(v: Json)
    ensures
        render(v).len() > 0,
        render(v)[0] != ']',
        render(v)[0] != '}',
{
    if let Json::Number(n) = v {
        law_decimal_reads_back(n);
        assert(is_digit(decimal(n)[0]));
    }
}

/// A value reads back from its text.
#[verifier::spinoff_prover]
#[verifier::rlimit(80)]
pub proof fn law_value_reads_back(v: Json, rest: Seq<char>)
    requires
        ends_number(rest),
    ensures
        read_value(render(v) + rest) == Some((v, rest)),
    decreases v, 0nat,
{
    let t = render(v) + rest;
    match v {
        Json::Text(s) => {
            law_escaped_reads_back(s, rest);
            assert(t.skip(1) =~= escaped(s) + (seq!['"'] + rest));
        },
        Json::Number(n) => {
            let digits = decimal(n);
            law_decimal_reads_back(n);
            lemma_no_leading_zero(n);
            lemma_digits_ahead(digits, rest);
            assert(is_digit(digits[0]));
            assert(t[0] == digits[0]);
            assert(t.take(digits.len() as int) =~= digits);
            assert(t.skip(digits.len() as int) =~= rest);
        },
        Json::List(items) => {
            let parts = render_items(items);
            lemma_render_items(items);
            if items.len() == 0 {
                assert(join(parts, ',') =~= Seq::empty());
                assert(t[1] == ']');
                assert(t.skip(2) =~= rest);
                assert(items =~= Seq::empty());
            } else {
                lemma_items_read_back(items, rest);
                assert(t.skip(1) =~= join(parts, ',') + (seq![']'] + rest));
                lemma_join_first(parts, ',');
                lemma_render_starts(items[0]);
                assert(parts[0] == render(items[0]));
                assert(t[1] == render(items[0])[0]);
            }
        },
        Json::Object(members) => {
            let parts = render_members(members);
            lemma_render_members(members);
            if members.len() == 0 {
                assert(join(parts, ',') =~= Seq::empty());
                assert(t[1] == '}');
                assert(t.skip(2) =~= rest);
                assert(members =~= Seq::empty());
            } else {
                lemma_members_read_back(members, rest);
                assert(t.skip(1) =~= join(parts, ',') + (seq!['}'] + rest));
                lemma_join_first(parts, ',');
                assert(parts[0] == quoted(members[0].key).push(':') + render(members[0].value));
                assert(t[1] == '"');
            }
        },
    }
}

#[verifier::spinoff_prover]
#[verifier::rlimit(80)]
proof fn lemma_items_read_back(items: Seq<Json>, rest: Seq<char>)
    requires
        items.len() > 0,
    ensures
        read_items(join(render_items(items), ',') + (seq![']'] + rest)) == Some((items, rest)),
    decreases items, 1nat,
{
    let parts = render_items(items);
    let end = seq![']'] + rest;
    let t = join(parts, ',') + end;
    let first = items[0];
    lemma_render_items(items);
    lemma_join_first(parts, ',');
    lemma_render_starts(first);
    assert(parts[0] == render(first));
    if items.len() == 1 {
        assert(t =~= render(first) + end);
        law_value_reads_back(first, end);
        assert(end.skip(1) =~= rest);
        assert(items =~= seq![first]);
    } else {
        let others = items.drop_first();
        lemma_render_items(others);
        assert(parts.drop_first() =~= render_items(others));
        let behind = join(render_items(others), ',') + end;
        let tail = seq![','] + behind;
        assert(t =~= render(first) + tail);
        law_value_reads_back(first, tail);
        assert(tail.skip(1) =~= behind);
        lemma_items_read_back(others, rest);
        assert(seq![first] + others =~= items);
    }
}

#[verifier::spinoff_prover]
#[verifier::rlimit(80)]
proof fn lemma_members_read_back(members: Seq<Member>, rest: Seq<char>)
    requires
        members.len() > 0,
    ensures
        read_members(join(render_members(members), ',') + (seq!['}'] + rest)) == Some(
            (members, rest),
        ),
    decreases members, 1nat,
{
    let parts = render_members(members);
    let end = seq!['}'] + rest;
    let t = join(parts, ',') + end;
    let first = members[0];
    lemma_render_members(members);
    lemma_join_first(parts, ',');
    lemma_render_starts(first.value);
    let own = quoted(first.key).push(':') + render(first.value);
    assert(parts[0] == own);
    let others = members.drop_first();
    let behind = join(render_members(others), ',') + end;
    let tail = if members.len() == 1 {
        end
    } else {
        seq![','] + behind
    };
    if members.len() > 1 {
        lemma_render_members(others);
        assert(parts.drop_first() =~= render_members(others));
    }
    assert(t =~= own + tail);
    let value = render(first.value) + tail;
    let at = seq![':'] + value;
    assert(t.skip(1) =~= escaped(first.key) + (seq!['"'] + at));
    law_escaped_reads_back(first.key, at);
    assert(at.skip(1) =~= value);
    law_value_reads_back(first.value, tail);
    if members.len() == 1 {
        assert(end.skip(1) =~= rest);
        assert(members =~= seq![first]);
    } else {
        assert(tail.skip(1) =~= behind);
        lemma_members_read_back(others, rest);
        assert(seq![first] + others =~= members);
    }
}

/// The value of a member of an object, the first of its name.
pub open spec fn field(v: Json, key: Seq<char>) -> Option<Json> {
    match v {
        Json::Object(members) => first_value(members, key),
        _ => None,
    }
}

/// The value of the first member of a name.
pub open spec fn first_value(members: Seq<Member>, key: Seq<char>) -> Option<Json>
    decreases members.len(),
{
    if members.len() == 0 {
        None
    } else if members[0].key == key {
        Some(members[0].value)
    } else {
        first_value(members.drop_first(), key)
    }
}

/// A member is found under its name where no earlier one has that name.
pub proof fn lemma_field(members: Seq<Member>, i: int)
    requires
        0 <= i < members.len(),
        forall|k: int| 0 <= k < i ==> (#[trigger] members[k]).key != members[i].key,
    ensures
        field(Json::Object(members), members[i].key) == Some(members[i].value),
    decreases i,
{
    if i > 0 {
        let others = members.drop_first();
        assert(members[0].key != members[i].key);
        assert forall|k: int| 0 <= k < i - 1 implies (#[trigger] others[k]).key != others[i
            - 1].key by {
            assert(members[k + 1].key != members[i].key);
        }
        lemma_field(others, i - 1);
    }
}

} // verus!
