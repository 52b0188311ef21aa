//! Laws of folded stacks, of Speedscope documents and of the report for a human reader.

use vstd::prelude::*;

use crate::folded::{
    folded, stack_line, total_weight, weighted_view, WeightedStack, WeightedStackView,
};
use crate::frames::{concat_all, lemma_concat_contains, Frames};
use crate::intern::{first_occurrences, law_first_occurrences};
use crate::json::{
    escape_char, escaped, field, law_value_reads_back, lemma_field, push_escaped,
    read_value, render, Json, Member,
};
use crate::report::{debug_text, law_weighted_total, weighted, Report};
use crate::speedscope::{
    all_words, document, frame_table, law_numbered_reads_back, numbered, Speedscope, SpeedscopeView,
};
use crate::tally::{models, positive_total};
use crate::text::{decimal, signed_decimal};

use super::numbers::lemma_join;
use super::stacks::{
    call_names, calls, description, lemma_calls, lemma_description, source_name, thread_of,
};

verus! {

/// The sum of several numbers.
pub open spec fn sum_of(list: Seq<int>) -> int {
    list.fold_left(0, |a: int, b: int| a + b)
}

/// The stacks of a report that were seen.
pub open spec fn stacks_seen(data: Seq<(Frames, isize)>) -> Seq<(Frames, isize)> {
    data.filter(|e: (Frames, isize)| e.1 > 0)
}

/// How often each stack was seen.
pub open spec fn times_seen(data: Seq<(Frames, isize)>) -> Seq<int> {
    stacks_seen(data).map_values(|e: (Frames, isize)| e.1 as int)
}

/// One more stack, if it was seen.
pub proof fn lemma_seen_last(data: Seq<(Frames, isize)>)
    requires
        data.len() > 0,
    ensures
        stacks_seen(data) == (if data.last().1 > 0 {
            stacks_seen(data.drop_last()).push(data.last())
        } else {
            stacks_seen(data.drop_last())
        }),
{
    reveal(Seq::filter);
}

pub proof fn lemma_sum_push(list: Seq<int>, n: int)
    ensures
        sum_of(list.push(n)) == sum_of(list) + n,
{
    assert(list.push(n).drop_last() =~= list);
}

/// The samples of a report are those of the stacks that were seen.
pub proof fn lemma_total_seen(data: Seq<(Frames, isize)>)
    ensures
        positive_total(models(data)) == sum_of(times_seen(data)),
    decreases data.len(),
{
    let f = |e: (Frames, isize)| e.1 as int;
    if data.len() > 0 {
        let shorter = data.drop_last();
        lemma_total_seen(shorter);
        lemma_seen_last(data);
        assert(models(data).drop_last() =~= models(shorter));
        if data.last().1 > 0 {
            assert(times_seen(data) =~= times_seen(shorter).push(data.last().1 as int));
            lemma_sum_push(times_seen(shorter), data.last().1 as int);
        }
    } else {
        reveal(Seq::filter);
        assert(times_seen(data) =~= Seq::empty());
    }
}

/// A stack and its count in one line: the thread, the calls from the outermost, each behind
/// a semicolon, and the count.
pub open spec fn line_of(f: Frames, count: Seq<char>) -> Seq<char> {
    thread_of(f) + call_names(f).reverse().map_values(
        |name: Seq<char>| seq![';'] + name,
    ).flatten() + seq![' '] + count
}

pub proof fn lemma_stack_line(f: Frames, count: int)
    ensures
        stack_line(f@.words(), count) == line_of(f, signed_decimal(count)),
{
    lemma_calls(f);
    let words = f@.words();
    lemma_join(words, ';');
    assert(words.skip(1) =~= call_names(f).reverse());
    assert(stack_line(words, count) =~= line_of(f, signed_decimal(count)));
}

/// Folded stacks: one line for each stack that was seen, with its count.
pub proof fn law_folded(report: &Report, out: &mut String)
    requires
        call_ensures(Report::write_folded, (report, out), ()),
    ensures
        final(out)@ == old(out)@ + stacks_seen(report.data@).map_values(
            |e: (Frames, isize)| line_of(e.0, decimal(e.1 as nat)) + seq!['\n'],
        ).flatten(),
{
    lemma_folded(report.data@);
}

proof fn lemma_folded(data: Seq<(Frames, isize)>)
    ensures
        folded(weighted(models(data))) == stacks_seen(data).map_values(
            |e: (Frames, isize)| line_of(e.0, decimal(e.1 as nat)) + seq!['\n'],
        ).flatten(),
    decreases data.len(),
{
    let each = |e: (Frames, isize)| line_of(e.0, decimal(e.1 as nat)) + seq!['\n'];
    if data.len() > 0 {
        let shorter = data.drop_last();
        lemma_folded(shorter);
        lemma_seen_last(data);
        assert(models(data).drop_last() =~= models(shorter));
        if data.last().1 > 0 {
            let (f, count) = data.last();
            let before = stacks_seen(shorter).map_values(each);
            lemma_stack_line(f, count as int);
            assert(stacks_seen(data).map_values(each) =~= before.push(each(data.last())));
            before.lemma_flatten_push(each(data.last()));
            assert(weighted(models(data)).drop_last() =~= weighted(models(shorter)));
            assert(line_of(f, decimal(count as nat)).push('\n') =~= each(data.last()));
        }
    } else {
        reveal(Seq::filter);
        assert(stacks_seen(data).map_values(each).flatten() =~= Seq::empty());
    }
}

/// The report for a human reader: one line for each stack, with its count.
pub proof fn law_debug(report: &Report, out: &mut String)
    requires
        call_ensures(Report::write_debug, (report, out), ()),
    ensures
        final(out)@ == old(out)@ + report.data@.map_values(
            |e: (Frames, isize)|
                description(e.0) + seq![' '] + (if e.1 < 0 {
                    seq!['-'] + decimal((-e.1) as nat)
                } else {
                    decimal(e.1 as nat)
                }) + seq!['\n'],
        ).flatten(),
{
    lemma_debug(report.data@);
}

proof fn lemma_debug(data: Seq<(Frames, isize)>)
    ensures
        debug_text(models(data)) == data.map_values(
            |e: (Frames, isize)|
                description(e.0) + seq![' '] + (if e.1 < 0 {
                    seq!['-'] + decimal((-e.1) as nat)
                } else {
                    decimal(e.1 as nat)
                }) + seq!['\n'],
        ).flatten(),
    decreases data.len(),
{
    let each = |e: (Frames, isize)|
        description(e.0) + seq![' '] + (if e.1 < 0 {
            seq!['-'] + decimal((-e.1) as nat)
        } else {
            decimal(e.1 as nat)
        }) + seq!['\n'];
    if data.len() > 0 {
        let shorter = data.drop_last();
        let (f, count) = data.last();
        lemma_debug(shorter);
        lemma_description(f);
        assert(models(data).drop_last() =~= models(shorter));
        assert(data.map_values(each) =~= shorter.map_values(each).push(each(data.last())));
        shorter.map_values(each).lemma_flatten_push(each(data.last()));
        assert((f@.described().push(' ') + signed_decimal(count as int)).push('\n') =~= each(
            data.last(),
        ));
    } else {
        assert(data.map_values(each).flatten() =~= Seq::empty());
    }
}

/// One character inside a JSON string: the quote, the backslash and the control characters
/// are escaped, every other one stands for itself.
pub open spec fn json_char(c: char) -> Seq<char> {
    let n = c as nat;
    if c == '"' || c == '\\' {
        seq!['\\', c]
    } else if n == 10 {
        seq!['\\', 'n']
    } else if n == 13 {
        seq!['\\', 'r']
    } else if n == 9 {
        seq!['\\', 't']
    } else if n < 16 {
        seq!['\\', 'u', '0', '0', '0', if n < 10 {
            (48 + n) as char
        } else {
            (87 + n) as char
        }]
    } else if n < 32 {
        seq!['\\', 'u', '0', '0', '1', if n < 26 {
            (32 + n) as char
        } else {
            (71 + n) as char
        }]
    } else {
        seq![c]
    }
}

/// A text is escaped character by character.
pub proof fn law_escaped(s: &str, out: &mut String)
    requires
        call_ensures(push_escaped, (out, s), ()),
    ensures
        final(out)@ == old(out)@ + s@.map_values(|c: char| json_char(c)).flatten(),
{
    lemma_escaped(s@);
}

proof fn lemma_json_char(c: char)
    ensures
        escape_char(c) == json_char(c),
{
    let n = c as nat;
    if n < 16 {
        assert(n / 16 == 0 && n % 16 == n);
        assert((48 + 0) as char == '0');
    } else if n < 32 {
        assert(n / 16 == 1 && n % 16 == n - 16);
        assert((48 + 1) as char == '1');
    }
    assert(escape_char(c) =~= json_char(c));
}

pub proof fn lemma_escaped(s: Seq<char>)
    ensures
        escaped(s) == s.map_values(|c: char| json_char(c)).flatten(),
    decreases s.len(),
{
    let each = |c: char| json_char(c);
    if s.len() > 0 {
        let shorter = s.drop_last();
        lemma_escaped(shorter);
        assert(s.map_values(each) =~= shorter.map_values(each).push(each(s.last())));
        shorter.map_values(each).lemma_flatten_push(each(s.last()));
        lemma_json_char(s.last());
    } else {
        assert(s.map_values(each).flatten() =~= Seq::empty());
    }
}

/// The text of JSON: strings in quotes, numbers in decimal, and lists and objects that grow
/// by one value or member behind a comma, with nothing between.
pub proof fn law_render(
    s: Seq<char>,
    n: nat,
    items: Seq<Json>,
    v: Json,
    members: Seq<Member>,
    m: Member,
)
    ensures
        render(Json::Text(s)) == seq!['"'] + s.map_values(|c: char| json_char(c)).flatten() + seq![
            '"',
        ],
        render(Json::Number(n)) == decimal(n),
        render(Json::List(Seq::empty())) == seq!['[', ']'],
        render(Json::Object(Seq::empty())) == seq!['{', '}'],
        render(Json::List(items.push(v))) == render(Json::List(items)).drop_last() + (
        if items.len() > 0 {
            seq![',']
        } else {
            Seq::empty()
        }) + render(v) + seq![']'],
        render(Json::Object(members.push(m))) == render(Json::Object(members)).drop_last() + (
        if members.len() > 0 {
            seq![',']
        } else {
            Seq::empty()
        }) + render(Json::Text(m.key)) + seq![':'] + render(m.value) + seq!['}'],
{
    lemma_escaped(s);
    let none: Seq<Json> = Seq::empty();
    let nothing: Seq<Member> = Seq::empty();
    assert(render(Json::List(none)) =~= seq!['[', ']']);
    assert(render(Json::Object(nothing)) =~= seq!['{', '}']);
    crate::json::lemma_next_item(Seq::empty(), items, v);
    crate::json::lemma_next_member(Seq::empty(), members, m);
    assert(render(Json::List(items)).drop_last() =~= crate::json::open_list(items));
    assert(render(Json::Object(members)).drop_last() =~= crate::json::open_object(members));
    assert(render(Json::List(items.push(v))) =~= Seq::<char>::empty() + crate::json::open_list(
        items.push(v),
    ) + seq![']']);
    assert(render(Json::List(items.push(v))) =~= render(Json::List(items)).drop_last() + (
    if items.len() > 0 {
        seq![',']
    } else {
        Seq::empty()
    }) + render(v) + seq![']']);
    assert(render(Json::Object(members.push(m))) =~= Seq::<char>::empty()
        + crate::json::open_object(members.push(m)) + seq!['}']);
    assert(render(Json::Object(members.push(m))) =~= render(Json::Object(members)).drop_last() + (
    if members.len() > 0 {
        seq![',']
    } else {
        Seq::empty()
    }) + render(Json::Text(m.key)) + seq![':'] + render(m.value) + seq!['}']);
}

/// A Speedscope document with the given name: frames by name, samples as lists of places
/// among the frames, and the weight of each sample, up to their sum.
pub open spec fn speedscope_json(
    name: Seq<char>,
    frames: Seq<Seq<char>>,
    samples: Seq<Seq<nat>>,
    weights: Seq<int>,
) -> Json {
    json_up_to(name, frames, samples, weights, sum_of(weights))
}

/// A Speedscope document with the given end value.
pub open spec fn json_up_to(
    name: Seq<char>,
    frames: Seq<Seq<char>>,
    samples: Seq<Seq<nat>>,
    weights: Seq<int>,
    end: int,
) -> Json {
    Json::Object(
        seq![
            Member {
                key: "$schema"@,
                value: Json::Text("https://www.speedscope.app/file-format-schema.json"@),
            },
            Member { key: "version"@, value: Json::Text("0.0.1"@) },
            Member { key: "exporter"@, value: Json::Text("rpprof"@) },
            Member { key: "name"@, value: Json::Text(name) },
            Member { key: "activeProfileIndex"@, value: Json::Number(0) },
            Member {
                key: "profiles"@,
                value: Json::List(
                    seq![
                        Json::Object(
                            seq![
                                Member { key: "type"@, value: Json::Text("sampled"@) },
                                Member { key: "name"@, value: Json::Text(name) },
                                Member { key: "unit"@, value: Json::Text("count"@) },
                                Member { key: "startValue"@, value: Json::Number(0) },
                                Member {
                                    key: "endValue"@,
                                    value: Json::Number(end as nat),
                                },
                                Member {
                                    key: "samples"@,
                                    value: Json::List(
                                        samples.map_values(
                                            |ids: Seq<nat>|
                                                Json::List(
                                                    ids.map_values(|id: nat| Json::Number(id)),
                                                ),
                                        ),
                                    ),
                                },
                                Member {
                                    key: "weights"@,
                                    value: Json::List(
                                        weights.map_values(|w: int| Json::Number(w as nat)),
                                    ),
                                },
                            ],
                        ),
                    ],
                ),
            },
            Member {
                key: "shared"@,
                value: Json::Object(
                    seq![
                        Member {
                            key: "frames"@,
                            value: Json::List(
                                frames.map_values(
                                    |frame: Seq<char>|
                                        Json::Object(
                                            seq![Member { key: "name"@, value: Json::Text(frame) }],
                                        ),
                                ),
                            ),
                        },
                    ],
                ),
            },
        ],
    )
}

/// Whether the samples lead to the stacks: each has the place of the thread, then those of
/// the calls from the outermost.
pub open spec fn leads_to(
    frames: Seq<Seq<char>>,
    samples: Seq<Seq<nat>>,
    stacks: Seq<(Frames, isize)>,
) -> bool {
    &&& samples.len() == stacks.len()
    &&& forall|i: int|
        0 <= i < stacks.len() ==> {
            let f = stacks[i].0;
            &&& (#[trigger] samples[i]).len() == calls(f).len() + 1
            &&& samples[i][0] < frames.len() && frames[samples[i][0] as int] == thread_of(f)
            &&& forall|j: int|
                0 < j < samples[i].len() ==> {
                    &&& (#[trigger] samples[i][j]) < frames.len()
                    &&& frames[samples[i][j] as int] == source_name(calls(f)[calls(f).len() - j])
                }
        }
}

/// Whether the place `k` comes up first at word `j` of sample `i`: there it stands, and all
/// places before it are lower.
pub open spec fn first_at(samples: Seq<Seq<nat>>, k: int, i: int, j: int) -> bool {
    &&& 0 <= i < samples.len()
    &&& 0 <= j < samples[i].len()
    &&& samples[i][j] == k
    &&& forall|x: int, y: int|
        #![trigger samples[x][y]]
        0 <= x <= i && 0 <= y < samples[x].len() && (x < i || y < j) ==> samples[x][y] < k
}

/// Whether the place comes up in the samples, before all higher places.
pub open spec fn comes_up(samples: Seq<Seq<nat>>, k: int) -> bool {
    exists|i: int, j: int| first_at(samples, k, i, j)
}

pub proof fn lemma_weighted_seen(data: Seq<(Frames, isize)>)
    ensures
        weighted(models(data)).len() == stacks_seen(data).len(),
        forall|i: int|
            0 <= i < stacks_seen(data).len() ==> {
                &&& (#[trigger] weighted(models(data))[i]).words == stacks_seen(data)[i].0@.words()
                &&& weighted(models(data))[i].weight == stacks_seen(data)[i].1
            },
    decreases data.len(),
{
    if data.len() > 0 {
        let shorter = data.drop_last();
        lemma_weighted_seen(shorter);
        lemma_seen_last(data);
        assert(models(data).drop_last() =~= models(shorter));
    } else {
        reveal(Seq::filter);
    }
}

/// A Speedscope document tells the stacks that were seen: the weight of each is its count,
/// and its sample leads to its thread and its calls in the list of frames, in which no name
/// stands twice and all come up, in order.
pub proof fn law_speedscope(report: &Report, name: &str, out: &mut String)
    requires
        call_ensures(Report::write_speedscope, (report, out, name), ()),
        sum_of(times_seen(report.data@)) <= usize::MAX,
    ensures
        exists|frames: Seq<Seq<char>>, samples: Seq<Seq<nat>>|
            {
                &&& frames.no_duplicates()
                &&& forall|k: int| 0 <= k < frames.len() ==> #[trigger] comes_up(samples, k)
                &&& #[trigger] leads_to(frames, samples, stacks_seen(report.data@))
                &&& final(out)@ == old(out)@ + render(
                    speedscope_json(name@, frames, samples, times_seen(report.data@)),
                )
            },
{
    let data = report.data@;
    let stacks = weighted(report.entries());
    let s = numbered(stacks);
    let frames = s.frames;
    let samples = s.samples.map_values(|ids: Seq<usize>| ids.map_values(|id: usize| id as nat));
    let weights = times_seen(data);
    lemma_weighted_seen(data);
    lemma_total_seen(data);
    law_weighted_total(report.entries());
    law_numbered_reads_back(stacks);
    lemma_comes_up(stacks, samples);
    assert forall|i: int| 0 <= i < stacks_seen(data).len() implies {
        let f = stacks_seen(data)[i].0;
        &&& (#[trigger] samples[i]).len() == calls(f).len() + 1
        &&& samples[i][0] < frames.len() && frames[samples[i][0] as int] == thread_of(f)
        &&& forall|j: int|
            0 < j < samples[i].len() ==> {
                &&& (#[trigger] samples[i][j]) < frames.len()
                &&& frames[samples[i][j] as int] == source_name(calls(f)[calls(f).len() - j])
            }
    } by {
        let f = stacks_seen(data)[i].0;
        lemma_calls(f);
        let words = f@.words();
        let ids = s.samples[i];
        assert(stacks[i].words == words);
        assert(words.len() == calls(f).len() + 1);
        assert(words[0] == thread_of(f));
        assert(ids[0] < frames.len() && frames[ids[0] as int] == words[0]);
        assert(samples[i][0] == ids[0]);
        assert forall|j: int| 0 < j < samples[i].len() implies {
            &&& (#[trigger] samples[i][j]) < frames.len()
            &&& frames[samples[i][j] as int] == source_name(calls(f)[calls(f).len() - j])
        } by {
            assert(samples[i][j] == ids[j]);
            assert(ids[j] < frames.len() && frames[ids[j] as int] == words[j]);
            assert(words[j] == f@.names().reverse()[j - 1]);
            assert(f@.names().reverse()[j - 1] == call_names(f)[calls(f).len() - j]);
        }
    }
    assert(leads_to(frames, samples, stacks_seen(data)));
    lemma_document(name@, stacks, frames, samples, weights);
}

proof fn lemma_document(
    name: Seq<char>,
    stacks: Seq<WeightedStackView>,
    frames: Seq<Seq<char>>,
    samples: Seq<Seq<nat>>,
    weights: Seq<int>,
)
    requires
        frames == numbered(stacks).frames,
        samples == numbered(stacks).samples.map_values(
            |ids: Seq<usize>| ids.map_values(|id: usize| id as nat),
        ),
        weights.len() == stacks.len(),
        forall|i: int| 0 <= i < stacks.len() ==> (#[trigger] stacks[i]).weight == weights[i],
        sum_of(weights) == total_weight(stacks),
    ensures
        document(name, numbered(stacks)) == speedscope_json(name, frames, samples, weights),
{
    let s = numbered(stacks);
    assert forall|i: int| 0 <= i < weights.len() implies s.weights[i] == #[trigger] weights[i] by {
        assert(stacks[i].weight == weights[i]);
    }
    lemma_document_of(name, s, samples, weights);
}

proof fn lemma_document_of(
    name: Seq<char>,
    s: SpeedscopeView,
    samples: Seq<Seq<nat>>,
    weights: Seq<int>,
)
    requires
        samples == s.samples.map_values(
            |ids: Seq<usize>| ids.map_values(|id: usize| id as nat),
        ),
        weights.len() == s.weights.len(),
        forall|i: int| 0 <= i < weights.len() ==> s.weights[i] == #[trigger] weights[i],
    ensures
        document(name, s) == json_up_to(name, s.frames, samples, weights, s.total_weight as int),
{
    let frames = s.frames;
    let list = samples.map_values(
        |ids: Seq<nat>| Json::List(ids.map_values(|id: nat| Json::Number(id))),
    );
    assert(crate::speedscope::samples_value(s.samples)->List_0 =~= list) by {
        assert forall|i: int| 0 <= i < list.len() implies crate::speedscope::samples_value(
            s.samples,
        )->List_0[i] == list[i] by {
            assert(crate::json::numbers(s.samples[i])->List_0 =~= samples[i].map_values(
                |id: nat| Json::Number(id),
            ));
        }
    }
    assert(crate::json::numbers(s.weights)->List_0 =~= weights.map_values(
        |w: int| Json::Number(w as nat),
    )) by {
        assert forall|i: int| 0 <= i < weights.len() implies crate::json::numbers(
            s.weights,
        )->List_0[i] == weights.map_values(|w: int| Json::Number(w as nat))[i] by {
            assert(s.weights[i] == weights[i]);
        }
    }
    assert(crate::speedscope::frames_value(s.frames)->List_0 =~= frames.map_values(
        |frame: Seq<char>|
            Json::Object(seq![Member { key: "name"@, value: Json::Text(frame) }]),
    ));
    let a = document(name, s);
    let b = json_up_to(name, frames, samples, weights, s.total_weight as int);
    let pa = a->Object_0[5].value->List_0[0]->Object_0;
    let pb = b->Object_0[5].value->List_0[0]->Object_0;
    assert(pa =~= pb);
    assert(a->Object_0[5].value->List_0 =~= b->Object_0[5].value->List_0);
    assert(a->Object_0[6].value->Object_0 =~= b->Object_0[6].value->Object_0);
    assert(a->Object_0 =~= b->Object_0);
}

/// A Speedscope document reads back: under "weights" of its profile stand the counts of the
/// stacks that were seen, as numbers, under "endValue" their sum; under "samples" the lists
/// of places that lead to the stacks, and under "frames" the frames.
pub proof fn law_speedscope_reads_back(
    name: Seq<char>,
    frames: Seq<Seq<char>>,
    samples: Seq<Seq<nat>>,
    weights: Seq<int>,
)
    ensures
        read_value(render(speedscope_json(name, frames, samples, weights))) matches Some(
            (doc, rest),
        ) && {
            &&& rest.len() == 0
            &&& field(doc, "name"@) == Some(Json::Text(name))
            &&& field(doc, "activeProfileIndex"@) == Some(Json::Number(0))
            &&& field(doc, "shared"@) matches Some(shared) && field(shared, "frames"@) matches Some(
                Json::List(list),
            ) && {
                &&& list.len() == frames.len()
                &&& forall|i: int|
                    0 <= i < frames.len() ==> field(#[trigger] list[i], "name"@) == Some(
                        Json::Text(frames[i]),
                    )
            }
            &&& field(doc, "profiles"@) matches Some(Json::List(profiles)) && {
                &&& profiles.len() == 1
                &&& field(profiles[0], "name"@) == Some(Json::Text(name))
                &&& field(profiles[0], "type"@) == Some(Json::Text("sampled"@))
                &&& field(profiles[0], "unit"@) == Some(Json::Text("count"@))
                &&& field(profiles[0], "startValue"@) == Some(Json::Number(0))
                &&& field(profiles[0], "endValue"@) == Some(Json::Number(sum_of(weights) as nat))
                &&& field(profiles[0], "weights"@) matches Some(Json::List(list)) && {
                    &&& list.len() == weights.len()
                    &&& forall|i: int|
                        0 <= i < weights.len() ==> #[trigger] list[i] == Json::Number(
                            weights[i] as nat,
                        )
                }
                &&& field(profiles[0], "samples"@) matches Some(Json::List(list)) && {
                    &&& list.len() == samples.len()
                    &&& forall|i: int, j: int|
                        #![trigger samples[i][j]]
                        0 <= i < samples.len() && 0 <= j < samples[i].len() ==> (
                        list[i] matches Json::List(ids) && ids.len() == samples[i].len() && ids[j]
                            == Json::Number(samples[i][j]))
                }
            }
        },
{
    let doc = speedscope_json(name, frames, samples, weights);
    let text = render(doc);
    law_value_reads_back(doc, Seq::empty());
    assert(text + Seq::<char>::empty() =~= text);
    let members = doc->Object_0;
    let profile = members[5].value->List_0[0];
    let parts = profile->Object_0;
    reveal_strlit("$schema");
    reveal_strlit("version");
    reveal_strlit("exporter");
    reveal_strlit("name");
    reveal_strlit("activeProfileIndex");
    reveal_strlit("profiles");
    reveal_strlit("shared");
    reveal_strlit("type");
    reveal_strlit("unit");
    reveal_strlit("startValue");
    reveal_strlit("endValue");
    reveal_strlit("samples");
    reveal_strlit("weights");
    reveal_strlit("frames");
    assert("name"@[0] == 'n' && "type"@[0] == 't' && "unit"@[0] == 'u');
    assert("version"@[0] == 'v' && "$schema"@[0] == '$' && "exporter"@[0] == 'e');
    assert("profiles"@[0] == 'p' && "samples"@[0] == 's' && "weights"@[0] == 'w');
    assert("shared"@[0] == 's' && "activeProfileIndex"@[0] == 'a');
    assert("startValue"@.len() == 10 && "endValue"@.len() == 8 && "samples"@.len() == 7);
    assert("type"@.len() == 4 && "name"@.len() == 4 && "unit"@.len() == 4);
    lemma_field(members, 3);
    lemma_field(members, 4);
    lemma_field(members, 5);
    lemma_field(members, 6);
    lemma_field(members[6].value->Object_0, 0);
    lemma_field(parts, 0);
    lemma_field(parts, 1);
    lemma_field(parts, 2);
    lemma_field(parts, 3);
    lemma_field(parts, 4);
    lemma_field(parts, 5);
    lemma_field(parts, 6);
    let list = members[6].value->Object_0[0].value->List_0;
    assert forall|i: int| 0 <= i < frames.len() implies field(#[trigger] list[i], "name"@) == Some(
        Json::Text(frames[i]),
    ) by {
        lemma_field(list[i]->Object_0, 0);
    }
    let ids = parts[5].value->List_0;
    assert forall|i: int, j: int|
        #![trigger samples[i][j]]
        0 <= i < samples.len() && 0 <= j < samples[i].len() implies (ids[i] matches Json::List(
        row,
    ) && row.len() == samples[i].len() && row[j] == Json::Number(samples[i][j])) by {
        assert(ids[i] == Json::List(samples[i].map_values(|id: nat| Json::Number(id))));
    }
}

/// Numbered stacks: each word has the place of its name among the frames, which stand in
/// the order in which they first come up, each once and none besides; and each stack keeps
/// its weight.
pub proof fn law_numbered(stacks: &Vec<WeightedStack>, s: Speedscope)
    requires
        call_ensures(Speedscope::number, (stacks,), s),
        sum_of(stacks@.map_values(|w: WeightedStack| w.weight as int)) <= usize::MAX,
    ensures
        forall|k: int, l: int|
            #![trigger s.frames@[k], s.frames@[l]]
            0 <= k < l < s.frames@.len() ==> s.frames@[k]@ != s.frames@[l]@,
        s.samples@.len() == stacks@.len(),
        forall|i: int|
            0 <= i < stacks@.len() ==> (#[trigger] s.samples@[i])@.len()
                == stacks@[i].words@.len(),
        forall|i: int, j: int|
            #![trigger s.samples@[i]@[j]]
            0 <= i < stacks@.len() && 0 <= j < stacks@[i].words@.len() ==> {
                &&& s.samples@[i]@[j] < s.frames@.len()
                &&& s.frames@[s.samples@[i]@[j] as int]@ == stacks@[i].words@[j]@
            },
        ({
            let samples = s.samples@.map_values(
                |ids: Vec<usize>| ids@.map_values(|id: usize| id as nat),
            );
            forall|k: int| 0 <= k < s.frames@.len() ==> #[trigger] comes_up(samples, k)
        }),
        s.weights@ == stacks@.map_values(|w: WeightedStack| w.weight),
        s.total_weight == sum_of(stacks@.map_values(|w: WeightedStack| w.weight as int)),
{
    let views = weighted_view(stacks@);
    lemma_weights(stacks@);
    assert(s@ == numbered(views));
    assert(s.frames.len() == s@.frames.len());
    law_numbered_reads_back(views);
    assert forall|k: int, l: int|
        #![trigger s.frames@[k], s.frames@[l]]
        0 <= k < l < s.frames@.len() implies s.frames@[k]@ != s.frames@[l]@ by {
        assert(s@.frames[k] == s.frames@[k]@ && s@.frames[l] == s.frames@[l]@);
    }
    assert(s@.samples.len() == s.samples@.len());
    assert forall|i: int| 0 <= i < stacks@.len() implies (#[trigger] s.samples@[i])@
        == s@.samples[i] && views[i].words.len() == stacks@[i].words@.len() by {}
    assert forall|i: int, j: int|
        #![trigger s.samples@[i]@[j]]
        0 <= i < stacks@.len() && 0 <= j < stacks@[i].words@.len() implies {
        &&& s.samples@[i]@[j] < s.frames@.len()
        &&& s.frames@[s.samples@[i]@[j] as int]@ == stacks@[i].words@[j]@
    } by {
        assert(s.samples@[i]@ == s@.samples[i]);
        let id = s@.samples[i][j];
        assert(id < s@.frames.len() && s@.frames[id as int] == views[i].words[j]);
    }
    let samples = s.samples@.map_values(
        |ids: Vec<usize>| ids@.map_values(|id: usize| id as nat),
    );
    let inner = |ids: Seq<usize>| ids.map_values(|id: usize| id as nat);
    assert(s@.samples.map_values(inner) =~= samples);
    lemma_comes_up(views, samples);
    assert(s.weights@ =~= stacks@.map_values(|w: WeightedStack| w.weight));
}

/// The places of the frames come up in order.
proof fn lemma_comes_up(views: Seq<WeightedStackView>, samples: Seq<Seq<nat>>)
    requires
        frame_table(views).len() <= usize::MAX,
        samples == numbered(views).samples.map_values(
            |ids: Seq<usize>| ids.map_values(|id: usize| id as nat),
        ),
    ensures
        forall|k: int| 0 <= k < frame_table(views).len() ==> #[trigger] comes_up(samples, k),
{
    let s = numbered(views);
    let table = frame_table(views);
    law_first_occurrences(all_words(views));
    let parts = Seq::new(views.len(), |k: int| views[k].words);
    assert forall|k: int| 0 <= k < table.len() implies #[trigger] comes_up(samples, k) by {
        let p = lemma_first_place(all_words(views), k);
        let (i, j) = lemma_part_place(parts, p);
        assert(samples[i].len() == s.samples[i].len());
        assert(samples[i][j] == s.samples[i][j]);
        assert(views[i].words[j] == table[k]);
        crate::intern::lemma_place(table, k);
        assert forall|x: int, y: int|
            #![trigger samples[x][y]]
            0 <= x <= i && 0 <= y < samples[x].len() && (x < i || y < j) implies samples[x][y]
            < k by {
            assert(samples[x].len() == s.samples[x].len());
            assert(samples[x][y] == s.samples[x][y]);
            let w = parts[x][y];
            assert(all_words(views).take(p).contains(w));
            let q = all_words(views).take(p).index_of(w);
            assert(all_words(views)[q] == w);
            assert(table.take(k).contains(w));
            let l = table.take(k).index_of(w);
            assert(table[l] == w);
            crate::intern::lemma_place(table, l);
        }
        assert(first_at(samples, k, i, j));
    }
}

proof fn lemma_weights(stacks: Seq<WeightedStack>)
    ensures
        total_weight(weighted_view(stacks)) == sum_of(
            stacks.map_values(|w: WeightedStack| w.weight as int),
        ),
    decreases stacks.len(),
{
    let each = |w: WeightedStack| w.weight as int;
    if stacks.len() > 0 {
        let shorter = stacks.drop_last();
        lemma_weights(shorter);
        assert(weighted_view(stacks).drop_last() =~= weighted_view(shorter));
        assert(stacks.map_values(each) =~= shorter.map_values(each).push(each(stacks.last())));
        lemma_sum_push(shorter.map_values(each), each(stacks.last()));
    } else {
        reveal(Seq::fold_left);
    }
}

/// The first occurrence of a word: the words before it are those before it in the table.
proof fn lemma_first_place(words: Seq<Seq<char>>, k: int) -> (p: int)
    requires
        0 <= k < first_occurrences(words).len(),
    ensures
        0 <= p < words.len(),
        words[p] == first_occurrences(words)[k],
        forall|q: int|
            0 <= q < p ==> first_occurrences(words).take(k).contains(#[trigger] words[q]),
    decreases words.len(),
{
    let shorter = words.drop_last();
    let found = first_occurrences(shorter);
    if k < found.len() {
        let p = lemma_first_place(shorter, k);
        assert(first_occurrences(words).take(k) =~= found.take(k));
        assert forall|q: int| 0 <= q < p implies first_occurrences(words).take(k).contains(
            #[trigger] words[q],
        ) by {
            assert(shorter[q] == words[q]);
        }
        p
    } else {
        let p = words.len() - 1;
        law_first_occurrences(shorter);
        assert(first_occurrences(words).take(k) =~= found);
        assert forall|q: int| 0 <= q < p implies first_occurrences(words).take(k).contains(
            #[trigger] words[q],
        ) by {
            assert(shorter[q] == words[q]);
            assert(shorter.contains(words[q]));
            assert(found.contains(words[q]));
        }
        p
    }
}

/// The part that an element of the whole stands in: what comes before it in the parts comes
/// before it in the whole.
proof fn lemma_part_place<A>(parts: Seq<Seq<A>>, p: int) -> (r: (int, int))
    requires
        0 <= p < concat_all(parts).len(),
    ensures
        0 <= r.0 < parts.len(),
        0 <= r.1 < parts[r.0].len(),
        parts[r.0][r.1] == concat_all(parts)[p],
        forall|x: int, y: int|
            #![trigger parts[x][y]]
            0 <= x <= r.0 && 0 <= y < parts[x].len() && (x < r.0 || y < r.1) ==> concat_all(
                parts,
            ).take(p).contains(parts[x][y]),
    decreases parts.len(),
{
    let shorter = parts.drop_last();
    let whole = concat_all(parts);
    let before = concat_all(shorter);
    if p < before.len() {
        let r = lemma_part_place(shorter, p);
        assert(whole.take(p) =~= before.take(p));
        assert forall|x: int, y: int|
            #![trigger parts[x][y]]
            0 <= x <= r.0 && 0 <= y < parts[x].len() && (x < r.0 || y < r.1) implies whole.take(
            p,
        ).contains(parts[x][y]) by {
            assert(shorter[x][y] == parts[x][y]);
        }
        r
    } else {
        let i = parts.len() - 1;
        let j = p - before.len();
        assert forall|x: int, y: int|
            #![trigger parts[x][y]]
            0 <= x <= i && 0 <= y < parts[x].len() && (x < i || y < j) implies whole.take(
            p,
        ).contains(parts[x][y]) by {
            if x < i {
                assert(shorter[x].contains(parts[x][y]));
                lemma_concat_contains(shorter, x, parts[x][y]);
                let q = before.index_of(parts[x][y]);
                assert(whole.take(p)[q] == parts[x][y]);
            } else {
                assert(whole.take(p)[before.len() + y] == parts[x][y]);
            }
        }
        (i, j)
    }
}

/// Numbered stacks are written as they are: frames, samples, weights and their sum.
pub proof fn law_written(s: &Speedscope, name: &str, out: &mut String)
    requires
        call_ensures(Speedscope::write, (s, out, name), ()),
    ensures
        final(out)@ == old(out)@ + render(
            json_up_to(
                name@,
                s.frames@.map_values(|f: String| f@),
                s.samples@.map_values(|ids: Vec<usize>| ids@.map_values(|id: usize| id as nat)),
                s.weights@.map_values(|w: usize| w as int),
                s.total_weight as int,
            ),
        ),
{
    let samples = s.samples@.map_values(
        |ids: Vec<usize>| ids@.map_values(|id: usize| id as nat),
    );
    let weights = s.weights@.map_values(|w: usize| w as int);
    let inner = |ids: Seq<usize>| ids.map_values(|id: usize| id as nat);
    assert(s@.samples.map_values(inner) =~= samples);
    assert(s@.frames =~= s.frames@.map_values(|f: String| f@));
    lemma_document_of(name@, s@, samples, weights);
}

} // verus!
