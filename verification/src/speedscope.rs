//! The Speedscope file format: frames by number, samples as lists of numbers.

use vstd::prelude::*;

use crate::folded::{total_weight, weighted_view, WeightedStack, WeightedStackView};
use crate::frames::{concat_all, lemma_concat_contains, lemma_concat_split};
use crate::intern::{
    first_occurrences, law_first_occurrences, lemma_first_occurrences_prefix,
    lemma_first_occurrences_push, lemma_place_kept, place, NameTable,
};
use crate::json::{
    comma, field, law_value_reads_back, lemma_field, lemma_next_item, lemma_next_member, member_text, numbers,
    open_list, open_object, push_key, push_number_member, push_numbers, push_text_member, quoted,
    read_value, render, Json, Member,
};
use crate::text::texts;

verus! {

/// The words of all stacks, in order.
pub open spec fn all_words(stacks: Seq<WeightedStackView>) -> Seq<Seq<char>> {
    concat_all(Seq::new(stacks.len(), |i: int| stacks[i].words))
}

/// The frame names: the distinct words, in the order of their first appearance.
pub open spec fn frame_table(stacks: Seq<WeightedStackView>) -> Seq<Seq<char>> {
    first_occurrences(all_words(stacks))
}

/// One sample: the places of the words of a stack.
pub open spec fn sample_of(table: Seq<Seq<char>>, words: Seq<Seq<char>>) -> Seq<usize> {
    Seq::new(words.len(), |j: int| place(table, words[j]) as usize)
}

/// Weighted stacks by numbers into a table of names.
#[derive(Debug)]
pub struct Speedscope {
    pub frames: Vec<String>,
    pub samples: Vec<Vec<usize>>,
    pub weights: Vec<usize>,
    pub total_weight: usize,
}

/// The contents of a `Speedscope`.
#[verifier::ext_equal]
pub struct SpeedscopeView {
    pub frames: Seq<Seq<char>>,
    pub samples: Seq<Seq<usize>>,
    pub weights: Seq<usize>,
    pub total_weight: nat,
}

impl View for Speedscope {
    type V = SpeedscopeView;

    open spec fn view(&self) -> SpeedscopeView {
        SpeedscopeView {
            frames: texts(self.frames@),
            samples: Seq::new(self.samples@.len(), |i: int| self.samples@[i]@),
            weights: self.weights@,
            total_weight: self.total_weight as nat,
        }
    }
}

/// Weighted stacks, numbered.
pub open spec fn numbered(stacks: Seq<WeightedStackView>) -> SpeedscopeView {
    SpeedscopeView {
        frames: frame_table(stacks),
        samples: Seq::new(
            stacks.len(),
            |i: int| sample_of(frame_table(stacks), stacks[i].words),
        ),
        weights: Seq::new(stacks.len(), |i: int| stacks[i].weight),
        total_weight: total_weight(stacks),
    }
}

/// The words up to word `j` of stack `i` come first among all words.
proof fn lemma_words_split(stacks: Seq<WeightedStackView>, i: int, j: int)
    requires
        0 <= i < stacks.len(),
        0 <= j <= stacks[i].words.len(),
    ensures
        ({
            let parts = Seq::new(stacks.len(), |k: int| stacks[k].words);
            all_words(stacks) == (concat_all(parts.take(i)) + stacks[i].words.take(j)) + (
            stacks[i].words.skip(j) + concat_all(parts.skip(i + 1)))
        }),
{
    let parts = Seq::new(stacks.len(), |k: int| stacks[k].words);
    lemma_concat_split(parts, i + 1);
    assert(parts.take(i + 1).drop_last() =~= parts.take(i));
    assert(parts.take(i + 1).last() == stacks[i].words);
    assert(all_words(stacks) =~= (concat_all(parts.take(i)) + stacks[i].words.take(j)) + (
    stacks[i].words.skip(j) + concat_all(parts.skip(i + 1))));
}

proof fn lemma_total_weight_grows(stacks: Seq<WeightedStackView>, i: int)
    requires
        0 <= i <= stacks.len(),
    ensures
        total_weight(stacks.take(i)) <= total_weight(stacks),
    decreases stacks.len() - i,
{
    if i < stacks.len() {
        lemma_total_weight_grows(stacks, i + 1);
        assert(stacks.take(i + 1).drop_last() =~= stacks.take(i));
    } else {
        assert(stacks.take(i) =~= stacks);
    }
}

impl Speedscope {
    /// Numbers the words of weighted stacks.
    pub fn number(stacks: &Vec<WeightedStack>) -> (r: Self)
        requires
            total_weight(weighted_view(stacks@)) <= usize::MAX,
        ensures
            r@ == numbered(weighted_view(stacks@)),
    {
        let ghost views = weighted_view(stacks@);
        let ghost parts = Seq::new(views.len(), |k: int| views[k].words);
        let ghost all = frame_table(views);
        let ghost mut seen: Seq<Seq<char>> = Seq::empty();
        let mut table = NameTable::new();
        let mut samples: Vec<Vec<usize>> = Vec::new();
        let mut weights: Vec<usize> = Vec::new();
        let mut total: usize = 0;
        let mut i: usize = 0;
        assert(parts.take(0) =~= Seq::empty());
        assert(views.take(0) =~= Seq::empty());
        while i < stacks.len()
            invariant
                i <= stacks@.len(),
                views == weighted_view(stacks@),
                parts == Seq::new(views.len(), |k: int| views[k].words),
                all == frame_table(views),
                total_weight(views) <= usize::MAX,
                seen == concat_all(parts.take(i as int)),
                table.wf(),
                table@ == first_occurrences(seen),
                samples@.len() == i,
                forall|k: int|
                    0 <= k < i ==> (#[trigger] samples@[k])@ == sample_of(all, views[k].words),
                weights@.len() == i,
                forall|k: int| 0 <= k < i ==> #[trigger] weights@[k] == views[k].weight,
                total == total_weight(views.take(i as int)),
            decreases stacks@.len() - i,
        {
            let stack = &stacks[i];
            let ghost words = stack@.words;
            let ghost before = seen;
            let mut sample: Vec<usize> = Vec::new();
            let mut j: usize = 0;
            assert(seen =~= before + words.take(0));
            while j < stack.words.len()
                invariant
                    i < stacks@.len(),
                    j <= stack.words@.len(),
                    *stack == stacks@[i as int],
                    words == stack@.words,
                    views == weighted_view(stacks@),
                    parts == Seq::new(views.len(), |k: int| views[k].words),
                    all == frame_table(views),
                    before == concat_all(parts.take(i as int)),
                    seen == before + words.take(j as int),
                    table.wf(),
                    table@ == first_occurrences(seen),
                    sample@ == sample_of(all, words.take(j as int)),
                decreases stack.words@.len() - j,
            {
                let ghost word = stack.words@[j as int]@;
                let idx: usize = table.intern(stack.words[j].as_str());
                sample.push(idx);
                proof {
                    assert(words.take(j + 1) =~= words.take(j as int).push(word));
                    lemma_first_occurrences_push(seen, word);
                    assert(seen.push(word) =~= before + words.take(j + 1));
                    seen = seen.push(word);
                    lemma_words_split(views, i as int, j + 1);
                    lemma_first_occurrences_prefix(
                        seen,
                        words.skip(j + 1) + concat_all(parts.skip(i + 1)),
                    );
                    law_first_occurrences(all_words(views));
                    lemma_place_kept(table@, all, word);
                    assert(sample@ =~= sample_of(all, words.take(j + 1)));
                }
                j += 1;
            }
            proof {
                assert(words.take(j as int) =~= words);
                assert(parts.take(i + 1).drop_last() =~= parts.take(i as int));
                assert(parts.take(i + 1).last() == words);
                lemma_total_weight_grows(views, i + 1);
                assert(views.take(i + 1).drop_last() =~= views.take(i as int));
                assert(views.take(i + 1).last() == views[i as int]);
            }
            samples.push(sample);
            weights.push(stack.weight);
            total = total + stack.weight;
            i += 1;
        }
        assert(parts.take(i as int) =~= parts);
        assert(views.take(i as int) =~= views);
        let r = Speedscope { frames: table.into_names(), samples, weights, total_weight: total };
        assert(r@ =~= numbered(views));
        r
    }
}

pub const SCHEMA: &'static str = "https://www.speedscope.app/file-format-schema.json";

pub const VERSION: &'static str = "0.0.1";

pub const EXPORTER: &'static str = "rpprof";

/// A member of a JSON object.
pub open spec fn member(key: Seq<char>, value: Json) -> Member {
    Member { key, value }
}

/// All samples.
pub open spec fn samples_value(samples: Seq<Seq<usize>>) -> Json {
    Json::List(Seq::new(samples.len(), |i: int| numbers(samples[i])))
}

/// One frame.
pub open spec fn frame_value(name: Seq<char>) -> Json {
    Json::Object(seq![member("name"@, Json::Text(name))])
}

/// All frames.
pub open spec fn frames_value(frames: Seq<Seq<char>>) -> Json {
    Json::List(Seq::new(frames.len(), |i: int| frame_value(frames[i])))
}

/// The profile: its samples and their weights.
pub open spec fn profile_value(name: Seq<char>, s: SpeedscopeView) -> Json {
    Json::Object(
        seq![
            member("type"@, Json::Text("sampled"@)),
            member("name"@, Json::Text(name)),
            member("unit"@, Json::Text("count"@)),
            member("startValue"@, Json::Number(0)),
            member("endValue"@, Json::Number(s.total_weight)),
            member("samples"@, samples_value(s.samples)),
            member("weights"@, numbers(s.weights)),
        ],
    )
}

/// The whole document.
pub open spec fn document(name: Seq<char>, s: SpeedscopeView) -> Json {
    Json::Object(
        seq![
            member("$schema"@, Json::Text(SCHEMA@)),
            member("version"@, Json::Text(VERSION@)),
            member("exporter"@, Json::Text(EXPORTER@)),
            member("name"@, Json::Text(name)),
            member("activeProfileIndex"@, Json::Number(0)),
            member("profiles"@, Json::List(seq![profile_value(name, s)])),
            member("shared"@, Json::Object(seq![member("frames"@, frames_value(s.frames))])),
        ],
    )
}

impl Speedscope {
    fn push_samples(&self, out: &mut String)
        ensures
            final(out)@ == old(out)@ + render(samples_value(self@.samples)),
    {
        let ghost start = out@;
        let ghost all = Seq::new(self@.samples.len(), |i: int| numbers(self@.samples[i]));
        out.push('[');
        let mut i: usize = 0;
        assert(out@ =~= start + open_list(all.take(0)));
        while i < self.samples.len()
            invariant
                i <= self.samples@.len(),
                all == Seq::new(self@.samples.len(), |i: int| numbers(self@.samples[i])),
                out@ == start + open_list(all.take(i as int)),
            decreases self.samples@.len() - i,
        {
            let ghost before = out@;
            if i > 0 {
                out.push(',');
            }
            push_numbers(out, &self.samples[i]);
            proof {
                let item = numbers(self@.samples[i as int]);
                assert(out@ =~= before + (comma(i == 0) + render(item)));
                lemma_next_item(start, all.take(i as int), item);
                assert(all.take(i + 1) =~= all.take(i as int).push(item));
            }
            i += 1;
        }
        out.push(']');
        assert(all.take(i as int) =~= all);
        assert(out@ =~= start + render(Json::List(all)));
    }

    fn push_frames(&self, out: &mut String)
        ensures
            final(out)@ == old(out)@ + render(frames_value(self@.frames)),
    {
        let ghost start = out@;
        let ghost all = Seq::new(self@.frames.len(), |i: int| frame_value(self@.frames[i]));
        out.push('[');
        let mut i: usize = 0;
        assert(out@ =~= start + open_list(all.take(0)));
        while i < self.frames.len()
            invariant
                i <= self.frames@.len(),
                all == Seq::new(self@.frames.len(), |i: int| frame_value(self@.frames[i])),
                out@ == start + open_list(all.take(i as int)),
            decreases self.frames@.len() - i,
        {
            let ghost before = out@;
            if i > 0 {
                out.push(',');
            }
            push_frame(out, self.frames[i].as_str());
            proof {
                let item = frame_value(self@.frames[i as int]);
                assert(out@ =~= before + (comma(i == 0) + render(item)));
                lemma_next_item(start, all.take(i as int), item);
                assert(all.take(i + 1) =~= all.take(i as int).push(item));
            }
            i += 1;
        }
        out.push(']');
        assert(all.take(i as int) =~= all);
        assert(out@ =~= start + render(Json::List(all)));
    }

    fn push_profile(&self, out: &mut String, name: &str)
        ensures
            final(out)@ == old(out)@ + render(profile_value(name@, self@)),
    {
        let ghost start = out@;
        out.push('{');
        let ghost none: Seq<Member> = Seq::empty();
        assert(out@ =~= start + open_object(none));
        push_text_member(out, true, "type", "sampled");
        let ghost m1 = member("type"@, Json::Text("sampled"@));
        let ghost s1 = none.push(m1);
        proof {
            lemma_next_member(start, none, m1);
        }
        push_text_member(out, false, "name", name);
        let ghost m2 = member("name"@, Json::Text(name@));
        let ghost s2 = s1.push(m2);
        proof {
            lemma_next_member(start, s1, m2);
        }
        push_text_member(out, false, "unit", "count");
        let ghost m3 = member("unit"@, Json::Text("count"@));
        let ghost s3 = s2.push(m3);
        proof {
            lemma_next_member(start, s2, m3);
        }
        push_number_member(out, false, "startValue", 0);
        let ghost m4 = member("startValue"@, Json::Number(0));
        let ghost s4 = s3.push(m4);
        proof {
            lemma_next_member(start, s3, m4);
        }
        push_number_member(out, false, "endValue", self.total_weight as u64);
        let ghost m5 = member("endValue"@, Json::Number(self@.total_weight));
        let ghost s5 = s4.push(m5);
        proof {
            lemma_next_member(start, s4, m5);
        }
        let ghost before = out@;
        push_key(out, false, "samples");
        self.push_samples(out);
        let ghost m6 = member("samples"@, samples_value(self@.samples));
        let ghost s6 = s5.push(m6);
        proof {
            lemma_member(before, "samples"@, m6.value);
            lemma_next_member(start, s5, m6);
        }
        let ghost before = out@;
        push_key(out, false, "weights");
        push_numbers(out, &self.weights);
        let ghost m7 = member("weights"@, numbers(self@.weights));
        proof {
            lemma_member(before, "weights"@, m7.value);
            lemma_next_member(start, s6, m7);
        }
        out.push('}');
        proof {
            let all = s6.push(m7);
            assert(all =~= seq![m1, m2, m3, m4, m5, m6, m7]);
            lemma_close(start, all);
        }
    }

    /// Appends the JSON document, in which the profile has the given name.
    pub fn write(&self, out: &mut String, name: &str)
        ensures
            final(out)@ == old(out)@ + render(document(name@, self@)),
    {
        let ghost start = out@;
        out.push('{');
        let ghost none: Seq<Member> = Seq::empty();
        assert(out@ =~= start + open_object(none));
        push_text_member(out, true, "$schema", SCHEMA);
        let ghost m1 = member("$schema"@, Json::Text(SCHEMA@));
        let ghost s1 = none.push(m1);
        proof {
            lemma_next_member(start, none, m1);
        }
        push_text_member(out, false, "version", VERSION);
        let ghost m2 = member("version"@, Json::Text(VERSION@));
        let ghost s2 = s1.push(m2);
        proof {
            lemma_next_member(start, s1, m2);
        }
        push_text_member(out, false, "exporter", EXPORTER);
        let ghost m3 = member("exporter"@, Json::Text(EXPORTER@));
        let ghost s3 = s2.push(m3);
        proof {
            lemma_next_member(start, s2, m3);
        }
        push_text_member(out, false, "name", name);
        let ghost m4 = member("name"@, Json::Text(name@));
        let ghost s4 = s3.push(m4);
        proof {
            lemma_next_member(start, s3, m4);
        }
        push_number_member(out, false, "activeProfileIndex", 0);
        let ghost m5 = member("activeProfileIndex"@, Json::Number(0));
        let ghost s5 = s4.push(m5);
        proof {
            lemma_next_member(start, s4, m5);
        }
        let ghost before = out@;
        push_key(out, false, "profiles");
        let ghost at = out@;
        out.push('[');
        self.push_profile(out, name);
        out.push(']');
        let ghost profile = profile_value(name@, self@);
        let ghost m6 = member("profiles"@, Json::List(seq![profile]));
        let ghost s6 = s5.push(m6);
        proof {
            lemma_single_item(at, profile);
            lemma_member(before, "profiles"@, m6.value);
            lemma_next_member(start, s5, m6);
        }
        let ghost before = out@;
        push_key(out, false, "shared");
        let ghost at = out@;
        out.push('{');
        push_key(out, true, "frames");
        self.push_frames(out);
        out.push('}');
        let ghost inner = member("frames"@, frames_value(self@.frames));
        let ghost m7 = member("shared"@, Json::Object(seq![inner]));
        proof {
            lemma_single_member(at, inner);
            lemma_member(before, "shared"@, m7.value);
            lemma_next_member(start, s6, m7);
        }
        out.push('}');
        proof {
            let all = s6.push(m7);
            assert(all =~= seq![m1, m2, m3, m4, m5, m6, m7]);
            lemma_close(start, all);
        }
    }
}

/// Appends one frame.
fn push_frame(out: &mut String, name: &str)
    ensures
        final(out)@ == old(out)@ + render(frame_value(name@)),
{
    let ghost start = out@;
    out.push('{');
    push_text_member(out, true, "name", name);
    out.push('}');
    proof {
        lemma_single_member(start, member("name"@, Json::Text(name@)));
        let m = member("name"@, Json::Text(name@));
        assert(out@ =~= (start.push('{') + (comma(true) + member_text(m))).push('}'));
        assert(comma(true) + member_text(m) =~= comma(true) + quoted(m.key).push(':') + render(
            m.value,
        ));
    }
}

/// A member whose name and value were appended one after the other.
proof fn lemma_member(before: Seq<char>, key: Seq<char>, value: Json)
    ensures
        (before + (comma(false) + quoted(key).push(':'))) + render(value) == before + (comma(false)
            + member_text(member(key, value))),
{
    assert((before + (comma(false) + quoted(key).push(':'))) + render(value) =~= before + (comma(
        false,
    ) + member_text(member(key, value))));
}

/// A list of one value.
proof fn lemma_single_item(before: Seq<char>, v: Json)
    ensures
        (before.push('[') + render(v)).push(']') == before + render(Json::List(seq![v])),
{
    let items = seq![v];
    let none: Seq<Json> = Seq::empty();
    lemma_next_item(before, none, v);
    assert(items =~= none.push(v));
    assert((before.push('[') + render(v)) =~= (before + open_list(none)) + (comma(true) + render(
        v,
    )));
    assert((before.push('[') + render(v)).push(']') =~= before + render(Json::List(items)));
}

/// An object of one member.
proof fn lemma_single_member(before: Seq<char>, m: Member)
    ensures
        ((before.push('{') + (comma(true) + quoted(m.key).push(':'))) + render(m.value)).push('}')
            == before + render(Json::Object(seq![m])),
{
    let members = seq![m];
    let none: Seq<Member> = Seq::empty();
    lemma_next_member(before, none, m);
    assert(members =~= none.push(m));
    let inside = (before.push('{') + (comma(true) + quoted(m.key).push(':'))) + render(m.value);
    assert(inside =~= (before + open_object(none)) + (comma(true) + member_text(m)));
    assert(inside.push('}') =~= before + render(Json::Object(members)));
}

/// An object is closed.
proof fn lemma_close(before: Seq<char>, members: Seq<Member>)
    ensures
        (before + open_object(members)).push('}') == before + render(Json::Object(members)),
{
    assert((before + open_object(members)).push('}') =~= before + render(Json::Object(members)));
}

/// The document reads back as JSON.
pub proof fn law_document_reads_back(name: Seq<char>, s: SpeedscopeView)
    ensures
        read_value(render(document(name, s))) == Some((document(name, s), Seq::<char>::empty())),
{
    law_value_reads_back(document(name, s), Seq::empty());
    let text = render(document(name, s));
    assert(text + Seq::<char>::empty() =~= text);
}

/// The members of the document and of its profile are found under their names.
pub proof fn law_document_fields(name: Seq<char>, s: SpeedscopeView)
    ensures
        ({
            let j = document(name, s);
            let profile = profile_value(name, s);
            &&& field(j, "name"@) == Some(Json::Text(name))
            &&& field(j, "profiles"@) == Some(Json::List(seq![profile]))
            &&& field(j, "shared"@) matches Some(shared) && field(shared, "frames"@) == Some(
                frames_value(s.frames),
            )
            &&& field(profile, "name"@) == Some(Json::Text(name))
            &&& field(profile, "startValue"@) == Some(Json::Number(0))
            &&& field(profile, "endValue"@) == Some(Json::Number(s.total_weight))
            &&& field(profile, "samples"@) == Some(samples_value(s.samples))
            &&& field(profile, "weights"@) == Some(numbers(s.weights))
        }),
{
    reveal_strlit("$schema");
    reveal_strlit("version");
    reveal_strlit("exporter");
    reveal_strlit("name");
    reveal_strlit("activeProfileIndex");
    reveal_strlit("profiles");
    reveal_strlit("shared");
    reveal_strlit("type");
    reveal_strlit("unit");
    reveal_strlit("startValue");
    reveal_strlit("endValue");
    reveal_strlit("samples");
    reveal_strlit("weights");
    reveal_strlit("frames");
    assert("name"@[0] == 'n' && "type"@[0] == 't' && "unit"@[0] == 'u');
    assert("version"@[0] == 'v' && "$schema"@[0] == '$' && "exporter"@[0] == 'e');
    assert("profiles"@[0] == 'p' && "samples"@[0] == 's' && "weights"@[0] == 'w');
    assert("shared"@[0] == 's' && "activeProfileIndex"@[0] == 'a');
    let j = document(name, s);
    let members = j->Object_0;
    lemma_field(members, 3);
    lemma_field(members, 5);
    lemma_field(members, 6);
    let shared = seq![member("frames"@, frames_value(s.frames))];
    lemma_field(shared, 0);
    let profile = profile_value(name, s)->Object_0;
    lemma_field(profile, 1);
    lemma_field(profile, 3);
    assert("startValue"@.len() == 10 && "endValue"@.len() == 8 && "samples"@.len() == 7);
    assert("type"@.len() == 4 && "name"@.len() == 4 && "unit"@.len() == 4);
    lemma_field(profile, 4);
    lemma_field(profile, 5);
    lemma_field(profile, 6);
}

/// The sum of the weights.
pub open spec fn weight_sum(weights: Seq<usize>) -> nat
    decreases weights.len(),
{
    if weights.len() == 0 {
        0
    } else {
        weight_sum(weights.drop_last()) + weights.last() as nat
    }
}

/// The weights of numbered stacks add up to the total.
pub proof fn lemma_weight_sum(stacks: Seq<WeightedStackView>)
    ensures
        weight_sum(numbered(stacks).weights) == total_weight(stacks),
    decreases stacks.len(),
{
    let weights = numbered(stacks).weights;
    if stacks.len() > 0 {
        lemma_weight_sum(stacks.drop_last());
        assert(weights.drop_last() =~= numbered(stacks.drop_last()).weights);
    }
}

/// Every sample leads back to the words of its stack, and the weights add up to the
/// end value of the document.
pub proof fn law_numbered_reads_back(stacks: Seq<WeightedStackView>)
    requires
        frame_table(stacks).len() <= usize::MAX,
    ensures
        ({
            let s = numbered(stacks);
            &&& s.frames.no_duplicates()
            &&& s.samples.len() == stacks.len()
            &&& s.weights.len() == stacks.len()
            &&& s.total_weight == total_weight(stacks)
            &&& forall|i: int|
                0 <= i < stacks.len() ==> {
                    let sample = #[trigger] s.samples[i];
                    &&& s.weights[i] == stacks[i].weight
                    &&& sample.len() == stacks[i].words.len()
                    &&& forall|j: int|
                        0 <= j < sample.len() ==> {
                            &&& (#[trigger] sample[j]) < s.frames.len()
                            &&& s.frames[sample[j] as int] == stacks[i].words[j]
                        }
                }
        }),
{
    let s = numbered(stacks);
    let parts = Seq::new(stacks.len(), |k: int| stacks[k].words);
    law_first_occurrences(all_words(stacks));
    assert forall|i: int| 0 <= i < stacks.len() implies {
        let sample = #[trigger] s.samples[i];
        &&& s.weights[i] == stacks[i].weight
        &&& sample.len() == stacks[i].words.len()
        &&& forall|j: int|
            0 <= j < sample.len() ==> {
                &&& (#[trigger] sample[j]) < s.frames.len()
                &&& s.frames[sample[j] as int] == stacks[i].words[j]
            }
    } by {
        let sample = s.samples[i];
        assert forall|j: int| 0 <= j < sample.len() implies {
            &&& (#[trigger] sample[j]) < s.frames.len()
            &&& s.frames[sample[j] as int] == stacks[i].words[j]
        } by {
            let word = stacks[i].words[j];
            assert(parts[i].contains(word));
            lemma_concat_contains(parts, i, word);
            assert(s.frames.contains(word));
            let p = place(s.frames, word);
            assert(0 <= p < s.frames.len() && s.frames[p] == word);
        }
    }
}

} // verus!
