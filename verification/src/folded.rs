//! Folded stacks: one line per stack, the calls from the outermost to the innermost
//! with semicolons between them, then a count.

use vstd::prelude::*;

use crate::text::{join, push_joined, push_signed, signed_decimal, texts};

verus! {

/// A stack as words (the thread, then the calls from the outermost to the innermost)
/// with its weight.
#[derive(Debug)]
pub struct WeightedStack {
    pub words: Vec<String>,
    pub weight: usize,
}

/// The contents of a `WeightedStack`.
#[verifier::ext_equal]
pub struct WeightedStackView {
    pub words: Seq<Seq<char>>,
    pub weight: usize,
}

impl View for WeightedStack {
    type V = WeightedStackView;

    open spec fn view(&self) -> WeightedStackView {
        WeightedStackView { words: texts(self.words@), weight: self.weight }
    }
}

/// The contents of a list of stacks.
pub open spec fn weighted_view(stacks: Seq<WeightedStack>) -> Seq<WeightedStackView> {
    Seq::new(stacks.len(), |i: int| stacks[i]@)
}

/// The sum of the weights.
pub open spec fn total_weight(stacks: Seq<WeightedStackView>) -> nat
    decreases stacks.len(),
{
    if stacks.len() == 0 {
        0
    } else {
        total_weight(stacks.drop_last()) + stacks.last().weight as nat
    }
}

/// One stack and its count.
pub open spec fn stack_line(words: Seq<Seq<char>>, count: int) -> Seq<char> {
    join(words, ';').push(' ') + signed_decimal(count)
}

/// Appends one stack and its count.
pub fn push_stack_line(out: &mut String, words: &Vec<String>, count: i64)
    ensures
        final(out)@ == old(out)@ + stack_line(texts(words@), count as int),
{
    let ghost start = out@;
    push_joined(out, words, ';');
    out.push(' ');
    push_signed(out, count);
    assert(out@ =~= start + stack_line(texts(words@), count as int));
}

/// Folded stacks, one per line.
pub open spec fn folded(stacks: Seq<WeightedStackView>) -> Seq<char>
    decreases stacks.len(),
{
    if stacks.len() == 0 {
        Seq::empty()
    } else {
        folded(stacks.drop_last()) + stack_line(
            stacks.last().words,
            stacks.last().weight as int,
        ).push('\n')
    }
}

/// Appends folded stacks, one per line.
pub fn push_folded(out: &mut String, stacks: &Vec<WeightedStack>)
    requires
        forall|i: int| 0 <= i < stacks@.len() ==> (#[trigger] stacks@[i]).weight <= isize::MAX,
    ensures
        final(out)@ == old(out)@ + folded(weighted_view(stacks@)),
{
    let ghost start = out@;
    let ghost all = weighted_view(stacks@);
    let mut i: usize = 0;
    assert(out@ =~= start + folded(all.take(0)));
    while i < stacks.len()
        invariant
            i <= stacks@.len(),
            all == weighted_view(stacks@),
            forall|i: int| 0 <= i < stacks@.len() ==> (#[trigger] stacks@[i]).weight <= isize::MAX,
            out@ == start + folded(all.take(i as int)),
        decreases stacks@.len() - i,
    {
        push_stack_line(out, &stacks[i].words, stacks[i].weight as i64);
        out.push('\n');
        proof {
            assert(all.take(i + 1).drop_last() =~= all.take(i as int));
            assert(all.take(i + 1).last() == all[i as int]);
            assert(out@ =~= start + folded(all.take(i + 1)));
        }
        i += 1;
    }
    assert(all.take(i as int) =~= all);
}

} // verus!
