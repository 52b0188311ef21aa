//! Testing whether an address can be read, by having the kernel copy from it into a
//! pipe. What to ask of the kernel next, and what its reply means, is decided here;
//! the calls are the caller's.

use vstd::layout;
use vstd::prelude::*;

verus! {

/// The two ends of a pipe; negative before it is first opened.
#[derive(Clone, Copy, Debug, PartialEq, Eq, Structural)]
pub struct Pipes {
    pub read_fd: i32,
    pub write_fd: i32,
}

impl Pipes {
    /// A pipe that is not open yet.
    pub fn new() -> (r: Self)
        ensures
            r.read_fd == -1,
            r.write_fd == -1,
    {
        Pipes { read_fd: -1, write_fd: -1 }
    }
}

/// What to do next.
#[derive(Clone, Copy, Debug, PartialEq, Eq, Structural)]
pub enum Step {
    /// Read from the pipe, so that it does not fill up.
    Read { fd: i32, len: usize },
    /// Close both ends and open a new pipe that does not block.
    Reopen { read_fd: i32, write_fd: i32 },
    /// Write to the pipe from the address under test.
    Write { fd: i32, addr: usize, len: usize },
    /// Nothing: this is whether the address can be read.
    Answer(bool),
}

/// What came of a step.
#[derive(Clone, Copy, Debug, PartialEq, Eq, Structural)]
pub enum Outcome {
    /// So many bytes were read or written.
    Bytes(usize),
    /// The call was interrupted by a signal.
    Interrupted,
    /// The call would have had to wait.
    WouldBlock,
    /// The call failed in another way.
    Failed,
    /// A pipe was opened.
    Opened { read_fd: i32, write_fd: i32 },
}

/// The number of bytes that are tested: two addresses.
pub open spec fn spec_check_length() -> usize {
    (2 * layout::size_of::<usize>()) as usize
}

/// The number of bytes that are tested: two addresses.
#[verifier::when_used_as_spec(spec_check_length)]
pub fn check_length() -> (r: usize)
    ensures
        r == spec_check_length(),
        r == 2 * layout::size_of::<usize>(),
{
    broadcast use layout::layout_of_primitives;

    2 * core::mem::size_of::<usize>()
}

/// The step that opens a new pipe in place of the old one.
pub open spec fn reopen(pipes: Pipes) -> Step {
    Step::Reopen { read_fd: pipes.read_fd, write_fd: pipes.write_fd }
}

/// The step that writes from the address.
pub open spec fn write_from(addr: usize, pipes: Pipes) -> Step {
    Step::Write { fd: pipes.write_fd, addr, len: check_length() }
}

/// The first step of a test.
pub open spec fn first_step(addr: usize, pipes: Pipes) -> Step {
    if addr == 0 {
        Step::Answer(false)
    } else if pipes.read_fd < 0 {
        reopen(pipes)
    } else {
        Step::Read { fd: pipes.read_fd, len: check_length() }
    }
}

/// The pipe after a step.
pub open spec fn pipes_after(pipes: Pipes, step: Step, outcome: Outcome) -> Pipes {
    match (step, outcome) {
        (Step::Reopen { .. }, Outcome::Opened { read_fd, write_fd }) => Pipes { read_fd, write_fd },
        _ => pipes,
    }
}

/// The step that follows a step, given what came of it and the pipe after it.
pub open spec fn next_step(addr: usize, pipes: Pipes, step: Step, outcome: Outcome) -> Step {
    match step {
        Step::Read { .. } => match outcome {
            Outcome::Interrupted => step,
            Outcome::Bytes(n) if n > 0 => write_from(addr, pipes),
            Outcome::WouldBlock => write_from(addr, pipes),
            _ => reopen(pipes),
        },
        Step::Reopen { .. } => match outcome {
            Outcome::Opened { .. } => write_from(addr, pipes),
            _ => Step::Answer(false),
        },
        Step::Write { .. } => match outcome {
            Outcome::Interrupted => step,
            Outcome::Bytes(n) => Step::Answer(n > 0),
            _ => Step::Answer(false),
        },
        Step::Answer(_) => step,
    }
}

/// Begins to test whether the address `addr` can be read.
pub fn validate(addr: usize, pipes: &Pipes) -> (r: Step)
    ensures
        r == first_step(addr, *pipes),
{
    if addr == 0 {
        return Step::Answer(false);
    }
    if pipes.read_fd < 0 {
        Step::Reopen { read_fd: pipes.read_fd, write_fd: pipes.write_fd }
    } else {
        Step::Read { fd: pipes.read_fd, len: check_length() }
    }
}

/// Goes on with a test after a step: keeps the pipe that was opened, if one was, and
/// tells the step that follows.
pub fn advance(addr: usize, pipes: &mut Pipes, step: Step, outcome: Outcome) -> (r: Step)
    ensures
        *final(pipes) == pipes_after(*old(pipes), step, outcome),
        r == next_step(addr, *final(pipes), step, outcome),
{
    let retry = matches!(outcome, Outcome::Interrupted);
    match step {
        Step::Read { .. } => {
            if retry {
                return step;
            }
            let valid_read = match outcome {
                Outcome::Bytes(n) => n > 0,
                Outcome::WouldBlock => true,
                _ => false,
            };
            if !valid_read {
                return Step::Reopen { read_fd: pipes.read_fd, write_fd: pipes.write_fd };
            }
        },
        Step::Reopen { .. } => match outcome {
            Outcome::Opened { read_fd, write_fd } => {
                *pipes = Pipes { read_fd, write_fd };
            },
            _ => {
                return Step::Answer(false);
            },
        },
        Step::Write { .. } => {
            if retry {
                return step;
            }
            return match outcome {
                Outcome::Bytes(n) => Step::Answer(n > 0),
                _ => Step::Answer(false),
            };
        },
        Step::Answer(_) => {
            return step;
        },
    }
    Step::Write { fd: pipes.write_fd, addr, len: check_length() }
}

/// Where a test stands after a row of outcomes.
pub open spec fn run(addr: usize, pipes: Pipes, outcomes: Seq<Outcome>) -> (Pipes, Step)
    decreases outcomes.len(),
{
    if outcomes.len() == 0 {
        (pipes, first_step(addr, pipes))
    } else {
        let (before, step) = run(addr, pipes, outcomes.drop_last());
        let after = pipes_after(before, step, outcomes.last());
        (after, next_step(addr, after, step, outcomes.last()))
    }
}

/// The null address is refused, and nothing is asked of the kernel.
pub proof fn law_null_refused(pipes: Pipes, outcomes: Seq<Outcome>)
    ensures
        run(0, pipes, outcomes) == (pipes, Step::Answer(false)),
    decreases outcomes.len(),
{
    if outcomes.len() > 0 {
        law_null_refused(pipes, outcomes.drop_last());
    }
}

/// The outcomes other than interruptions.
pub open spec fn uninterrupted(outcomes: Seq<Outcome>) -> Seq<Outcome>
    decreases outcomes.len(),
{
    if outcomes.len() == 0 {
        Seq::empty()
    } else if outcomes.last() is Interrupted {
        uninterrupted(outcomes.drop_last())
    } else {
        uninterrupted(outcomes.drop_last()).push(outcomes.last())
    }
}

/// No opening of a pipe is interrupted (one that is counts as failed, and is not tried
/// again).
pub open spec fn opens_uninterrupted(addr: usize, pipes: Pipes, outcomes: Seq<Outcome>) -> bool {
    forall|i: int|
        0 <= i < outcomes.len() && (#[trigger] outcomes[i]) is Interrupted ==> !(run(
            addr,
            pipes,
            outcomes.take(i),
        ).1 is Reopen)
}

/// Interruptions of reads and writes change nothing: the test stands where it would
/// without them.
pub proof fn law_interruptions_change_nothing(addr: usize, pipes: Pipes, outcomes: Seq<Outcome>)
    requires
        opens_uninterrupted(addr, pipes, outcomes),
    ensures
        run(addr, pipes, outcomes) == run(addr, pipes, uninterrupted(outcomes)),
    decreases outcomes.len(),
{
    if outcomes.len() > 0 {
        let shorter = outcomes.drop_last();
        assert forall|i: int|
            0 <= i < shorter.len() && (#[trigger] shorter[i]) is Interrupted implies !(run(
            addr,
            pipes,
            shorter.take(i),
        ).1 is Reopen) by {
            assert(outcomes[i] is Interrupted);
            assert(shorter.take(i) =~= outcomes.take(i));
        }
        law_interruptions_change_nothing(addr, pipes, shorter);
        assert(outcomes.take(outcomes.len() - 1) =~= shorter);
        assert(outcomes[outcomes.len() - 1] == outcomes.last());
        let kept = uninterrupted(shorter);
        assert(kept.push(outcomes.last()).drop_last() =~= kept);
    }
}

/// An address passes only when the kernel has copied bytes from it: the last step
/// was a write from this address, and it wrote something.
pub proof fn law_only_a_write_passes(addr: usize, pipes: Pipes, outcomes: Seq<Outcome>)
    requires
        run(addr, pipes, outcomes).1 == Step::Answer(true),
    ensures
        exists|i: int|
            0 <= i < outcomes.len() && {
                &&& (#[trigger] outcomes[i]) matches Outcome::Bytes(n) && n > 0
                &&& run(addr, pipes, outcomes.take(i)).1 matches Step::Write { addr: from, len, .. }
                    && from == addr && len == check_length()
            },
    decreases outcomes.len(),
{
    if outcomes.len() > 0 {
        let shorter = outcomes.drop_last();
        let last = outcomes.len() - 1;
        assert(outcomes.take(last) =~= shorter);
        lemma_write_is_of_address(addr, pipes, shorter);
        if run(addr, pipes, shorter).1 == Step::Answer(true) {
            law_only_a_write_passes(addr, pipes, shorter);
            let i = choose|i: int|
                0 <= i < shorter.len() && {
                    &&& (#[trigger] shorter[i]) matches Outcome::Bytes(n) && n > 0
                    &&& run(addr, pipes, shorter.take(i)).1 matches Step::Write {
                        addr: from,
                        len,
                        ..
                    } && from == addr && len == check_length()
                };
            assert(shorter[i] == outcomes[i]);
            assert(shorter.take(i) =~= outcomes.take(i));
        } else {
            assert(outcomes[last] == outcomes.last());
        }
    }
}

proof fn lemma_write_is_of_address(addr: usize, pipes: Pipes, outcomes: Seq<Outcome>)
    ensures
        run(addr, pipes, outcomes).1 matches Step::Write { fd, addr: from, len } ==> from == addr
            && len == check_length() && fd == run(addr, pipes, outcomes).0.write_fd,
    decreases outcomes.len(),
{
    if outcomes.len() > 0 {
        lemma_write_is_of_address(addr, pipes, outcomes.drop_last());
    }
}

/// A test ends: three calls that are not interrupted are enough for an answer.
pub proof fn law_three_calls_answer(addr: usize, pipes: Pipes, a: Outcome, b: Outcome, c: Outcome)
    requires
        !(a is Interrupted),
        !(b is Interrupted),
        !(c is Interrupted),
    ensures
        run(addr, pipes, seq![a, b, c]).1 is Answer,
{
    let one = seq![a];
    let two = seq![a, b];
    let three = seq![a, b, c];
    assert(one.drop_last() =~= Seq::empty());
    assert(two.drop_last() =~= one);
    assert(three.drop_last() =~= two);
    assert(run(addr, pipes, Seq::empty()) == (pipes, first_step(addr, pipes)));
    assert(run(addr, pipes, one).1 is Read ==> false);
    assert(run(addr, pipes, two).1 is Write || run(addr, pipes, two).1 is Answer);
}

/// A pipe that could not be opened leaves the old one in place and fails the test.
pub proof fn law_failed_open(addr: usize, pipes: Pipes, outcome: Outcome)
    requires
        !(outcome is Opened),
    ensures
        pipes_after(pipes, reopen(pipes), outcome) == pipes,
        next_step(addr, pipes, reopen(pipes), outcome) == Step::Answer(false),
{
}

} // verus!
