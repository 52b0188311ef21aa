//! Laws of numbers in text, of times, and of requests for a profile.

use vstd::prelude::*;

use crate::builder::{Collected, ReportBuilder};
use crate::frames::Frames;
use crate::text::{chars_of, decimal, digit, push_decimal, push_joined, push_signed, texts};
use crate::timer::{ClockType, Duration, ReportTiming, Timestamp};
use crate::{profile, profile_wall, profile_with_frequency, ProfileRequest};

verus! {

/// A number of one digit is that digit; one of more is the number of its tenth, and the
/// last digit behind it.
pub proof fn law_decimal(n: nat, d: nat)
    requires
        d < 10,
    ensures
        decimal(d) == seq![(48 + d) as char],
        n > 0 ==> decimal(10 * n + d) == decimal(n).push((48 + d) as char),
{
    if n > 0 {
        assert((10 * n + d) / 10 == n);
        assert((10 * n + d) % 10 == d);
    }
}

/// Numbers are appended in decimal, with a minus sign below zero.
pub proof fn law_numbers_appended(n: u64, a: &mut String, m: i64, b: &mut String)
    requires
        call_ensures(push_decimal, (a, n), ()),
        call_ensures(push_signed, (b, m), ()),
    ensures
        final(a)@ == old(a)@ + decimal(n as nat),
        m >= 0 ==> final(b)@ == old(b)@ + decimal(m as nat),
        m < 0 ==> final(b)@ == old(b)@ + seq!['-'] + decimal((-m) as nat),
{
    if m < 0 {
        assert(old(b)@ + (seq!['-'] + decimal((-m) as nat)) =~= old(b)@ + seq!['-'] + decimal(
            (-m) as nat,
        ));
    }
}

/// Joined parts: the first, and each other one behind a separator.
pub proof fn law_joined(parts: &Vec<String>, sep: char, out: &mut String)
    requires
        call_ensures(push_joined, (out, parts, sep), ()),
    ensures
        parts@.len() == 0 ==> final(out)@ == old(out)@,
        parts@.len() > 0 ==> final(out)@ == old(out)@ + parts@[0]@ + parts@.skip(1).map_values(
            |p: String| seq![sep] + p@,
        ).flatten(),
{
    lemma_join(texts(parts@), sep);
    if parts@.len() > 0 {
        let each = |p: String| seq![sep] + p@;
        let of = |p: Seq<char>| seq![sep] + p;
        assert(parts@.skip(1).map_values(each) =~= texts(parts@).skip(1).map_values(of));
        assert(final(out)@ =~= old(out)@ + parts@[0]@ + parts@.skip(1).map_values(each).flatten());
    }
}

/// Joined parts: the first, and each other one behind a separator.
pub proof fn lemma_join(parts: Seq<Seq<char>>, sep: char)
    ensures
        parts.len() == 0 ==> crate::text::join(parts, sep) == Seq::<char>::empty(),
        parts.len() > 0 ==> crate::text::join(parts, sep) == parts[0] + parts.skip(1).map_values(
            |p: Seq<char>| seq![sep] + p,
        ).flatten(),
    decreases parts.len(),
{
    let each = |p: Seq<char>| seq![sep] + p;
    if parts.len() == 1 {
        assert(parts.skip(1).map_values(each).flatten() =~= Seq::empty());
        assert(crate::text::join(parts, sep) =~= parts[0] + parts.skip(1).map_values(
            each,
        ).flatten());
    } else if parts.len() > 1 {
        let shorter = parts.drop_last();
        lemma_join(shorter, sep);
        let some = shorter.skip(1).map_values(each);
        assert(parts.skip(1).map_values(each) =~= some.push(each(parts.last())));
        some.lemma_flatten_push(each(parts.last()));
        assert(crate::text::join(parts, sep) =~= parts[0] + parts.skip(1).map_values(
            each,
        ).flatten());
    }
}

/// The characters of a text are its characters, and the digits are those from 0 to 9.
pub proof fn law_characters(text: &String, chars: Vec<char>, c: char, r: bool)
    requires
        call_ensures(chars_of, (text,), chars),
        call_ensures(digit, (c,), r),
    ensures
        chars@ == text@,
        r <==> 48 <= c as u32 <= 57,
{
}

/// A span of time is its seconds and its nanoseconds together.
pub proof fn law_duration(
    secs: u64,
    millis: u64,
    of_secs: Duration,
    of_millis: Duration,
    d: &Duration,
    nanos: u128,
)
    requires
        call_ensures(Duration::from_secs, (secs,), of_secs),
        call_ensures(Duration::from_millis, (millis,), of_millis),
        call_ensures(Duration::as_nanos, (d,), nanos),
    ensures
        of_secs.secs == secs && of_secs.nanos == 0,
        of_millis.secs * 1_000_000_000 + of_millis.nanos == millis * 1_000_000,
        of_millis.nanos < 1_000_000_000,
        nanos == d.secs * 1_000_000_000 + d.nanos,
{
}

/// A point in time is told by its distance from the Unix epoch, as none before it.
pub proof fn law_timestamp(t: &Timestamp, epoch: Timestamp, nanos: i64)
    requires
        call_ensures(Timestamp::unix_epoch, (), epoch),
        call_ensures(Timestamp::epoch_nanos, (t,), nanos),
    ensures
        epoch.nanos == 0,
        t.nanos <= 0 ==> nanos == 0,
        0 <= t.nanos <= i64::MAX ==> nanos == t.nanos,
        t.nanos > 0 ==> nanos == t.nanos as u128 as i64,
{
}

/// A profile that is asked for has the frequency, the clock and the duration that were
/// asked for: 99 samples per second of CPU time where nothing else was.
pub proof fn law_requests(
    frequency: i32,
    duration: Duration,
    cpu: ProfileRequest,
    custom: ProfileRequest,
    wall: ProfileRequest,
)
    requires
        call_ensures(profile, (duration,), cpu),
        call_ensures(profile_with_frequency, (frequency, duration), custom),
        call_ensures(profile_wall, (duration,), wall),
    ensures
        cpu.frequency == 99 && cpu.clock_type == ClockType::Cpu && cpu.duration == duration,
        custom.frequency == frequency && custom.clock_type == ClockType::Cpu,
        custom.duration == duration,
        wall.frequency == 99 && wall.clock_type == ClockType::Wall && wall.duration == duration,
{
}

/// The report of a request tells the frequency and the clock of the request, and the start
/// and the time that went by.
pub proof fn law_request_timing<P: Fn(Frames) -> Frames>(
    request: &ProfileRequest,
    start: Timestamp,
    elapsed: Duration,
    profiler: Collected,
    missed: u64,
    timing: ReportTiming,
    builder: ReportBuilder<P>,
)
    requires
        call_ensures(ProfileRequest::timing, (request, start, elapsed), timing),
        call_ensures(
            ProfileRequest::report::<P>,
            (request, profiler, start, elapsed, missed),
            builder,
        ),
    ensures
        timing.frequency == request.frequency,
        timing.clock_type == request.clock_type,
        timing.start_time == start,
        timing.duration == elapsed,
        builder.timing == timing,
        builder.profiler == profiler,
        builder.missed_samples == missed,
        builder.frames_post_processor is None,
{
}

} // verus!
