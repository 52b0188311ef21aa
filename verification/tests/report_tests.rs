use rpprof::builder::{Collected, ReportBuilder};
use rpprof::folded::WeightedStack;
use rpprof::frames::{Frames, Symbol, UnresolvedFrames};
use rpprof::report::{Report, UnresolvedReport};
use rpprof::resolve::{resolve_frames, with_symbols};
use rpprof::json::push_escaped;
use rpprof::speedscope::Speedscope;
use rpprof::text::{push_decimal, push_joined, push_signed};
use rpprof::timer::{ClockType, Duration, ReportTiming, Timestamp};
use rpprof::{profile, profile_wall, profile_with_frequency, Error, ProfileRequest};

type Processor = fn(Frames) -> Frames;

fn symbol(name: &str) -> Symbol {
    Symbol { name: Some(name.as_bytes().to_vec()), addr: None, lineno: Some(10), filename: None }
}

fn stack(thread: &str, names: &[&str]) -> Frames {
    let mut frames: Vec<Vec<Symbol>> = Vec::new();
    for name in names {
        frames.push(vec![symbol(name)]);
    }
    Frames {
        frames,
        thread_name: thread.to_string(),
        thread_id: 1,
        sample_timestamp: Timestamp::unix_epoch(),
    }
}

fn timing() -> ReportTiming {
    ReportTiming {
        frequency: 100,
        start_time: Timestamp::unix_epoch(),
        duration: Duration::from_secs(2),
        clock_type: ClockType::Cpu,
    }
}

fn report(data: Vec<(Frames, isize)>) -> Report {
    Report { data, timing: timing(), missed_samples: 0 }
}

fn addresses(ips: &[usize]) -> UnresolvedFrames {
    UnresolvedFrames {
        frames: ips.to_vec(),
        thread_name: "main".to_string(),
        thread_id: 1,
        sample_timestamp: Timestamp::unix_epoch(),
    }
}

/// Names each address after its number.
fn resolve(item: &UnresolvedFrames) -> Frames {
    let mut frames: Vec<Vec<Symbol>> = Vec::new();
    for ip in &item.frames {
        frames.push(vec![symbol(&format!("f{}", ip))]);
    }
    Frames {
        frames,
        thread_name: item.thread_name.clone(),
        thread_id: item.thread_id,
        sample_timestamp: item.sample_timestamp,
    }
}

fn builder(profiler: Collected) -> ReportBuilder<Processor> {
    ReportBuilder::new(profiler, timing(), 7)
}

fn folded(report: &Report) -> String {
    let mut out = String::new();
    report.write_folded(&mut out);
    out
}

#[test]
fn test_report_metrics_and_folded() {
    let frames = Frames {
        frames: vec![vec![Symbol {
            name: Some(b"my_func".to_vec()),
            addr: None,
            lineno: Some(10),
            filename: None,
        }]],
        thread_name: "main".to_string(),
        thread_id: 1,
        sample_timestamp: Timestamp::unix_epoch(),
    };

    let report = Report {
        data: vec![(frames, 42)],
        timing: ReportTiming {
            frequency: 100,
            start_time: Timestamp::unix_epoch(),
            duration: Duration::from_secs(2),
            clock_type: ClockType::Cpu,
        },
        missed_samples: 0,
    };

    assert_eq!(report.total_samples(), 42);
    assert_eq!(report.unique_stacks(), 1);
    assert_eq!(report.duration(), Duration::from_secs(2));
    let (samples, nanos) = report.samples_over_duration().unwrap();
    assert_eq!(samples as f64 / (nanos as f64 / 1e9), 21.0);
    assert_eq!(report.clock_type(), ClockType::Cpu);

    let folded_str = folded(&report);
    assert!(folded_str.contains("main;my_func 42"));

    let mut speedscope_str = String::new();
    report.write_speedscope(&mut speedscope_str, "test_profile");
    assert!(speedscope_str.contains("\"exporter\":\"rpprof\""));
    assert!(speedscope_str.contains("\"name\":\"test_profile\""));
    assert!(speedscope_str.contains("\"name\":\"my_func\""));
}

#[test]
fn test_top_level_profile_helpers() {
    let request = profile(Duration::from_millis(50));
    let report = request
        .report::<Processor>(
            Collected::Entries(vec![]),
            Timestamp::unix_epoch(),
            Duration::from_millis(50),
            0,
        )
        .build()
        .unwrap();
    assert_eq!(report.clock_type(), ClockType::Cpu);

    let wall_request = profile_wall(Duration::from_millis(50));
    let wall_report = wall_request
        .report::<Processor>(
            Collected::Entries(vec![]),
            Timestamp::unix_epoch(),
            Duration::from_millis(50),
            0,
        )
        .build()
        .unwrap();
    assert_eq!(wall_report.clock_type(), ClockType::Wall);
}

#[test]
fn profile_requests_hold_what_was_asked() {
    let second = Duration::from_secs(1);
    assert_eq!(
        profile(second),
        ProfileRequest { frequency: 99, clock_type: ClockType::Cpu, duration: second }
    );
    assert_eq!(
        profile_with_frequency(250, second),
        ProfileRequest { frequency: 250, clock_type: ClockType::Cpu, duration: second }
    );
    assert_eq!(
        profile_wall(second),
        ProfileRequest { frequency: 99, clock_type: ClockType::Wall, duration: second }
    );
}

#[test]
fn durations_and_timestamps() {
    assert_eq!(Duration::from_millis(1500), Duration { secs: 1, nanos: 500_000_000 });
    assert_eq!(Duration::from_millis(1500).as_nanos(), 1_500_000_000);
    assert_eq!(Timestamp { nanos: 17 }.epoch_nanos(), 17);
    assert_eq!(Timestamp { nanos: -17 }.epoch_nanos(), 0);
    assert_eq!(Timestamp { nanos: (1i128 << 64) + 5 }.epoch_nanos(), 5);
}

#[test]
fn a_report_without_duration_has_no_rate() {
    let mut r = report(vec![(stack("main", &["f"]), 3)]);
    r.timing.duration = Duration::from_secs(0);
    assert_eq!(r.samples_over_duration(), None);
}

#[test]
fn stacks_that_were_not_seen_do_not_count() {
    let r = report(vec![
        (stack("main", &["inner", "outer"]), 3),
        (stack("main", &["gone"]), 0),
        (stack("main", &["negative"]), -4),
    ]);
    assert_eq!(r.total_samples(), 3);
    assert_eq!(r.unique_stacks(), 3);
    assert_eq!(folded(&r), "main;outer;inner 3\n");
}

#[test]
fn totals_that_are_too_large_are_told() {
    let r = report(vec![
        (stack("a", &["f"]), isize::MAX),
        (stack("b", &["f"]), isize::MAX),
        (stack("c", &["f"]), 1),
    ]);
    assert_eq!(r.checked_total_samples(), Some(usize::MAX));
    let r = report(vec![
        (stack("a", &["f"]), isize::MAX),
        (stack("b", &["f"]), isize::MAX),
        (stack("c", &["f"]), 2),
    ]);
    assert_eq!(r.checked_total_samples(), None);
}

#[test]
fn a_thread_without_a_name_goes_by_its_id() {
    let mut frames = stack("", &["f"]);
    frames.thread_id = 4711;
    assert_eq!(frames.thread_name_or_id(), "4711");
    assert_eq!(folded(&report(vec![(frames, 1)])), "4711;f 1\n");
    assert_eq!(folded(&report(vec![(stack("idle", &[]), 2)])), "idle 2\n");
}

#[test]
fn human_readable_report() {
    let mut out = String::new();
    let mut nameless = stack("", &["h"]);
    nameless.thread_id = 9;
    report(vec![(stack("main", &["f", "g"]), 5), (nameless, -1)]).write_debug(&mut out);
    assert_eq!(
        out,
        "FRAME: f -> FRAME: g -> THREAD: main 5\nFRAME: h -> THREAD: ThreadId(9) -1\n"
    );
}

#[test]
fn symbols_show_demangled_names() {
    let mangled = symbol("_ZN3foo3barEv");
    assert_eq!(mangled.name(), "foo::bar()");
    assert_eq!(mangled.sys_name(), "_ZN3foo3barEv");
    assert_eq!(symbol("plain").name(), "plain");
    for edge in [
        "_Z1fT9223372036854775807_",
        "_Z1fT9223372036854775807",
        "_Z1fIT9223372036854775807EvT_",
    ] {
        assert_eq!(symbol(edge).name(), edge);
    }
    assert_eq!(symbol("_Z1fT92233720368547758070_").name(), "_Z1fT92233720368547758070_");
    for (raw, name) in [
        ("T9223372036854775807", "T9223372036854775807"),
        ("_Z20T9223372036854775807v", "T9223372036854775807()"),
        ("_ZN3foo20T9223372036854775807E", "foo::T9223372036854775807"),
        ("_RNvC3foo20T9223372036854775807", "foo::T9223372036854775807"),
        ("_Z1f20T9223372036854775807S_", "f(T9223372036854775807, T9223372036854775807)"),
        (
            "_ZN21T9223372036854775807a21T0223372036854775807bEv",
            "T9223372036854775807a::T0223372036854775807b()",
        ),
        ("_Z1f20T9223372036854775807IiE", "f(T9223372036854775807<int>)"),
        ("_Z1fIL1T9223372036854775807EEvv", "void f<(T)9223372036854775807>()"),
        ("_ZTC4fooT9223372036854775807_3bar", "construction vtable for fooT-in-bar"),
    ] {
        assert_eq!(symbol(raw).name(), name);
    }
    let mut raw = "_ZN".to_string();
    let mut name = String::new();
    for d in ["9", "0", "1", "2", "3", "4", "5", "6", "7", "8"] {
        raw = format!("{raw}21T{d}223372036854775807a");
        name = format!("{name}::T{d}223372036854775807a");
    }
    raw.push_str("Ev");
    name.push_str("()");
    assert_eq!(symbol(&raw).name(), name[2..]);
    assert_eq!(symbol("_Z1fIiEvT_").name(), "void f<int>(int)");
    let unknown = Symbol { name: None, addr: None, lineno: None, filename: None };
    assert_eq!(unknown.name(), "Unknown");
    assert_eq!(unknown.sys_name(), "Unknown");
    assert_eq!(unknown.filename(), "Unknown");
    assert_eq!(unknown.lineno(), 0);
    assert_eq!(unknown.raw_name(), b"Unknown");
}

#[test]
fn names_that_are_not_utf8_are_mended() {
    let broken = Symbol {
        name: Some(vec![0x66, 0xff, 0x67]),
        addr: None,
        lineno: None,
        filename: Some("a.rs".to_string()),
    };
    assert_eq!(broken.sys_name(), "f\u{fffd}g");
    assert_eq!(broken.filename(), "a.rs");
}

#[test]
fn symbols_are_told_apart_by_their_raw_names() {
    let mut other = symbol("f");
    other.lineno = Some(99);
    assert!(symbol("f") == other);
    assert!(symbol("f") != symbol("g"));
    let unknown = Symbol { name: None, addr: None, lineno: None, filename: None };
    assert!(unknown == symbol("Unknown"));
}

#[test]
fn stacks_are_told_apart() {
    assert!(stack("a", &["f", "g"]) == stack("a", &["f", "g"]));
    assert!(stack("a", &["f", "g"]) != stack("a", &["g", "f"]));
    assert!(stack("a", &["f"]) != stack("b", &["f"]));
    let mut later = stack("a", &["f"]);
    later.sample_timestamp = Timestamp { nanos: 1 };
    assert!(later != stack("a", &["f"]));
    let mut elsewhere = stack("a", &["f"]);
    elsewhere.thread_id = 2;
    assert!(elsewhere != stack("a", &["f"]));
    let copy = later.clone();
    assert!(copy == later);
}

#[test]
fn building_merges_equal_stacks() {
    let b = builder(Collected::Entries(vec![
        (addresses(&[1, 2]), 3),
        (addresses(&[5]), 0),
        (addresses(&[1, 2]), 4),
        (addresses(&[2, 1]), 1),
    ]));
    let r = b.build_with(resolve).unwrap();
    assert_eq!(r.unique_stacks(), 2);
    assert_eq!(r.total_samples(), 8);
    assert_eq!(r.missed_samples, 7);
    assert_eq!(r.timing, timing());
    assert_eq!(folded(&r), "main;f2;f1 7\nmain;f1;f2 1\n");

    let u: UnresolvedReport = b.build_unresolved().unwrap();
    assert_eq!(u.unique_stacks(), 2);
    assert_eq!(u.total_samples(), 8);
    assert_eq!(u.checked_total_samples(), Some(8));
    assert_eq!(u.missed_samples, 7);
    assert_eq!(u.duration(), Duration::from_secs(2));
    assert_eq!(u.clock_type(), ClockType::Cpu);
    assert_eq!(u.samples_over_duration(), Some((8, 2_000_000_000)));
    assert_eq!(u.data[0].0.frames, vec![1, 2]);
    assert_eq!(u.data[0].1, 7);
}

#[test]
fn unresolved_stacks_go_by_thread_and_addresses() {
    let mut renamed = addresses(&[1]);
    renamed.thread_name = "other".to_string();
    renamed.sample_timestamp = Timestamp { nanos: 8 };
    let mut elsewhere = addresses(&[1]);
    elsewhere.thread_id = 2;
    let b = builder(Collected::Entries(vec![
        (addresses(&[1]), 1),
        (renamed, 1),
        (elsewhere, 1),
    ]));
    let u = b.build_unresolved().unwrap();
    assert_eq!(u.unique_stacks(), 2);
    assert_eq!(u.data[0].1, 2);
    assert_eq!(u.data[0].0.thread_name, "main");
}

fn rename_workers(mut frames: Frames) -> Frames {
    if frames.thread_name.starts_with("worker-") {
        frames.thread_name = "worker".to_string();
    }
    frames
}

#[test]
fn post_processing_can_make_stacks_equal() {
    let mut one = addresses(&[1]);
    one.thread_name = "worker-1".to_string();
    let mut two = addresses(&[1]);
    two.thread_name = "worker-2".to_string();
    let mut b = builder(Collected::Entries(vec![(one, 1), (two, 2)]));
    assert_eq!(b.build_with(resolve).unwrap().unique_stacks(), 2);
    let r = b.frames_post_processor(rename_workers).build_with(resolve).unwrap();
    assert_eq!(folded(&r), "worker;f1 3\n");
}

#[test]
fn building_fails_without_samples_to_read() {
    assert_eq!(builder(Collected::NotCreated).build_with(resolve).err(), Some(Error::CreatingError));
    assert_eq!(
        builder(Collected::NotCreated).build_unresolved().err(),
        Some(Error::CreatingError)
    );
    assert_eq!(builder(Collected::Unreadable(5)).build_with(resolve).err(), Some(Error::IoError(5)));
    assert_eq!(
        builder(Collected::Unreadable(5)).build_unresolved().err(),
        Some(Error::IoError(5))
    );
}

#[test]
fn counts_that_overflow_are_refused() {
    let entries = || {
        Collected::Entries(vec![(addresses(&[1]), isize::MAX), (addresses(&[1]), 1)])
    };
    assert_eq!(builder(entries()).build_with(resolve).err(), Some(Error::CountOverflow));
    assert_eq!(builder(entries()).build_unresolved().err(), Some(Error::CountOverflow));
}

#[test]
fn speedscope_document() {
    let mut out = String::new();
    report(vec![
        (stack("main", &["inner", "outer"]), 3),
        (stack("main", &["outer"]), 2),
        (stack("main", &["hidden"]), 0),
    ])
    .write_speedscope(&mut out, "a \"b\"");
    assert_eq!(
        out,
        concat_all(&[
            "{\"$schema\":\"https://www.speedscope.app/file-format-schema.json\",",
            "\"version\":\"0.0.1\",\"exporter\":\"rpprof\",\"name\":\"a \\\"b\\\"\",",
            "\"activeProfileIndex\":0,\"profiles\":[{\"type\":\"sampled\",",
            "\"name\":\"a \\\"b\\\"\",\"unit\":\"count\",\"startValue\":0,\"endValue\":5,",
            "\"samples\":[[0,1,2],[0,1]],\"weights\":[3,2]}],",
            "\"shared\":{\"frames\":[{\"name\":\"main\"},{\"name\":\"outer\"},",
            "{\"name\":\"inner\"}]}}",
        ])
    );
}

fn concat_all(parts: &[&str]) -> String {
    let mut r = String::new();
    for part in parts {
        r.push_str(part);
    }
    r
}

#[test]
fn speedscope_numbers_read_back() {
    let words = |list: &[&str]| {
        let mut r: Vec<String> = Vec::new();
        for w in list {
            r.push(w.to_string());
        }
        r
    };
    let stacks = vec![
        WeightedStack { words: words(&["t", "a", "a"]), weight: 4 },
        WeightedStack { words: words(&["a", "b"]), weight: 1 },
    ];
    let numbers = Speedscope::number(&stacks);
    assert_eq!(numbers.frames, words(&["t", "a", "b"]));
    assert_eq!(numbers.samples, vec![vec![0, 1, 1], vec![1, 2]]);
    assert_eq!(numbers.weights, vec![4, 1]);
    assert_eq!(numbers.total_weight, 5);
    for (i, sample) in numbers.samples.iter().enumerate() {
        for (j, n) in sample.iter().enumerate() {
            assert_eq!(numbers.frames[*n], stacks[i].words[j]);
        }
    }
}

#[test]
fn json_escapes() {
    let mut out = String::from("=");
    push_escaped(&mut out, "a\"\\\n\r\t\u{1}\u{1f} \u{e9}/");
    assert_eq!(out, "=a\\\"\\\\\\n\\r\\t\\u0001\\u001f \u{e9}/");
}

#[test]
fn numbers_in_text() {
    let mut out = String::new();
    push_decimal(&mut out, 0);
    out.push(' ');
    push_decimal(&mut out, u64::MAX);
    out.push(' ');
    push_signed(&mut out, i64::MIN);
    out.push(' ');
    push_signed(&mut out, -10);
    assert_eq!(out, "0 18446744073709551615 -9223372036854775808 -10");
    let mut joined = String::new();
    push_joined(&mut joined, &vec!["a".to_string(), "b".to_string(), "c".to_string()], ';');
    assert_eq!(joined, "a;b;c");
}

#[test]
fn backtraces_get_their_symbols() {
    let item = addresses(&[1, 2, 3]);
    let made = with_symbols(&item, vec![vec![symbol("f")], vec![], vec![symbol("g")]]);
    assert_eq!(made.names(), vec!["f", "g"]);
    assert_eq!(made.thread_name, "main");
    assert_eq!(made.thread_id, 1);
    assert_eq!(made.sample_timestamp, Timestamp::unix_epoch());

    let nowhere = resolve_frames(&addresses(&[]));
    assert!(nowhere.frames.is_empty());
    let here = backtraces_get_their_symbols as fn() as usize;
    let found = resolve_frames(&addresses(&[here + 1]));
    assert_eq!(found.frames.len(), 1);
    assert!(found.names()[0].contains("backtraces_get_their_symbols"));
}

#[test]
fn folded_lines_read_back() {
    let line = folded(&report(vec![(stack("a thread", &["g", "f x"]), 17)]));
    let (words, count) = line.trim_end().rsplit_once(' ').unwrap();
    assert_eq!(count.parse::<isize>(), Ok(17));
    assert_eq!(words.split(';').collect::<Vec<_>>(), vec!["a thread", "f x", "g"]);
}

#[test]
fn the_timing_of_a_request() {
    let request = profile_wall(Duration::from_secs(1));
    assert_eq!(
        request.timing(Timestamp { nanos: 3 }, Duration::from_millis(1001)),
        ReportTiming {
            frequency: 99,
            start_time: Timestamp { nanos: 3 },
            duration: Duration::from_millis(1001),
            clock_type: ClockType::Wall,
        }
    );
}

#[test]
fn building_finds_the_symbols() {
    let here = building_finds_the_symbols as fn() as usize + 1;
    let r = builder(Collected::Entries(vec![(addresses(&[here]), 3)])).build().unwrap();
    assert_eq!(r.total_samples(), 3);
    assert!(folded(&r).contains("building_finds_the_symbols"));
    assert_eq!(builder(Collected::NotCreated).build().err(), Some(Error::CreatingError));
}

#[test]
fn resolving_may_merge_stacks_but_loses_no_sample() {
    let entries = || {
        Collected::Entries(vec![
            (addresses(&[1]), 3),
            (addresses(&[2]), 4),
            (addresses(&[1]), 5),
            (addresses(&[9]), -2),
        ])
    };
    let one_name = |item: &UnresolvedFrames| {
        let mut frames = resolve(item);
        frames.frames = vec![vec![symbol("same")]];
        frames
    };
    let u = builder(entries()).build_unresolved().unwrap();
    let r = builder(entries()).build_with(one_name).unwrap();
    assert_eq!(u.unique_stacks(), 2);
    assert_eq!(r.unique_stacks(), 1);
    assert_eq!(r.total_samples(), u.total_samples());
    assert_eq!(r.missed_samples, u.missed_samples);
    assert_eq!(r.timing, u.timing);
}
