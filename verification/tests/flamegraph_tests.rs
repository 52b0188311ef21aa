use rpprof::flamegraph::{drawn_or_error, fit_for_drawing, white};
use rpprof::frames::{Frames, Symbol};
use rpprof::report::Report;
use rpprof::timer::{ClockType, Duration, ReportTiming, Timestamp};
use rpprof::Error;

fn stack(thread: &str, names: &[&str]) -> Frames {
    let mut frames: Vec<Vec<Symbol>> = Vec::new();
    for name in names {
        frames.push(vec![Symbol {
            name: Some(name.as_bytes().to_vec()),
            addr: None,
            lineno: None,
            filename: None,
        }]);
    }
    Frames {
        frames,
        thread_name: thread.to_string(),
        thread_id: 1,
        sample_timestamp: Timestamp::unix_epoch(),
    }
}

fn report(data: Vec<(Frames, isize)>) -> Report {
    Report {
        data,
        timing: ReportTiming {
            frequency: 100,
            start_time: Timestamp::unix_epoch(),
            duration: Duration::from_secs(2),
            clock_type: ClockType::Cpu,
        },
        missed_samples: 0,
    }
}

fn fit(lines: &[&str]) -> bool {
    let mut list: Vec<String> = Vec::new();
    for line in lines {
        list.push(line.to_string());
    }
    fit_for_drawing(&list)
}

#[test]
fn a_flame_graph_shows_the_stacks() {
    let r = report(vec![(stack("main", &["inner", "outer"]), 30), (stack("io", &["poll"]), 12)]);
    let svg = String::from_utf8(r.flamegraph().unwrap()).unwrap();
    assert!(svg.contains("<svg"));
    assert!(svg.contains("total_samples=\"42\""));
    for name in ["main", "inner", "outer", "io", "poll"] {
        assert!(svg.contains(&format!("<title>{} (", name)));
    }
}

#[test]
fn flame_graph_lines() {
    let r = report(vec![
        (stack("main", &["inner", "outer"]), 30),
        (stack("io", &[]), 0),
        (stack("x", &["y"]), -2),
    ]);
    assert_eq!(r.flamegraph_lines(), vec!["main;outer;inner 30", "io 0", "x;y -2"]);
}

#[test]
fn flame_graph_lines_are_the_folded_stacks() {
    let r = report(vec![(stack("main", &["f"]), 3), (stack("io", &["g", "h"]), 1)]);
    let mut folded = String::new();
    r.write_folded(&mut folded);
    let mut lines = String::new();
    for line in r.flamegraph_lines() {
        lines.push_str(&line);
        lines.push('\n');
    }
    assert_eq!(lines, folded);
}

#[test]
fn an_empty_report_has_an_empty_flame_graph() {
    assert_eq!(report(vec![]).flamegraph(), Ok(vec![]));
}

#[test]
fn a_report_without_samples_has_no_flame_graph() {
    let r = report(vec![(stack("main", &["f"]), 0), (stack("main", &["g"]), -1)]);
    assert_eq!(r.flamegraph(), Err(Error::FlamegraphError));
    assert_eq!(drawn_or_error(None), Err(Error::FlamegraphError));
    assert_eq!(drawn_or_error(Some(vec![1])), Ok(vec![1]));
}

#[test]
fn numbers_too_large_to_draw_are_refused() {
    let r = report(vec![
        (stack("a 99999999999999999", &[]), 1),
        (stack("b 99", &[]), 1),
    ]);
    assert_eq!(r.flamegraph(), Err(Error::FlamegraphOverflow));
    let r = report(vec![
        (stack("a", &[]), isize::MAX),
        (stack("b", &[]), isize::MAX),
        (stack("c", &[]), 2),
    ]);
    assert_eq!(r.flamegraph(), Err(Error::FlamegraphOverflow));
}

#[test]
fn large_numbers_that_can_be_drawn() {
    for name in [
        "a 18446744073709551615",
        "worker 99999999999999999",
        "w 184467440737095516160",
        "w 9223372036854775807",
    ] {
        let r = report(vec![(stack(name, &[]), 1)]);
        assert!(r.flamegraph().is_ok());
    }
}

#[test]
fn a_number_before_the_count_is_drawn() {
    let r = report(vec![(stack("worker 7", &[]), 10)]);
    let svg = String::from_utf8(r.flamegraph().unwrap()).unwrap();
    assert!(svg.contains("<title>worker ("));
}

#[test]
fn marks_and_white_space_before_a_stack() {
    for name in ["#1", "##", "#;f", "  x", "\tx", "\u{3000}x"] {
        assert!(report(vec![(stack(name, &[]), 1)]).flamegraph().is_ok());
    }
    for name in ["#", "# x", " # x", " ", "\u{3000}\t"] {
        assert_eq!(
            report(vec![(stack(name, &[]), 1)]).flamegraph(),
            Err(Error::FlamegraphError)
        );
    }
}

#[test]
fn which_lines_can_be_drawn() {
    assert!(fit(&[]));
    assert!(fit(&["a;b 3", "a 18446744073709551612"]));
    assert!(!fit(&["a;b 3", "a 18446744073709551613"]));
    assert!(fit(&["a 99999999999999999999999999999999999999999999999"]));
    assert!(fit(&["# a 18446744073709551615", "b 1"]));
    // The count and the number before it are compared, and the difference is scaled.
    assert!(fit(&["a 61489146912365172 1", "b 1 2"]));
    assert!(fit(&["a 61489146912365174 1", "b 1 2"]));
    assert!(!fit(&["a 61489146912365175 1", "b 1 2"]));
    assert!(!fit(&["a 61489146912365175.25 1", "b 1 2"]));
    assert!(!fit(&["a 61489146912365175 \u{3000}\t 1  ", "b 1 2"]));
    assert!(fit(&["a 61489146912365175 1", "b 2 2"]));
    assert!(fit(&["a 61489146912365175 1", "b 1"]));
    assert!(fit(&["a 61489146912365175 1", "b 61489146912365175 1"]));
    assert!(fit(&["a x61489146912365175 1", "b 1 2"]));
    assert!(fit(&["61489146912365175 1", "b 1 2"]));
    assert!(fit(&["a .61489146912365175 1", "b 1 2"]));
    assert!(fit(&["a 1.61489146912365175 1", "b 1 2"]));
    assert!(fit(&["a 61489146912365175 -1", "b 1 2"]));
    // Differences that a count cannot hold.
    assert!(!fit(&["a 9223372036854775808 0"]));
    assert!(!fit(&["a 9223372036854775808 1"]));
    assert!(fit(&["a 9223372036854775809 0"]));
    assert!(fit(&["a 0 9223372036854775807"]));
    assert!(!fit(&["a 0 9223372036854775808"]));
}

#[test]
fn white_space() {
    for code in 0..0x110000u32 {
        if let Some(c) = char::from_u32(code) {
            assert_eq!(white(c), c.is_whitespace());
        }
    }
}
