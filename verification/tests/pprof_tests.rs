use rpprof::frames::{Frames, Symbol};
use rpprof::heap_report::{HeapRecord, HeapReport};
use rpprof::intern::NameTable;
use rpprof::protos::{Function, Label, Line, Location, Profile, Sample, ValueType};
use rpprof::report::Report;
use rpprof::timer::{ClockType, Duration, ReportTiming, Timestamp};

fn symbol(name: &str, line: u32) -> Symbol {
    Symbol {
        name: Some(name.as_bytes().to_vec()),
        addr: None,
        lineno: Some(line),
        filename: Some("lib.rs".to_string()),
    }
}

fn stack(thread: &str, frames: Vec<Vec<Symbol>>) -> Frames {
    Frames {
        frames,
        thread_name: thread.to_string(),
        thread_id: 1,
        sample_timestamp: Timestamp::unix_epoch(),
    }
}

fn report(data: Vec<(Frames, isize)>, frequency: i32) -> Report {
    Report {
        data,
        timing: ReportTiming {
            frequency,
            start_time: Timestamp { nanos: 5_000_000_000 },
            duration: Duration::from_millis(2500),
            clock_type: ClockType::Cpu,
        },
        missed_samples: 3,
    }
}

fn text(profile: &Profile, id: i64) -> &str {
    profile.string_table[id as usize].as_str()
}

#[test]
fn a_samples_profile() {
    let r = report(
        vec![
            (stack("main", vec![vec![symbol("f", 1), symbol("g", 2)], vec![symbol("h", 3)]]), 4),
            (stack("io", vec![vec![symbol("h", 8)]]), 1),
        ],
        100,
    );
    assert!(r.fits_pprof());
    let p = r.pprof().unwrap();

    assert_eq!(
        p.string_table,
        vec![
            "",
            "main",
            "f",
            "lib.rs",
            "g",
            "h",
            "io",
            "samples",
            "count",
            "cpu",
            "nanoseconds",
            "thread",
            "missed samples due to lock contention: 3",
        ]
    );
    assert_eq!(p.sample_type, vec![ValueType { ty: 7, unit: 8 }, ValueType { ty: 9, unit: 10 }]);
    assert_eq!(p.period_type, Some(ValueType { ty: 9, unit: 10 }));
    assert_eq!(p.period, 10_000_000);
    assert_eq!(p.time_nanos, 5_000_000_000);
    assert_eq!(p.duration_nanos, 2_500_000_000);
    assert_eq!(p.comment, vec![12]);
    assert_eq!(
        p.function,
        vec![
            Function { id: 1, name: 2, system_name: 2, filename: 3 },
            Function { id: 2, name: 4, system_name: 4, filename: 3 },
            Function { id: 3, name: 5, system_name: 5, filename: 3 },
        ]
    );
    assert_eq!(
        p.location,
        vec![
            Location { id: 1, line: vec![Line { function_id: 1, line: 1 }] },
            Location { id: 2, line: vec![Line { function_id: 2, line: 2 }] },
            Location { id: 3, line: vec![Line { function_id: 3, line: 3 }] },
        ]
    );
    assert_eq!(
        p.sample,
        vec![
            Sample {
                location_id: vec![1, 2, 3],
                value: vec![4, 40_000_000],
                label: vec![Label { key: 11, str: 1 }],
            },
            Sample {
                location_id: vec![3],
                value: vec![1, 10_000_000],
                label: vec![Label { key: 11, str: 6 }],
            },
        ]
    );
}

#[test]
fn every_reference_of_a_profile_resolves() {
    let r = report(
        vec![(stack("", vec![vec![symbol("_ZN3foo3barEv", 1)], vec![symbol("x", 2)]]), 2)],
        7,
    );
    let p = r.pprof().unwrap();
    assert_eq!(text(&p, p.function[0].name), "foo::bar()");
    assert_eq!(text(&p, p.function[0].system_name), "_ZN3foo3barEv");
    assert_eq!(text(&p, p.function[0].filename), "lib.rs");
    assert_eq!(text(&p, p.sample[0].label[0].key), "thread");
    assert_eq!(text(&p, p.sample[0].label[0].str), "1");
    for sample in &p.sample {
        for id in &sample.location_id {
            let location = &p.location[*id as usize - 1];
            assert_eq!(location.id, *id);
            assert_eq!(p.function[location.line[0].function_id as usize - 1].id, *id);
        }
    }
    assert_eq!(p.sample[0].value, vec![2, 2_000_000_000 / 7]);
}

#[test]
fn negative_counts_round_towards_zero() {
    let p = report(vec![(stack("t", vec![]), -1)], 3).pprof().unwrap();
    assert_eq!(p.sample[0].value, vec![-1, -333_333_333]);
    assert_eq!(p.sample[0].location_id, Vec::<u64>::new());
}

#[test]
fn reports_that_pprof_cannot_tell() {
    let f = || stack("t", vec![vec![symbol("f", 1)]]);
    assert!(!report(vec![(f(), 1)], 0).fits_pprof());
    assert!(report(vec![(f(), 9_223_372_036)], 1).fits_pprof());
    assert!(!report(vec![(f(), 9_223_372_037)], 1).fits_pprof());
    assert!(report(vec![(f(), -9_223_372_036)], -1).fits_pprof());
    assert!(!report(vec![(f(), -9_223_372_037)], 1).fits_pprof());
}

#[test]
fn a_heap_profile() {
    let heap = HeapReport {
        records: vec![HeapRecord {
            frames: stack("", vec![vec![symbol("f", 5)]]),
            alloc_objects: 3,
            alloc_bytes: 300,
            inuse_objects: -1,
            inuse_bytes: 100,
        }],
        sample_rate: 512,
        timestamp: Timestamp { nanos: 42 },
    };
    let p = heap.pprof().unwrap();
    assert_eq!(
        p.string_table,
        vec![
            "",
            "1",
            "f",
            "lib.rs",
            "alloc_objects",
            "alloc_space",
            "inuse_objects",
            "inuse_space",
            "count",
            "bytes",
            "space",
        ]
    );
    assert_eq!(
        p.sample_type,
        vec![
            ValueType { ty: 4, unit: 8 },
            ValueType { ty: 5, unit: 9 },
            ValueType { ty: 6, unit: 8 },
            ValueType { ty: 7, unit: 9 },
        ]
    );
    assert_eq!(p.period_type, Some(ValueType { ty: 10, unit: 9 }));
    assert_eq!(p.period, 512);
    assert_eq!(p.time_nanos, 42);
    assert_eq!(p.duration_nanos, 0);
    assert_eq!(p.comment, Vec::<i64>::new());
    assert_eq!(
        p.sample,
        vec![Sample { location_id: vec![1], value: vec![3, 300, 0, 100], label: vec![] }]
    );
}

#[test]
fn names_are_kept_in_the_order_of_their_first_use() {
    let mut table = NameTable::new();
    assert_eq!(table.intern("b"), 0);
    assert_eq!(table.intern("a"), 1);
    assert_eq!(table.intern("b"), 0);
    assert_eq!(table.find("a"), Some(1));
    assert_eq!(table.find("c"), None);
    assert_eq!(table.into_names(), vec!["b", "a"]);
}
