use rpprof::frames::{Frames, Symbol};
use rpprof::heap::{AllocCounts, HeapState, DEFAULT_SAMPLE_RATE};
use rpprof::heap_report::{heap_report, make_record, HeapRecord, HeapReport};
use rpprof::sampler::{
    is_active, record_sample, reset, sample_rate, set_sample_rate, start, stop, take_address,
    AllocControl, AllocProfiler, ThreadState,
};
use rpprof::timer::{ClockType, Duration, Timestamp};
use rpprof::MAX_DEPTH;

fn epoch() -> Timestamp {
    Timestamp::unix_epoch()
}

fn counts(
    alloc_objects: u64,
    alloc_bytes: u64,
    inuse_objects: i64,
    inuse_bytes: i64,
) -> AllocCounts {
    AllocCounts { alloc_objects, alloc_bytes, inuse_objects, inuse_bytes }
}

fn symbol(name: &str) -> Symbol {
    Symbol { name: Some(name.as_bytes().to_vec()), addr: None, lineno: None, filename: None }
}

fn record(name: &str, alloc_bytes: u64, inuse_bytes: i64) -> HeapRecord {
    HeapRecord {
        frames: Frames {
            frames: vec![vec![symbol(name)]],
            thread_name: String::new(),
            thread_id: 0,
            sample_timestamp: epoch(),
        },
        alloc_objects: 1,
        alloc_bytes,
        inuse_objects: 1,
        inuse_bytes,
    }
}

fn heap(records: Vec<HeapRecord>) -> HeapReport {
    HeapReport { records, sample_rate: 512, timestamp: Timestamp { nanos: 9 } }
}

#[test]
fn test_alloc_profiler_tracking() {
    let mut control = AllocControl::default();
    let mut state = HeapState::new();
    let mut thread = ThreadState::new();
    reset(&mut state);
    set_sample_rate(&mut control, 512);

    let profiler = AllocProfiler::system();
    assert_eq!(sample_rate(&control), 512);

    start(&mut control);
    assert!(is_active(&control));

    let block: Vec<u8> = vec![0; 1024];
    let ptr = block.as_ptr() as usize;
    assert!(ptr != 0);
    profiler.on_alloc(&control, &mut thread, &mut state, ptr, 1024);

    let report = heap_report(&state, &control, epoch).unwrap();
    assert!(report.total_alloc_bytes() >= 1024);
    assert!(!report.records.is_empty());

    let inuse_rep = report.to_inuse_report();
    assert!(inuse_rep.total_samples() >= 1024);

    let alloc_rep = report.to_alloc_report();
    assert!(alloc_rep.total_samples() >= 1024);

    let pb = report.pprof().unwrap();
    assert!(!pb.sample.is_empty());

    profiler.on_dealloc(&control, &mut thread, &mut state, ptr);

    stop(&mut control);
    assert!(!is_active(&control));
    reset(&mut state);
}

#[test]
fn the_stack_of_a_sample_is_captured_and_resolved() {
    let mut state = HeapState::new();
    record_sample(&mut state, 0x1000, 64);
    assert_eq!(state.site_count(), 1);
    let ips = state.site_ips(0);
    assert!(!ips.is_empty() && ips.len() <= MAX_DEPTH);
    assert_eq!(state.site_counts(0), counts(1, 64, 1, 64));

    let report = heap_report(&state, &AllocControl::default(), epoch).unwrap();
    assert_eq!(report.records.len(), 1);
    assert_eq!(report.sample_rate, DEFAULT_SAMPLE_RATE);
    assert_eq!(report.timestamp, epoch());
    let frames = &report.records[0].frames;
    assert_eq!(frames.thread_name, "");
    assert_eq!(frames.thread_id, 0);
    assert!(!frames.frames.is_empty());
    let mut found = false;
    for name in frames.names() {
        found = found || name.starts_with("std::") || name.starts_with("core::");
    }
    assert!(found);
}

#[test]
fn a_stack_is_cut_at_the_largest_depth() {
    let mut ips: Vec<usize> = vec![0; MAX_DEPTH - 2];
    assert!(take_address(&mut ips, 7));
    assert!(!take_address(&mut ips, 8));
    assert_eq!(ips.len(), MAX_DEPTH);
    assert_eq!(ips[MAX_DEPTH - 1], 8);
}

#[test]
fn sampling_intervals() {
    let mut control = AllocControl::default();
    assert!(!is_active(&control));
    assert_eq!(sample_rate(&control), 512 * 1024);
    set_sample_rate(&mut control, 0);
    assert_eq!(sample_rate(&control), 1);
    set_sample_rate(&mut control, 100);
    start(&mut control);

    let mut thread = ThreadState::new();
    assert!(thread.enter_alloc(&control, 16, 1));
    assert_eq!(thread, ThreadState { in_alloc: true, bytes_left: 100 });
    assert!(!thread.enter_alloc(&control, 32, 1000));
    thread.leave();
    assert!(!thread.enter_alloc(&control, 48, 60));
    assert_eq!(thread.bytes_left, 40);
    assert!(!thread.enter_alloc(&control, 64, 39));
    assert!(thread.enter_alloc(&control, 80, 1));
    thread.leave();
    assert!(!thread.enter_alloc(&control, 0, 1000));
    assert_eq!(thread.bytes_left, 100);
    stop(&mut control);
    assert!(!thread.enter_alloc(&control, 96, 1000));
    assert!(!thread.enter(&control));
}

#[test]
fn one_callsite_for_each_stack() {
    let mut state = HeapState::new();
    state.record_sample_of(vec![1, 2], 16, 100);
    state.record_sample_of(vec![3], 32, 10);
    state.record_sample_of(vec![1, 2], 48, 50);
    assert_eq!(state.site_count(), 2);
    assert_eq!(state.site_ips(0), &vec![1, 2]);
    assert_eq!(state.site_counts(0), counts(2, 150, 2, 150));
    assert_eq!(state.site_counts(1), counts(1, 10, 1, 10));

    state.record_dealloc(16);
    assert_eq!(state.site_counts(0), counts(2, 150, 1, 50));
    state.record_dealloc(16);
    state.record_dealloc(0xdead0);
    assert_eq!(state.site_counts(0), counts(2, 150, 1, 50));
    assert_eq!(state.site_counts(1), counts(1, 10, 1, 10));

    reset(&mut state);
    assert_eq!(state.site_count(), 0);
    state.record_dealloc(48);
    assert_eq!(state.site_count(), 0);
}

#[test]
fn freeing_undoes_a_sample() {
    let mut state = HeapState::new();
    state.record_sample_of(vec![7], 160, 24);
    let before = state.site_counts(0);
    state.record_sample_of(vec![7], 176, 1000);
    state.record_dealloc(176);
    let after = state.site_counts(0);
    assert_eq!(after.inuse_objects, before.inuse_objects);
    assert_eq!(after.inuse_bytes, before.inuse_bytes);
    assert_eq!(after.alloc_bytes, 1024);
}

#[test]
fn moving_an_allocation() {
    let mut control = AllocControl::default();
    let mut thread = ThreadState::new();
    let mut state = HeapState::new();
    let profiler = AllocProfiler::new(5u8);
    assert_eq!(profiler.inner, 5);
    let default: AllocProfiler<u8> = AllocProfiler::default();
    assert_eq!(default.inner, 0);

    profiler.on_realloc(&control, &mut thread, &mut state, 16, 32, 8);
    assert_eq!(state.site_count(), 0);
    start(&mut control);
    state.record_sample_of(vec![1], 16, 100);
    profiler.on_realloc(&control, &mut thread, &mut state, 16, 0, 8);
    assert_eq!(state.site_counts(0), counts(1, 100, 1, 100));
    profiler.on_realloc(&control, &mut thread, &mut state, 16, 32, 8);
    assert_eq!(state.site_counts(0), counts(1, 100, 0, 0));
    assert_eq!(state.site_count(), 2);
    assert_eq!(state.site_counts(1), counts(1, 8, 1, 8));
    profiler.on_dealloc(&control, &mut thread, &mut state, 32);
    assert_eq!(state.site_counts(1), counts(1, 8, 0, 0));
    assert_eq!(thread, ThreadState::new());
}

#[test]
fn a_thread_inside_the_profiler_is_not_profiled() {
    let mut control = AllocControl::default();
    start(&mut control);
    let mut thread = ThreadState { in_alloc: true, bytes_left: 0 };
    let mut state = HeapState::new();
    let profiler = AllocProfiler::system();
    state.record_sample_of(vec![1], 16, 100);
    profiler.on_alloc(&control, &mut thread, &mut state, 32, 8);
    profiler.on_dealloc(&control, &mut thread, &mut state, 16);
    profiler.on_realloc(&control, &mut thread, &mut state, 16, 48, 8);
    assert_eq!(state.site_count(), 1);
    assert_eq!(state.site_counts(0), counts(1, 100, 1, 100));
}

#[test]
fn heap_totals_and_reports() {
    let report = heap(vec![
        record("f", 300, 100),
        record("g", 20, 0),
        record("h", 5, -4),
    ]);
    assert_eq!(report.total_inuse_bytes(), 100);
    assert_eq!(report.total_alloc_bytes(), 325);

    let inuse = report.to_inuse_report();
    assert_eq!(inuse.unique_stacks(), 1);
    assert_eq!(inuse.total_samples(), 100);
    assert_eq!(inuse.timing.frequency, 512);
    assert_eq!(inuse.timing.start_time, Timestamp { nanos: 9 });
    assert_eq!(inuse.duration(), Duration::from_secs(0));
    assert_eq!(inuse.clock_type(), ClockType::Cpu);
    assert_eq!(inuse.missed_samples, 0);

    let alloc = report.to_alloc_report();
    let mut out = String::new();
    alloc.write_folded(&mut out);
    assert_eq!(out, "0;f 300\n0;g 20\n0;h 5\n");
}

#[test]
fn of_two_records_of_one_stack_the_later_counts() {
    let report = heap(vec![record("f", 300, 100), record("f", 20, 7)]);
    assert_eq!(report.to_inuse_report().total_samples(), 7);
    assert_eq!(report.to_alloc_report().total_samples(), 20);
    assert_eq!(report.total_inuse_bytes(), 107);
}

#[test]
fn heap_totals_that_are_too_large_are_told() {
    let report = heap(vec![record("f", u64::MAX, i64::MAX), record("g", 1, 1)]);
    assert_eq!(report.checked_inuse_bytes(), None);
    assert_eq!(report.checked_alloc_bytes(), None);
    let report = heap(vec![record("f", u64::MAX, i64::MAX), record("g", 0, -1)]);
    assert_eq!(report.checked_inuse_bytes(), Some(i64::MAX));
    assert_eq!(report.checked_alloc_bytes(), Some(u64::MAX));
}

#[test]
fn addresses_without_symbols_have_no_frame() {
    let made = make_record(
        vec![vec![symbol("f")], vec![], vec![symbol("g"), symbol("h")]],
        counts(1, 2, 3, 4),
        Timestamp { nanos: 77 },
    );
    assert_eq!(made.frames.frames.len(), 2);
    assert_eq!(made.frames.names(), vec!["f", "g", "h"]);
    assert_eq!(made.frames.sample_timestamp, Timestamp { nanos: 77 });
    assert_eq!(made.alloc_objects, 1);
    assert_eq!(made.alloc_bytes, 2);
    assert_eq!(made.inuse_objects, 3);
    assert_eq!(made.inuse_bytes, 4);
}

#[test]
fn a_heap_report_tells_the_live_bytes() {
    let mut state = HeapState::new();
    state.record_sample_of(vec![1], 16, 100);
    state.record_sample_of(vec![2], 32, 20);
    state.record_sample_of(vec![1], 48, 3);
    state.record_dealloc(32);
    let report = heap_report(&state, &AllocControl::default(), epoch).unwrap();
    assert_eq!(report.records.len(), 2);
    assert_eq!(report.total_inuse_bytes(), 103);
    assert_eq!(report.total_alloc_bytes(), 123);
    let copy = report.clone();
    assert_eq!(copy.total_inuse_bytes(), 103);
    assert_eq!(copy.records[1].inuse_objects, 0);
}

#[test]
fn an_interval_too_large_to_count_is_not_negative() {
    for rate in [usize::MAX, isize::MAX as usize + 1] {
        let mut control = AllocControl::default();
        let mut state = HeapState::new();
        let mut thread = ThreadState::new();
        reset(&mut state);
        set_sample_rate(&mut control, rate);
        start(&mut control);
        let p = AllocProfiler::system();
        p.on_alloc(&control, &mut thread, &mut state, 0x1000, 16);
        assert_eq!(thread.bytes_left, isize::MAX);
        p.on_alloc(&control, &mut thread, &mut state, 0x2000, 16);
        assert_eq!(thread.bytes_left, isize::MAX - 16);
        let report = heap_report(&state, &control, epoch).unwrap();
        assert_eq!(report.total_alloc_bytes(), 16);
        assert!(thread.will_sample(&control, 0x3000, isize::MAX as usize));
        assert!(!thread.will_sample(&control, 0x3000, 16));
    }
}

#[test]
fn nothing_is_recorded_while_stopped() {
    let mut control = AllocControl::default();
    let mut state = HeapState::new();
    let mut thread = ThreadState::new();
    let p = AllocProfiler::system();
    start(&mut control);
    state.record_sample_of(vec![1], 16, 100);
    stop(&mut control);
    p.on_alloc(&control, &mut thread, &mut state, 32, 1000);
    p.on_dealloc(&control, &mut thread, &mut state, 16);
    p.on_realloc(&control, &mut thread, &mut state, 16, 48, 7);
    assert_eq!(state.site_count(), 1);
    assert_eq!(state.site_counts(0), counts(1, 100, 1, 100));
    assert_eq!(sample_rate(&control), DEFAULT_SAMPLE_RATE);
    assert_eq!(thread, ThreadState::new());
}

#[test]
fn counters_stay_within_what_was_allocated() {
    let mut state = HeapState::new();
    let stacks = [vec![1, 2], vec![3], vec![1, 2], vec![1, 2], vec![3]];
    for (i, stack) in stacks.iter().enumerate() {
        // Two samples at one address: the first is forgotten, not freed.
        state.record_sample_of(stack.clone(), 16 * (i % 3), 10 * (i + 1));
        state.record_dealloc(0);
    }
    assert_eq!(state.site_count(), 2);
    let mut objects: u64 = 0;
    let mut bytes: u64 = 0;
    for i in 0..state.site_count() {
        let c = state.site_counts(i);
        assert!(c.alloc_objects >= 1);
        assert!(0 <= c.inuse_objects && c.inuse_objects as u64 <= c.alloc_objects);
        assert!(0 <= c.inuse_bytes && c.inuse_bytes as u64 <= c.alloc_bytes);
        objects += c.alloc_objects;
        bytes += c.alloc_bytes;
    }
    assert_eq!(objects, 5);
    assert_eq!(bytes, 150);
    assert_eq!(state.site_counts(0).alloc_objects, 3);
    assert_eq!(state.site_counts(0).alloc_bytes, 80);
    let report = heap_report(&state, &AllocControl::default(), epoch).unwrap();
    assert!(report.total_inuse_bytes() as u64 <= report.total_alloc_bytes());
    for record in &report.records {
        assert!(record.frames.frames.len() <= MAX_DEPTH);
    }
}
