use solitaire_core::games::seed_generator::{
    begin_sweep, end_sweep, next_step, record_outcome, request_stop, resume_point, resume_sweep, SeedGenStatus,
    SolveOutcome, SweepStep, Variant, VecDequeWrapper, LOG_CAPACITY, TARGET_SEED_COUNT,
};

fn last_line(status: &SeedGenStatus) -> String {
    status.log.iter().last().cloned().unwrap()
}

#[test]
fn log_keeps_the_newest_lines_up_to_capacity() {
    let mut log = VecDequeWrapper::new();
    for i in 0..=LOG_CAPACITY {
        log.push(format!("l{i}"));
    }
    assert_eq!(log.len(), LOG_CAPACITY);
    let lines = log.iter();
    assert_eq!(lines[0], "l1");
    assert_eq!(lines[LOG_CAPACITY - 1], format!("l{LOG_CAPACITY}"));
    assert!(!log.is_empty());
    assert!(VecDequeWrapper::default().is_empty());
}

#[test]
fn begin_sweep_starts_once_and_logs_the_start() {
    let mut status = SeedGenStatus::default();
    assert!(begin_sweep(&mut status, Variant::Spider));
    assert!(status.running);
    assert!(!status.finished);
    assert_eq!(status.target, TARGET_SEED_COUNT);
    assert_eq!(last_line(&status), "[spider] starting sweep…");
    let before = status.log.len();
    assert!(!begin_sweep(&mut status, Variant::Spider));
    assert_eq!(status.log.len(), before);
}

#[test]
fn resume_sweep_resets_counters_and_logs_the_point() {
    let mut status = SeedGenStatus::default();
    status.lost = 4;
    status.timed_out = 2;
    resume_sweep(&mut status, Variant::Klondike, 100, 7);
    assert_eq!((status.won, status.lost, status.timed_out), (7, 0, 0));
    assert_eq!(last_line(&status), "[klondike] resuming at seed 100 (existing winners: 7)");
}

#[test]
fn next_step_stops_when_not_running() {
    let mut status = SeedGenStatus::default();
    assert_eq!(next_step(&mut status, Variant::Klondike, 12), SweepStep::Stop);
    assert_eq!(last_line(&status), "[klondike] stopped at seed 12");
    assert_eq!(status.current_seed, 0);
}

#[test]
fn next_step_completes_at_target() {
    let mut status = SeedGenStatus::default();
    begin_sweep(&mut status, Variant::Spider);
    status.won = TARGET_SEED_COUNT;
    assert_eq!(next_step(&mut status, Variant::Spider, 5), SweepStep::Complete);
    assert_eq!(last_line(&status), "[spider] target reached (8000/8000) — sweep complete");
}

#[test]
fn next_step_hands_out_the_seed_while_running() {
    let mut status = SeedGenStatus::default();
    begin_sweep(&mut status, Variant::Spider);
    let lines = status.log.len();
    assert_eq!(next_step(&mut status, Variant::Spider, 41), SweepStep::Solve(41));
    assert_eq!(status.current_seed, 41);
    assert_eq!(status.log.len(), lines);
}

#[test]
fn record_outcome_counts_each_verdict_and_logs_it() {
    let mut status = SeedGenStatus::default();
    record_outcome(&mut status, Variant::Spider, 42, SolveOutcome::Won, 7);
    assert_eq!(last_line(&status), "[spider] seed       42 WON     in     7 ms  (won 1/lost 0/timeout 0)");
    record_outcome(&mut status, Variant::Spider, 43, SolveOutcome::Exhausted, 12345);
    assert_eq!(last_line(&status), "[spider] seed       43 unwin   in 12345 ms  (won 1/lost 1/timeout 0)");
    record_outcome(&mut status, Variant::Klondike, 44, SolveOutcome::Timeout, 3);
    assert_eq!((status.won, status.lost, status.timed_out), (1, 1, 1));
}

#[test]
fn end_and_stop_clear_running() {
    let mut status = SeedGenStatus::default();
    begin_sweep(&mut status, Variant::Spider);
    request_stop(&mut status);
    assert!(!status.running);
    assert!(!status.finished);
    begin_sweep(&mut status, Variant::Spider);
    end_sweep(&mut status);
    assert!(!status.running);
    assert!(status.finished);
}

fn le_bytes(seeds: &[u64]) -> Vec<u8> {
    seeds.iter().flat_map(|s| s.to_le_bytes()).collect()
}

#[test]
fn resume_point_counts_distinct_seeds_and_continues_after_the_largest() {
    assert_eq!(resume_point(&le_bytes(&[5, 3, 5])), (2, 6));
    assert_eq!(resume_point(&[]), (0, 0));
    let mut bytes = le_bytes(&[9, 2]);
    bytes.push(0xff);
    assert_eq!(resume_point(&bytes), (2, 10));
    assert_eq!(resume_point(&le_bytes(&[u64::MAX])), (1, 0));
}

#[test]
fn outcome_line_keeps_long_numbers_whole() {
    let mut status = SeedGenStatus::default();
    record_outcome(&mut status, Variant::Klondike, 123_456_789, SolveOutcome::Timeout, 100_000);
    assert_eq!(
        last_line(&status),
        "[klondike] seed 123456789 timeout in 100000 ms  (won 0/lost 0/timeout 1)"
    );
}
