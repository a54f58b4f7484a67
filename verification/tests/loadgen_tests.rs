use api_monitor::config::LoadProfile;
use api_monitor::loadgen::{LoadGen, RequestCycle, TerminationReason};

fn profile(initial: usize, max: usize, rate: usize, retry: usize, secs: usize) -> LoadProfile {
    LoadProfile {
        initial_load: initial,
        max_load: max,
        spawn_rate: rate,
        retry_count: retry,
        max_duration_secs: secs,
    }
}

// A successful logical request: one attempt settles it.
fn run_ok(gen: &mut LoadGen, latency: u64) {
    let mut cycle = RequestCycle::new(gen.profile.retry_count);
    cycle.record_attempt(true);
    assert!(cycle.finished && cycle.succeeded);
    gen.complete_logical(&cycle, &vec![latency]);
}

// A logical request against an always-failing endpoint: the whole retry
// budget is consumed.
fn run_always_failing(gen: &mut LoadGen, latency: u64) -> usize {
    let mut cycle = RequestCycle::new(gen.profile.retry_count);
    let mut latencies: Vec<u64> = Vec::new();
    while !cycle.finished {
        latencies.push(latency);
        cycle.record_attempt(false);
    }
    assert!(!cycle.succeeded);
    let used = cycle.attempts_used;
    gen.complete_logical(&cycle, &latencies);
    used
}

#[test]
fn ramp_reaches_and_respects_ceiling() {
    let mut gen = LoadGen::new(profile(1, 4, 1, 0, 3));
    assert_eq!(gen.concurrency, 1);
    assert_eq!(gen.peak_concurrency, 1);
    gen.ramp();
    assert_eq!(gen.concurrency, 2);
    gen.ramp();
    gen.ramp();
    assert_eq!(gen.concurrency, 4);
    gen.ramp();
    assert_eq!(gen.concurrency, 4);
    assert_eq!(gen.peak_concurrency, 4);
}

#[test]
fn ramp_caps_large_spawn_rate() {
    let mut gen = LoadGen::new(profile(2, 3, 5, 0, 1));
    gen.ramp();
    assert_eq!(gen.concurrency, 3);
    assert_eq!(gen.peak_concurrency, 3);
}

#[test]
fn should_stop_exactly_at_deadline() {
    let gen = LoadGen::new(profile(1, 2, 1, 0, 3));
    assert!(!gen.should_stop(2));
    assert!(gen.should_stop(3));
    assert!(gen.should_stop(4));
}

#[test]
fn progressive_run_against_healthy_endpoint() {
    // a ramping run: initial 1, ceiling 4, one worker added per second,
    // one retry allowed, three seconds long, every request succeeding
    let mut gen = LoadGen::new(profile(1, 4, 1, 1, 3));
    let mut elapsed: u64 = 0;
    while !gen.should_stop(elapsed) {
        for _ in 0..gen.concurrency {
            run_ok(&mut gen, 25);
        }
        elapsed += 1;
        gen.ramp();
    }
    let data = gen.finalize(elapsed, false);
    assert_eq!(data.peak_concurrency, 4);
    assert_eq!(data.failures, 0);
    assert!(data.total_requests > 0);
    assert_eq!(data.elapsed_seconds, 3);
    assert_eq!(data.total_requests, data.successes);
    assert_eq!(
        data.termination_reason,
        TerminationReason::MaxLoadReachedAndWindowClosed
    );
}

#[test]
fn every_failed_logical_request_consumes_whole_budget() {
    // two retries against an endpoint that always fails: every logical
    // request costs exactly three attempts
    let mut gen = LoadGen::new(profile(1, 1, 1, 2, 1));
    for _ in 0..5 {
        let used = run_always_failing(&mut gen, 40);
        assert_eq!(used, 3);
    }
    let data = gen.finalize(1, false);
    assert_eq!(data.successes, 0);
    assert_eq!(data.failures, 5);
    assert_eq!(data.total_requests, 15);
    assert_eq!(data.termination_reason, TerminationReason::MaxLoadReachedAndWindowClosed);
}

#[test]
fn cycle_settles_on_first_success() {
    let mut cycle = RequestCycle::new(3);
    cycle.record_attempt(false);
    assert!(!cycle.finished);
    cycle.record_attempt(true);
    assert!(cycle.finished && cycle.succeeded);
    assert_eq!(cycle.attempts_used, 2);
}

#[test]
fn aggregate_latency_figures_are_exact() {
    let mut gen = LoadGen::new(profile(1, 1, 1, 0, 1));
    run_ok(&mut gen, 10);
    run_ok(&mut gen, 30);
    run_ok(&mut gen, 20);
    let data = gen.finalize(1, false);
    assert_eq!(data.min_response_time, Some(10));
    assert_eq!(data.max_response_time, Some(30));
    assert_eq!(data.mean_response_time, Some(20));
    assert_eq!(data.total_requests, 3);
}

#[test]
fn empty_run_has_no_latency_figures() {
    let gen = LoadGen::new(profile(1, 2, 1, 0, 0));
    let data = gen.finalize(0, false);
    assert_eq!(data.total_requests, 0);
    assert_eq!(data.min_response_time, None);
    assert_eq!(data.max_response_time, None);
    assert_eq!(data.mean_response_time, None);
    assert_eq!(data.termination_reason, TerminationReason::DurationExpired);
}

#[test]
fn aborted_run_keeps_partial_aggregate() {
    let mut gen = LoadGen::new(profile(1, 8, 1, 0, 60));
    run_ok(&mut gen, 12);
    let data = gen.finalize(2, true);
    assert_eq!(data.total_requests, 1);
    assert_eq!(data.elapsed_seconds, 2);
    assert_eq!(data.termination_reason, TerminationReason::DurationExpired);
}

#[test]
fn attempts_equal_outcomes_without_retries() {
    let mut gen = LoadGen::new(profile(2, 2, 1, 0, 1));
    run_ok(&mut gen, 5);
    let _ = run_always_failing(&mut gen, 7);
    run_ok(&mut gen, 9);
    assert_eq!(gen.total_requests, gen.successes + gen.failures);
    assert_eq!(gen.successes, 2);
    assert_eq!(gen.failures, 1);
}
