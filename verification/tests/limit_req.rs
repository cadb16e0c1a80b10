use oxiserve::limit_req::{bump, step, Decision, Zone, SCALE};
use oxiserve::shm::{slot_count, Shared};

const SEED: u64 = 0x5eed;

/// Any moment, in milliseconds.
const T: u64 = 1_000_000;

const R1: u64 = 1 * SCALE; // 1 request per second

#[test]
fn first_request_always_passes() {
    let (excess, d) = step(0, u64::MAX / SCALE, R1, 0, false, 0);
    assert_eq!(d, Decision::Pass);
    assert_eq!(excess, 0, "a lone request leaves nothing behind");
}

#[test]
fn second_immediate_request_is_rejected_without_burst() {
    // Two requests in the same millisecond at 1r/s, burst 0.
    let (excess, _) = step(0, 1_000_000, R1, 0, false, 0);
    let (_, d) = step(excess, 0, R1, 0, false, 0);
    assert_eq!(d, Decision::Reject);
}

#[test]
fn requests_spaced_at_the_rate_all_pass() {
    let mut excess = 0;
    for i in 0..10 {
        let elapsed = if i == 0 { 1_000_000 } else { 1000 }; // exactly 1s apart
        let (e, d) = step(excess, elapsed, R1, 0, false, 0);
        assert_eq!(d, Decision::Pass, "request {i} at the configured rate must pass");
        excess = e;
    }
}

#[test]
fn burst_admits_a_short_spike_then_rejects() {
    // burst=3 means three extra requests may queue up.
    let burst = 3 * SCALE;
    let mut excess = 0;
    let mut passed = 0;
    for i in 0..10 {
        let elapsed = if i == 0 { 1_000_000 } else { 0 };
        let (e, d) = step(excess, elapsed, R1, burst, true, 0);
        if d == Decision::Reject {
            break;
        }
        excess = e;
        passed += 1;
    }
    // The first request plus `burst` more.
    assert_eq!(passed, 4, "expected 1 + burst(3) admitted, got {passed}");
}

#[test]
fn burst_without_nodelay_delays_instead_of_passing_instantly() {
    let burst = 5 * SCALE;
    let (excess, d) = step(0, 1_000_000, R1, burst, false, 0);
    assert_eq!(d, Decision::Pass, "the first request is on-rate");
    let (_, d2) = step(excess, 0, R1, burst, false, 0);
    // The second arrives early, so it waits ~1s at 1r/s.
    match d2 {
        Decision::Delay(ms) => assert!((900..=1100).contains(&ms), "delay was {ms}ms"),
        other => panic!("expected a delay, got {other:?}"),
    }
}

#[test]
fn nodelay_passes_the_whole_burst_immediately() {
    let burst = 5 * SCALE;
    let (excess, _) = step(0, 1_000_000, R1, burst, true, 0);
    let (_, d) = step(excess, 0, R1, burst, true, 0);
    assert_eq!(d, Decision::Pass, "nodelay must not delay");
}

#[test]
fn delay_after_passes_the_first_n_then_delays() {
    // `delay=2`: two burst requests go straight through, the rest wait.
    let burst = 5 * SCALE;
    let delay_after = 2 * SCALE;
    let mut excess = 0;
    let mut kinds = Vec::new();
    for i in 0..5 {
        let elapsed = if i == 0 { 1_000_000 } else { 0 };
        let (e, d) = step(excess, elapsed, R1, burst, false, delay_after);
        kinds.push(matches!(d, Decision::Delay(_)));
        excess = e;
    }
    assert_eq!(kinds[..3], [false, false, false], "first 1+delay(2) must not wait");
    assert!(kinds[3], "beyond the delay threshold requests must wait");
}

#[test]
fn bucket_drains_over_time() {
    // Fill the bucket, then wait long enough for it to empty.
    let burst = 2 * SCALE;
    let (excess, _) = step(0, 1_000_000, R1, burst, true, 0);
    let (excess, _) = step(excess, 0, R1, burst, true, 0);
    assert!(excess > 0);
    // Five seconds at 1r/s drains far more than the bucket holds.
    let (drained, d) = step(excess, 5000, R1, burst, true, 0);
    assert_eq!(d, Decision::Pass);
    assert_eq!(drained, 0, "the bucket must be empty again");
}

#[test]
fn fractional_rates_are_exact() {
    // 30r/m == 0.5r/s == 500 scaled. One request every 2s must pass.
    let rate = SCALE / 2;
    let mut excess = 0;
    for i in 0..6 {
        let elapsed = if i == 0 { 1_000_000 } else { 2000 };
        let (e, d) = step(excess, elapsed, rate, 0, false, 0);
        assert_eq!(d, Decision::Pass, "request {i} at 30r/m must pass");
        excess = e;
    }
    // Twice as fast is over the limit.
    let (_, d) = step(excess, 1000, rate, 0, false, 0);
    assert_eq!(d, Decision::Reject);
}

// ---- zone-level behaviour --------------------------------------------

#[test]
fn zone_isolates_keys_from_each_other() {
    let mut z = Zone::new("z", R1, 1000, SEED);
    let t: u64 = T;
    assert_eq!(z.check("1.1.1.1", t, 0, true, 0), Decision::Pass);
    assert_eq!(z.check("1.1.1.1", t, 0, true, 0), Decision::Reject);
    // A different client is unaffected by the first one's spending.
    assert_eq!(z.check("2.2.2.2", t, 0, true, 0), Decision::Pass);
}

#[test]
fn zone_recovers_after_the_rate_window() {
    let mut z = Zone::new("z", R1, 1000, SEED);
    let t: u64 = T;
    assert_eq!(z.check("k", t, 0, true, 0), Decision::Pass);
    assert_eq!(z.check("k", t, 0, true, 0), Decision::Reject);
    // One second later the bucket has drained.
    assert_eq!(z.check("k", t + 1100, 0, true, 0), Decision::Pass);
}

#[test]
fn zone_bounds_its_memory() {
    let mut z = Zone::new("z", R1, 64, SEED);
    let t: u64 = T;
    for i in 0..5000 {
        z.check(&format!("key{i}"), t, 10 * SCALE, true, 0);
    }
    // The table is fixed at construction: whatever the traffic does, the
    // occupancy can never exceed the slot count.
    assert!(z.tracked_count() <= 64, "tracked {} entries", z.tracked_count());
}

#[test]
fn rejected_requests_do_not_charge_the_bucket() {
    // Otherwise a client hammering the door would push its own recovery
    // further and further out — nginx does not do that.
    let mut z = Zone::new("z", R1, 1000, SEED);
    let t: u64 = T;
    assert_eq!(z.check("k", t, 0, true, 0), Decision::Pass);
    for _ in 0..50 {
        assert_eq!(z.check("k", t, 0, true, 0), Decision::Reject);
    }
    // Still recovers on schedule despite the flood.
    assert_eq!(z.check("k", t + 1100, 0, true, 0), Decision::Pass);
}

#[test]
fn delays_follow_the_excess() {
    // Two tokens over at 2 r/s: one second.
    assert_eq!(step(2000, 0, 2 * SCALE, 5 * SCALE, false, 0), (3000, Decision::Delay(1500)));
    // With `delay=1` only what lies beyond the first token waits.
    assert_eq!(step(1000, 0, SCALE, 5 * SCALE, false, SCALE), (2000, Decision::Delay(1000)));
}

#[test]
fn a_rejected_bump_leaves_the_state_alone() {
    let (first, d) = bump(0, T, R1, 0, true, 0);
    assert_eq!(d, Decision::Pass);
    assert_ne!(first, 0);
    let (second, d) = bump(first, T, R1, 0, true, 0);
    assert_eq!(d, Decision::Reject);
    assert_eq!(second, first);
    let (_, d) = bump(first, T + 1000, R1, 0, true, 0);
    assert_eq!(d, Decision::Pass);
}

#[test]
fn a_clock_that_steps_back_is_no_credit() {
    let (first, _) = bump(0, T, R1, 0, true, 0);
    assert_eq!(bump(first, T - 5000, R1, 0, true, 0).1, Decision::Reject);
}

#[test]
fn a_zone_meters_in_memory_that_is_handed_to_it() {
    let mem = Shared::new(slot_count(64) * 2);
    let mut z = Zone::with_memory("z", R1, 64, SEED, mem);
    assert_eq!(z.check("k", 0, 0, false, 0), Decision::Pass);
    assert_eq!(z.check("k", 0, 0, false, 0), Decision::Reject);
    assert_eq!(z.check("k", 1000, 0, false, 0), Decision::Pass);
    assert_eq!(z.tracked_count(), 1);
}

#[test]
fn a_rejected_first_request_leaves_no_trace() {
    // Without a rate nothing drains, so that the first request of a key is one too many.
    let mut with = Zone::new("z", 0, 1000, SEED);
    let mut without = Zone::new("z", 0, 1000, SEED);
    assert_eq!(with.check("k", T, 0, true, 0), Decision::Reject);
    for i in 0..20 {
        let key = format!("other{i}");
        assert_eq!(
            with.check(&key, T, 2 * SCALE, true, 0),
            without.check(&key, T, 2 * SCALE, true, 0)
        );
    }
    for _ in 0..3 {
        assert_eq!(
            with.check("k", T + 5, 2 * SCALE, true, 0),
            without.check("k", T + 5, 2 * SCALE, true, 0)
        );
    }
    assert_eq!(with.check("k", T + 5, 2 * SCALE, true, 0), Decision::Reject);
}

#[test]
fn no_more_is_admitted_than_the_rate_and_the_burst() {
    // 50 r/s with a burst of 10 over 5 seconds, under a flood from two keys.
    let mut z = Zone::new("z", 50 * SCALE, 1000, SEED);
    let mut admitted = 0;
    for ms in 0..=5000u64 {
        for _ in 0..3 {
            if z.check("flood", T + ms, 10 * SCALE, true, 0) != Decision::Reject {
                admitted += 1;
            }
            z.check("other", T + ms, 10 * SCALE, true, 0);
        }
    }
    assert!(1000 * admitted <= 10_000 + 1000 + 50_000 * 5000 / 1000);
    assert_eq!(admitted, 261);
}
