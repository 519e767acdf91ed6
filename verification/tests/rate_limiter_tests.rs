use ble_chirp::dedup::DedupWindow;
use ble_chirp::rate_limiter::{PaceDecision, RateLimiter, TOKEN_UNIT};

#[test]
fn bucket_starts_full_and_grants_burst() {
    // 2 tokens per second.
    let mut rl = RateLimiter::new(2 * TOKEN_UNIT, 0);
    assert_eq!(rl.capacity, 2 * TOKEN_UNIT);
    assert_eq!(rl.tokens, 2 * TOKEN_UNIT);
    assert!(matches!(rl.acquire(0), PaceDecision::Granted));
    assert!(matches!(rl.acquire(0), PaceDecision::Granted));
    // Bucket empty: half a second until the next token at 2 tokens/s.
    match rl.acquire(0) {
        PaceDecision::RetryAfterMicros(w) => assert_eq!(w, 500_000),
        PaceDecision::Granted => panic!("empty bucket must not grant"),
    }
    // After exactly the advertised wait the grant succeeds.
    assert!(matches!(rl.acquire(500_000), PaceDecision::Granted));
}

#[test]
fn slow_rate_still_holds_one_token() {
    // Half a token per second: capacity clamps to one full token.
    let mut rl = RateLimiter::new(TOKEN_UNIT / 2, 0);
    assert_eq!(rl.capacity, TOKEN_UNIT);
    assert!(matches!(rl.acquire(0), PaceDecision::Granted));
    match rl.acquire(0) {
        PaceDecision::RetryAfterMicros(w) => assert_eq!(w, 2_000_000),
        PaceDecision::Granted => panic!("empty bucket must not grant"),
    }
    assert!(matches!(rl.acquire(2_000_000), PaceDecision::Granted));
}

#[test]
fn refill_is_capped_at_capacity() {
    let mut rl = RateLimiter::new(TOKEN_UNIT, 0);
    assert!(matches!(rl.acquire(0), PaceDecision::Granted));
    // A long idle period refills to capacity, not beyond: one token only.
    assert!(matches!(rl.acquire(3_600_000_000), PaceDecision::Granted));
    assert!(matches!(
        rl.acquire(3_600_000_000),
        PaceDecision::RetryAfterMicros(_)
    ));
}

#[test]
fn throughput_tracks_configured_rate() {
    // 4 tokens per second, driven for 10 simulated seconds.
    let mut rl = RateLimiter::new(4 * TOKEN_UNIT, 0);
    let mut now: u64 = 0;
    let mut grants: u32 = 0;
    while now < 10_000_000 {
        match rl.acquire(now) {
            PaceDecision::Granted => grants += 1,
            PaceDecision::RetryAfterMicros(w) => now += w,
        }
    }
    // Initial burst of 4 plus 4 per second over 10 s, within tolerance.
    assert!((40..=45).contains(&grants), "grants = {grants}");
}

#[test]
fn dedup_window_reports_duplicates() {
    let mut w = DedupWindow::new();
    assert!(!w.observe(1, 0));
    assert!(w.observe(1, 0));
    assert!(!w.observe(1, 1));
    assert!(!w.observe(2, 0));
    assert!(w.observe(2, 0));
}

#[test]
fn dedup_window_evicts_oldest_first() {
    let mut w = DedupWindow::new();
    assert!(!w.observe(0, 0));
    // Fill the window past capacity with distinct pairs.
    for id in 1..=2048u32 {
        assert!(!w.observe(id, 0));
    }
    // The very first pair was evicted and counts as fresh again.
    assert!(!w.observe(0, 0));
    // A recent pair is still known.
    assert!(w.observe(2048, 0));
}
