use upload_download::limiter::RateLimiter;

const SEC: u64 = 1_000_000_000;

#[test]
fn new_limiter_allows_everyone() {
    let mut l = RateLimiter::new();
    assert_eq!(l.check_at("1.2.3.4", 0), Ok(()));
    assert_eq!(l.check("1.2.3.4"), Ok(()));
}

#[test]
fn two_failures_are_allowed() {
    let mut l = RateLimiter::new();
    l.record_failure_at("ip", 0);
    l.record_failure_at("ip", SEC);
    assert_eq!(l.check_at("ip", 2 * SEC), Ok(()));
}

#[test]
fn three_failures_block_with_wait() {
    let mut l = RateLimiter::new();
    l.record_failure_at("ip", 0);
    l.record_failure_at("ip", SEC);
    l.record_failure_at("ip", 2 * SEC);
    // the oldest failure is 100 s old: 500 s remain of the 600 s window
    assert_eq!(l.check_at("ip", 100 * SEC), Err(500));
    assert_eq!(l.check_at("ip", 100 * SEC + SEC / 2), Err(500));
    assert_eq!(l.check_at("ip", 599 * SEC), Err(1));
}

#[test]
fn wait_counts_from_third_newest_counted_failure() {
    let mut l = RateLimiter::new();
    l.record_failure_at("ip", 0);
    l.record_failure_at("ip", 300 * SEC);
    l.record_failure_at("ip", 400 * SEC);
    l.record_failure_at("ip", 500 * SEC);
    // at 650 s the failure at 0 has left the window; three count, the third-newest at 300 s
    assert_eq!(l.check_at("ip", 650 * SEC), Err(250));
}

#[test]
fn failures_expire_after_window() {
    let mut l = RateLimiter::new();
    l.record_failure_at("ip", 0);
    l.record_failure_at("ip", 0);
    l.record_failure_at("ip", 0);
    assert_eq!(l.check_at("ip", 599 * SEC + SEC - 1), Err(1));
    assert_eq!(l.check_at("ip", 600 * SEC), Ok(()));
    // the expired failures are forgotten for good
    assert_eq!(l.check_at("ip", 0), Ok(()));
}

#[test]
fn failure_in_future_counts_as_fresh() {
    let mut l = RateLimiter::new();
    l.record_failure_at("ip", 1000 * SEC);
    l.record_failure_at("ip", 1000 * SEC);
    l.record_failure_at("ip", 1000 * SEC);
    assert_eq!(l.check_at("ip", 0), Err(600));
}

#[test]
fn reset_unblocks() {
    let mut l = RateLimiter::new();
    for _ in 0..5 {
        l.record_failure_at("ip", 10 * SEC);
    }
    assert!(l.check_at("ip", 11 * SEC).is_err());
    l.reset("ip");
    assert_eq!(l.check_at("ip", 11 * SEC), Ok(()));
    l.reset("never-seen");
}

#[test]
fn clients_are_counted_apart() {
    let mut l = RateLimiter::new();
    l.record_failure_at("a", 0);
    l.record_failure_at("a", 0);
    l.record_failure_at("a", 0);
    l.record_failure_at("b", 0);
    assert!(l.check_at("a", SEC).is_err());
    assert_eq!(l.check_at("b", SEC), Ok(()));
    l.reset("b");
    assert!(l.check_at("a", SEC).is_err());
}

#[test]
fn check_and_record_on_own_clock() {
    let mut l = RateLimiter::new();
    l.record_failure("x");
    l.record_failure("x");
    assert_eq!(l.check("x"), Ok(()));
    l.record_failure("x");
    match l.check("x") {
        Err(wait) => assert!(wait >= 1 && wait <= 600),
        Ok(()) => panic!("three fresh failures must block"),
    }
}

#[test]
fn checking_twice_changes_nothing() {
    let mut l = RateLimiter::new();
    l.record_failure_at("ip", 0);
    l.record_failure_at("ip", 700 * SEC);
    l.record_failure_at("ip", 710 * SEC);
    l.record_failure_at("ip", 720 * SEC);
    let first = l.check_at("ip", 800 * SEC);
    let second = l.check_at("ip", 800 * SEC);
    assert_eq!(first, Err(500));
    assert_eq!(first, second);
}

#[test]
fn reset_stays_allowed_until_three_later_failures() {
    let mut l = RateLimiter::new();
    l.record_failure_at("ip", 0);
    l.record_failure_at("ip", SEC);
    l.record_failure_at("ip", 2 * SEC);
    assert!(l.check_at("ip", 3 * SEC).is_err());
    l.reset("ip");
    assert_eq!(l.check_at("ip", 3 * SEC), Ok(()));
    l.record_failure_at("ip", 4 * SEC);
    l.record_failure_at("ip", 5 * SEC);
    assert_eq!(l.check_at("ip", 6 * SEC), Ok(()));
    l.record_failure_at("ip", 6 * SEC);
    assert_eq!(l.check_at("ip", 7 * SEC), Err(597));
}

#[test]
fn allowed_after_reported_wait() {
    let mut l = RateLimiter::new();
    l.record_failure_at("ip", 0);
    l.record_failure_at("ip", SEC);
    l.record_failure_at("ip", 2 * SEC);
    let wait = l.check_at("ip", 2 * SEC).unwrap_err();
    assert_eq!(wait, 598);
    assert!(l.check_at("ip", 2 * SEC + wait * SEC - 1).is_err());
    assert_eq!(l.check_at("ip", 2 * SEC + wait * SEC), Ok(()));
}

#[test]
fn wait_is_remaining_cooldown_with_four_failures() {
    let mut l = RateLimiter::new();
    for k in 0..4u64 {
        l.record_failure_at("ip", k * SEC);
    }
    // four count at 3 s; the client is free once the failure at 1 s leaves
    let wait = l.check_at("ip", 3 * SEC).unwrap_err();
    assert_eq!(wait, 598);
    assert!(l.check_at("ip", 3 * SEC + wait * SEC - SEC).is_err());
    assert_eq!(l.check_at("ip", 3 * SEC + wait * SEC), Ok(()));
}
