use owaf::rate_limit::RateLimiter;

#[test]
fn test_rate_limiter() {
    let mut limiter = RateLimiter::new();
    let host = "example.com";
    let ip = "192.168.1.1";

    // Limit: 2 requests per 10 seconds
    assert!(limiter.check(host, ip, 2, 10)); // 1st req
    assert!(limiter.check(host, ip, 2, 10)); // 2nd req
    assert!(!limiter.check(host, ip, 2, 10)); // 3rd req - blocked

    // Different IP should be allowed
    let ip2 = "10.0.0.1";
    assert!(limiter.check(host, ip2, 2, 10)); // 1st req

    // Zero limit blocks all
    assert!(!limiter.check(host, ip, 0, 10));

    // Zero window allows all
    assert!(limiter.check(host, ip, 2, 0));
}

#[test]
fn budget_is_exact_within_one_window() {
    let mut limiter = RateLimiter::new();
    let mut admitted = 0;
    for t in 100..110u64 {
        if limiter.check_at("a.com", "1.1.1.1", 3, 10, t) {
            admitted += 1;
        }
    }
    assert_eq!(admitted, 3);
}

#[test]
fn new_window_starts_a_new_count() {
    let mut limiter = RateLimiter::new();
    assert!(limiter.check_at("a.com", "1.1.1.1", 1, 60, 59));
    assert!(!limiter.check_at("a.com", "1.1.1.1", 1, 60, 59));
    assert!(limiter.check_at("a.com", "1.1.1.1", 1, 60, 60));
    assert!(!limiter.check_at("a.com", "1.1.1.1", 1, 60, 119));
    assert!(limiter.check_at("a.com", "1.1.1.1", 1, 60, 120));
}

#[test]
fn hosts_and_addresses_are_counted_apart() {
    let mut limiter = RateLimiter::new();
    assert!(limiter.check_at("a.com", "1.1.1.1", 1, 10, 5));
    assert!(!limiter.check_at("a.com", "1.1.1.1", 1, 10, 5));
    assert!(limiter.check_at("b.com", "1.1.1.1", 1, 10, 5));
    assert!(limiter.check_at("a.com", "2.2.2.2", 1, 10, 5));
    assert!(!limiter.check_at("b.com", "1.1.1.1", 1, 10, 5));
}

#[test]
fn refused_requests_are_not_counted() {
    let mut limiter = RateLimiter::new();
    assert!(limiter.check_at("h", "ip", 2, 10, 0));
    assert!(limiter.check_at("h", "ip", 2, 10, 1));
    assert!(!limiter.check_at("h", "ip", 2, 10, 2));
    // A larger limit in the same window counts from what was admitted.
    assert!(limiter.check_at("h", "ip", 3, 10, 3));
    assert!(!limiter.check_at("h", "ip", 3, 10, 4));
}

#[test]
fn zero_limit_and_zero_window_leave_counts_alone() {
    let mut limiter = RateLimiter::new();
    assert!(!limiter.check_at("h", "ip", 0, 10, 0));
    assert!(limiter.check_at("h", "ip", 5, 0, 0));
    // Neither of the calls above was counted.
    assert!(limiter.check_at("h", "ip", 1, 10, 0));
    assert!(!limiter.check_at("h", "ip", 1, 10, 0));
}

#[test]
fn growth_guard_keeps_answers_right() {
    let mut limiter = RateLimiter::new();
    for i in 0..10001u32 {
        let ip = format!("10.0.{}.{}", i / 256, i % 256);
        assert!(limiter.check_at("h", &ip, 1, 10, 0));
    }
    // More than the threshold: this check drops the stale clients first.
    assert!(limiter.check_at("h", "10.0.0.0", 1, 10, 100));
    assert!(!limiter.check_at("h", "10.0.0.0", 1, 10, 101));
    assert!(limiter.check_at("h", "10.0.0.1", 1, 10, 101));
    // A client of the previous window is still counted in its own window.
    assert!(limiter.check_at("h", "10.0.0.2", 1, 10, 95));
    assert!(!limiter.check_at("h", "10.0.0.2", 1, 10, 99));
}

#[test]
fn clock_reading_counts_within_one_endless_window() {
    let mut limiter = RateLimiter::new();
    assert!(limiter.check("h", "ip", 1, u64::MAX));
    assert!(!limiter.check("h", "ip", 1, u64::MAX));
}

#[test]
fn admitted_requests_come_first_in_a_window() {
    let mut limiter = RateLimiter::new();
    let answers: Vec<bool> = (200..206u64)
        .map(|t| limiter.check_at("a.com", "3.3.3.3", 2, 10, t))
        .collect();
    assert_eq!(answers, vec![true, true, false, false, false, false]);
}
