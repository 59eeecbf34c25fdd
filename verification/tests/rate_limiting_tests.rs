use load_balancer::rate_limiting::{RequestWindow, SlidingWindowRateLimiter};

#[test]
fn test_rate_limiter_reset() {
    // A rate limiter with a window size of 1 second and a maximum of 3 requests
    let mut rate_limiter = RequestWindow::new(1, 3);

    // Allow 3 requests within the window size
    assert!(rate_limiter.allow_request_at(0));
    assert!(rate_limiter.allow_request_at(0));
    assert!(rate_limiter.allow_request_at(0));

    // The fourth request should be denied
    assert!(!rate_limiter.allow_request_at(0));

    // One window size later, 3 requests are allowed again
    assert!(rate_limiter.allow_request_at(1));
    assert!(rate_limiter.allow_request_at(1));
    assert!(rate_limiter.allow_request_at(1));

    // The fourth request is denied, as the window has not moved on yet
    assert!(!rate_limiter.allow_request_at(1));

    // Another window size later, 3 requests are allowed again
    assert!(rate_limiter.allow_request_at(2));
    assert!(rate_limiter.allow_request_at(2));
    assert!(rate_limiter.allow_request_at(2));
}

#[test]
fn window_slides_instead_of_restarting() {
    let mut window = RequestWindow::new(2, 1);
    assert!(window.allow_request_at(1));
    assert!(!window.allow_request_at(2));
    assert!(window.allow_request_at(3));
    assert!(!window.allow_request_at(4));
}

#[test]
fn quota_holds_across_seconds_of_one_window() {
    let mut window = RequestWindow::new(10, 2);
    assert!(window.allow_request_at(0));
    assert!(window.allow_request_at(4));
    assert!(!window.allow_request_at(9));
    assert_eq!(window.request_count(), 2);
    assert!(window.allow_request_at(10));
    assert_eq!(window.request_count(), 2);
    assert!(!window.allow_request_at(13));
    assert!(window.allow_request_at(14));
}

#[test]
fn zero_limit_refuses_everything() {
    let mut window = RequestWindow::new(5, 0);
    assert!(!window.allow_request_at(0));
    assert!(!window.allow_request_at(100));
    assert_eq!(window.request_count(), 0);
}

#[test]
fn check_drops_counts_that_left_the_window() {
    let mut window = RequestWindow::new(2, 5);
    assert!(window.allow_request_at(1));
    assert!(window.allow_request_at(2));
    assert_eq!(window.rate_limit_check_at(2), 2);
    assert_eq!(window.rate_limit_check_at(3), 1);
    assert_eq!(window.rate_limit_check_at(4), 0);
    assert_eq!(window.request_count(), 0);
}

#[test]
fn copies_of_a_limiter_share_one_window() {
    let limiter = SlidingWindowRateLimiter::new(3600, 2);
    let copy = limiter.clone();
    assert!(limiter.allow_request());
    assert!(copy.allow_request());
    assert!(!limiter.allow_request());
    assert!(!copy.allow_request());
    assert_eq!(copy.request_count(), 2);
    assert_eq!(limiter.rate_limit_check(), 2);
}

#[test]
fn no_span_of_the_window_lets_more_through_than_the_limit() {
    let times: Vec<u64> = vec![0, 0, 1, 1, 2, 3, 3, 3, 5, 6, 6, 7, 9, 9, 9, 10, 12, 15, 15, 16];
    for (size, limit) in [(1u64, 1u32), (2, 1), (3, 2), (4, 3), (5, 2)] {
        let mut window = RequestWindow::new(size, limit);
        let admitted: Vec<u64> =
            times.iter().copied().filter(|t| window.allow_request_at(*t)).collect();
        assert!(window.request_count() <= limit);
        for from in 0..20u64 {
            let in_span = admitted.iter().filter(|t| from <= **t && **t < from + size).count();
            assert!(in_span <= limit as usize);
        }
    }
}

#[test]
fn shared_limiter_admits_again_once_the_window_has_moved_on() {
    let limiter = SlidingWindowRateLimiter::new(1, 3);
    let copy = limiter.clone();
    assert!(limiter.allow_request());
    assert!(copy.allow_request());
    assert!(limiter.allow_request());
    assert!(!copy.allow_request());
    let waited = std::time::Instant::now();
    while waited.elapsed() < std::time::Duration::from_millis(1500) {
        std::hint::spin_loop();
    }
    assert_eq!(limiter.rate_limit_check(), 0);
    assert!(copy.allow_request());
    assert!(limiter.allow_request());
    assert!(copy.allow_request());
    assert!(!limiter.allow_request());
}
