use load_balancer::load_balancer::round_robin_step;
use load_balancer::args::Arguments;
use load_balancer::errors::RateLimitingError;
use load_balancer::load_balancer::{IndexHolder, LoadBalancer};

fn servers(names: &[&str]) -> Vec<String> {
    names.iter().map(|s| s.to_string()).collect()
}

fn balancer(names: &[&str], max_requests: u32) -> LoadBalancer {
    LoadBalancer::new(
        "127.0.0.1:5555".to_string(),
        "/health-check".to_string(),
        3,
        servers(names),
        10,
        max_requests,
    )
}

#[test]
fn index_holder_counts_round_robin() {
    let holder = IndexHolder::new(0);
    let picks: Vec<usize> = (0..7).map(|_| holder.increment(3)).collect();
    assert_eq!(picks, vec![1, 2, 0, 1, 2, 0, 1]);
    let last = IndexHolder::new(usize::MAX);
    assert_eq!(last.increment(2), 0);
    assert_eq!(last.increment(2), 1);
}

#[test]
fn copies_of_an_index_holder_share_the_counter() {
    let holder = IndexHolder::new(0);
    let copy = holder.clone();
    assert_eq!(holder.increment(3), 1);
    assert_eq!(copy.increment(3), 2);
    assert_eq!(holder.increment(3), 0);
}

#[test]
fn servers_are_chosen_in_turn() {
    let lb = balancer(&["a:1", "b:2", "c:3"], 100);
    let copy = lb.clone();
    let picks: Vec<String> = (0..4)
        .map(|i| {
            let chooser = if i % 2 == 0 { &lb } else { &copy };
            chooser.select_upstream().unwrap().unwrap()
        })
        .collect();
    assert_eq!(picks, servers(&["b:2", "c:3", "a:1", "b:2"]));
}

#[test]
fn no_servers_means_none() {
    let lb = balancer(&[], 1);
    assert!(matches!(lb.select_upstream(), Ok(None)));
    assert!(matches!(lb.select_upstream(), Ok(None)));
    assert_eq!(lb.rate_limiter.request_count(), 0);
}

#[test]
fn rate_limit_refuses_across_copies() {
    let lb = balancer(&["a", "b"], 1);
    let copy = lb.clone();
    assert_eq!(lb.select_upstream().unwrap(), Some("b".to_string()));
    assert!(matches!(copy.select_upstream(), Err(RateLimitingError::ExceededMaxRequests)));
    assert!(matches!(lb.select_upstream(), Err(RateLimitingError::ExceededMaxRequests)));
}

#[test]
fn choose_upstream_follows_the_limiter() {
    let lb = balancer(&["a", "b"], 1);
    assert_eq!(lb.choose_upstream(1, true).unwrap(), Some("b".to_string()));
    assert!(matches!(lb.choose_upstream(0, false), Err(RateLimitingError::ExceededMaxRequests)));
}

#[test]
fn mark_as_dead_adds_once() {
    let mut lb = balancer(&["a"], 1);
    lb.mark_as_dead(&"a".to_string());
    lb.mark_as_dead(&"b".to_string());
    lb.mark_as_dead(&"a".to_string());
    assert_eq!(lb.dead_upstreams, servers(&["a", "b"]));
}

#[test]
fn health_check_request_text() {
    let lb = balancer(&["a"], 1);
    assert_eq!(
        lb.health_check_request("10.0.0.1:80"),
        "GET /health-check HTTP/1.1\r\nHost: 10.0.0.1:80\r\nConnection: close\r\n\r\n"
    );
}

#[test]
fn health_check_targets_are_servers_then_dead() {
    let mut lb = balancer(&["a", "b"], 1);
    lb.mark_as_dead(&"z".to_string());
    assert_eq!(lb.health_check_targets(), servers(&["a", "b", "z"]));
}

#[test]
fn health_results_update_dead_servers() {
    let mut lb = balancer(&["a", "b", "c"], 1);
    lb.mark_as_dead(&"c".to_string());
    lb.mark_as_dead(&"d".to_string());
    let targets = lb.health_check_targets();
    assert_eq!(targets, servers(&["a", "b", "c", "c", "d"]));
    let responses = vec![
        Some("HTTP/1.1 200 OK\r\n\r\n".to_string()),
        Some("HTTP/1.1 500 Internal Server Error\r\n\r\n".to_string()),
        None,
        Some("HTTP/1.1 200 OK\r\n".to_string()),
        Some("200 ok".to_string()),
    ];
    let healthy = lb.health_checking_with(&targets, &responses);
    assert_eq!(healthy, servers(&["a", "c"]));
    assert_eq!(lb.dead_upstreams, servers(&["d", "b"]));
}

#[test]
fn from_arguments_fills_defaults() {
    let args = Arguments {
        load_balancer_ip: "0.0.0.0:1".to_string(),
        health_check_path: None,
        health_check_interval: None,
        bind: servers(&["x"]),
        window_size_secs: 4,
        max_requests: 2,
    };
    let lb = LoadBalancer::from_arguments(args);
    assert_eq!(lb.health_check_path, "/health-check");
    assert_eq!(lb.health_check_interval, 60);
    assert_eq!(lb.upstream_servers, servers(&["x"]));
    assert!(lb.dead_upstreams.is_empty());
    assert!(lb.select_upstream().is_ok());
    assert!(lb.select_upstream().is_ok());
    assert!(lb.select_upstream().is_err());
}

#[test]
fn round_robin_steps_pick_each_server_once() {
    for n in 1usize..6 {
        for start in [0usize, 3, 17, usize::MAX - 10] {
            let mut counter = start;
            let mut seen = vec![false; n];
            for _ in 0..n {
                let (next, index) = round_robin_step(counter, n);
                assert_eq!(next, counter.wrapping_add(1));
                assert!(!seen[index]);
                seen[index] = true;
                counter = next;
            }
            assert!(seen.iter().all(|s| *s));
        }
    }
    assert_eq!(round_robin_step(usize::MAX, 3), (0, 0));
}
