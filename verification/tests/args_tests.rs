use load_balancer::args::{arguments_from_values, load_balancer_command, parse_arguments, Arguments, ArgsError};

fn argv(args: &[&str]) -> Vec<String> {
    args.iter().map(|s| s.to_string()).collect()
}

fn parse(args: &[&str]) -> Result<Arguments, ArgsError> {
    parse_arguments(&argv(args))
}

#[test]
fn test_parse_arguments() {
    // Simulate command-line arguments
    let args = vec![
        "program_name",
        "--load-balancer-ip",
        "192.168.1.196:5555",
        "-b",
        "192.168.1.192:2222,192.168.1.190:8080,192.168.1.191:3333",
        "-p",
        "/health-check",
        "-i",
        "3",
        "-s",
        "3",
        "-r",
        "5",
    ];

    // Parse the arguments
    let parsed_args = parse(&args).unwrap();

    // Expected values
    let expected_args = Arguments {
        load_balancer_ip: "192.168.1.196:5555".to_string(),
        health_check_path: Some("/health-check".to_string()),
        health_check_interval: Some(3),
        bind: vec![
            "192.168.1.192:2222".to_string(),
            "192.168.1.190:8080".to_string(),
            "192.168.1.191:3333".to_string(),
        ],
        window_size_secs: 3,
        max_requests: 5,
    };

    // Verify that the parsed arguments match the expected values
    assert_eq!(parsed_args.load_balancer_ip, expected_args.load_balancer_ip);
    assert_eq!(parsed_args.health_check_path, expected_args.health_check_path);
    assert_eq!(parsed_args.health_check_interval, expected_args.health_check_interval);
    assert_eq!(parsed_args.bind, expected_args.bind);
    assert_eq!(parsed_args.window_size_secs, expected_args.window_size_secs);
    assert_eq!(parsed_args.max_requests, expected_args.max_requests);
}

#[test]
fn attached_and_equals_forms_are_read() {
    let parsed = parse(&[
        "lb",
        "--load-balancer-ip=10.0.0.1:80",
        "-b10.0.0.2:80",
        "--bind",
        "10.0.0.3:80,10.0.0.4:80",
        "-p=/up",
        "-i60",
        "-s",
        "7",
        "-r=0",
    ])
    .unwrap();
    assert_eq!(parsed.load_balancer_ip, "10.0.0.1:80");
    assert_eq!(parsed.bind, vec!["10.0.0.2:80", "10.0.0.3:80", "10.0.0.4:80"]);
    assert_eq!(parsed.health_check_path, Some("/up".to_string()));
    assert_eq!(parsed.health_check_interval, Some(60));
    assert_eq!(parsed.window_size_secs, 7);
    assert_eq!(parsed.max_requests, 0);
}

#[test]
fn help_is_requested() {
    let e = parse(&["lb", "--help"]).unwrap_err();
    assert!(!e.use_stderr);
    assert_eq!(e.exit_code, 0);
    assert!(e.message.contains("--load-balancer-ip"));
    let e = parse(&["lb", "-l", "a", "-h"]).unwrap_err();
    assert!(!e.use_stderr);
    assert_eq!(e.exit_code, 0);
}

#[test]
fn missing_options_are_refused() {
    for args in [
        vec!["lb"],
        vec!["lb", "-l", "a", "-p", "/", "-i", "1", "-s", "1", "-r", "1"],
        vec!["lb", "-l", "a", "-b", "x", "-p", "/", "-i", "1", "-s", "1"],
    ] {
        let e = parse(&args).unwrap_err();
        assert!(e.use_stderr);
        assert_eq!(e.exit_code, 2);
        assert!(e.message.contains("required"));
    }
}

#[test]
fn bad_arguments_are_refused() {
    let e = parse(&["lb", "--port", "1"]).unwrap_err();
    assert!(e.message.contains("--port"));
    assert_eq!(e.exit_code, 2);
    let full = |i: &str, s: &str, r: &str| {
        parse(&["lb", "-l", "a", "-b", "x", "-p", "/", "-i", i, "-s", s, "-r", r])
    };
    for (i, s, r) in [("ten", "1", "1"), ("1", "18446744073709551616", "1"), ("1", "1", "4294967296")] {
        let e = full(i, s, r).unwrap_err();
        assert!(e.use_stderr);
        assert_eq!(e.exit_code, 2);
        assert!(e.message.contains("invalid value"));
    }
    assert!(full("1", "1", "1").is_ok());
}

#[test]
fn largest_counts_are_read() {
    let parsed = parse(&[
        "lb", "-l", "a", "-b", "x", "-p", "/", "-i", "18446744073709551615", "-s", "0", "-r",
        "4294967295",
    ])
    .unwrap();
    assert_eq!(parsed.health_check_interval, Some(u64::MAX));
    assert_eq!(parsed.window_size_secs, 0);
    assert_eq!(parsed.max_requests, u32::MAX);
}

fn one(v: &str) -> Option<Vec<String>> {
    Some(vec![v.to_string()])
}

#[test]
fn arguments_need_every_value() {
    let full = vec![one("a"), one("/"), one("1"), Some(vec!["x".to_string(), "y".to_string()]), one("2"), one("3")];
    let all = arguments_from_values(full.clone()).unwrap();
    assert_eq!(all.load_balancer_ip, "a");
    assert_eq!(all.health_check_path, Some("/".to_string()));
    assert_eq!(all.health_check_interval, Some(1));
    assert_eq!(all.bind, vec!["x", "y"]);
    assert_eq!(all.window_size_secs, 2);
    assert_eq!(all.max_requests, 3);
    for k in 0..6 {
        let mut missing = full.clone();
        missing[k] = None;
        assert!(arguments_from_values(missing).is_none());
    }
    let mut twice = full.clone();
    twice[0] = Some(vec!["a".to_string(), "b".to_string()]);
    assert!(arguments_from_values(twice).is_none());
    assert!(arguments_from_values(full[..5].to_vec()).is_none());
}

#[test]
fn numbers_read_as_clap_reads_them() {
    let with = |i: &str, s: &str, r: &str| {
        arguments_from_values(vec![one("a"), one("/"), one(i), one("x"), one(s), one(r)])
    };
    let a = with("+7", "18446744073709551615", "-0").unwrap();
    assert_eq!(a.health_check_interval, Some(7));
    assert_eq!(a.window_size_secs, u64::MAX);
    assert_eq!(a.max_requests, 0);
    assert!(with("-1", "1", "1").is_none());
    assert!(with("1", "18446744073709551616", "1").is_none());
    assert!(with("1", "1", "4294967296").is_none());
    assert!(with("1", "1", "-1").is_none());
    assert!(with("ten", "1", "1").is_none());
    assert!(with("", "1", "1").is_none());
}

#[test]
fn the_command_line_is_described_to_clap() {
    let command = load_balancer_command();
    assert_eq!(command.options.len(), 6);
    let shorts: Vec<char> = command.options.iter().map(|o| o.short).collect();
    assert_eq!(shorts, vec!['l', 'p', 'i', 'b', 's', 'r']);
    let help = parse(&["lb", "--help"]).unwrap_err();
    assert!(help.message.contains("Represents the command-line arguments for the load balancer."));
    assert!(help.message.contains("UPSTREAM_SERVERS"));
}
