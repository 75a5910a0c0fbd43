use ms_gateway::config::RouteRule;
use ms_gateway::health_check::{
    begin_round, collect_upstreams, create_health_status, filter_healthy_upstreams,
    probe_succeeded, probe_url, record_probe, sync_health_table, HealthCheckConfig, UpstreamHealth,
};

fn rule(upstream: &[&str]) -> RouteRule {
    RouteRule {
        prefix: vec!["/a".to_string()],
        upstream: upstream.iter().map(|s| s.to_string()).collect(),
        strategy: "robin".to_string(),
        whitelist: None,
        compiled_prefixes: vec![],
        compiled_whitelist: vec![],
        service_name: None,
    }
}

#[test]
fn test_upstream_health_default_healthy() {
    let health = UpstreamHealth::new("http://localhost:3000".to_string());
    assert!(health.is_healthy());
    assert_eq!(health.consecutive_failures, 0);
    assert_eq!(health.consecutive_successes, 0);
}

#[test]
fn test_unhealthy_after_threshold() {
    let mut health = UpstreamHealth::new("http://localhost:3000".to_string());

    health.record_failure(3);
    health.record_failure(3);
    assert!(health.is_healthy());

    health.record_failure(3);
    assert!(!health.is_healthy());
}

#[test]
fn test_recovery_after_threshold() {
    let mut health = UpstreamHealth::new("http://localhost:3000".to_string());

    for _ in 0..3 {
        health.record_failure(3);
    }
    assert!(!health.is_healthy());

    health.record_success(2);
    assert!(!health.is_healthy());

    health.record_success(2);
    assert!(health.is_healthy());
}

#[test]
fn test_failure_resets_success_counter() {
    let mut health = UpstreamHealth::new("http://localhost:3000".to_string());

    for _ in 0..3 {
        health.record_failure(3);
    }
    assert!(!health.is_healthy());

    health.record_success(2);
    health.record_failure(3);
    assert_eq!(health.consecutive_successes, 0);

    health.record_success(2);
    assert!(!health.is_healthy());
    health.record_success(2);
    assert!(health.is_healthy());
}

#[test]
fn test_success_resets_failure_counter() {
    let mut health = UpstreamHealth::new("http://localhost:3000".to_string());

    health.record_failure(3);
    health.record_failure(3);

    health.record_success(2);
    assert_eq!(health.consecutive_failures, 0);

    health.record_failure(3);
    health.record_failure(3);
    assert!(health.is_healthy());
}

#[test]
fn test_filter_healthy_upstreams() {
    let status = create_health_status();
    let upstreams = vec![
        "http://a:3000".to_string(),
        "http://b:3000".to_string(),
        "http://c:3000".to_string(),
    ];

    let result = filter_healthy_upstreams(&upstreams, &status);
    assert_eq!(result.len(), 3);

    let mut health_b = UpstreamHealth::new("http://b:3000".to_string());
    for _ in 0..3 {
        health_b.record_failure(3);
    }
    status.insert("http://b:3000".to_string(), health_b);

    let result = filter_healthy_upstreams(&upstreams, &status);
    assert_eq!(result.len(), 2);
    assert!(!result.contains(&"http://b:3000".to_string()));
}

#[test]
fn test_filter_all_unhealthy_fallback() {
    let status = create_health_status();
    let upstreams = vec!["http://a:3000".to_string(), "http://b:3000".to_string()];

    for url in &upstreams {
        let mut health = UpstreamHealth::new(url.clone());
        for _ in 0..3 {
            health.record_failure(3);
        }
        status.insert(url.clone(), health);
    }

    let result = filter_healthy_upstreams(&upstreams, &status);
    assert_eq!(result.len(), 2);
}

#[test]
fn test_health_check_config_default() {
    let config = HealthCheckConfig::default();
    assert!(config.enabled);
    assert_eq!(config.interval_secs, 10);
    assert_eq!(config.timeout_secs, 3);
    assert_eq!(config.path, "/health");
    assert_eq!(config.unhealthy_threshold, 3);
    assert_eq!(config.healthy_threshold, 2);
}

#[test]
fn counters_start_over_at_their_limit() {
    let mut health = UpstreamHealth::new("u".to_string());
    health.consecutive_successes = u32::MAX;
    health.record_success(2);
    assert_eq!(health.consecutive_successes, 0);
    health.consecutive_failures = u32::MAX;
    health.record_failure(3);
    assert_eq!(health.consecutive_failures, 0);
    assert!(health.is_healthy());
}

#[test]
fn a_threshold_of_zero_acts_at_once() {
    let mut health = UpstreamHealth::new("u".to_string());
    health.record_failure(0);
    assert!(!health.is_healthy());
    health.record_success(0);
    assert!(health.is_healthy());
}

#[test]
fn filtering_keeps_order_and_repetitions() {
    let status = create_health_status();
    let mut down = UpstreamHealth::new("b".to_string());
    down.record_failure(1);
    status.insert("b".to_string(), down);
    status.insert("a".to_string(), UpstreamHealth::new("a".to_string()));
    let list: Vec<String> = ["c", "b", "a", "c"].iter().map(|s| s.to_string()).collect();
    assert_eq!(filter_healthy_upstreams(&list, &status), vec!["c", "a", "c"]);
    assert_eq!(filter_healthy_upstreams(&[], &status), Vec::<String>::new());
    assert_eq!(filter_healthy_upstreams(&["b".to_string()], &status), vec!["b"]);
}

#[test]
fn upstreams_are_collected_once() {
    let rules = vec![rule(&["x", "y"]), rule(&[]), rule(&["y", "z", "x"])];
    assert_eq!(collect_upstreams(&rules), vec!["x", "y", "z"]);
    assert_eq!(collect_upstreams(&vec![]), Vec::<String>::new());
}

#[test]
fn a_round_takes_up_and_drops_upstreams() {
    let mut status = create_health_status();
    let config = HealthCheckConfig::default();
    sync_health_table(&mut status, &vec!["x".to_string(), "y".to_string()]);
    assert_eq!(status.len(), 2);
    record_probe(&mut status, "x", false, &config);
    record_probe(&mut status, "gone", false, &config);
    assert_eq!(status.len(), 2);

    sync_health_table(&mut status, &vec!["z".to_string(), "x".to_string(), "z".to_string()]);
    assert_eq!(status.len(), 2);
    assert!(!status.contains_key("y"));
    assert_eq!(status.get("x").unwrap().consecutive_failures, 1);
    assert_eq!(status.get("z").unwrap().consecutive_failures, 0);
    assert_eq!(status.get("z").unwrap().url, "z");
}

#[test]
fn probes_count_toward_the_thresholds() {
    let mut status = create_health_status();
    let config = HealthCheckConfig::default();
    sync_health_table(&mut status, &vec!["x".to_string(), "y".to_string()]);
    let list = vec!["x".to_string(), "y".to_string()];
    for _ in 0..2 {
        record_probe(&mut status, "x", false, &config);
    }
    assert_eq!(filter_healthy_upstreams(&list, &status), vec!["x", "y"]);
    record_probe(&mut status, "x", false, &config);
    assert_eq!(filter_healthy_upstreams(&list, &status), vec!["y"]);
    record_probe(&mut status, "x", true, &config);
    assert_eq!(filter_healthy_upstreams(&list, &status), vec!["y"]);
    record_probe(&mut status, "x", true, &config);
    assert_eq!(filter_healthy_upstreams(&list, &status), vec!["x", "y"]);
}

#[test]
fn only_successful_statuses_count() {
    assert!(probe_succeeded(Some(200)));
    assert!(probe_succeeded(Some(299)));
    assert!(!probe_succeeded(Some(199)));
    assert!(!probe_succeeded(Some(300)));
    assert!(!probe_succeeded(Some(503)));
    assert!(!probe_succeeded(None));
    assert_eq!(probe_url("http://a:1", "/health"), "http://a:1/health");
}

#[test]
fn a_whole_round() {
    let mut status = create_health_status();
    let config = HealthCheckConfig::default();
    sync_health_table(&mut status, &vec!["gone".to_string(), "known".to_string()]);
    record_probe(&mut status, "known", false, &config);
    let rules = vec![rule(&["known", "new"]), rule(&["new"])];
    let urls = begin_round(&mut status, &config, &rules);
    assert_eq!(urls, vec!["known", "new"]);
    let reply = |url: &str| if url == "known" { None } else { Some(204) };
    for url in urls.iter().rev() {
        record_probe(&mut status, url, probe_succeeded(reply(url)), &config);
    }
    assert_eq!(status.len(), 2);
    assert_eq!(status.get("known").unwrap().consecutive_failures, 2);
    assert_eq!(status.get("new").unwrap().consecutive_successes, 1);
}

#[test]
fn a_round_that_is_not_enabled_does_nothing() {
    let mut status = create_health_status();
    sync_health_table(&mut status, &vec!["gone".to_string()]);
    let off = HealthCheckConfig { enabled: false, ..HealthCheckConfig::default() };
    assert_eq!(begin_round(&mut status, &off, &vec![rule(&["x"])]), Vec::<String>::new());
    assert_eq!(status.len(), 1);
    assert!(status.contains_key("gone"));
}

#[test]
fn health_follows_the_runs_of_a_history() {
    let run_ends = |history: &[bool], outcome: bool, n: usize, end: usize| {
        n <= end && history[end - n..end].iter().all(|o| *o == outcome)
    };
    for bits in 0..1024u32 {
        let history: Vec<bool> = (0..10).map(|i| bits >> i & 1 == 1).collect();
        let mut health = UpstreamHealth::new("u".to_string());
        for success in &history {
            if *success {
                health.record_success(2);
            } else {
                health.record_failure(3);
            }
        }
        let taken_out = (0..=10).any(|end| {
            run_ends(&history, false, 3, end)
                && !(end + 1..=10).any(|later| run_ends(&history, true, 2, later))
        });
        assert_eq!(health.is_healthy(), !taken_out);
    }
}
