use ms_gateway::config::RouteRule;
use ms_gateway::health_check::{create_health_status, UpstreamHealth};
use ms_gateway::load_balancer::pool::create_balancer_table;
use ms_gateway::load_balancer::WeightedUpstream;
use ms_gateway::message::{find_text, Header, RequestHead};
use ms_gateway::nacos::{create_service_table, update_service_instances, ServiceInstance};
use ms_gateway::proxy::{
    answer_headers, best_index, check_whitelist, choose_route, dispatch, find_best_match,
    forward_url, generate_span_id, generate_trace_id, keep_healthy, match_path, no_upstream_reply,
    outbound_headers, parse_trace_id, plan_route, reconstruct_forward_path, response_log_level,
    slow_request_level, upstream_failure_reply, upstreams_for, websocket_query, websocket_url,
    Dispatch, LogLevel, RouteChoice, TraceContext,
};

const TRACE: &str = "0af7651916cd43dd8448eb211c80319c";

fn headers(list: &[(&str, &str)]) -> Vec<Header> {
    list.iter()
        .map(|(n, v)| Header { name: n.to_string(), value: v.as_bytes().to_vec() })
        .collect()
}

fn names(list: &[Header]) -> Vec<&str> {
    list.iter().map(|h| h.name.as_str()).collect()
}

fn rule(prefix: &[&str], upstream: &[&str]) -> RouteRule {
    RouteRule {
        prefix: prefix.iter().map(|s| s.to_string()).collect(),
        upstream: upstream.iter().map(|s| s.to_string()).collect(),
        strategy: "robin".to_string(),
        whitelist: None,
        compiled_prefixes: vec![],
        compiled_whitelist: vec![],
        service_name: None,
    }
}

fn texts(list: &[&str]) -> Vec<String> {
    list.iter().map(|s| s.to_string()).collect()
}

fn trace() -> TraceContext {
    TraceContext::from_parts(
        Some(format!("00-{}-b7ad6b7169203331-01", TRACE)),
        "f".repeat(32),
        "00f067aa0ba902b7".to_string(),
    )
}

#[test]
fn trace_ids_are_parsed() {
    assert_eq!(parse_trace_id(&format!("00-{}-b7-01", TRACE)), Some(TRACE.to_string()));
    assert_eq!(parse_trace_id(&format!("00-{}-b7", TRACE)), Some(TRACE.to_string()));
    assert_eq!(parse_trace_id(&format!("00-{}", TRACE)), None);
    assert_eq!(parse_trace_id("00-abc-b7-01"), None);
    assert_eq!(parse_trace_id(""), None);
}

#[test]
fn generated_ids() {
    let hex = |s: &str| s.chars().all(|c| c.is_ascii_digit() || ('a'..='f').contains(&c));
    let id = generate_trace_id();
    assert!(id.len() == 32 && hex(&id));
    assert_ne!(id, generate_trace_id());
    let span = generate_span_id();
    assert!(span.len() == 16 && hex(&span));
}

#[test]
fn traces_are_continued() {
    let t = trace();
    assert_eq!(t.trace_id, TRACE);
    assert_eq!(t.traceparent, format!("00-{}-00f067aa0ba902b7-01", TRACE));
    assert_eq!(t.short, "0af76519");
    assert_eq!(parse_trace_id(&t.traceparent), Some(t.trace_id.clone()));
    let fresh =
        TraceContext::from_parts(Some("junk".to_string()), "e".repeat(32), "1".repeat(16));
    assert_eq!(fresh.trace_id, "e".repeat(32));
    let none = TraceContext::from_parts(None, "abc".to_string(), "1".to_string());
    assert_eq!(none.short, "abc");
    assert_eq!(none.traceparent, "00-abc-1-01");
    let inbound = format!("00-{}-b7ad6b7169203331-01", TRACE);
    let opened = TraceContext::open_for(&headers(&[("traceparent", &inbound)]));
    assert_eq!(opened.trace_id, TRACE);
    assert_eq!(TraceContext::open_for(&headers(&[])).trace_id.len(), 32);
}

#[test]
fn choices_follow_the_balancer_and_the_health() {
    let services = create_service_table();
    let status = create_health_status();
    let mut balancers = create_balancer_table();
    let rules = vec![rule(&["/user"], &["http://a:1", "http://b:1"])];
    let mut go =
        |path: &str| choose_route(&rules, path, &services, Some(&status), &mut balancers, None);
    let to = |choice: RouteChoice| match choice {
        RouteChoice::To { upstream, forward_path } => (upstream, forward_path),
        _ => panic!("the request can go somewhere"),
    };
    assert_eq!(to(go("/user/1")), ("http://a:1".to_string(), "/1".to_string()));
    assert_eq!(to(go("/user")), ("http://b:1".to_string(), String::new()));
    let mut down = UpstreamHealth::new("http://a:1".to_string());
    down.record_failure(1);
    status.insert("http://a:1".to_string(), down);
    for _ in 0..4 {
        assert_eq!(to(go("/user")).0, "http://b:1");
    }
    assert!(matches!(go("/none"), RouteChoice::Nowhere));
}

#[test]
fn weights_that_do_not_fit_are_told_apart() {
    let mut services = create_service_table();
    let heavy = |ip: &str| ServiceInstance {
        ip: ip.to_string(),
        port: 1,
        healthy: true,
        weight: u32::MAX,
    };
    update_service_instances(&mut services, "svc", vec![heavy("a"), heavy("b")]);
    let mut by_name = rule(&["/a"], &[]);
    by_name.service_name = Some("svc".to_string());
    by_name.strategy = "random".to_string();
    let mut balancers = create_balancer_table();
    let rules = vec![by_name];
    let choice = choose_route(&rules, "/a", &services, None, &mut balancers, None);
    assert!(matches!(choice, RouteChoice::Overweight));
    assert_eq!(balancers.len(), 0);
}

#[test]
fn requests_are_dispatched() {
    let head = |list: &[(&str, &str)]| RequestHead {
        path: "/proxy/user/1".to_string(),
        query: Some("q=1&token=t".to_string()),
        headers: headers(list),
    };
    match dispatch(&head(&[("accept", "x")]), &trace(), "http://a:1", "/1") {
        Dispatch::Forward(url, list) => {
            assert_eq!(url, "http://a:1/1?q=1&token=t");
            assert_eq!(names(&list), vec!["traceparent", "x-request-id", "accept"]);
        }
        Dispatch::Tunnel(_) => panic!("no upgrade was asked for"),
    }
    match dispatch(&head(&[("upgrade", "WebSocket")]), &trace(), "http://a:1", "") {
        Dispatch::Tunnel(url) => assert_eq!(url, "ws://a:1/user/1?uid=0&q=1"),
        Dispatch::Forward(_, _) => panic!("an upgrade was asked for"),
    }
}

#[test]
fn slow_requests() {
    assert_eq!(slow_request_level(199), None);
    assert_eq!(slow_request_level(200), Some("\u{1f7e2} SLOW >200ms"));
    assert_eq!(slow_request_level(499), Some("\u{1f7e2} SLOW >200ms"));
    assert_eq!(slow_request_level(500), Some("\u{1f7e1} SLOW >500ms"));
    assert_eq!(slow_request_level(1_000), Some("\u{1f7e1} SLOW >1s"));
    assert_eq!(slow_request_level(2_999), Some("\u{1f7e0} SLOW >2s"));
    assert_eq!(slow_request_level(3_000), Some("\u{1f7e0} SLOW >3s"));
    assert_eq!(slow_request_level(9_999), Some("\u{1f534} VERY_SLOW >5s"));
    assert_eq!(slow_request_level(u128::MAX), Some("\u{1f534} CRITICAL >10s"));
}

#[test]
fn log_levels() {
    assert_eq!(response_log_level(200), LogLevel::Info);
    assert_eq!(response_log_level(399), LogLevel::Info);
    assert_eq!(response_log_level(404), LogLevel::Warn);
    assert_eq!(response_log_level(500), LogLevel::Error);
    assert_eq!(response_log_level(600), LogLevel::Info);
}

#[test]
fn the_proxy_prefix_is_dropped() {
    assert_eq!(match_path("/proxy/a"), "/a");
    assert_eq!(match_path("/proxyish"), "ish");
    assert_eq!(match_path("/a/proxy"), "/a/proxy");
    assert_eq!(match_path("/proxy"), "");
}

#[test]
fn the_most_specific_rule_wins() {
    let rules = vec![
        rule(&["/api"], &["a"]),
        rule(&["/api/user"], &["b"]),
        rule(&["/**"], &["c"]),
        rule(&["/other", "/api/user"], &["d"]),
    ];
    assert_eq!(best_index(&rules, "/api/user/1"), Some(2));
    assert_eq!(best_index(&rules[..2].to_vec(), "/api/user/1"), Some(1));
    assert_eq!(best_index(&rules[..2].to_vec(), "/api/x"), Some(0));
    assert_eq!(best_index(&rules[..2].to_vec(), "/nothing"), None);
    let tied = vec![rule(&["/a"], &["x"]), rule(&["/a"], &["y"])];
    assert_eq!(find_best_match(&tied, "/a").unwrap().upstream[0], "x");
    let blank = vec![rule(&[""], &["x"])];
    assert!(blank[0].matches("/a"));
    assert!(find_best_match(&blank, "/a").is_none());
}

#[test]
fn forward_paths() {
    assert_eq!(reconstruct_forward_path("/user/1", &texts(&["/x", "/user"])), "/1");
    assert_eq!(reconstruct_forward_path("/user", &texts(&["/user"])), "");
    assert_eq!(reconstruct_forward_path("/users/1", &texts(&["/user", "/users"])), "s/1");
    assert_eq!(reconstruct_forward_path("/api/7", &texts(&["/api/{id}"])), "/api/7");
}

#[test]
fn whitelisted_paths() {
    let mut open = rule(&["/api"], &["a"]);
    open.whitelist = Some(texts(&["/api/login", "/api/public/**"]));
    let rules = vec![rule(&["/"], &["b"]), open];
    assert!(check_whitelist(&rules, "/proxy/api/login").is_some());
    assert!(check_whitelist(&rules, "/api/public/a/b").is_some());
    assert!(check_whitelist(&rules, "/api/secret").is_none());
    assert!(check_whitelist(&rules, "/none").is_none());
}

#[test]
fn upstreams_of_a_rule() {
    let mut services = create_service_table();
    let listed = upstreams_for(&rule(&["/a"], &["x", "y"]), &services);
    assert_eq!(listed.len(), 2);
    assert_eq!((listed[1].url.as_str(), listed[1].weight), ("y", 1));
    let mut by_name = rule(&["/a"], &["x"]);
    by_name.service_name = Some("svc".to_string());
    assert_eq!(upstreams_for(&by_name, &services).len(), 0);
    let one = ServiceInstance { ip: "h".to_string(), port: 1, healthy: true, weight: 3 };
    update_service_instances(&mut services, "svc", vec![one]);
    let found = upstreams_for(&by_name, &services);
    assert_eq!((found[0].url.as_str(), found[0].weight), ("http://h:1", 3));
}

#[test]
fn unhealthy_upstreams_are_skipped() {
    let status = create_health_status();
    let mut down = UpstreamHealth::new("x".to_string());
    down.record_failure(1);
    status.insert("x".to_string(), down);
    let list = || {
        vec![
            WeightedUpstream { url: "x".to_string(), weight: 1 },
            WeightedUpstream { url: "y".to_string(), weight: 2 },
        ]
    };
    let kept = keep_healthy(list(), Some(&status));
    assert_eq!(kept.len(), 1);
    assert_eq!((kept[0].url.as_str(), kept[0].weight), ("y", 2));
    assert_eq!(keep_healthy(list(), None).len(), 2);
    let only_down = vec![WeightedUpstream { url: "x".to_string(), weight: 1 }];
    assert_eq!(keep_healthy(only_down, Some(&status)).len(), 1);
}

#[test]
fn routes_are_planned() {
    let services = create_service_table();
    let rules = vec![rule(&["/user"], &["http://a:1", "http://b:1"])];
    let plan = plan_route(&rules, "/user/7", &services, None).unwrap();
    assert_eq!(plan.prefix, vec!["/user"]);
    assert_eq!(plan.strategy, "robin");
    assert_eq!(plan.upstreams.len(), 2);
    assert_eq!(plan.forward_path, "/7");
    assert!(plan_route(&rules, "/none", &services, None).is_none());
    let mut empty = rule(&["/svc"], &[]);
    empty.service_name = Some("gone".to_string());
    assert!(plan_route(&vec![empty], "/svc", &services, None).is_none());
}

#[test]
fn requests_are_forwarded() {
    let query = Some("a=1".to_string());
    assert_eq!(forward_url("http://a:1", "/x", &query), "http://a:1/x?a=1");
    assert_eq!(forward_url("http://a:1", "", &None), "http://a:1");
    let list =
        outbound_headers(&trace(), &headers(&[("host", "h"), ("accept", "*/*"), ("host", "i")]));
    assert_eq!(names(&list), vec!["traceparent", "x-request-id", "accept"]);
    assert_eq!(find_text(&list, "x-request-id"), Some(TRACE.to_string()));
}

#[test]
fn trace_headers_of_the_request_are_replaced() {
    let inbound = headers(&[
        ("traceparent", "00-ffffffffffffffffffffffffffffffff-1111111111111111-01"),
        ("host", "h"),
        ("x-request-id", "mine"),
        ("accept", "a"),
        ("x-request-id", "mine too"),
        ("accept", "b"),
    ]);
    let list = outbound_headers(&trace(), &inbound);
    assert_eq!(names(&list), vec!["traceparent", "x-request-id", "accept", "accept"]);
    assert_eq!(find_text(&list, "traceparent"), Some(trace().traceparent));
    assert_eq!(find_text(&list, "x-request-id"), Some(TRACE.to_string()));
    assert_eq!(list[2].value, b"a");
    assert_eq!(list[3].value, b"b");
    let head = RequestHead { path: "/a".to_string(), query: None, headers: inbound };
    match dispatch(&head, &trace(), "http://a:1", "/a") {
        Dispatch::Forward(_, sent) => assert_eq!(names(&sent), names(&list)),
        Dispatch::Tunnel(_) => panic!("no upgrade was asked for"),
    }
}

#[test]
fn websocket_addresses() {
    let query = Some("clientId=7&token=abc&tokens=1&token".to_string());
    assert_eq!(websocket_query("5", &query), "?uid=5&clientId=7&tokens=1");
    assert_eq!(websocket_query("5", &None), "?uid=5");
    let user = headers(&[("x-user-id", "42")]);
    assert_eq!(
        websocket_url("http://a:1", "/ws", "/x/ws", &user, &None),
        "ws://a:1/ws?uid=42"
    );
    assert_eq!(
        websocket_url("https://a", "", "/whole", &headers(&[]), &query),
        "wss://a/whole?uid=0&clientId=7&tokens=1"
    );
}

#[test]
fn answers_carry_the_trace() {
    let typed = answer_headers(&trace(), headers(&[("content-type", "text/html")]));
    assert_eq!(names(&typed), vec!["content-type", "traceparent", "x-trace-id"]);
    let untyped = answer_headers(&trace(), headers(&[("server", "s")]));
    assert_eq!(names(&untyped), vec!["server", "traceparent", "x-trace-id", "content-type"]);
    assert_eq!(
        find_text(&untyped, "content-type"),
        Some("application/octet-stream".to_string())
    );
    assert_eq!(find_text(&untyped, "x-trace-id"), Some("0af76519".to_string()));
}

#[test]
fn bad_gateway_replies() {
    let none = no_upstream_reply(&trace(), "/x");
    assert_eq!(none.status, 502);
    assert_eq!(none.body, "{\"error\":\"No upstream configured for path: /x\"}");
    assert_eq!(names(&none.headers), vec!["content-type", "traceparent", "x-trace-id"]);
    assert_eq!(
        find_text(&none.headers, "content-type"),
        Some("application/json; charset=utf-8".to_string())
    );
    let failed = upstream_failure_reply(&trace(), "refused");
    assert_eq!(failed.body, "{\"error\":\"Proxy error: refused\"}");
}
