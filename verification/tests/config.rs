use ms_gateway::config::{
    create_shared_route_rules, default_nacos_addrs, default_nacos_group, default_nacos_namespace,
    default_strategy, is_nacos_routes_active, load_route_rules, nested_name, prepare_routes,
    reload_route_rules,
    set_nacos_routes_active, triggers_reload, FileChange, NacosRoutes, RouteRule, RoutesFile,
    Settings, StringOrVec,
};
use ms_gateway::health_check::HealthCheckConfig;

fn rule(prefix: &[&str], upstream: &[&str], strategy: &str) -> RouteRule {
    RouteRule {
        prefix: prefix.iter().map(|s| s.to_string()).collect(),
        upstream: upstream.iter().map(|s| s.to_string()).collect(),
        strategy: strategy.to_string(),
        whitelist: None,
        compiled_prefixes: vec![],
        compiled_whitelist: vec![],
        service_name: None,
    }
}

fn settings(timeout: Option<u64>) -> Settings {
    Settings {
        gateway_bind: "0.0.0.0:8080".to_string(),
        jwt_decoding_key: "key".to_string(),
        global_qps: 10,
        client_qps: 1,
        request_timeout_secs: timeout,
        cors_allowed_origins: None,
        nacos: None,
    }
}

#[test]
fn test_route_rule_matching() {
    let mut routes = vec![
        RouteRule {
            prefix: vec!["/user".to_string(), "/users".to_string()],
            upstream: vec!["http://localhost:30000".to_string()],
            strategy: "robin".to_string(),
            whitelist: None,
            compiled_prefixes: vec![],
            compiled_whitelist: vec![],
            service_name: None,
        },
        RouteRule {
            prefix: vec!["/api/user/{id}".to_string()],
            upstream: vec![
                "http://localhost:30001".to_string(),
                "http://localhost:30002".to_string(),
            ],
            strategy: "random".to_string(),
            whitelist: None,
            compiled_prefixes: vec![],
            compiled_whitelist: vec![],
            service_name: None,
        },
    ];

    for rule in &mut routes {
        rule.compile_patterns();
    }

    let test_cases = vec![
        ("/user", true, "30000"),
        ("/users", true, "30000"),
        ("/api/user/123", true, "30001或30002"),
    ];

    for (path, _should_match, expected_upstream) in test_cases {
        let mut matched = false;
        for route in &routes {
            if route.matches(path) {
                if route.upstream.len() == 1 {
                    assert_eq!(
                        route.upstream[0],
                        format!("http://localhost:{}", expected_upstream)
                    );
                }
                matched = true;
                break;
            }
        }
        assert!(matched, "路径 {} 应该匹配某个路由", path);
    }
}

#[test]
fn test_route_rule_validation() {
    let valid_route = RouteRule {
        prefix: vec!["/user".to_string()],
        upstream: vec!["http://localhost:30000".to_string()],
        strategy: "robin".to_string(),
        whitelist: None,
        compiled_prefixes: vec![],
        compiled_whitelist: vec![],
        service_name: None,
    };
    assert!(valid_route.validate().is_ok());

    let invalid_prefix = RouteRule {
        prefix: vec![],
        upstream: vec!["http://localhost:30000".to_string()],
        strategy: "robin".to_string(),
        whitelist: None,
        compiled_prefixes: vec![],
        compiled_whitelist: vec![],
        service_name: None,
    };
    assert!(invalid_prefix.validate().is_err());

    let invalid_upstream = RouteRule {
        prefix: vec!["/user".to_string()],
        upstream: vec![],
        strategy: "robin".to_string(),
        whitelist: None,
        compiled_prefixes: vec![],
        compiled_whitelist: vec![],
        service_name: None,
    };
    assert!(invalid_upstream.validate().is_err());

    let invalid_strategy = RouteRule {
        prefix: vec!["/user".to_string()],
        upstream: vec!["http://localhost:30000".to_string()],
        strategy: "unknown".to_string(),
        whitelist: None,
        compiled_prefixes: vec![],
        compiled_whitelist: vec![],
        service_name: None,
    };
    assert!(invalid_strategy.validate().is_err());
}

#[test]
fn validation_says_what_is_wrong() {
    assert_eq!(rule(&[], &["u"], "robin").validate(), Err("prefix不能为空".to_string()));
    assert_eq!(
        rule(&["/a", " \t"], &["u"], "robin").validate(),
        Err("prefix[1]不能为空".to_string())
    );
    assert_eq!(
        rule(&["/a"], &[], "robin").validate(),
        Err("upstream 和 service_name 不能同时为空".to_string())
    );
    assert_eq!(
        rule(&["/a"], &["u", "v", ""], "robin").validate(),
        Err("upstream[2]不能为空".to_string())
    );
    assert_eq!(
        rule(&["/a"], &["u"], "unknown").validate(),
        Err("不支持的负载均衡策略: unknown".to_string())
    );
    let mut by_service = rule(&["/a"], &[], "iphash");
    by_service.service_name = Some("svc".to_string());
    assert_eq!(by_service.validate(), Ok(()));
    assert_eq!(rule(&["/a"], &["u"], "round_robin").validate(), Ok(()));
    assert_eq!(rule(&["/a"], &["u"], "random").validate(), Ok(()));
}

#[test]
fn plain_prefixes_end_at_segments() {
    let user = rule(&["/user"], &["u"], "robin");
    assert!(user.matches("/user"));
    assert!(user.matches("/user/"));
    assert!(user.matches("/user/1"));
    assert!(!user.matches("/users"));
    assert!(!user.matches("/use"));
    assert!(!user.matches("/v1/user"));
}

#[test]
fn broken_patterns_fall_back() {
    let broken = rule(&["/a/{id"], &["u"], "robin");
    assert!(broken.matches("/a/{id/x"));
    assert!(!broken.matches("/a/1"));
    let mut listed = rule(&["/a"], &["u"], "robin");
    listed.whitelist = Some(vec!["/a/{id".to_string()]);
    assert!(!listed.is_whitelist_hit("/a/{id"));
}

#[test]
fn compiling_changes_no_answer() {
    let mut route = rule(&["/api/user/{id}", "/files/**"], &["u"], "robin");
    route.whitelist = Some(vec!["/files/public/*".to_string(), "/api/ping".to_string()]);
    let before = route.clone();
    route.compile_patterns();
    assert_eq!(route.compiled_prefixes.len(), 2);
    assert_eq!(route.compiled_whitelist.len(), 1);
    for path in ["/api/user/1", "/api/user/1/2", "/files/a/b", "/files/public/x", "/api/ping"] {
        assert_eq!(route.matches(path), before.matches(path));
        assert_eq!(route.is_whitelist_hit(path), before.is_whitelist_hit(path));
    }
    assert!(route.is_whitelist_hit("/files/public/x"));
    assert!(!route.is_whitelist_hit("/files/public/x/y"));
    assert!(route.is_whitelist_hit("/api/ping/deep"));
    assert!(!before.is_whitelist_hit("/api/pinging"));
}

#[test]
fn variables_are_extracted() {
    let mut route = rule(&["/plain", "/api/{kind}/{id}"], &["u"], "robin");
    route.compile_patterns();
    let vars = route.extract_variables("/api/user/42");
    assert_eq!(vars.len(), 2);
    assert_eq!(vars.get("kind"), Some(&"user".to_string()));
    assert_eq!(vars.get("id"), Some(&"42".to_string()));
    assert_eq!(route.extract_variables("/plain/x").len(), 0);
    assert_eq!(route.extract_variables("/other").len(), 0);
}

#[test]
fn a_string_counts_as_a_list_of_one() {
    assert_eq!(StringOrVec::One("/a".to_string()).into_list(), vec!["/a".to_string()]);
    let many = vec!["/a".to_string(), "/b".to_string()];
    assert_eq!(StringOrVec::Many(many.clone()).into_list(), many);
    assert_eq!(StringOrVec::into_optional_list(None), None);
    assert_eq!(
        StringOrVec::into_optional_list(Some(StringOrVec::One("x".to_string()))),
        Some(vec!["x".to_string()])
    );
}

#[test]
fn defaults() {
    assert_eq!(default_strategy(), "robin");
    assert_eq!(default_nacos_addrs(), "127.0.0.1:8848");
    assert_eq!(default_nacos_namespace(), "public");
    assert_eq!(default_nacos_group(), "DEFAULT_GROUP");
}

#[test]
fn request_timeout_is_ten_seconds_by_default() {
    assert_eq!(settings(None).request_timeout(), std::time::Duration::from_secs(10));
    assert_eq!(settings(Some(3)).request_timeout(), std::time::Duration::from_secs(3));
}

#[test]
fn loading_checks_and_compiles_every_rule() {
    let file = RoutesFile {
        routes: vec![rule(&["/a/*"], &["u"], "robin"), rule(&["/b"], &["v"], "random")],
        health_check: None,
    };
    let (rules, health) = load_route_rules(file).unwrap();
    assert_eq!(rules.len(), 2);
    assert_eq!(rules[0].compiled_prefixes.len(), 1);
    assert_eq!(health.interval_secs, 10);

    let set = HealthCheckConfig { interval_secs: 77, ..HealthCheckConfig::default() };
    let file = RoutesFile { routes: vec![], health_check: Some(set) };
    assert_eq!(load_route_rules(file).unwrap().1.interval_secs, 77);

    let file = RoutesFile {
        routes: vec![rule(&["/a"], &["u"], "robin"), rule(&["/b"], &["v"], "none")],
        health_check: None,
    };
    assert_eq!(
        load_route_rules(file).unwrap_err(),
        "路由规则 #2 配置错误: 不支持的负载均衡策略: none"
    );
}

#[test]
fn the_first_flaw_is_reported() {
    let flaw = prepare_routes(vec![
        rule(&["/a"], &["u"], "robin"),
        rule(&[], &["u"], "robin"),
        rule(&["/b"], &["u"], "none"),
    ])
    .unwrap_err();
    assert_eq!(flaw.index, 1);
    assert_eq!(flaw.message, "prefix不能为空");
}

#[test]
fn reloading_replaces_the_rules() {
    let mut shared = create_shared_route_rules(vec![]);
    let state = NacosRoutes::new();
    let before = shared.snapshot();
    let loaded = Ok(vec![rule(&["/a"], &["u"], "robin"), rule(&["/b"], &["u"], "robin")]);
    assert_eq!(reload_route_rules(&mut shared, &state, loaded), Ok(2));
    assert_eq!(before.len(), 0);
    assert_eq!(shared.snapshot().len(), 2);
    assert_eq!(shared.snapshot()[1].prefix[0], "/b");
    shared.store(vec![]);
    assert_eq!(shared.snapshot().len(), 0);
}

#[test]
fn failed_reloads_change_nothing() {
    let mut shared = create_shared_route_rules(vec![rule(&["/a"], &["u"], "robin")]);
    let mut state = NacosRoutes::new();
    assert!(!is_nacos_routes_active(&state));
    assert_eq!(
        reload_route_rules(&mut shared, &state, Err("boom".to_string())),
        Err("路由重载失败: boom".to_string())
    );
    assert_eq!(shared.snapshot().len(), 1);

    set_nacos_routes_active(&mut state, true);
    assert!(is_nacos_routes_active(&state));
    assert_eq!(
        reload_route_rules(&mut shared, &state, Ok(vec![])),
        Err("Nacos 路由已激活，本地 routes.toml 变更已忽略".to_string())
    );
    assert_eq!(shared.snapshot().len(), 1);

    set_nacos_routes_active(&mut state, false);
    assert_eq!(reload_route_rules(&mut shared, &state, Ok(vec![])), Ok(0));
    assert_eq!(shared.snapshot().len(), 0);
}

#[test]
fn changes_are_debounced() {
    let names = vec!["config.toml".to_string(), "routes.toml".to_string()];
    let other = vec!["config.toml".to_string()];
    assert!(triggers_reload(FileChange::Contents, &names, 2_000_000_001));
    assert!(triggers_reload(FileChange::Unspecified, &names, 2_000_000_001));
    assert!(!triggers_reload(FileChange::Other, &names, 2_000_000_001));
    assert!(!triggers_reload(FileChange::Contents, &names, 2_000_000_000));
    assert!(!triggers_reload(FileChange::Contents, &other, 9_000_000_000));
    assert!(!triggers_reload(FileChange::Contents, &vec![], 9_000_000_000));
}

#[test]
fn variables_with_a_single_underscore() {
    assert_eq!(nested_name("NACOS_ENABLED"), Some("NACOS__ENABLED".to_string()));
    assert_eq!(nested_name("NACOS_SERVER_ADDRS"), Some("NACOS__SERVER_ADDRS".to_string()));
    assert_eq!(nested_name("NACOS__ENABLED"), None);
    assert_eq!(nested_name("NACOS_"), None);
    assert_eq!(nested_name("NACOS"), None);
    assert_eq!(nested_name("GATEWAY_BIND"), None);
}
