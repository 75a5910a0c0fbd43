use ms_gateway::config::{
    create_shared_route_rules, is_nacos_routes_active, set_nacos_routes_active, NacosRoutes,
    NacosSettings, RouteRule, Settings,
};
use ms_gateway::nacos::{
    apply_routes, collect_services, create_service_table, credentials, get_service_instances,
    instances_to_weighted_upstreams, next_step, parse_bind_addr, registered_name, routes_key,
    update_service_instances, ServiceInstance, Startup,
};

fn nacos_settings() -> NacosSettings {
    NacosSettings {
        enabled: true,
        server_addrs: "127.0.0.1:8848".to_string(),
        username: None,
        password: None,
        config_namespace: "ns".to_string(),
        config_group: "cg".to_string(),
        naming_namespace: "nn".to_string(),
        naming_group: "ng".to_string(),
        register_enabled: false,
        service_name: None,
        routes_data_id: None,
        routes_group: None,
    }
}

fn settings(nacos: Option<NacosSettings>) -> Settings {
    Settings {
        gateway_bind: "0.0.0.0:8080".to_string(),
        jwt_decoding_key: "key".to_string(),
        global_qps: 10,
        client_qps: 1,
        request_timeout_secs: None,
        cors_allowed_origins: None,
        nacos,
    }
}

fn rule(prefix: &str, service: Option<&str>) -> RouteRule {
    RouteRule {
        prefix: vec![prefix.to_string()],
        upstream: vec!["u".to_string()],
        strategy: "robin".to_string(),
        whitelist: None,
        compiled_prefixes: vec![],
        compiled_whitelist: vec![],
        service_name: service.map(|s| s.to_string()),
    }
}

fn instance(ip: &str, healthy: bool, weight: u32) -> ServiceInstance {
    ServiceInstance { ip: ip.to_string(), port: 8081, healthy, weight }
}

#[test]
fn instances_become_upstreams() {
    let mut table = create_service_table();
    assert!(get_service_instances(&table, "svc").is_none());
    assert_eq!(instances_to_weighted_upstreams(&table, "svc").len(), 0);
    update_service_instances(
        &mut table,
        "svc",
        vec![instance("10.0.0.1", true, 0), instance("10.0.0.2", false, 5), instance("h", true, 7)],
    );
    let list = instances_to_weighted_upstreams(&table, "svc");
    assert_eq!(list.len(), 2);
    assert_eq!(list[0].url, "http://10.0.0.1:8081");
    assert_eq!(list[0].weight, 1);
    assert_eq!(list[1].url, "http://h:8081");
    assert_eq!(list[1].weight, 7);
    assert_eq!(get_service_instances(&table, "svc").unwrap().len(), 3);
    update_service_instances(&mut table, "svc", vec![]);
    assert_eq!(instances_to_weighted_upstreams(&table, "svc").len(), 0);
    assert_eq!(get_service_instances(&table, "svc").unwrap().len(), 0);
}

#[test]
fn bind_addresses() {
    let own = || Some("192.168.0.5".to_string());
    assert_eq!(parse_bind_addr("0.0.0.0:9000", own()), ("192.168.0.5".to_string(), 9000));
    assert_eq!(parse_bind_addr("0.0.0.0:9000", None), ("127.0.0.1".to_string(), 9000));
    assert_eq!(parse_bind_addr("10.1.1.1:80", own()), ("10.1.1.1".to_string(), 80));
    assert_eq!(parse_bind_addr("10.1.1.1:http", own()), ("10.1.1.1".to_string(), 8080));
    assert_eq!(parse_bind_addr("10.1.1.1:", own()), ("10.1.1.1".to_string(), 8080));
    assert_eq!(parse_bind_addr("[::1]:81", own()), ("[::1]".to_string(), 81));
    assert_eq!(parse_bind_addr("localhost", own()), ("127.0.0.1".to_string(), 8080));
    assert_eq!(parse_bind_addr("a:4294967296", own()), ("a".to_string(), 8080));
}

#[test]
fn credentials_need_both_parts() {
    let mut s = nacos_settings();
    assert_eq!(credentials(&s), None);
    s.username = Some("u".to_string());
    assert_eq!(credentials(&s), None);
    s.password = Some(String::new());
    assert_eq!(credentials(&s), None);
    s.password = Some("p".to_string());
    assert_eq!(credentials(&s), Some(("u".to_string(), "p".to_string())));
    s.username = Some(String::new());
    assert_eq!(credentials(&s), None);
}

#[test]
fn names_and_keys() {
    let mut s = nacos_settings();
    assert_eq!(registered_name(&s), "ms-gateway");
    assert!(routes_key(&s).is_none());
    s.service_name = Some("edge".to_string());
    s.routes_data_id = Some("routes".to_string());
    assert_eq!(registered_name(&s), "edge");
    let key = routes_key(&s).unwrap();
    assert_eq!(
        (key.data_id.as_str(), key.group.as_str(), key.tenant.as_str()),
        ("routes", "cg", "ns")
    );
    s.routes_group = Some("rg".to_string());
    assert_eq!(routes_key(&s).unwrap().group, "rg");
}

#[test]
fn routes_from_the_server_are_applied() {
    let mut shared = create_shared_route_rules(vec![]);
    let mut state = NacosRoutes::new();
    let rules = vec![rule("/a/*", Some("s1")), rule("/b", None), rule("/c", Some("s1"))];
    let services = apply_routes(&mut shared, &mut state, Ok(rules)).unwrap();
    assert_eq!(services, vec!["s1"]);
    assert!(is_nacos_routes_active(&state));
    assert_eq!(shared.snapshot().len(), 3);
    assert_eq!(shared.snapshot()[0].compiled_prefixes.len(), 1);
}

#[test]
fn bad_routes_from_the_server_change_nothing() {
    let mut shared = create_shared_route_rules(vec![rule("/old", None)]);
    let mut state = NacosRoutes::new();
    let mut bad = rule("/b", None);
    bad.strategy = "none".to_string();
    assert_eq!(
        apply_routes(&mut shared, &mut state, Ok(vec![rule("/a", None), bad])).unwrap_err(),
        "Nacos 路由规则 #2 校验失败: 不支持的负载均衡策略: none"
    );
    assert_eq!(
        apply_routes(&mut shared, &mut state, Err("eof".to_string())).unwrap_err(),
        "Nacos 路由配置解析失败: eof"
    );
    assert!(!is_nacos_routes_active(&state));
    assert_eq!(shared.snapshot()[0].prefix[0], "/old");
}

#[test]
fn services_are_collected_once() {
    let rules = vec![rule("/a", Some("x")), rule("/b", Some("y")), rule("/c", Some("x"))];
    assert_eq!(collect_services(&rules), vec!["x", "y"]);
}

#[test]
fn start_up_with_a_server() {
    let mut nacos = nacos_settings();
    nacos.register_enabled = true;
    let s = settings(Some(nacos));
    let mut state = NacosRoutes::new();
    let connect = next_step(Startup::Begin, true, &s, &state);
    assert_eq!(connect, Startup::Connect);
    assert_eq!(next_step(connect, false, &s, &state), Startup::Finished(false));
    let subscribe = next_step(connect, true, &s, &state);
    assert_eq!(subscribe, Startup::SubscribeRoutes);
    set_nacos_routes_active(&mut state, true);
    let register = next_step(subscribe, true, &s, &state);
    assert_eq!(register, Startup::Register);
    let finished = next_step(register, true, &s, &state);
    assert_eq!(finished, Startup::Finished(true));
    assert_eq!(next_step(finished, true, &s, &state), Startup::Finished(true));
}

#[test]
fn start_up_without_a_server() {
    let state = NacosRoutes::new();
    assert_eq!(
        next_step(Startup::Begin, true, &settings(None), &state),
        Startup::Finished(false)
    );
    let mut off = nacos_settings();
    off.enabled = false;
    assert_eq!(
        next_step(Startup::Begin, true, &settings(Some(off)), &state),
        Startup::Finished(false)
    );
    let plain = settings(Some(nacos_settings()));
    assert_eq!(
        next_step(Startup::SubscribeRoutes, true, &plain, &state),
        Startup::Finished(false)
    );
}
