use ms_gateway::error::GatewayError;
use ms_gateway::health_check::HealthCheckConfig;
use ms_gateway::message::{find_text, Header};
use ms_gateway::server::{
    authorize_reload, cors_policy, health_body, initial_routes, log_filter, reload_reply,
    request_id, request_id_or, stamp_request_id, CorsPolicy,
};

fn headers(list: &[(&str, &str)]) -> Vec<Header> {
    list.iter()
        .map(|(n, v)| Header { name: n.to_string(), value: v.as_bytes().to_vec() })
        .collect()
}

#[test]
fn log_filters() {
    let set = |s: &str| Some(s.to_string());
    assert_eq!(log_filter(set("debug"), set("warn")), "debug");
    assert_eq!(log_filter(None, set("warn")), "warn");
    assert_eq!(log_filter(None, None), "info");
}

#[test]
fn routes_to_begin_with() {
    let set = HealthCheckConfig { interval_secs: 5, ..HealthCheckConfig::default() };
    let (rules, health) = initial_routes(Ok((vec![], set)));
    assert_eq!((rules.len(), health.interval_secs), (0, 5));
    let (rules, health) = initial_routes(Err("missing".to_string()));
    assert_eq!((rules.len(), health.interval_secs), (0, 10));
}

#[test]
fn cors_policies() {
    assert!(matches!(cors_policy(&None), CorsPolicy::AnyOrigin));
    assert!(matches!(cors_policy(&Some(String::new())), CorsPolicy::AnyOrigin));
    assert!(matches!(cors_policy(&Some("*".to_string())), CorsPolicy::AnyOrigin));
    let list = Some(" https://a.example , b\nc,https://d.example".to_string());
    match cors_policy(&list) {
        CorsPolicy::Only(kept) => {
            assert_eq!(kept, vec!["https://a.example", "https://d.example"])
        }
        CorsPolicy::AnyOrigin => panic!("a list was set"),
    }
}

#[test]
fn reloads_need_the_token() {
    let token = Some("secret".to_string());
    assert!(authorize_reload(&None, &headers(&[])).is_ok());
    assert!(authorize_reload(&token, &headers(&[("x-admin-token", "secret")])).is_ok());
    for list in [headers(&[]), headers(&[("x-admin-token", "Secret")])] {
        match authorize_reload(&token, &list) {
            Err(GatewayError::Forbidden(msg)) => {
                assert_eq!(msg, "管理接口鉴权失败，请提供正确的 X-Admin-Token")
            }
            _ => panic!("the reload has to be refused"),
        }
    }
}

#[test]
fn reload_replies() {
    assert_eq!(
        reload_reply(Ok(12)),
        (200, "{\"routes_loaded\":12,\"status\":\"ok\"}".to_string())
    );
    assert_eq!(
        reload_reply(Err("a \"b\"".to_string())),
        (500, "{\"message\":\"a \\\"b\\\"\",\"status\":\"error\"}".to_string())
    );
    assert_eq!(health_body(), "{\"status\":\"UP\"}");
}

#[test]
fn request_ids() {
    let carried = headers(&[("x-request-id", "abc")]);
    assert_eq!(request_id(&carried), "abc");
    assert_eq!(request_id_or(&carried, "fresh".to_string()), "abc");
    assert_eq!(request_id_or(&headers(&[]), "fresh".to_string()), "fresh");
    let fresh = request_id(&headers(&[]));
    assert_eq!(fresh.len(), 36);
    assert_eq!(fresh.split('-').map(|p| p.len()).collect::<Vec<_>>(), vec![8, 4, 4, 4, 12]);
    assert!(fresh.chars().all(|c| c == '-' || c.is_ascii_digit() || ('a'..='f').contains(&c)));
    assert_ne!(fresh, request_id(&headers(&[])));
}

#[test]
fn request_ids_are_stamped() {
    let mut list = headers(&[("x-request-id", "old"), ("a", "b"), ("x-request-id", "older")]);
    stamp_request_id(&mut list, "new");
    assert_eq!(list.len(), 2);
    assert_eq!(find_text(&list, "x-request-id"), Some("new".to_string()));
    stamp_request_id(&mut list, "bad\n");
    assert_eq!(find_text(&list, "x-request-id"), Some("new".to_string()));
}
