use jsonwebtoken::errors::{Error, ErrorKind};
use ms_gateway::auth::{
    collect_extra, extract_token, propagate, screen, token_policy, AuthError, Claims, ExtraValue,
    Screening, TokenAlgorithm,
};
use ms_gateway::message::{find_text, Header, RequestHead};

fn claims(sub: &str, extra: Vec<(&str, ExtraValue)>) -> Claims {
    let list = extra.into_iter().map(|(name, value)| (name.to_string(), value)).collect();
    Claims {
        sub: sub.to_string(),
        exp: Some(1),
        nbf: None,
        iat: None,
        jti: None,
        iss: None,
        aud: None,
        login_type: None,
        device: None,
        extra: collect_extra(list),
    }
}

fn text(s: &str) -> ExtraValue {
    ExtraValue::Text(s.to_string())
}

fn head(headers: &[(&str, &str)], query: Option<&str>) -> RequestHead {
    RequestHead {
        path: "/proxy/a".to_string(),
        query: query.map(|q| q.to_string()),
        headers: headers
            .iter()
            .map(|(n, v)| Header { name: n.to_string(), value: v.as_bytes().to_vec() })
            .collect(),
    }
}

fn token(authorization: Option<&str>, query: Option<&str>) -> Result<String, AuthError> {
    extract_token(&authorization.map(|s| s.to_string()), &query.map(|s| s.to_string()))
}

#[test]
fn claims_of_the_application() {
    let c = claims("u1", vec![("tenant_id", text("t9")), ("username", ExtraValue::Other)]);
    assert_eq!(c.tenant_id(), "t9");
    assert_eq!(c.username(), "");
    let none = claims("u1", vec![("user", text("x"))]);
    assert_eq!(none.tenant_id(), "");
    assert_eq!(none.username(), "");
    assert_eq!(claims("u", vec![("username", text("ann"))]).username(), "ann");
    let twice = vec![("username", text("ann")), ("username", text("bob"))];
    assert_eq!(claims("u", twice).username(), "bob");
}

#[test]
fn bearer_tokens() {
    assert_eq!(token(Some("Bearer abc"), None).unwrap(), "abc");
    assert_eq!(token(Some("Bearer   abc  "), None).unwrap(), "abc");
    assert_eq!(token(Some("Bearer Bearer abc"), Some("token=q")).unwrap(), "abc");
    assert_eq!(token(Some("Bearer "), None).unwrap(), "");
    assert!(matches!(token(Some("bearer abc"), None), Err(AuthError::InvalidToken)));
    assert!(matches!(token(Some("Bearerabc"), Some("token=q")), Err(AuthError::InvalidToken)));
}

#[test]
fn tokens_in_the_query() {
    assert_eq!(token(None, Some("a=1&token=xyz&token=no")).unwrap(), "xyz");
    assert_eq!(token(None, Some("token=a=b")).unwrap(), "a=b");
    assert!(matches!(token(None, Some("token=")), Err(AuthError::MissingHeader)));
    assert!(matches!(token(None, Some("token=&token=x")), Err(AuthError::MissingHeader)));
    assert!(matches!(token(None, Some("mytoken=x")), Err(AuthError::MissingHeader)));
    assert!(matches!(token(None, Some("")), Err(AuthError::MissingHeader)));
    assert!(matches!(token(None, None), Err(AuthError::MissingHeader)));
}

#[test]
fn a_claimed_identity_is_dropped() {
    let mut request = head(
        &[("x-user-id", "root"), ("accept", "*/*"), ("x-tenant-id", "1"), ("x-user-id", "2")],
        None,
    );
    assert!(matches!(screen(&mut request, true, false), Screening::Pass));
    assert_eq!(request.headers.len(), 1);
    assert_eq!(request.headers[0].name, "accept");
    assert_eq!(find_text(&request.headers, "x-user-id"), None);
}

#[test]
fn requests_are_screened() {
    let mut request = head(&[("authorization", "Bearer t")], None);
    assert!(matches!(screen(&mut request, false, true), Screening::Check(t) if t == "t"));
    assert!(matches!(
        screen(&mut request, false, false),
        Screening::Refuse(AuthError::ConfigMissing)
    ));
    let mut basic = head(&[("authorization", "Basic t")], Some("token=t"));
    assert!(matches!(
        screen(&mut basic, false, true),
        Screening::Refuse(AuthError::InvalidToken)
    ));
    let mut queried = head(&[], Some("token=q"));
    assert!(matches!(screen(&mut queried, false, true), Screening::Check(t) if t == "q"));
    let mut bare = head(&[], None);
    assert!(matches!(
        screen(&mut bare, false, true),
        Screening::Refuse(AuthError::MissingHeader)
    ));
    assert_eq!(bare.path, "/proxy/a");
}

#[test]
fn unreadable_authorization_counts_as_none() {
    let mut request = head(&[], Some("token=q"));
    request.headers.push(Header { name: "authorization".to_string(), value: vec![0xff, 0x41] });
    assert!(matches!(screen(&mut request, false, true), Screening::Check(t) if t == "q"));
}

#[test]
fn the_identity_of_the_token_is_passed_on() {
    let mut request = head(&[("x-username", "forged"), ("a", "b")], None);
    screen(&mut request, true, true);
    let c = claims("u1", vec![("tenant_id", text("t9")), ("username", text("安"))]);
    assert!(propagate(&mut request, Ok(c)).is_ok());
    assert_eq!(find_text(&request.headers, "x-user-id"), Some("u1".to_string()));
    assert_eq!(find_text(&request.headers, "x-tenant-id"), Some("t9".to_string()));
    let username = request.headers.iter().find(|h| h.name == "x-username").unwrap();
    assert_eq!(username.value, "安".as_bytes());
    assert_eq!(find_text(&request.headers, "a"), Some("b".to_string()));
}

#[test]
fn values_that_fit_no_header_are_left_out() {
    let mut request = head(&[], None);
    let c = claims("a\nb", vec![("tenant_id", text("")), ("username", text("tab\tok"))]);
    assert!(propagate(&mut request, Ok(c)).is_ok());
    assert_eq!(request.headers.len(), 1);
    assert_eq!(find_text(&request.headers, "x-username"), Some("tab\tok".to_string()));
    let mut other = head(&[], None);
    assert!(propagate(&mut other, Ok(claims("del\u{7f}", vec![]))).is_ok());
    assert_eq!(other.headers.len(), 0);
}

#[test]
fn refused_tokens_are_reported() {
    let mut request = head(&[("a", "b")], None);
    let refused = propagate(&mut request, Err(Error::from(ErrorKind::ExpiredSignature)));
    assert!(matches!(refused, Err(AuthError::DecodeError(_))));
    assert_eq!(request.headers.len(), 1);
}

#[test]
fn every_refusal_has_its_answer() {
    let decode = AuthError::from(Error::from(ErrorKind::InvalidToken));
    let cases = vec![
        (AuthError::MissingHeader, "missing authorization header", 401, "缺少 Authorization 请求头"),
        (AuthError::InvalidToken, "invalid token", 401, "无效的 Token"),
        (decode, "jwt decode error", 401, "Token 已过期或无效"),
        (AuthError::ConfigMissing, "config missing", 500, "网关配置缺失"),
    ];
    for (error, description, status, message) in cases {
        assert_eq!(error.describe(), description);
        let (code, body) = error.into_response();
        assert_eq!(code, status);
        assert_eq!(body.code, status);
        assert_eq!(body.msg, message);
    }
}

#[test]
fn tokens_are_held_to_the_policy() {
    assert_eq!(token_policy().algorithm, TokenAlgorithm::Hs256);
    assert!(token_policy().check_expiry);
}

#[test]
fn websocket_requests_go_on_without_a_token() {
    let mut open = head(&[("upgrade", "websocket"), ("X-User-Id", "root")], Some("clientId=1"));
    assert!(matches!(screen(&mut open, false, true), Screening::Pass));
    assert_eq!(find_text(&open.headers, "x-user-id"), None);
    let mut blank = head(&[("Upgrade", "WebSocket")], Some("token="));
    assert!(matches!(screen(&mut blank, false, true), Screening::Pass));
    let mut keyless = head(&[("upgrade", "websocket")], None);
    assert!(matches!(
        screen(&mut keyless, false, false),
        Screening::Refuse(AuthError::ConfigMissing)
    ));
}

#[test]
fn tokens_of_websocket_requests_are_checked() {
    let mut queried = head(&[("upgrade", "websocket")], Some("token=q"));
    assert!(matches!(screen(&mut queried, false, true), Screening::Check(t) if t == "q"));
    let mut bearer = head(&[("upgrade", "websocket"), ("authorization", "Bearer t")], None);
    assert!(matches!(screen(&mut bearer, false, true), Screening::Check(t) if t == "t"));
    let mut basic = head(&[("upgrade", "websocket"), ("authorization", "Basic t")], None);
    assert!(matches!(
        screen(&mut basic, false, true),
        Screening::Refuse(AuthError::InvalidToken)
    ));
}
