use ms_gateway::error::{GatewayError, GatewayErrorBody, RateLimitKind};

#[test]
fn test_error_body_serialization() {
    let body = GatewayErrorBody::new(502, "test error");
    let json = body.to_json();
    assert!(json.contains("\"success\":false"));
    assert!(json.contains("\"code\":502"));
    assert!(json.contains("\"msg\":\"test error\""));
    assert!(json.contains("\"data\":null"));
    assert!(json.contains("\"timestamp\":"));
}

#[test]
fn bodies_are_written_as_json() {
    let body = GatewayErrorBody::at(
        404,
        "a \"b\" \\ \n\r\t\u{8}\u{c}\u{1} 上游".to_string(),
        1234,
    );
    assert!(!body.success);
    assert_eq!(
        body.to_json(),
        "{\"success\":false,\"code\":404,\"msg\":\"a \\\"b\\\" \\\\ \\n\\r\\t\\b\\f\\u0001 \
         上游\",\"data\":null,\"timestamp\":1234}"
    );
    let negative = GatewayErrorBody {
        success: true,
        code: 0,
        msg: String::new(),
        data: (),
        timestamp: -5,
    };
    assert_eq!(
        negative.to_json(),
        "{\"success\":true,\"code\":0,\"msg\":\"\",\"data\":null,\"timestamp\":-5}"
    );
}

#[test]
fn bodies_carry_the_present_time() {
    let before = std::time::UNIX_EPOCH.elapsed().unwrap().as_millis() as i64;
    let body = GatewayErrorBody::new(500, "owned".to_string());
    let after = std::time::UNIX_EPOCH.elapsed().unwrap().as_millis() as i64;
    assert_eq!(body.msg, "owned");
    assert!(before <= body.timestamp && body.timestamp <= after);
}

#[test]
fn every_error_has_its_answer() {
    let cases = vec![
        (GatewayError::NoUpstream("/x".to_string()), 502, "无可用上游: /x"),
        (GatewayError::ProxyError("refused".to_string()), 502, "代理转发失败: refused"),
        (GatewayError::RateLimited(RateLimitKind::Global), 429, "请求过于频繁（全局限流）"),
        (GatewayError::RateLimited(RateLimitKind::Client), 429, "请求过于频繁（客户端限流）"),
        (GatewayError::Forbidden("no".to_string()), 403, "no"),
    ];
    for (error, status, message) in cases {
        let (code, body) = error.into_response();
        assert_eq!(code, status);
        assert_eq!(body.code, status);
        assert_eq!(body.msg, message);
        assert!(!body.success);
    }
}
