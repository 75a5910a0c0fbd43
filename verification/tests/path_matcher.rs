use ms_gateway::path_matcher::RoutePattern;

fn pattern(p: &str) -> RoutePattern {
    RoutePattern::from_pattern(p).unwrap()
}

#[test]
fn wildcards() {
    assert!(pattern("/a/*").matches("/a/b"));
    assert!(pattern("/a/*").matches("/a/"));
    assert!(!pattern("/a/*").matches("/a/b/c"));
    assert!(pattern("/a/**").matches("/a/b/c"));
    assert!(pattern("/a/**").matches("/a/"));
    assert!(!pattern("/a/**").matches("/b/c"));
    assert!(pattern("/a/?.txt").matches("/a/x.txt"));
    assert!(!pattern("/a/?.txt").matches("/a/xy.txt"));
    assert!(!pattern("/a/?x").matches("/a//x"));
}

#[test]
fn variables() {
    let p = pattern("/api/{kind}/{id}.json");
    assert_eq!(p.pattern(), "/api/{kind}/{id}.json");
    let vars = p.match_path("/api/user/42.json").unwrap();
    assert_eq!(vars.get("kind"), Some(&"user".to_string()));
    assert_eq!(vars.get("id"), Some(&"42".to_string()));
    assert!(p.match_path("/api/user/.json").is_none());
    assert!(!p.matches("/api//1.json"));
}

#[test]
fn variables_are_greedy() {
    let vars = pattern("/{a}-{b}").match_path("/x-y-z").unwrap();
    assert_eq!(vars.get("a"), Some(&"x-y".to_string()));
    assert_eq!(vars.get("b"), Some(&"z".to_string()));
}

#[test]
fn malformed_patterns() {
    assert!(RoutePattern::from_pattern("/a/{id").is_err());
    assert!(RoutePattern::from_pattern("/a/{}").is_err());
    assert!(RoutePattern::from_pattern("/a/{i d}").is_err());
    assert!(RoutePattern::from_pattern("/{id}/{id}").is_err());
    assert!(RoutePattern::from_pattern("/a}").is_ok());
}

#[test]
fn plain_patterns_match_themselves() {
    let p = pattern("/a.b/c");
    assert!(p.matches("/a.b/c"));
    assert!(!p.matches("/axb/c"));
    assert!(p.clone().matches("/a.b/c"));
}
