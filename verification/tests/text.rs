use ms_gateway::text::{
    chars_of, decimal_text, has_char, has_prefix, has_text, is_blank_text, join_texts, last_index,
    lists, number_of, push_distinct, replaced, same_ignoring_case, signed_decimal_text, split_text,
    str_eq, text_before, trimmed, without_prefix, without_repeated_prefix,
};

#[test]
fn comparing() {
    assert!(str_eq("上游", "上游"));
    assert!(!str_eq("a", "ab"));
    assert!(same_ignoring_case("WebSocket", "websocket"));
    assert!(!same_ignoring_case("é", "É"));
    assert!(!same_ignoring_case("ab", "abc"));
    assert_eq!(chars_of("aé"), vec!['a', 'é']);
}

#[test]
fn searching() {
    assert!(has_prefix("/proxy/a", "/proxy"));
    assert!(has_prefix("x", ""));
    assert!(!has_prefix("a", "ab"));
    assert!(has_text("my-routes.toml", "routes"));
    assert!(!has_text("route", "routes"));
    assert!(has_text("", ""));
    assert!(has_char("/a/{id}", '{'));
    assert!(!has_char("", '*'));
    assert_eq!(last_index("a:b:c", ':'), Some(3));
    assert_eq!(last_index("abc", ':'), None);
}

#[test]
fn cutting() {
    assert_eq!(without_prefix("/proxy/a", "/proxy"), Some("/a".to_string()));
    assert_eq!(without_prefix("/a", "/proxy"), None);
    assert_eq!(without_repeated_prefix("ababc", "ab"), "c");
    assert_eq!(without_repeated_prefix("cab", "ab"), "cab");
    assert_eq!(text_before("a=b=c", '='), "a");
    assert_eq!(text_before("abc", '='), "abc");
    assert_eq!(trimmed(" \t\u{3000}a b\u{a0}\n"), "a b");
    assert_eq!(trimmed("  "), "");
    assert!(is_blank_text(" \u{2003}\r\n"));
    assert!(!is_blank_text(" \u{200b} "));
}

#[test]
fn splitting_and_joining() {
    assert_eq!(split_text("a,b,,c", ','), vec!["a", "b", "", "c"]);
    assert_eq!(split_text("", ','), vec![""]);
    assert_eq!(split_text(",", ','), vec!["", ""]);
    assert_eq!(join_texts(&split_text("x&y&", '&'), "&"), "x&y&");
    assert_eq!(join_texts(&vec![], ","), "");
    assert_eq!(replaced("http://a/http://b", "http://", "ws://"), "ws://a/ws://b");
    assert_eq!(replaced("aaa", "aa", "b"), "ba");
}

#[test]
fn numbers() {
    assert_eq!(decimal_text(0), "0");
    assert_eq!(decimal_text(u64::MAX), "18446744073709551615");
    assert_eq!(signed_decimal_text(-12), "-12");
    assert_eq!(signed_decimal_text(i64::MIN), "-9223372036854775808");
    assert_eq!(number_of("8080"), Some(8080));
    assert_eq!(number_of("+7"), Some(7));
    assert_eq!(number_of("007"), Some(7));
    assert_eq!(number_of("4294967295"), Some(u32::MAX));
    assert_eq!(number_of("4294967296"), None);
    assert_eq!(number_of(""), None);
    assert_eq!(number_of("+"), None);
    assert_eq!(number_of("-1"), None);
    assert_eq!(number_of("1a"), None);
}

#[test]
fn lists_without_repetition() {
    let mut list = vec![];
    for s in ["b", "a", "b", "c", "a"] {
        push_distinct(&mut list, s);
    }
    assert_eq!(list, vec!["b", "a", "c"]);
    assert!(lists(&list, "c"));
    assert!(!lists(&list, "d"));
}
