use ms_gateway::message::{
    append_without, bytes_of, find_text, has_header, remove_header, set_header, value_text, Header,
};

fn headers(list: &[(&str, &str)]) -> Vec<Header> {
    list.iter()
        .map(|(n, v)| Header { name: n.to_string(), value: v.as_bytes().to_vec() })
        .collect()
}

#[test]
fn texts_of_values() {
    assert_eq!(value_text(&b"a\tb ~".to_vec()), Some("a\tb ~".to_string()));
    assert_eq!(value_text(&vec![]), Some(String::new()));
    assert_eq!(value_text(&vec![0x7f]), None);
    assert_eq!(value_text(&vec![b'a', 0x80]), None);
    assert_eq!(value_text(&vec![10]), None);
    assert_eq!(bytes_of("é"), vec![0xc3, 0xa9]);
}

#[test]
fn the_first_field_counts() {
    let mut list = headers(&[("a", "1"), ("b", "2"), ("a", "3")]);
    assert_eq!(find_text(&list, "a"), Some("1".to_string()));
    assert_eq!(find_text(&list, "c"), None);
    list.insert(0, Header { name: "a".to_string(), value: vec![0xff] });
    assert_eq!(find_text(&list, "a"), None);
    assert!(has_header(&list, "a"));
    assert!(!has_header(&list, "c"));
}

#[test]
fn fields_are_removed_and_set() {
    let mut list = headers(&[("a", "1"), ("b", "2"), ("a", "3")]);
    set_header(&mut list, "a", b"9".to_vec());
    assert_eq!(list.len(), 2);
    assert_eq!(find_text(&list, "a"), Some("9".to_string()));
    assert_eq!(find_text(&list, "b"), Some("2".to_string()));
    remove_header(&mut list, "a");
    assert_eq!(find_text(&list, "a"), None);
    append_without(&mut list, &headers(&[("host", "h"), ("c", "4")]), "host");
    assert_eq!(list.len(), 2);
    assert_eq!(list[1].name, "c");
}

#[test]
fn the_case_of_names_does_not_matter() {
    let mut list = headers(&[("X-User-Id", "1"), ("Accept", "a"), ("x-user-ID", "2")]);
    assert_eq!(find_text(&list, "x-user-id"), Some("1".to_string()));
    assert!(has_header(&list, "ACCEPT"));
    set_header(&mut list, "accept", b"b".to_vec());
    assert_eq!(find_text(&list, "Accept"), Some("b".to_string()));
    remove_header(&mut list, "x-user-id");
    assert_eq!(list.len(), 1);
}
