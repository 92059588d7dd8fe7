use quantun::http::Header;

#[test]
fn added_pair_is_read_back() {
    let header = Header::new().add("Origin", "example.com");
    assert_eq!(header.get("Origin"), "example.com");
}

#[test]
fn added_pair_stands_in_the_serialized_text() {
    let mut header = Header::new().add("Accept", "*/*").add("Origin", "example.com");
    let text = header.as_str();
    assert!(text.contains("Accept: */*"));
    assert!(text.contains("Origin: example.com"));
}

#[test]
fn lines_are_joined_by_crlf_in_insertion_order() {
    let mut header = Header::new()
        .add("Accept", "*/*")
        .add("Connection", "close")
        .add("Host", "example.com");
    assert_eq!(
        header.as_str(),
        "Accept: */*\r\nConnection: close\r\nHost: example.com"
    );
}

#[test]
fn single_line_has_no_crlf() {
    let mut header = Header::new().add("Accept", "*/*");
    assert_eq!(header.as_str(), "Accept: */*");
}

#[test]
fn empty_header_serializes_to_empty_string() {
    let mut header = Header::new();
    assert_eq!(header.as_str(), "");
}

#[test]
fn empty_header_has_empty_mapping() {
    let map = Header::new().all();
    assert!(map.is_empty());
    assert_eq!(map.len(), 0);
}

#[test]
fn get_of_absent_key_returns_the_key() {
    let header = Header::new().add("Accept", "*/*");
    assert_eq!(header.get("Missing"), "Missing");
}

#[test]
fn contains_key_tells_presence() {
    let header = Header::new().add("Accept", "Accept");
    assert!(header.contains_key("Accept"));
    assert!(!header.contains_key("Missing"));
    assert!(!header.contains_key("accept"));
}

#[test]
fn last_write_wins_in_lookup() {
    let header = Header::new().add("Accept", "text/html").add("Accept", "*/*");
    assert_eq!(header.get("Accept"), "*/*");
}

#[test]
fn overwritten_key_keeps_one_line_and_moves_last() {
    let mut header = Header::new()
        .add("Accept", "text/html")
        .add("Host", "example.com")
        .add("Accept", "*/*");
    assert_eq!(header.as_str(), "Host: example.com\r\nAccept: */*");
}

#[test]
fn all_holds_each_key_once_with_its_last_value() {
    let map = Header::new()
        .add("Accept", "text/html")
        .add("Host", "example.com")
        .add("Accept", "*/*")
        .all();
    assert_eq!(map.len(), 2);
    assert_eq!(map.get("Accept").map(|v| v.as_str()), Some("*/*"));
    assert_eq!(map.get("Host").map(|v| v.as_str()), Some("example.com"));
    assert!(map.get("Missing").is_none());
}

#[test]
fn serializing_twice_gives_the_same_text() {
    let mut header = Header::new().add("Accept", "*/*").add("Host", "h");
    let first = header.as_str();
    let second = header.as_str();
    assert_eq!(first, second);
    assert_eq!(header.get("Host"), "h");
}

#[test]
fn keys_and_values_may_hold_any_characters() {
    let mut header = Header::new().add("X-Nom", "café ☕").add("", "");
    assert_eq!(header.as_str(), "X-Nom: café ☕\r\n: ");
    assert_eq!(header.get("X-Nom"), "café ☕");
}

#[test]
fn keys_are_compared_exactly() {
    let mut header = Header::new().add("accept", "a").add("Accept", "b");
    assert_eq!(header.as_str(), "accept: a\r\nAccept: b");
}

#[test]
fn pairs_are_walked_in_serialized_order() {
    let header = Header::new()
        .add("Accept", "text/html")
        .add("Host", "example.com")
        .add("Accept", "*/*");
    assert_eq!(
        header.pairs(),
        vec![
            ("Host".to_string(), "example.com".to_string()),
            ("Accept".to_string(), "*/*".to_string()),
        ]
    );
    assert_eq!(Header::new().pairs(), Vec::<(String, String)>::new());
}
