use quantun::http::util::split_path_from_hostname;
use quantun::http::UrlParseError;

#[test]
fn splits_secure_url_into_host_and_path() {
    let parts = split_path_from_hostname("https://example.com/api/v1").unwrap();
    assert_eq!(parts, vec!["example.com", "/api/v1"]);
}

#[test]
fn splits_plain_url_into_host_and_path() {
    let parts = split_path_from_hostname("http://example.com/x").unwrap();
    assert_eq!(parts, vec!["example.com", "/x"]);
}

#[test]
fn splits_url_without_scheme() {
    let parts = split_path_from_hostname("example.com/a/b").unwrap();
    assert_eq!(parts, vec!["example.com", "/a/b"]);
}

#[test]
fn url_without_path_has_empty_path() {
    assert_eq!(
        split_path_from_hostname("https://example.com"),
        Ok(vec!["example.com", ""])
    );
    assert_eq!(split_path_from_hostname("example.com"), Ok(vec!["example.com", ""]));
}

#[test]
fn path_may_be_the_root() {
    assert_eq!(split_path_from_hostname("http://example.com/"), Ok(vec!["example.com", "/"]));
}

#[test]
fn empty_url_has_empty_host_and_path() {
    assert_eq!(split_path_from_hostname(""), Ok(vec!["", ""]));
    assert_eq!(split_path_from_hostname("https://"), Ok(vec!["", ""]));
}

#[test]
fn scheme_is_dropped_only_at_the_front() {
    assert_eq!(
        split_path_from_hostname("example.com/go?to=https://other.org/x"),
        Ok(vec!["example.com", "/go?to=https://other.org/x"])
    );
}

#[test]
fn only_one_scheme_is_dropped() {
    assert_eq!(
        split_path_from_hostname("https://http://example.com"),
        Ok(vec!["http:", "//example.com"])
    );
}

#[test]
fn other_schemes_are_part_of_the_host() {
    assert_eq!(
        split_path_from_hostname("ftp://example.com/x"),
        Ok(vec!["ftp:", "//example.com/x"])
    );
}

#[test]
fn host_keeps_its_port() {
    assert_eq!(
        split_path_from_hostname("https://example.com:8443/x/y"),
        Ok(vec!["example.com:8443", "/x/y"])
    );
}

#[test]
fn characters_are_counted_not_bytes() {
    assert_eq!(
        split_path_from_hostname("https://bücher.example/é/ü"),
        Ok(vec!["bücher.example", "/é/ü"])
    );
}

#[test]
fn url_error_message() {
    assert_eq!(UrlParseError::NoPath.message(), "Cannot get the path from the URL.");
}
