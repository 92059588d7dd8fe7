use quantun::http::text::{
    begins_with, chars_of, find, finishes_with, position_of, split, split_once, stands_at,
};

fn same_as_std(text: &str, pat: &str) {
    let expected: Vec<&str> = text.split(pat).collect();
    assert_eq!(split(text, pat), expected);
}

#[test]
fn split_agrees_with_std_on_lines() {
    same_as_std("a\r\nb\r\nc", "\r\n");
    same_as_std("a\r\n\r\nb", "\r\n");
    same_as_std("\r\n", "\r\n");
    same_as_std("", "\r\n");
    same_as_std("no separator", "\r\n");
    same_as_std("end\r\n", "\r\n");
    same_as_std("\r\nstart", "\r\n");
}

#[test]
fn split_takes_matches_from_the_left_without_overlap() {
    same_as_std("aaa", "aa");
    same_as_std("aaaa", "aa");
    same_as_std("\r\n\r\n\r\n", "\r\n\r\n");
    same_as_std("A: b: c", ": ");
    same_as_std("é: ü: ☕", ": ");
}

#[test]
fn split_gives_exact_pieces() {
    assert_eq!(split("k: v", ": "), vec!["k", "v"]);
    assert_eq!(split("a,b,,c,", ","), vec!["a", "b", "", "c", ""]);
}

#[test]
fn empty_separator_splits_nothing() {
    assert_eq!(split("abc", ""), vec!["abc"]);
}

#[test]
fn split_once_divides_at_the_first_match() {
    assert_eq!(split_once("HTTP/1.1 200 OK", " "), Some(("HTTP/1.1", "200 OK")));
    assert_eq!(split_once("a\r\n\r\nb\r\n\r\nc", "\r\n\r\n"), Some(("a", "b\r\n\r\nc")));
    assert_eq!(split_once("abc", "abc"), Some(("", "")));
    assert_eq!(split_once("abc", "x"), None);
    assert_eq!(split_once("é/ü", "/"), Some(("é", "ü")));
}

#[test]
fn position_is_counted_in_characters() {
    assert_eq!(position_of("héllo/x", "/"), Some(5));
    assert_eq!(position_of("abcabc", "bc"), Some(1));
    assert_eq!(position_of("abc", ""), Some(0));
    assert_eq!(position_of("", ""), Some(0));
    assert_eq!(position_of("abc", "abcd"), None);
    assert_eq!(position_of("abc", "d"), None);
}

#[test]
fn find_starts_where_it_is_told() {
    let hay = chars_of("a/b/c");
    let pat = chars_of("/");
    assert_eq!(find(&hay, &pat, 0), Some(1));
    assert_eq!(find(&hay, &pat, 1), Some(1));
    assert_eq!(find(&hay, &pat, 2), Some(3));
    assert_eq!(find(&hay, &pat, 4), None);
    assert_eq!(find(&hay, &pat, 5), None);
    assert_eq!(find(&hay, &chars_of(""), 5), Some(5));
}

#[test]
fn stands_at_checks_one_position() {
    let hay = chars_of("https://x");
    assert!(stands_at(&hay, &chars_of("https://"), 0));
    assert!(!stands_at(&hay, &chars_of("http://"), 0));
    assert!(stands_at(&hay, &chars_of("x"), 8));
    assert!(!stands_at(&hay, &chars_of("x"), 9));
    assert!(stands_at(&hay, &chars_of(""), 9));
    assert!(!stands_at(&hay, &chars_of(""), 10));
}

#[test]
fn prefix_and_suffix() {
    assert!(begins_with("HTTP/1.1", "HTTP/"));
    assert!(!begins_with("HTT", "HTTP/"));
    assert!(begins_with("", ""));
    assert!(finishes_with("hello\r\n", "\r\n"));
    assert!(!finishes_with("hello\r", "\r\n"));
    assert!(!finishes_with("\n", "\r\n"));
    assert!(finishes_with("x", ""));
}

#[test]
fn chars_of_gives_the_characters() {
    assert_eq!(chars_of("é☕a"), vec!['é', '☕', 'a']);
    assert_eq!(chars_of(""), Vec::<char>::new());
}
