use quantun::http::request::get;
use quantun::http::{Header, Http, HttpParser, MessageParseError, Method};

const SAMPLE: &str = "HTTP/1.1 200 OK\r\nContent-Type: text/plain\r\n\r\nhello\r\n";

#[test]
fn status_is_code_and_reason() {
    assert_eq!(HttpParser::new(SAMPLE).code(), Ok("200 OK".to_string()));
}

#[test]
fn headers_hold_content_type() {
    let header = HttpParser::new(SAMPLE).headers().unwrap();
    assert!(header.contains_key("Content-Type"));
    assert_eq!(header.get("Content-Type"), "text/plain");
}

#[test]
fn headers_hold_nothing_else() {
    let mut header = HttpParser::new(SAMPLE).headers().unwrap();
    assert_eq!(header.as_str(), "Content-Type: text/plain");
}

#[test]
fn body_is_what_follows_the_empty_line() {
    assert_eq!(HttpParser::new(SAMPLE).body(), Ok("hello".to_string()));
}

#[test]
fn sample_is_valid() {
    assert_eq!(HttpParser::new(SAMPLE).validate(), Ok(()));
}

#[test]
fn reading_twice_gives_the_same() {
    let parser = HttpParser::new(SAMPLE);
    assert_eq!(parser.code(), parser.code());
    assert_eq!(parser.body(), parser.body());
    let mut first = parser.headers().unwrap();
    let mut second = parser.headers().unwrap();
    assert_eq!(first.as_str(), second.as_str());
    assert_eq!(parser.content, SAMPLE);
}

#[test]
fn serialized_request_is_refused_as_response() {
    let text = Http::new("https://example.com/x")
        .method(Method::Get)
        .headers(Header::new().add("Accept", "*/*"))
        .as_str();
    let parser = HttpParser::new(&text);
    assert_eq!(parser.code(), Err(MessageParseError::MalformedStatusLine));
    assert_eq!(parser.validate(), Err(MessageParseError::MalformedStatusLine));
}

#[test]
fn headers_and_body_of_a_request_are_read_all_the_same() {
    let text = Http::new("https://example.com/x")
        .method(Method::Post)
        .headers(Header::new().add("Accept", "*/*"))
        .body("data".to_string())
        .as_str();
    let parser = HttpParser::new(&text);
    let mut header = parser.headers().unwrap();
    assert_eq!(header.as_str(), "Accept: */*");
    assert_eq!(parser.body(), Ok("data".to_string()));
}

#[test]
fn every_method_is_refused_as_response() {
    for method in [Method::Delete, Method::Get, Method::Patch, Method::Post, Method::Put] {
        let text = Http::new("example.com").method(method).as_str();
        assert_eq!(
            HttpParser::new(&text).code(),
            Err(MessageParseError::MalformedStatusLine)
        );
    }
}

#[test]
fn default_request_is_refused_as_response() {
    let text = get("https://example.com/a b").http.as_str();
    assert_eq!(HttpParser::new(&text).code(), Err(MessageParseError::MalformedStatusLine));
}

#[test]
fn text_without_crlf_has_no_status_line() {
    let parser = HttpParser::new("HTTP/1.1 200 OK");
    assert_eq!(parser.code(), Err(MessageParseError::MissingStatusLine));
    assert_eq!(parser.headers().err(), Some(MessageParseError::MissingStatusLine));
    assert_eq!(parser.validate(), Err(MessageParseError::MissingStatusLine));
}

#[test]
fn text_without_crlf_has_no_body() {
    let parser = HttpParser::new("HTTP/1.1 200 OK");
    assert_eq!(parser.body(), Err(MessageParseError::MissingBoundary));
    assert_eq!(HttpParser::new("").body(), Err(MessageParseError::MissingBoundary));
}

#[test]
fn empty_text_has_no_status_line() {
    assert_eq!(HttpParser::new("").validate(), Err(MessageParseError::MissingStatusLine));
}

#[test]
fn first_line_without_space_is_malformed() {
    let parser = HttpParser::new("HTTP/1.1\r\n\r\n");
    assert_eq!(parser.code(), Err(MessageParseError::MalformedStatusLine));
}

#[test]
fn first_line_without_version_is_malformed() {
    let parser = HttpParser::new("200 OK\r\n\r\n");
    assert_eq!(parser.code(), Err(MessageParseError::MalformedStatusLine));
}

#[test]
fn empty_first_line_is_malformed() {
    assert_eq!(HttpParser::new("\r\n\r\n").validate(), Err(MessageParseError::MalformedStatusLine));
}

#[test]
fn missing_empty_line_is_reported() {
    let parser = HttpParser::new("HTTP/1.1 200 OK\r\nContent-Type: text/plain\r\n");
    assert_eq!(parser.body(), Err(MessageParseError::MissingBoundary));
    assert_eq!(parser.validate(), Err(MessageParseError::MissingBoundary));
}

#[test]
fn status_and_headers_need_no_empty_line() {
    let parser = HttpParser::new("HTTP/1.1 200 OK\r\nContent-Type: text/plain\r\n");
    assert_eq!(parser.code(), Ok("200 OK".to_string()));
    let mut header = parser.headers().unwrap();
    assert_eq!(header.as_str(), "Content-Type: text/plain");
}

#[test]
fn status_is_read_from_the_first_line_alone() {
    assert_eq!(HttpParser::new("HTTP/1.1 200 OK\r\n").code(), Ok("200 OK".to_string()));
    assert_eq!(
        HttpParser::new("HTTP/1.1 200 OK\r\nanything at all").code(),
        Ok("200 OK".to_string())
    );
}

#[test]
fn headers_do_not_ask_for_a_status_line() {
    let parser = HttpParser::new("X\r\nA: b\r\n\r\n");
    let header = parser.headers().unwrap();
    assert_eq!(header.get("A"), "b");
    assert_eq!(parser.code(), Err(MessageParseError::MalformedStatusLine));
}

#[test]
fn body_does_not_ask_for_a_status_line() {
    assert_eq!(HttpParser::new("X\r\n\r\nbody").body(), Ok("body".to_string()));
    assert_eq!(HttpParser::new("\r\n\r\n").body(), Ok("".to_string()));
}

#[test]
fn empty_line_may_begin_within_a_line_end() {
    assert_eq!(HttpParser::new("a\r\n\r\n\r\nb").body(), Ok("\r\nb".to_string()));
}

#[test]
fn text_of_two_lines_has_no_headers() {
    let mut header = HttpParser::new("X\r\nA: b").headers().unwrap();
    assert_eq!(header.as_str(), "");
}

#[test]
fn status_keeps_everything_after_the_first_space() {
    let parser = HttpParser::new("HTTP/1.1 404 Not Found\r\n\r\n");
    assert_eq!(parser.code(), Ok("404 Not Found".to_string()));
}

#[test]
fn status_may_be_empty() {
    let parser = HttpParser::new("HTTP/1.1 \r\n\r\n");
    assert_eq!(parser.code(), Ok("".to_string()));
}

#[test]
fn response_without_headers_has_none() {
    let parser = HttpParser::new("HTTP/1.1 204 No Content\r\n\r\n");
    let mut header = parser.headers().unwrap();
    assert_eq!(header.as_str(), "");
    assert_eq!(parser.body(), Ok("".to_string()));
}

#[test]
fn lines_without_separator_are_passed_over() {
    let parser = HttpParser::new("HTTP/1.1 200 OK\r\nA: 1\r\nnonsense\r\nB:2\r\nC: 3\r\n\r\nx\r\n");
    let mut header = parser.headers().unwrap();
    assert_eq!(header.as_str(), "A: 1\r\nC: 3");
}

#[test]
fn value_ends_at_the_second_separator() {
    let parser = HttpParser::new("HTTP/1.1 200 OK\r\nA: b: c\r\n\r\n");
    assert_eq!(parser.headers().unwrap().get("A"), "b");
}

#[test]
fn headers_come_in_the_order_of_the_text() {
    let parser = HttpParser::new("HTTP/1.1 200 OK\r\nB: 2\r\nA: 1\r\n\r\n");
    let mut header = parser.headers().unwrap();
    assert_eq!(header.as_str(), "B: 2\r\nA: 1");
}

#[test]
fn repeated_header_keeps_its_last_value() {
    let parser = HttpParser::new("HTTP/1.1 200 OK\r\nA: 1\r\nB: 2\r\nA: 3\r\n\r\n");
    let mut header = parser.headers().unwrap();
    assert_eq!(header.as_str(), "B: 2\r\nA: 3");
}

#[test]
fn last_line_is_no_header() {
    let parser = HttpParser::new("HTTP/1.1 200 OK\r\nA: 1\r\n\r\nB: 2");
    let mut header = parser.headers().unwrap();
    assert_eq!(header.as_str(), "A: 1");
}

#[test]
fn body_lines_but_the_last_are_read_as_headers() {
    let parser = HttpParser::new("HTTP/1.1 200 OK\r\nA: 1\r\n\r\nB: 2\r\nend");
    let mut header = parser.headers().unwrap();
    assert_eq!(header.as_str(), "A: 1\r\nB: 2");
}

#[test]
fn body_without_final_crlf_is_kept_whole() {
    let parser = HttpParser::new("HTTP/1.1 200 OK\r\nA: 1\r\n\r\nhello");
    assert_eq!(parser.body(), Ok("hello".to_string()));
}

#[test]
fn body_loses_one_final_crlf_only() {
    let parser = HttpParser::new("HTTP/1.1 200 OK\r\n\r\nhello\r\n\r\n");
    assert_eq!(parser.body(), Ok("hello\r\n".to_string()));
}

#[test]
fn body_keeps_its_inner_lines() {
    let parser = HttpParser::new("HTTP/1.1 200 OK\r\nA: 1\r\n\r\none\r\ntwo\r\n\r\nthree\r\n");
    assert_eq!(parser.body(), Ok("one\r\ntwo\r\n\r\nthree".to_string()));
}

#[test]
fn body_may_hold_any_characters() {
    let parser = HttpParser::new("HTTP/1.1 200 OK\r\nX: é\r\n\r\ncafé ☕\r\n");
    assert_eq!(parser.body(), Ok("café ☕".to_string()));
    assert_eq!(parser.headers().unwrap().get("X"), "é");
}

#[test]
fn error_messages() {
    assert_eq!(
        MessageParseError::MissingStatusLine.message(),
        "The response has no status line."
    );
    assert_eq!(
        MessageParseError::MalformedStatusLine.message(),
        "The first line is not a status line."
    );
    assert_eq!(
        MessageParseError::MissingBoundary.message(),
        "No empty line ends the headers."
    );
}
