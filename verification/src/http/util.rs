//! Taking text apart: URLs into host and path, raw responses into status,
//! headers and body.

use vstd::prelude::*;

use super::header::{colon_space, crlf, line, put, Entries, Header};
use super::text::{
    begins_with, chars_of, ends_with, find, finishes_with, first_at, index_of, lemma_index_of,
    lemma_index_of_is, lemma_pieces_len, occurs, occurs_at, pieces, position_of, split,
    split_once, stands_at, starts_with, views,
};

verus! {

/// Why a URL could not be taken apart.
#[derive(Clone, Copy, Debug, PartialEq, Eq)]
pub enum UrlParseError {
    /// Host and path could not be told apart. No URL is rejected for this
    /// today: the variant is a guard for scheme rules that could overlap.
    NoPath,
}

impl UrlParseError {
    /// A sentence for the user.
    pub fn message(&self) -> (text: String)
        ensures
            text@ == "Cannot get the path from the URL."@,
    {
        "Cannot get the path from the URL.".to_owned()
    }
}

/// The secure scheme prefix.
pub open spec fn https() -> Seq<char> {
    "https://"@
}

/// The plain scheme prefix.
pub open spec fn http() -> Seq<char> {
    "http://"@
}

/// What separates host from path.
pub open spec fn slash() -> Seq<char> {
    "/"@
}

/// `url` without its scheme prefix, if it has one.
pub open spec fn after_scheme(url: Seq<char>) -> Seq<char> {
    if starts_with(url, https()) {
        url.skip(https().len() as int)
    } else if starts_with(url, http()) {
        url.skip(http().len() as int)
    } else {
        url
    }
}

/// The authority of `url`: what stands between the scheme prefix and the
/// first `/` after it.
pub open spec fn url_host(url: Seq<char>) -> Seq<char> {
    let rest = after_scheme(url);
    match index_of(rest, slash()) {
        Some(i) => rest.take(i),
        None => rest,
    }
}

/// The path of `url`: everything from the first `/` after the scheme prefix
/// on, that `/` included; empty where there is none.
pub open spec fn url_path(url: Seq<char>) -> Seq<char> {
    let rest = after_scheme(url);
    match index_of(rest, slash()) {
        Some(i) => rest.skip(i),
        None => Seq::empty(),
    }
}

/// The path that a request for `url` names: that of the URL, or `/` where
/// the URL has none.
pub open spec fn request_path(url: Seq<char>) -> Seq<char> {
    if url_path(url).len() == 0 {
        slash()
    } else {
        url_path(url)
    }
}

/// A URL that is made of a scheme prefix, a host and a path is taken apart
/// into that host and that path, and a request for it names that path, or
/// `/` where the path is empty.
///
/// The scheme prefix is `https://`, `http://` or nothing; the host holds
/// no `/`; the path is empty or begins with `/`. Without a scheme prefix,
/// host and path together must not begin like one.
pub proof fn lemma_url_is_taken_apart(scheme: Seq<char>, host: Seq<char>, path: Seq<char>)
    requires
        scheme == https() || scheme == http() || scheme.len() == 0,
        scheme.len() == 0 ==> !starts_with(host + path, https()) && !starts_with(
            host + path,
            http(),
        ),
        !occurs(host, slash()),
        path.len() == 0 || starts_with(path, slash()),
    ensures
        url_host(scheme + host + path) == host,
        url_path(scheme + host + path) == path,
        request_path(scheme + host + path) == if path.len() == 0 {
            slash()
        } else {
            path
        },
{
    reveal_strlit("https://");
    reveal_strlit("http://");
    reveal_strlit("/");
    let url = scheme + host + path;
    let rest = host + path;
    if scheme.len() == 0 {
        assert(url =~= rest);
    } else if scheme == https() {
        assert(url.subrange(0, 8) =~= https());
        assert(url.skip(8) =~= rest);
    } else {
        assert(url.subrange(0, 7) =~= http());
        assert(url.skip(7) =~= rest);
        if starts_with(url, https()) {
            assert(url.subrange(0, 8)[4] == 's');
            assert(url[4] == http()[4]);
        }
    }
    assert(after_scheme(url) == rest);
    assert forall|j: int| 0 <= j < host.len() implies !occurs_at(rest, slash(), j) by {
        if occurs_at(rest, slash(), j) {
            assert(host.subrange(j, j + 1) =~= rest.subrange(j, j + 1));
            assert(occurs_at(host, slash(), j));
        }
    }
    if path.len() == 0 {
        assert(rest =~= host);
        lemma_index_of(rest, slash());
        assert(index_of(rest, slash()) is None);
    } else {
        let at = host.len() as int;
        assert(rest.subrange(at, at + 1) =~= path.subrange(0, 1));
        assert(first_at(rest, slash(), at));
        lemma_index_of_is(rest, slash(), at);
        assert(rest.take(at) =~= host);
        assert(rest.skip(at) =~= path);
    }
}

/// Host and path of `url`, as slices of it.
pub(crate) fn components<'a>(url: &'a str) -> (parts: (&'a str, &'a str))
    ensures
        parts.0@ == url_host(url@),
        parts.1@ == url_path(url@),
{
    let hay = chars_of(url);
    let n = hay.len();
    let secure = chars_of("https://");
    let plain = chars_of("http://");
    let start: usize = if stands_at(&hay, &secure, 0) {
        secure.len()
    } else if stands_at(&hay, &plain, 0) {
        plain.len()
    } else {
        0
    };
    let ghost rest = after_scheme(url@);
    assert(rest =~= url@.skip(start as int));
    let sep = chars_of("/");
    match find(&hay, &sep, start) {
        Some(i) => {
            assert(rest.take(i - start) =~= url@.subrange(start as int, i as int));
            assert(rest.skip(i - start) =~= url@.subrange(i as int, n as int));
            (url.substring_char(start, i), url.substring_char(i, n))
        },
        None => {
            assert(rest =~= url@.subrange(start as int, n as int));
            assert(url@.subrange(n as int, n as int) =~= Seq::<char>::empty());
            (url.substring_char(start, n), url.substring_char(n, n))
        },
    }
}

/// Separate the hostname from the path.
///
/// An optional `https://` or `http://` prefix is dropped; what follows is
/// divided at its first `/`. The result always has two items: the host, and
/// the path with its leading `/`, or an empty path where the URL has none.
/// Every URL is taken apart: the error is never returned.
pub fn split_path_from_hostname<'a>(url: &'a str) -> (result: Result<Vec<&'a str>, UrlParseError>)
    ensures
        result matches Ok(parts) && parts@.len() == 2 && parts@[0]@ == url_host(url@)
            && parts@[1]@ == url_path(url@),
{
    let (host, path) = components(url);
    let mut parts: Vec<&'a str> = Vec::new();
    parts.push(host);
    parts.push(path);
    Ok(parts)
}

/// Why a raw response could not be read.
#[derive(Clone, Copy, Debug, PartialEq, Eq)]
pub enum MessageParseError {
    /// No CRLF stands in the text, so no line ends in it.
    MissingStatusLine,
    /// The first line is not a status line: it has no space, or the word
    /// before its first space does not begin with `HTTP/`.
    MalformedStatusLine,
    /// No empty line parts the headers from the body.
    MissingBoundary,
}

impl MessageParseError {
    /// A sentence for the user.
    pub fn message(&self) -> (text: String)
        ensures
            text@ == match *self {
                MessageParseError::MissingStatusLine => "The response has no status line."@,
                MessageParseError::MalformedStatusLine => "The first line is not a status line."@,
                MessageParseError::MissingBoundary => "No empty line ends the headers."@,
            },
    {
        match self {
            MessageParseError::MissingStatusLine => "The response has no status line.".to_owned(),
            MessageParseError::MalformedStatusLine => {
                "The first line is not a status line.".to_owned()
            },
            MessageParseError::MissingBoundary => "No empty line ends the headers.".to_owned(),
        }
    }
}

/// What separates the words of the status line.
pub open spec fn space() -> Seq<char> {
    " "@
}

/// What the protocol version of a status line begins with.
pub open spec fn version_mark() -> Seq<char> {
    "HTTP/"@
}

/// The empty line between headers and body, with the end of the line
/// before it.
pub open spec fn boundary() -> Seq<char> {
    "\r\n\r\n"@
}

/// The first line of `raw`: what stands before its first CRLF.
pub open spec fn first_line(raw: Seq<char>) -> Option<Seq<char>> {
    match index_of(raw, crlf()) {
        Some(i) => Some(raw.take(i)),
        None => None,
    }
}

/// `line` has the shape of a status line: a word that begins with `HTTP/`,
/// then a space.
pub open spec fn is_status_line(line: Seq<char>) -> bool {
    match index_of(line, space()) {
        Some(i) => starts_with(line.take(i), version_mark()),
        None => false,
    }
}

/// What is wrong with the shape of `raw` as a whole, if anything: the
/// first defect, in the order of the text. The readings of status,
/// headers and body each ask less: only for the part that they read.
pub open spec fn defect(raw: Seq<char>) -> Option<MessageParseError> {
    match first_line(raw) {
        None => Some(MessageParseError::MissingStatusLine),
        Some(line) => if !is_status_line(line) {
            Some(MessageParseError::MalformedStatusLine)
        } else if !occurs(raw, boundary()) {
            Some(MessageParseError::MissingBoundary)
        } else {
            None
        },
    }
}

/// What follows the first space of `line`: status code and reason phrase.
pub open spec fn after_first_space(line: Seq<char>) -> Seq<char> {
    match index_of(line, space()) {
        Some(i) => line.skip(i + space().len()),
        None => Seq::empty(),
    }
}

/// The status of `raw`: what follows the first space of its first line.
/// It is read from the first line alone: there is none where the text
/// holds no CRLF or where the first line is no status line.
pub open spec fn parsed_code(raw: Seq<char>) -> Result<Seq<char>, MessageParseError> {
    match first_line(raw) {
        None => Err(MessageParseError::MissingStatusLine),
        Some(line) => if is_status_line(line) {
            Ok(after_first_space(line))
        } else {
            Err(MessageParseError::MalformedStatusLine)
        },
    }
}

/// The header lines of `raw`: its lines but the first and the last.
pub open spec fn header_lines(raw: Seq<char>) -> Seq<Seq<char>> {
    let all = pieces(raw, crlf());
    all.subrange(1, all.len() - 1)
}

/// The headers that `lines` carry, read in order. A line is divided at each
/// `": "`; one that has no `": "` is passed over; of the others, the first
/// piece is the key and the second the value.
pub open spec fn gathered(lines: Seq<Seq<char>>) -> Entries
    decreases lines.len(),
{
    if lines.len() == 0 {
        Entries::empty()
    } else {
        let earlier = gathered(lines.drop_last());
        let parts = pieces(lines.last(), colon_space());
        if parts.len() >= 2 {
            put(earlier, parts[0], parts[1])
        } else {
            earlier
        }
    }
}

/// The headers of `raw`: those of its header lines. There are none to
/// read where the text holds no CRLF, and so has no first line to leave
/// out; what the first line holds is not asked.
pub open spec fn parsed_headers(raw: Seq<char>) -> Result<Entries, MessageParseError> {
    if occurs(raw, crlf()) {
        Ok(gathered(header_lines(raw)))
    } else {
        Err(MessageParseError::MissingStatusLine)
    }
}

/// `text` without one CRLF at its end, if it ends with one.
pub open spec fn without_final_crlf(text: Seq<char>) -> Seq<char> {
    if ends_with(text, crlf()) {
        text.take(text.len() - crlf().len())
    } else {
        text
    }
}

/// The body of `raw`: what follows the first empty line, without one CRLF
/// at its end. There is none where no empty line stands in the text; what
/// stands before the empty line is not asked.
pub open spec fn parsed_body(raw: Seq<char>) -> Result<Seq<char>, MessageParseError> {
    match index_of(raw, boundary()) {
        Some(i) => Ok(without_final_crlf(raw.skip(i + boundary().len()))),
        None => Err(MessageParseError::MissingBoundary),
    }
}

/// The model of a text result.
pub open spec fn text_seen(result: Result<String, MessageParseError>) -> Result<
    Seq<char>,
    MessageParseError,
> {
    match result {
        Ok(text) => Ok(text@),
        Err(error) => Err(error),
    }
}

/// The model of a header result.
pub open spec fn headers_seen(result: Result<Header, MessageParseError>) -> Result<
    Entries,
    MessageParseError,
> {
    match result {
        Ok(header) => Ok(header@),
        Err(error) => Err(error),
    }
}

/// Status code and reason phrase of `raw`, read from its first line.
fn status_in<'a>(raw: &'a str) -> (result: Result<&'a str, MessageParseError>)
    ensures
        match result {
            Ok(text) => parsed_code(raw@) == Ok::<Seq<char>, MessageParseError>(text@),
            Err(error) => parsed_code(raw@) == Err::<Seq<char>, MessageParseError>(error),
        },
{
    match split_once(raw, "\r\n") {
        None => Err(MessageParseError::MissingStatusLine),
        Some((line, _)) => match split_once(line, " ") {
            None => Err(MessageParseError::MalformedStatusLine),
            Some((word, status)) => {
                if begins_with(word, "HTTP/") {
                    Ok(status)
                } else {
                    Err(MessageParseError::MalformedStatusLine)
                }
            },
        },
    }
}

/// Reads a raw HTTP/1.1 response: status, headers and body.
///
/// The parser owns the text and keeps no other state: each reading is
/// computed from the text alone, and asks only for the part of the text
/// that it reads. The status needs a first line that ends in CRLF and is a
/// status line; the headers need a CRLF; the body needs an empty line.
/// `validate` asks for all of it.
pub struct HttpParser {
    pub content: String,
}

impl View for HttpParser {
    type V = Seq<char>;

    open spec fn view(&self) -> Seq<char> {
        self.content@
    }
}

impl HttpParser {
    /// A parser over `text`.
    pub fn new(text: &str) -> (parser: Self)
        ensures
            parser@ == text@,
    {
        HttpParser { content: text.to_owned() }
    }

    /// What is wrong with the shape of the text as a whole, if anything.
    pub fn validate(&self) -> (result: Result<(), MessageParseError>)
        ensures
            match result {
                Ok(_) => defect(self@) is None,
                Err(error) => defect(self@) == Some(error),
            },
    {
        let raw = self.content.as_str();
        match status_in(raw) {
            Err(error) => Err(error),
            Ok(_) => match position_of(raw, "\r\n\r\n") {
                Some(_) => Ok(()),
                None => Err(MessageParseError::MissingBoundary),
            },
        }
    }

    /// The status that the server returned: status code and reason phrase,
    /// as they stand after the first space of the status line. Nothing
    /// but the first line is read.
    pub fn code(&self) -> (result: Result<String, MessageParseError>)
        ensures
            text_seen(result) == parsed_code(self@),
    {
        match status_in(self.content.as_str()) {
            Ok(status) => Ok(status.to_owned()),
            Err(error) => Err(error),
        }
    }

    /// The headers: every line but the first and the last that holds
    /// `": "`, as key and value, in the order of the text. The first line
    /// is left out unread.
    pub fn headers(&self) -> (result: Result<Header, MessageParseError>)
        ensures
            headers_seen(result) == parsed_headers(self@),
    {
        let raw = self.content.as_str();
        let lines = split(raw, "\r\n");
        let ghost all = views(lines@);
        proof {
            reveal_strlit("\r\n");
            lemma_pieces_len(raw@, crlf());
        }
        if lines.len() < 2 {
            return Err(MessageParseError::MissingStatusLine);
        }
        let end = lines.len() - 1;
        let mut header = Header::new();
        let mut i: usize = 1;
        assert(all.subrange(1, 1) =~= Seq::<Seq<char>>::empty());
        while i < end
            invariant
                1 <= i <= end,
                end == lines.len() - 1,
                all == views(lines@),
                header@ == gathered(all.subrange(1, i as int)),
            decreases end - i,
        {
            let parts = split(lines[i], ": ");
            proof {
                let now = all.subrange(1, i + 1);
                assert(now.drop_last() =~= all.subrange(1, i as int));
                assert(now.last() == lines[i as int]@);
            }
            if parts.len() >= 2 {
                header = header.add(parts[0], parts[1]);
            }
            i += 1;
        }
        Ok(header)
    }

    /// The body: what follows the first empty line, without one CRLF at
    /// its end. What stands before the empty line is not read.
    pub fn body(&self) -> (result: Result<String, MessageParseError>)
        ensures
            text_seen(result) == parsed_body(self@),
    {
        match split_once(self.content.as_str(), "\r\n\r\n") {
            None => Err(MessageParseError::MissingBoundary),
            Some((_, rest)) => {
                if finishes_with(rest, "\r\n") {
                    let n = rest.unicode_len();
                    let m = "\r\n".unicode_len();
                    proof {
                        assert(rest@.take(n - m) =~= rest@.subrange(0, n - m));
                    }
                    Ok(rest.substring_char(0, n - m).to_owned())
                } else {
                    Ok(rest.to_owned())
                }
            },
        }
    }
}

/// The status is read from the first line alone. Where a text begins
/// with a version word, a space, a status and a CRLF, the status is read
/// as it stands, whatever follows the CRLF.
///
/// The version word begins with `HTTP/` and holds no space; neither it
/// nor the status holds a CRLF.
pub proof fn lemma_code_of_first_line(version: Seq<char>, status: Seq<char>, tail: Seq<char>)
    requires
        starts_with(version, version_mark()),
        !occurs(version, space()),
        !occurs(version, crlf()),
        !occurs(status, crlf()),
    ensures
        parsed_code(version + space() + status + crlf() + tail) == Ok::<
            Seq<char>,
            MessageParseError,
        >(status),
{
    reveal_strlit(" ");
    reveal_strlit("\r\n");
    let text = version + space() + status + crlf() + tail;
    let n = version.len() as int;
    let end = n + 1 + status.len();
    assert(text.subrange(end, end + 2) =~= crlf());
    assert forall|j: int| 0 <= j < end implies !occurs_at(text, crlf(), j) by {
        if occurs_at(text, crlf(), j) {
            let found = text.subrange(j, j + 2);
            assert(found[0] == '\r' && found[1] == '\n');
            if j + 2 <= n {
                assert(version.subrange(j, j + 2) =~= found);
                assert(occurs_at(version, crlf(), j));
            } else if j <= n {
                assert(text[n] == ' ');
            } else if j + 2 <= end {
                assert(status.subrange(j - n - 1, j - n + 1) =~= found);
                assert(occurs_at(status, crlf(), j - n - 1));
            } else {
                assert(text[end] == '\r');
            }
        }
    }
    assert(first_at(text, crlf(), end));
    lemma_index_of_is(text, crlf(), end);
    let line = text.take(end);
    assert(line =~= version + space() + status);
    assert(line.subrange(n, n + 1) =~= space());
    assert forall|j: int| 0 <= j < n implies !occurs_at(line, space(), j) by {
        if occurs_at(line, space(), j) {
            assert(version.subrange(j, j + 1) =~= line.subrange(j, j + 1));
            assert(occurs_at(version, space(), j));
        }
    }
    assert(first_at(line, space(), n));
    lemma_index_of_is(line, space(), n);
    assert(line.take(n) =~= version);
    assert(line.skip(n + 1) =~= status);
}

/// A header line is read back as it was written: the line of a key and a
/// value that hold no `": "` is divided into that key and that value.
pub proof fn lemma_line_is_read_back(key: Seq<char>, value: Seq<char>)
    requires
        !occurs(key, colon_space()),
        !occurs(value, colon_space()),
    ensures
        pieces(line(key, value), colon_space()) == seq![key, value],
{
    reveal_strlit(": ");
    let text = line(key, value);
    let n = key.len() as int;
    assert(text.subrange(n, n + 2) =~= colon_space());
    assert forall|j: int| 0 <= j < n implies !occurs_at(text, colon_space(), j) by {
        if occurs_at(text, colon_space(), j) {
            let found = text.subrange(j, j + 2);
            assert(found[0] == ':' && found[1] == ' ');
            if j + 2 <= n {
                assert(key.subrange(j, j + 2) =~= found);
                assert(occurs_at(key, colon_space(), j));
            } else {
                assert(text[n] == ':');
            }
        }
    }
    assert(first_at(text, colon_space(), n));
    lemma_index_of_is(text, colon_space(), n);
    assert(text.take(n) =~= key);
    assert(text.skip(n + 2) =~= value);
    lemma_index_of(value, colon_space());
    assert(pieces(value, colon_space()) =~= seq![value]);
    assert(pieces(text, colon_space()) =~= seq![key, value]);
}

/// The body is read from what follows the first empty line alone. Where
/// a head without an empty line is followed by one, what comes after is
/// the body, without one CRLF at its end, whatever the head holds.
///
/// The head holds no CRLF CRLF and does not end in CRLF: else the first
/// empty line would begin within it.
pub proof fn lemma_body_after_empty_line(head: Seq<char>, rest: Seq<char>)
    requires
        !occurs(head, boundary()),
        !ends_with(head, crlf()),
    ensures
        parsed_body(head + boundary() + rest) == Ok::<Seq<char>, MessageParseError>(
            without_final_crlf(rest),
        ),
{
    reveal_strlit("\r\n");
    reveal_strlit("\r\n\r\n");
    let text = head + boundary() + rest;
    let n = head.len() as int;
    assert(text.subrange(n, n + 4) =~= boundary());
    assert forall|j: int| 0 <= j < n implies !occurs_at(text, boundary(), j) by {
        if occurs_at(text, boundary(), j) {
            let found = text.subrange(j, j + 4);
            assert(found[0] == '\r' && found[1] == '\n' && found[2] == '\r' && found[3] == '\n');
            if j + 4 <= n {
                assert(head.subrange(j, j + 4) =~= found);
                assert(occurs_at(head, boundary(), j));
            } else if j + 3 == n {
                assert(text[n] == '\r');
            } else if j + 2 == n {
                assert(head.subrange(n - 2, n) =~= crlf());
                assert(occurs_at(head, crlf(), n - 2));
            } else {
                assert(text[n] == '\r');
                assert(text[n + 1] == '\n');
                assert(text[n + 2] == '\r');
            }
        }
    }
    assert(first_at(text, boundary(), n));
    lemma_index_of_is(text, boundary(), n);
    assert(text.skip(n + 4) =~= rest);
}

/// Reading twice gives the same. A parser is read through a shared
/// reference, and each reading is a function of its text alone: whatever
/// two readings of the status return, they agree, and so do two readings
/// of the headers and two of the body.
pub proof fn lemma_readings_agree(
    parser: HttpParser,
    first_code: Result<String, MessageParseError>,
    second_code: Result<String, MessageParseError>,
    first_headers: Result<Header, MessageParseError>,
    second_headers: Result<Header, MessageParseError>,
    first_body: Result<String, MessageParseError>,
    second_body: Result<String, MessageParseError>,
)
    requires
        text_seen(first_code) == parsed_code(parser@),
        text_seen(second_code) == parsed_code(parser@),
        headers_seen(first_headers) == parsed_headers(parser@),
        headers_seen(second_headers) == parsed_headers(parser@),
        text_seen(first_body) == parsed_body(parser@),
        text_seen(second_body) == parsed_body(parser@),
    ensures
        text_seen(first_code) == text_seen(second_code),
        headers_seen(first_headers) == headers_seen(second_headers),
        text_seen(first_body) == text_seen(second_body),
{
}

} // verus!
