//! The HTTP/1.1 message model: requests are assembled and serialized, raw
//! responses are taken apart.

pub mod header;
pub mod request;
pub mod text;
pub mod tls;
pub mod util;

pub use self::header::Header;
pub use self::tls::TlsBuilder;
pub use self::util::{split_path_from_hostname, HttpParser, MessageParseError, UrlParseError};

use vstd::prelude::*;

use self::header::{crlf, wire, Entries};
use self::text::{
    first_at, index_of, lemma_index_of, lemma_index_of_is, occurs, occurs_at, starts_with,
};
use self::util::{
    components, defect, first_line, is_status_line, parsed_code, request_path, space, url_host,
    version_mark,
};

verus! {

/// The request methods this client can send.
#[derive(Clone, Copy, Debug, PartialEq, Eq)]
pub enum Method {
    /// `DELETE`
    Delete,
    /// `GET`
    Get,
    /// `PATCH`
    Patch,
    /// `POST`
    Post,
    /// `PUT`
    Put,
}

/// The word that stands for a method on the wire.
pub open spec fn method_name(method: Method) -> Seq<char> {
    match method {
        Method::Delete => "DELETE"@,
        Method::Get => "GET"@,
        Method::Patch => "PATCH"@,
        Method::Post => "POST"@,
        Method::Put => "PUT"@,
    }
}

impl Method {
    /// The word that stands for the method on the wire.
    #[must_use]
    pub fn as_str(&self) -> (name: String)
        ensures
            name@ == method_name(*self),
    {
        match self {
            Method::Delete => "DELETE".to_owned(),
            Method::Get => "GET".to_owned(),
            Method::Patch => "PATCH".to_owned(),
            Method::Post => "POST".to_owned(),
            Method::Put => "PUT".to_owned(),
        }
    }
}

/// The mathematical model of a request under construction.
pub struct Draft {
    /// The method, once it was set.
    pub method: Option<Method>,
    /// The URL the request was made for.
    pub url: Seq<char>,
    /// The authority of the URL.
    pub host: Seq<char>,
    /// The path that the request line names.
    pub path: Seq<char>,
    /// The headers, once they were set.
    pub headers: Option<Entries>,
    /// The body, once it was set.
    pub body: Option<Seq<char>>,
}

/// The draft that a URL begins with: nothing is set but what the URL gives.
pub open spec fn draft_for(url: Seq<char>) -> Draft {
    Draft {
        method: None,
        url,
        host: url_host(url),
        path: request_path(url),
        headers: None,
        body: None,
    }
}

/// What ends the request line.
pub open spec fn version_tail() -> Seq<char> {
    " HTTP/1.1\r\n"@
}

/// What ends the header block: the end of its last line and an empty line.
pub open spec fn block_end() -> Seq<char> {
    "\r\n\r\n"@
}

/// The request line of a draft, with the CRLF that ends it. A draft
/// without a method asks with `GET`.
pub open spec fn request_line(draft: Draft) -> Seq<char> {
    let method = match draft.method {
        Some(method) => method,
        None => Method::Get,
    };
    method_name(method) + space() + draft.path + version_tail()
}

/// The wire form of a draft: request line, header block, an empty line,
/// and the body where there is one. A draft without headers has an empty
/// header block.
pub open spec fn request_text(draft: Draft) -> Seq<char> {
    let block = match draft.headers {
        Some(entries) => wire(entries),
        None => Seq::empty(),
    };
    let body = match draft.body {
        Some(body) => body,
        None => Seq::empty(),
    };
    request_line(draft) + block + block_end() + body
}

/// Assembles a request and serializes it.
pub struct Http {
    body: Option<String>,
    headers: Option<Header>,
    url: String,
    path: String,
    hostname: String,
    method: Option<Method>,
}

impl View for Http {
    type V = Draft;

    closed spec fn view(&self) -> Draft {
        Draft {
            method: self.method,
            url: self.url@,
            host: self.hostname@,
            path: self.path@,
            headers: match self.headers {
                Some(header) => Some(header@),
                None => None,
            },
            body: match self.body {
                Some(body) => Some(body@),
                None => None,
            },
        }
    }
}

impl Http {
    /// A request for `url`, with nothing set yet. Host and path are taken
    /// from the URL; where it has no path, the request asks for `/`.
    pub fn new(url: &str) -> (http: Self)
        ensures
            http@ == draft_for(url@),
    {
        let (host, path) = components(url);
        let path = if path.unicode_len() == 0 {
            "/".to_owned()
        } else {
            path.to_owned()
        };
        Http {
            body: None,
            headers: None,
            url: url.to_owned(),
            path,
            hostname: host.to_owned(),
            method: None,
        }
    }

    /// Sets the headers.
    pub fn headers(self, headers: Header) -> (http: Self)
        ensures
            http@ == (Draft { headers: Some(headers@), ..self@ }),
    {
        let Http { body, headers: _, url, path, hostname, method } = self;
        Http { body, headers: Some(headers), url, path, hostname, method }
    }

    /// Sets the body.
    pub fn body(self, body: String) -> (http: Self)
        ensures
            http@ == (Draft { body: Some(body@), ..self@ }),
    {
        let Http { body: _, headers, url, path, hostname, method } = self;
        Http { body: Some(body), headers, url, path, hostname, method }
    }

    /// Sets the method.
    pub fn method(self, method: Method) -> (http: Self)
        ensures
            http@ == (Draft { method: Some(method), ..self@ }),
    {
        let Http { body, headers, url, path, hostname, method: _ } = self;
        Http { body, headers, url, path, hostname, method: Some(method) }
    }

    /// A parser over the raw response `text`.
    pub fn from_str(url: &str, text: &str) -> (parser: HttpParser)
        ensures
            parser@ == text@,
    {
        HttpParser::new(text)
    }

    /// The authority that the request goes to.
    pub fn hostname(&self) -> (host: &str)
        ensures
            host@ == self@.host,
    {
        self.hostname.as_str()
    }

    /// The path that the request line names.
    pub fn path(&self) -> (path: &str)
        ensures
            path@ == self@.path,
    {
        self.path.as_str()
    }

    /// The wire form of the request. The request is used up.
    pub fn as_str(self) -> (text: String)
        ensures
            text@ == request_text(self@),
    {
        let ghost draft = self@;
        let Http { body, headers, url: _, path, hostname: _, method } = self;
        let mut text = match method {
            Some(method) => method.as_str(),
            None => Method::Get.as_str(),
        };
        text.append(" ");
        text.append(path.as_str());
        text.append(" HTTP/1.1\r\n");
        assert(text@ =~= request_line(draft));
        match headers {
            Some(header) => {
                let mut header = header;
                let block = header.as_str();
                text.append(block.as_str());
            },
            None => {},
        }
        text.append("\r\n\r\n");
        match body {
            Some(body) => {
                text.append(body.as_str());
            },
            None => {},
        }
        assert(text@ =~= request_text(draft));
        text
    }
}

/// The word of a method is made of three to six capital letters, and the
/// first of them is no `H`.
proof fn lemma_method_name_shape(method: Method)
    ensures
        3 <= method_name(method).len() <= 6,
        method_name(method)[0] != 'H',
        forall|j: int|
            0 <= j < method_name(method).len() ==> 'A' <= #[trigger] method_name(method)[j] <= 'Z',
{
    reveal_strlit("DELETE");
    reveal_strlit("GET");
    reveal_strlit("PATCH");
    reveal_strlit("POST");
    reveal_strlit("PUT");
}

/// What stands in a text stands in every text around it.
proof fn lemma_occurs_inside(before: Seq<char>, inner: Seq<char>, after: Seq<char>, pat: Seq<char>)
    requires
        occurs(inner, pat),
    ensures
        occurs(before + inner + after, pat),
{
    let at = choose|at: int| occurs_at(inner, pat, at);
    let whole = before + inner + after;
    let shifted = before.len() + at;
    assert(whole.subrange(shifted, shifted + pat.len()) =~= inner.subrange(at, at + pat.len()));
    assert(occurs_at(whole, pat, shifted));
}

/// Where a text begins with a word without space or carriage return,
/// then a space, and holds a CRLF, the first word of its first line is
/// that word.
proof fn lemma_first_word(word: Seq<char>, rest: Seq<char>)
    requires
        forall|j: int| 0 <= j < word.len() ==> word[j] != ' ' && word[j] != '\r',
        occurs(word + space() + rest, crlf()),
    ensures
        first_line(word + space() + rest) matches Some(line) && is_status_line(line) == starts_with(
            word,
            version_mark(),
        ),
{
    reveal_strlit(" ");
    reveal_strlit("\r\n");
    let text = word + space() + rest;
    let n = word.len() as int;
    lemma_index_of(text, crlf());
    let stop = index_of(text, crlf()).unwrap();
    assert(text.subrange(stop, stop + 2)[0] == '\r');
    assert(text[n] == ' ');
    assert(stop > n) by {
        if stop < n {
            assert(text[stop] == word[stop]);
        }
    }
    let line = text.take(stop);
    assert(line.subrange(n, n + 1) =~= space());
    assert forall|j: int| 0 <= j < n implies !occurs_at(line, space(), j) by {
        if occurs_at(line, space(), j) {
            assert(line.subrange(j, j + 1)[0] == ' ');
            assert(line[j] == word[j]);
        }
    }
    assert(first_at(line, space(), n));
    lemma_index_of_is(line, space(), n);
    assert(line.take(n) =~= word);
}

/// A request is no response. Of the serialized form of every request no
/// status is read, and as a whole it is refused for its first line: that
/// line begins with the method, where a status line begins with the
/// protocol version.
pub proof fn lemma_request_is_no_response(draft: Draft)
    ensures
        defect(request_text(draft)) == Some(MessageParseError::MalformedStatusLine),
        parsed_code(request_text(draft)) == Err::<Seq<char>, MessageParseError>(
            MessageParseError::MalformedStatusLine,
        ),
{
    let method = match draft.method {
        Some(method) => method,
        None => Method::Get,
    };
    let word = method_name(method);
    let block = match draft.headers {
        Some(entries) => wire(entries),
        None => Seq::empty(),
    };
    let body = match draft.body {
        Some(body) => body,
        None => Seq::empty(),
    };
    let text = request_text(draft);
    let rest = draft.path + version_tail() + block + block_end() + body;
    assert(text =~= word + space() + rest);
    assert(occurs(text, crlf())) by {
        reveal_strlit("\r\n");
        reveal_strlit("\r\n\r\n");
        assert(block_end().subrange(0, 2) =~= crlf());
        assert(occurs_at(block_end(), crlf(), 0));
        lemma_occurs_inside(request_line(draft) + block, block_end(), body, crlf());
    }
    lemma_method_name_shape(method);
    lemma_first_word(word, rest);
    assert(!starts_with(word, version_mark())) by {
        reveal_strlit("HTTP/");
        if starts_with(word, version_mark()) {
            assert(word.subrange(0, 5)[0] == 'H');
        }
    }
}

} // verus!
