//! Serialising a request: the request line, the header lines and the body.
use vstd::prelude::*;
use vstd::string::StringExecFns;
use vstd::utf8::encode_utf8;

use crate::error::HttpError;
use crate::text::{crlf, decimal, push_bytes, push_decimal, COLON, CR, LF, SP};

verus! {

/// The request methods this writer knows; the text of each is its name.
#[derive(Copy, Clone, PartialEq, Eq, Ord, PartialOrd, Debug, Structural)]
pub enum Method {
    GET,
    POST,
    HEAD,
    PUT,
    DELETE,
    OPTIONS,
    PATCH,
    CONNECT,
    TRACE,
}

/// The name of a method as it stands on the request line.
pub open spec fn method_name(m: Method) -> Seq<char> {
    match m {
        Method::GET => seq!['G', 'E', 'T'],
        Method::POST => seq!['P', 'O', 'S', 'T'],
        Method::HEAD => seq!['H', 'E', 'A', 'D'],
        Method::PUT => seq!['P', 'U', 'T'],
        Method::DELETE => seq!['D', 'E', 'L', 'E', 'T', 'E'],
        Method::OPTIONS => seq!['O', 'P', 'T', 'I', 'O', 'N', 'S'],
        Method::PATCH => seq!['P', 'A', 'T', 'C', 'H'],
        Method::CONNECT => seq!['C', 'O', 'N', 'N', 'E', 'C', 'T'],
        Method::TRACE => seq!['T', 'R', 'A', 'C', 'E'],
    }
}

impl Method {
    /// The method's name, in upper case.
    pub fn as_str(&self) -> (r: &'static str)
        ensures
            r@ == method_name(*self),
    {
        proof {
            reveal_strlit("GET");
            reveal_strlit("POST");
            reveal_strlit("HEAD");
            reveal_strlit("PUT");
            reveal_strlit("DELETE");
            reveal_strlit("OPTIONS");
            reveal_strlit("PATCH");
            reveal_strlit("CONNECT");
            reveal_strlit("TRACE");
        }
        match self {
            Method::GET => "GET",
            Method::POST => "POST",
            Method::HEAD => "HEAD",
            Method::PUT => "PUT",
            Method::DELETE => "DELETE",
            Method::OPTIONS => "OPTIONS",
            Method::PATCH => "PATCH",
            Method::CONNECT => "CONNECT",
            Method::TRACE => "TRACE",
        }
    }
}

/// The UTF-8 bytes of a text.
pub open spec fn utf8(s: Seq<char>) -> Seq<u8> {
    encode_utf8(s)
}

/// A header list as pairs of byte strings, each text in UTF-8.
pub open spec fn header_bytes(h: Seq<(String, String)>) -> Seq<(Seq<u8>, Seq<u8>)> {
    h.map_values(|p: (String, String)| (utf8(p.0@), utf8(p.1@)))
}

/// One header line: `name: value\r\n`.
pub open spec fn header_line(name: Seq<u8>, value: Seq<u8>) -> Seq<u8> {
    name + seq![COLON, SP] + value + crlf()
}

/// The header lines of a list, in list order.
pub open spec fn header_lines(h: Seq<(Seq<u8>, Seq<u8>)>) -> Seq<u8>
    decreases h.len(),
{
    if h.len() == 0 {
        Seq::empty()
    } else {
        header_lines(h.drop_last()) + header_line(h.last().0, h.last().1)
    }
}

/// The request line: `METHOD target HTTP/1.x\r\n`, where x is 1 or 0.
pub open spec fn request_line(method: Method, target: Seq<char>, http_one_one: bool) -> Seq<u8> {
    utf8(method_name(method)) + seq![SP] + utf8(target) + version_text() + seq![
        if http_one_one {
            DIGIT_ONE
        } else {
            DIGIT_ZERO
        },
    ] + crlf()
}

pub const DIGIT_ZERO: u8 = 48;

pub const DIGIT_ONE: u8 = 49;

/// The bytes ` HTTP/1.` between the target and the minor version digit.
pub open spec fn version_text() -> Seq<u8> {
    seq![SP, 72u8, 84u8, 84u8, 80u8, 47u8, DIGIT_ONE, 46u8]
}

fn push_version_text(into: &mut Vec<u8>)
    ensures
        final(into)@ == old(into)@ + version_text(),
{
    let ghost start = into@;
    into.push(SP);
    into.push(72);
    into.push(84);
    into.push(84);
    into.push(80);
    into.push(47);
    into.push(DIGIT_ONE);
    into.push(46);
    assert(into@ == start + version_text());
}

/// A whole request head: request line, header lines, and the blank line that ends it.
pub open spec fn request_head(
    method: Method,
    target: Seq<char>,
    http_one_one: bool,
    headers: Seq<(Seq<u8>, Seq<u8>)>,
) -> Seq<u8> {
    request_line(method, target, http_one_one) + header_lines(headers) + crlf()
}

fn push_str(into: &mut Vec<u8>, s: &str)
    ensures
        final(into)@ == old(into)@ + utf8(s@),
{
    push_bytes(into, s.as_bytes());
}

fn push_crlf(into: &mut Vec<u8>)
    ensures
        final(into)@ == old(into)@ + crlf(),
{
    into.push(CR);
    into.push(LF);
}

/// The header lines of `a + b` are those of `a` followed by those of `b`.
pub proof fn lemma_header_lines_concat(a: Seq<(Seq<u8>, Seq<u8>)>, b: Seq<(Seq<u8>, Seq<u8>)>)
    ensures
        header_lines(a + b) == header_lines(a) + header_lines(b),
    decreases b.len(),
{
    if b.len() == 0 {
        assert(a + b == a);
    } else {
        assert((a + b).drop_last() == a + b.drop_last());
        lemma_header_lines_concat(a, b.drop_last());
    }
}

fn write_request_line(into: &mut Vec<u8>, method: Method, target: &str, http_one_one: bool)
    ensures
        final(into)@ == old(into)@ + request_line(method, target@, http_one_one),
{
    push_str(into, method.as_str());
    into.push(SP);
    push_str(into, target);
    push_version_text(into);
    into.push(if http_one_one { DIGIT_ONE } else { DIGIT_ZERO });
    push_crlf(into);
}

fn write_header_line(into: &mut Vec<u8>, name: &[u8], value: &[u8])
    ensures
        final(into)@ == old(into)@ + header_line(name@, value@),
{
    push_bytes(into, name);
    into.push(COLON);
    into.push(SP);
    push_bytes(into, value);
    push_crlf(into);
}

fn write_header_lines(into: &mut Vec<u8>, headers: &[(String, String)])
    ensures
        final(into)@ == old(into)@ + header_lines(header_bytes(headers@)),
{
    let ghost start = into@;
    let mut i: usize = 0;
    while i < headers.len()
        invariant
            i <= headers@.len(),
            into@ == start + header_lines(header_bytes(headers@).take(i as int)),
        decreases headers@.len() - i,
    {
        let (name, value) = &headers[i];
        write_header_line(into, name.as_str().as_bytes(), value.as_str().as_bytes());
        i = i + 1;
        proof {
            let t = header_bytes(headers@);
            assert(t.take(i as int).drop_last() == t.take(i - 1));
        }
    }
    assert(header_bytes(headers@).take(headers@.len() as int) == header_bytes(headers@));
}

/// Writes a request head into `into`: the request line, then each header as
/// `name: value\r\n` in list order, then a blank line. Nothing is checked or escaped.
pub fn write_raw(
    into: &mut Vec<u8>,
    method: Method,
    target: &str,
    http_one_one: bool,
    headers: &[(String, String)],
)
    ensures
        final(into)@ == old(into)@ + request_head(
            method,
            target@,
            http_one_one,
            header_bytes(headers@),
        ),
{
    write_request_line(into, method, target, http_one_one);
    write_header_lines(into, headers);
    push_crlf(into);
}

/// What a URL parser makes of a text: `None` where the text is no URL, else its
/// path, its query if it has one, and its host if that host is a domain name.
pub uninterp spec fn url_parts(text: Seq<char>) -> Option<
    (Seq<char>, Option<Seq<char>>, Option<Seq<char>>),
>;

/// The text of an optional string.
pub open spec fn opt_text(o: Option<String>) -> Option<Seq<char>> {
    match o {
        Some(s) => Some(s@),
        None => None,
    }
}

/// The parts of a parsed URL that a request is framed from.
#[derive(Debug)]
pub struct TargetUrl {
    /// The path, as the parser normalised it.
    pub path: String,
    /// The query, without its `?`, where the URL has one.
    pub query: Option<String>,
    /// The host, where it is a domain name; `None` for an IP literal or no host.
    pub domain: Option<String>,
}

impl View for TargetUrl {
    type V = (Seq<char>, Option<Seq<char>>, Option<Seq<char>>);

    open spec fn view(&self) -> Self::V {
        (self.path@, opt_text(self.query), opt_text(self.domain))
    }
}

/// The error a URL parser reports; it is carried as it is and never looked into.
#[verifier::external_type_specification]
#[verifier::external_body]
pub struct ExUrlParseError(url::ParseError);

/// Relies on `url::Url::parse` to parse the text, and on `Url::path`, `Url::query`
/// and `Url::host` to read the parts back out.
#[verifier::external_body]
fn parse_url_parts(text: &str) -> (r: Result<TargetUrl, url::ParseError>)
    ensures
        match r {
            Ok(u) => url_parts(text@) == Some(u@),
            Err(_) => url_parts(text@) is None,
        },
{
    let u = url::Url::parse(text)?;
    let domain = match u.host() {
        Some(url::Host::Domain(d)) => Some(d.to_string()),
        Some(url::Host::Ipv4(_)) | Some(url::Host::Ipv6(_)) | None => None,
    };
    Ok(TargetUrl { path: u.path().to_string(), query: u.query().map(|q| q.to_string()), domain })
}

/// The request target of a URL: its path, then `?` and the query where there is one.
pub open spec fn target_text(u: (Seq<char>, Option<Seq<char>>, Option<Seq<char>>)) -> Seq<char> {
    match u.1 {
        Some(q) => u.0 + seq!['?'] + q,
        None => u.0,
    }
}

/// The headers added after the caller's: `Content-Length` with the body's length,
/// then `Host` where the URL's host is a domain name.
pub open spec fn boring_headers(
    u: (Seq<char>, Option<Seq<char>>, Option<Seq<char>>),
    body_len: nat,
) -> Seq<(Seq<u8>, Seq<u8>)> {
    let length = seq![(utf8("Content-Length"@), decimal(body_len))];
    match u.2 {
        Some(d) => length.push((utf8("Host"@), utf8(d))),
        None => length,
    }
}

/// A whole request with a body: an HTTP/1.1 head with the caller's headers and the
/// boring headers, then the body bytes as they are.
pub open spec fn request_with_body(
    method: Method,
    u: (Seq<char>, Option<Seq<char>>, Option<Seq<char>>),
    headers: Seq<(Seq<u8>, Seq<u8>)>,
    body: Seq<u8>,
) -> Seq<u8> {
    request_head(method, target_text(u), true, headers + boring_headers(u, body.len())) + body
}

impl TargetUrl {
    /// Parses a URL and keeps the parts a request is framed from.
    pub fn parse(text: &str) -> (r: Result<TargetUrl, HttpError>)
        ensures
            match r {
                Ok(u) => url_parts(text@) == Some(u@),
                Err(e) => url_parts(text@) is None && e == HttpError::UrlParse,
            },
    {
        match parse_url_parts(text) {
            Ok(u) => Ok(u),
            Err(_) => Err(HttpError::UrlParse),
        }
    }

    /// The request target: the path, followed by `?` and the query where there is one.
    pub fn request_target(&self) -> (r: String)
        ensures
            r@ == target_text(self@),
    {
        let mut t = self.path.clone();
        match &self.query {
            Some(q) => {
                t.append("?");
                t.append(q.as_str());
                proof {
                    reveal_strlit("?");
                }
            },
            None => {},
        }
        t
    }
}

/// Writes a whole request for a parsed URL: the head with the caller's headers,
/// `Content-Length` and, for a domain host, `Host`; then the body.
pub fn write_body_for_url(
    into: &mut Vec<u8>,
    method: Method,
    url: &TargetUrl,
    headers: &[(String, String)],
    body: &[u8],
)
    ensures
        final(into)@ == old(into)@ + request_with_body(method, url@, header_bytes(headers@), body@),
{
    let target = url.request_target();
    write_request_line(into, method, target.as_str(), true);
    write_header_lines(into, headers);
    let mut length_text: Vec<u8> = Vec::new();
    push_decimal(&mut length_text, body.len());
    write_header_line(into, "Content-Length".as_bytes(), length_text.as_slice());
    let ghost length_line = header_line(utf8("Content-Length"@), decimal(body@.len()));
    match &url.domain {
        Some(d) => {
            write_header_line(into, "Host".as_bytes(), d.as_str().as_bytes());
        },
        None => {},
    }
    push_crlf(into);
    push_bytes(into, body);
    proof {
        let extra = boring_headers(url@, body@.len());
        lemma_header_lines_concat(header_bytes(headers@), extra);
        assert(extra.take(1).drop_last() == Seq::<(Seq<u8>, Seq<u8>)>::empty());
        assert(header_lines(Seq::<(Seq<u8>, Seq<u8>)>::empty()) == Seq::<u8>::empty());
        assert(extra.take(1).last() == extra[0]);
        assert(header_lines(extra.take(1)) =~= length_line);
        if extra.len() == 2 {
            assert(extra.drop_last() == extra.take(1));
        } else {
            assert(extra == extra.take(1));
        }
    }
}

/// Parses `url` and writes a whole request for it, as `write_body_for_url` does;
/// fails, writing nothing, where `url` is no URL.
pub fn write_body_plus_boring_headers(
    into: &mut Vec<u8>,
    method: Method,
    url: &str,
    headers: &[(String, String)],
    body: &[u8],
) -> (r: Result<(), HttpError>)
    ensures
        match url_parts(url@) {
            Some(u) => r is Ok && final(into)@ == old(into)@ + request_with_body(
                method,
                u,
                header_bytes(headers@),
                body@,
            ),
            None => r == Err::<(), HttpError>(HttpError::UrlParse) && final(into)@ == old(into)@,
        },
{
    let u = TargetUrl::parse(url)?;
    write_body_for_url(into, method, &u, headers, body);
    Ok(())
}

} // verus!
