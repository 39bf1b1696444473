//! Reading a response head: finding the end of the header block in a byte stream,
//! tokenizing it, and looking headers up.
use vstd::prelude::*;
use vstd::utf8::{decode_utf8, valid_utf8};

use crate::error::HttpError;
use crate::request::{opt_text, utf8};
use crate::text::{
    ascii_eq_ignore_case, bytes_eq_ignore_case, decimal_u64, parse_decimal_u64, CR, LF,
};

verus! {

/// Whether the first `k` bytes of `d` end a header block: byte `k - 1` ends a line,
/// and the bytes before it are `\n\r` (a blank CRLF line) or `\n` (a blank LF line).
pub open spec fn is_block_end(d: Seq<u8>, k: int) -> bool {
    &&& 1 <= k <= d.len()
    &&& d[k - 1] == LF
    &&& ((k >= 3 && d[k - 3] == LF && d[k - 2] == CR) || (k >= 2 && d[k - 2] == LF))
}

/// `k` is the first place where the header block of `d` ends.
pub open spec fn is_first_block_end(d: Seq<u8>, k: int) -> bool {
    &&& is_block_end(d, k)
    &&& forall|j: int| 0 <= j < k ==> !#[trigger] is_block_end(d, j)
}

/// The header block at the start of a stream: its bytes up to and including the first
/// blank line; `None` where the stream holds no blank line.
pub open spec fn header_block(d: Seq<u8>) -> Option<Seq<u8>> {
    if exists|k: int| is_first_block_end(d, k) {
        Some(d.take(choose|k: int| is_first_block_end(d, k)))
    } else {
        None
    }
}

/// The number of line feeds in a byte string: the number of lines it holds.
pub open spec fn count_lf(s: Seq<u8>) -> nat
    decreases s.len(),
{
    if s.len() == 0 {
        0
    } else {
        count_lf(s.drop_last()) + if s.last() == LF {
            1nat
        } else {
            0nat
        }
    }
}

/// What to do after a line has been read into the header buffer.
#[derive(Copy, Clone, PartialEq, Eq, Debug, Structural)]
pub enum LineStep {
    /// The stream ended before the line did: the block is cut short.
    Truncated,
    /// The line was a header line: read another.
    Continue,
    /// The line was the blank line that closes the block.
    BlockEnd,
}

/// The step after a read that added `last_read` bytes to `buf`.
pub open spec fn line_step(buf: Seq<u8>, last_read: nat) -> LineStep {
    if last_read == 0 || buf.len() == 0 || buf.last() != LF {
        LineStep::Truncated
    } else if is_block_end(buf, buf.len() as int) {
        LineStep::BlockEnd
    } else {
        LineStep::Continue
    }
}

/// Decides, after a read of one line that added `last_read` bytes to `buf`, whether
/// the stream was cut short, the header block is complete, or more lines follow.
pub fn header_block_step(buf: &[u8], last_read: usize) -> (r: LineStep)
    ensures
        r == line_step(buf@, last_read as nat),
{
    let n = buf.len();
    if last_read == 0 || n == 0 || buf[n - 1] != LF {
        LineStep::Truncated
    } else if (n >= 3 && buf[n - 3] == LF && buf[n - 2] == CR) || (n >= 2 && buf[n - 2] == LF) {
        LineStep::BlockEnd
    } else {
        LineStep::Continue
    }
}

/// Two first ends of one block are the same place.
pub(crate) proof fn lemma_first_block_end_unique(d: Seq<u8>, k: int)
    requires
        is_first_block_end(d, k),
    ensures
        header_block(d) == Some(d.take(k)),
{
    let c = choose|j: int| is_first_block_end(d, j);
    assert(is_first_block_end(d, c));
    if c < k {
        assert(!is_block_end(d, c));
    } else if k < c {
        assert(!is_block_end(d, k));
    }
}

/// Reads lines from `from` until the blank line that ends the header block. Returns
/// the bytes read, blank line included, and the number of lines; fails where the
/// stream ends before that blank line.
pub fn read_until_empty_line(from: &[u8]) -> (r: Result<(Vec<u8>, usize), HttpError>)
    ensures
        match r {
            Ok((block, lines)) => {
                &&& block@ == from@.take(block@.len() as int)
                &&& is_first_block_end(from@, block@.len() as int)
                &&& header_block(from@) == Some(block@)
                &&& lines == count_lf(block@)
            },
            Err(e) => {
                &&& e == HttpError::TruncatedStream
                &&& header_block(from@) is None
                &&& forall|k: int| !#[trigger] is_block_end(from@, k)
            },
        },
{
    let mut ret: Vec<u8> = Vec::new();
    let mut pos: usize = 0;
    let mut lines: usize = 0;
    loop
        invariant
            pos <= from@.len(),
            ret@ == from@.take(pos as int),
            lines == count_lf(ret@),
            lines <= pos,
            forall|j: int| 0 <= j <= pos ==> !#[trigger] is_block_end(from@, j),
        decreases from@.len() - pos,
    {
        let start = pos;
        while pos < from.len() && from[pos] != LF
            invariant
                start <= pos <= from@.len(),
                ret@ == from@.take(pos as int),
                lines == count_lf(ret@),
                lines <= start,
                forall|j: int| 0 <= j <= pos ==> !#[trigger] is_block_end(from@, j),
            decreases from@.len() - pos,
        {
            ret.push(from[pos]);
            pos = pos + 1;
            proof {
                assert(ret@.drop_last() == from@.take(pos - 1));
                assert(!is_block_end(from@, pos as int));
            }
        }
        if pos < from.len() {
            ret.push(from[pos]);
            pos = pos + 1;
            lines = lines + 1;
            proof {
                assert(ret@.drop_last() == from@.take(pos - 1));
            }
        }
        assert(ret@ == from@.take(pos as int));
        let step = header_block_step(ret.as_slice(), pos - start);
        proof {
            assert(is_block_end(ret@, pos as int) == is_block_end(from@, pos as int));
        }
        match step {
            LineStep::Truncated => {
                assert(pos == from@.len());
                assert forall|k: int| !#[trigger] is_block_end(from@, k) by {
                    if 0 <= k <= pos {
                    }
                }
                return Err(HttpError::TruncatedStream);
            },
            LineStep::BlockEnd => {
                proof {
                    lemma_first_block_end_unique(from@, pos as int);
                }
                return Ok((ret, lines));
            },
            LineStep::Continue => {},
        }
    }
}

/// A header list as pairs of texts.
pub open spec fn text_pairs(h: Seq<(String, String)>) -> Seq<(Seq<char>, Seq<char>)> {
    h.map_values(|p: (String, String)| (p.0@, p.1@))
}

/// The value of the first header whose name matches `name` without regard to the case
/// of ASCII letters.
pub open spec fn header_lookup(hs: Seq<(Seq<char>, Seq<char>)>, name: Seq<char>) -> Option<
    Seq<char>,
>
    decreases hs.len(),
{
    if hs.len() == 0 {
        None
    } else if ascii_eq_ignore_case(utf8(name), utf8(hs[0].0)) {
        Some(hs[0].1)
    } else {
        header_lookup(hs.drop_first(), name)
    }
}

/// A parsed response head.
#[derive(Debug)]
pub struct Response {
    /// The status code.
    pub code: u16,
    /// The reason phrase.
    pub message: String,
    /// The headers whose values are text, in the order they came.
    pub headers: Vec<(String, String)>,
}

impl View for Response {
    type V = (u16, Seq<char>, Seq<(Seq<char>, Seq<char>)>);

    open spec fn view(&self) -> Self::V {
        (self.code, self.message@, text_pairs(self.headers@))
    }
}

/// The text of an optional string slice.
pub open spec fn opt_str(o: Option<&str>) -> Option<Seq<char>> {
    match o {
        Some(s) => Some(s@),
        None => None,
    }
}

impl Response {
    /// The value of the first header named `name`, with ASCII letters compared
    /// without case.
    pub fn get_header<'a>(&'a self, name: &str) -> (r: Option<&'a str>)
        ensures
            opt_str(r) == header_lookup(text_pairs(self.headers@), name@),
    {
        let ghost all = text_pairs(self.headers@);
        let mut i: usize = 0;
        assert(all.skip(0) == all);
        while i < self.headers.len()
            invariant
                i <= self.headers@.len(),
                all == text_pairs(self.headers@),
                header_lookup(all, name@) == header_lookup(all.skip(i as int), name@),
            decreases self.headers@.len() - i,
        {
            let (k, v) = &self.headers[i];
            proof {
                assert(all.skip(i as int)[0] == all[i as int]);
                assert(all.skip(i as int).drop_first() == all.skip(i + 1));
            }
            if bytes_eq_ignore_case(name.as_bytes(), k.as_str().as_bytes()) {
                return Some(v.as_str());
            }
            i = i + 1;
        }
        assert(all.skip(i as int).len() == 0);
        None
    }

    /// The `Content-Length` header read as an unsigned decimal; `None` where the
    /// header is missing or is no such number.
    pub fn content_length(&self) -> (r: Option<u64>)
        ensures
            r == match header_lookup(text_pairs(self.headers@), "Content-Length"@) {
                Some(v) => decimal_u64(utf8(v)),
                None => None,
            },
    {
        match self.get_header("Content-Length") {
            Some(v) => parse_decimal_u64(v.as_bytes()),
            None => None,
        }
    }

    /// Whether the status code is exactly 200.
    pub fn is_ok(&self) -> (r: bool)
        ensures
            r == (self.code == 200),
    {
        self.code == 200
    }
}

/// What the header tokenizer makes of a header block, given room for `max_headers`
/// headers: `None` where it rejects the block, else the status code and reason phrase
/// it found, and each header's name and raw value.
pub uninterp spec fn httparse_response(block: Seq<u8>, max_headers: nat) -> Option<
    (Option<u16>, Option<Seq<char>>, Seq<(Seq<char>, Seq<u8>)>),
>;

/// The error the header tokenizer reports; only its presence is used.
#[verifier::external_type_specification]
#[verifier::external_body]
pub struct ExHttparseError(httparse::Error);

/// A response head as the tokenizer hands it over, before any check.
#[derive(Debug)]
pub struct ResponseHead {
    /// The status code, where the status line has one.
    pub code: Option<u16>,
    /// The reason phrase, where the status line has one.
    pub reason: Option<String>,
    /// Each header's name and raw value bytes, in order.
    pub headers: Vec<(String, Vec<u8>)>,
}

/// A raw header list as pairs of a name and value bytes.
pub open spec fn raw_pairs(h: Seq<(String, Vec<u8>)>) -> Seq<(Seq<char>, Seq<u8>)> {
    h.map_values(|p: (String, Vec<u8>)| (p.0@, p.1@))
}

impl View for ResponseHead {
    type V = (Option<u16>, Option<Seq<char>>, Seq<(Seq<char>, Seq<u8>)>);

    open spec fn view(&self) -> Self::V {
        (self.code, opt_text(self.reason), raw_pairs(self.headers@))
    }
}

/// Relies on `httparse::Response::parse`, run over `max_headers` header slots, for the
/// status code, reason phrase and headers of a block; its result is read whether the
/// parse was complete or partial.
#[verifier::external_body]
fn tokenize_head(block: &[u8], max_headers: usize) -> (r: Result<ResponseHead, httparse::Error>)
    ensures
        match r {
            Ok(h) => httparse_response(block@, max_headers as nat) == Some(h@),
            Err(_) => httparse_response(block@, max_headers as nat) is None,
        },
{
    let mut slots = vec![httparse::EMPTY_HEADER; max_headers];
    let mut resp = httparse::Response::new(&mut slots);
    resp.parse(block)?;
    let headers = resp.headers.iter().map(|h| (h.name.to_string(), h.value.to_vec())).collect();
    Ok(ResponseHead { code: resp.code, reason: resp.reason.map(|m| m.to_string()), headers })
}

/// Relies on `String::from_utf8`: text exactly where the bytes are valid UTF-8, and
/// then the text they encode.
#[verifier::external_body]
fn utf8_text(bytes: &[u8]) -> (r: Option<String>)
    ensures
        match r {
            Some(s) => valid_utf8(bytes@) && s@ == decode_utf8(bytes@),
            None => !valid_utf8(bytes@),
        },
{
    String::from_utf8(bytes.to_vec()).ok()
}

/// The headers whose values are valid UTF-8, decoded, in order; the others are dropped.
pub open spec fn text_headers(raw: Seq<(Seq<char>, Seq<u8>)>) -> Seq<(Seq<char>, Seq<char>)>
    decreases raw.len(),
{
    if raw.len() == 0 {
        Seq::empty()
    } else {
        let rest = text_headers(raw.drop_last());
        if valid_utf8(raw.last().1) {
            rest.push((raw.last().0, decode_utf8(raw.last().1)))
        } else {
            rest
        }
    }
}

/// The response a tokenized head makes: it needs a status code and a reason phrase,
/// and keeps the headers whose values are text.
pub open spec fn response_parts(
    h: (Option<u16>, Option<Seq<char>>, Seq<(Seq<char>, Seq<u8>)>),
) -> Result<(u16, Seq<char>, Seq<(Seq<char>, Seq<char>)>), HttpError> {
    match h.0 {
        None => Err(HttpError::MissingStatusCode),
        Some(code) => match h.1 {
            None => Err(HttpError::MissingReasonPhrase),
            Some(message) => Ok((code, message, text_headers(h.2))),
        },
    }
}

/// Whether a result of the library holds the response or error that `parts` gives.
pub open spec fn result_matches(
    r: Result<Response, HttpError>,
    parts: Result<(u16, Seq<char>, Seq<(Seq<char>, Seq<char>)>), HttpError>,
) -> bool {
    match r {
        Ok(resp) => parts == Ok::<_, HttpError>(resp@),
        Err(e) => parts == Err::<(u16, Seq<char>, Seq<(Seq<char>, Seq<char>)>), _>(e),
    }
}

/// Builds a response from a tokenized head: fails where the status code or the reason
/// phrase is missing, and drops each header whose value is not valid UTF-8.
pub fn response_from_head(head: ResponseHead) -> (r: Result<Response, HttpError>)
    ensures
        result_matches(r, response_parts(head@)),
{
    let code = match head.code {
        Some(c) => c,
        None => {
            return Err(HttpError::MissingStatusCode);
        },
    };
    let message = match head.reason {
        Some(m) => m,
        None => {
            return Err(HttpError::MissingReasonPhrase);
        },
    };
    let ghost raw = raw_pairs(head.headers@);
    let mut headers: Vec<(String, String)> = Vec::new();
    let mut i: usize = 0;
    while i < head.headers.len()
        invariant
            i <= head.headers@.len(),
            raw == raw_pairs(head.headers@),
            text_pairs(headers@) == text_headers(raw.take(i as int)),
        decreases head.headers@.len() - i,
    {
        let (name, value) = &head.headers[i];
        proof {
            assert(raw.take(i + 1).drop_last() == raw.take(i as int));
            assert(raw.take(i + 1).last() == raw[i as int]);
        }
        match utf8_text(value.as_slice()) {
            Some(text) => {
                let ghost before = headers@;
                headers.push((name.clone(), text));
                assert(text_pairs(headers@) == text_pairs(before).push((name@, text@)));
            },
            None => {},
        }
        i = i + 1;
    }
    assert(raw.take(head.headers@.len() as int) == raw);
    Ok(Response { code, message, headers })
}

/// Reads a response head from `from`: finds the header block, tokenizes it with room
/// for one header per line, and builds the response from it.
pub fn read_response(from: &[u8]) -> (r: Result<Response, HttpError>)
    ensures
        match header_block(from@) {
            None => r == Err::<Response, HttpError>(HttpError::TruncatedStream),
            Some(block) => match httparse_response(block, count_lf(block)) {
                None => r == Err::<Response, HttpError>(HttpError::MalformedHeaderBlock),
                Some(head) => result_matches(r, response_parts(head)),
            },
        },
{
    let (block, lines) = read_until_empty_line(from)?;
    match tokenize_head(block.as_slice(), lines) {
        Ok(head) => response_from_head(head),
        Err(_) => Err(HttpError::MalformedHeaderBlock),
    }
}

} // verus!
