//! Properties that tie the writer and the reader together.
use vstd::prelude::*;
use vstd::utf8::{
    decode_utf8, encode_utf8, encode_utf8_decode_utf8, encode_utf8_valid_utf8, is_ascii_chars,
    is_ascii_chars_encode_utf8, valid_utf8,
};

use crate::request::{
    boring_headers, header_line, header_lines, lemma_header_lines_concat, method_name,
    request_head, request_line, request_with_body, target_text, utf8, version_text, Method,
    DIGIT_ONE, DIGIT_ZERO,
};
use crate::response::{
    count_lf, header_block, is_block_end, is_first_block_end, lemma_first_block_end_unique,
    text_headers,
};
use crate::text::{crlf, decimal, decimal_u64, lemma_decimal_reads_back, COLON, CR, LF, SP};

verus! {

/// No byte of `s` is a line feed.
pub open spec fn no_lf(s: Seq<u8>) -> bool {
    forall|i: int| 0 <= i < s.len() ==> #[trigger] s[i] != LF
}

/// No header name or value holds a line feed.
pub open spec fn lines_unbroken(headers: Seq<(Seq<u8>, Seq<u8>)>) -> bool {
    forall|i: int| 0 <= i < headers.len() ==> no_lf(#[trigger] headers[i].0) && no_lf(headers[i].1)
}

/// Line feeds of a concatenation add up.
proof fn lemma_count_lf_concat(a: Seq<u8>, b: Seq<u8>)
    ensures
        count_lf(a + b) == count_lf(a) + count_lf(b),
    decreases b.len(),
{
    if b.len() == 0 {
        assert(a + b == a);
    } else {
        assert((a + b).drop_last() == a + b.drop_last());
        lemma_count_lf_concat(a, b.drop_last());
    }
}

/// Bytes with no line feed hold no line.
proof fn lemma_count_lf_none(a: Seq<u8>)
    requires
        no_lf(a),
    ensures
        count_lf(a) == 0,
    decreases a.len(),
{
    if a.len() > 0 {
        lemma_count_lf_none(a.drop_last());
    }
}

/// The line end `\r\n` holds one line.
proof fn lemma_count_lf_crlf()
    ensures
        count_lf(crlf()) == 1,
{
    assert(crlf().drop_last() == seq![CR]);
    assert(seq![CR].drop_last() == Seq::<u8>::empty());
    assert(count_lf(Seq::<u8>::empty()) == 0);
    assert(count_lf(seq![CR]) == 0);
}

/// A method's name is ASCII letters, so its bytes hold no line feed.
proof fn lemma_method_no_lf(m: Method)
    ensures
        no_lf(utf8(method_name(m))),
        utf8(method_name(m)).len() == method_name(m).len(),
{
    let s = method_name(m);
    assert(is_ascii_chars(s));
    is_ascii_chars_encode_utf8(s);
    assert forall|i: int| 0 <= i < s.len() implies #[trigger] encode_utf8(s)[i] != LF by {
        assert(s[i] as u8 == encode_utf8(s)[i]);
    }
}

/// A line of a non-empty, line-feed-free text ended by CRLF, placed at `p` in `d`, ends
/// no header block where none ended up to `p`.
proof fn lemma_line_ends_no_block(d: Seq<u8>, p: int, text: Seq<u8>)
    requires
        0 <= p,
        p + text.len() + 2 <= d.len(),
        text.len() >= 1,
        no_lf(text),
        d.subrange(p, p + text.len() + 2) == text + crlf(),
        forall|j: int| 0 <= j <= p ==> !#[trigger] is_block_end(d, j),
    ensures
        forall|j: int| 0 <= j <= p + text.len() + 2 ==> !#[trigger] is_block_end(d, j),
{
    let n = text.len() as int;
    assert forall|j: int| 0 <= j <= p + n + 2 implies !#[trigger] is_block_end(d, j) by {
        if p < j <= p + n {
            assert(d[j - 1] == d.subrange(p, p + n + 2)[j - 1 - p]);
            assert(d[j - 1] == text[j - 1 - p]);
        } else if j == p + n + 1 {
            assert(d[j - 1] == d.subrange(p, p + n + 2)[n]);
        } else if j == p + n + 2 {
            assert(d[j - 2] == d.subrange(p, p + n + 2)[n]);
            assert(d[j - 3] == d.subrange(p, p + n + 2)[n - 1]);
            assert(d[j - 3] == text[n - 1]);
        }
    }
}

/// The request line and the first `m` header lines, read from the start of `d`, end
/// no header block and hold `m + 1` lines.
proof fn lemma_head_prefix(
    d: Seq<u8>,
    method: Method,
    target: Seq<char>,
    http_one_one: bool,
    headers: Seq<(Seq<u8>, Seq<u8>)>,
    m: int,
)
    requires
        0 <= m <= headers.len(),
        no_lf(utf8(target)),
        lines_unbroken(headers),
        d.len() >= request_line(method, target, http_one_one).len() + header_lines(headers.take(m)).len(),
        d.take(request_line(method, target, http_one_one).len() + header_lines(headers.take(m)).len() as int)
            == request_line(method, target, http_one_one) + header_lines(headers.take(m)),
    ensures
        ({
            let pre = request_line(method, target, http_one_one) + header_lines(headers.take(m));
            &&& forall|j: int| 0 <= j <= pre.len() ==> !#[trigger] is_block_end(d, j)
            &&& count_lf(pre) == m + 1
            &&& pre.last() == LF
        }),
    decreases m,
{
    let line = request_line(method, target, http_one_one);
    let pre = line + header_lines(headers.take(m));
    if m == 0 {
        assert(headers.take(0).len() == 0);
        assert(pre == line);
        let digit = if http_one_one { DIGIT_ONE } else { DIGIT_ZERO };
        let text = utf8(method_name(method)) + seq![SP] + utf8(target) + version_text() + seq![digit];
        assert(line == text + crlf());
        lemma_method_no_lf(method);
        assert(no_lf(text)) by {
            assert forall|i: int| 0 <= i < text.len() implies #[trigger] text[i] != LF by {
                let a = utf8(method_name(method)).len() as int;
                let b = a + 1 + utf8(target).len();
                if i < a {
                    assert(text[i] == utf8(method_name(method))[i]);
                } else if i == a {
                } else if i < b {
                    assert(text[i] == utf8(target)[i - a - 1]);
                } else if i < b + 8 {
                    assert(text[i] == version_text()[i - b]);
                }
            }
        }
        assert(d.subrange(0, (text.len() + 2) as int) == text + crlf());
        lemma_line_ends_no_block(d, 0, text);
        lemma_count_lf_concat(text, crlf());
        lemma_count_lf_none(text);
        assert(crlf().drop_last().drop_last().len() == 0);
        lemma_count_lf_crlf();
    } else {
        let h = headers[m - 1];
        let earlier = line + header_lines(headers.take(m - 1));
        assert(headers.take(m).drop_last() == headers.take(m - 1));
        assert(headers.take(m).last() == h);
        let text = h.0 + seq![COLON, SP] + h.1;
        assert(header_line(h.0, h.1) == text + crlf());
        assert(pre == earlier + (text + crlf()));
        assert(d.take(earlier.len() as int) == earlier) by {
            assert(d.take(earlier.len() as int) == d.take(pre.len() as int).take(earlier.len() as int));
        }
        assert(d.len() >= earlier.len());
        lemma_head_prefix(d, method, target, http_one_one, headers, m - 1);
        assert(no_lf(text)) by {
            assert forall|i: int| 0 <= i < text.len() implies #[trigger] text[i] != LF by {
                let a = h.0.len() as int;
                if i < a {
                    assert(text[i] == h.0[i]);
                } else if i < a + 2 {
                } else {
                    assert(text[i] == h.1[i - a - 2]);
                }
            }
        }
        assert(d.subrange(earlier.len() as int, (earlier.len() + text.len() + 2) as int) == text + crlf()) by {
            assert(d.subrange(earlier.len() as int, (earlier.len() + text.len() + 2) as int) == d.take(
                pre.len() as int,
            ).subrange(earlier.len() as int, pre.len() as int));
        }
        lemma_line_ends_no_block(d, earlier.len() as int, text);
        lemma_count_lf_concat(earlier, text + crlf());
        lemma_count_lf_concat(text, crlf());
        lemma_count_lf_none(text);
        lemma_count_lf_crlf();
    }
}

/// A request head whose target, header names and header values hold no line feed,
/// followed by anything at all, reads back as exactly that head: the header block ends
/// at its blank line, and it holds one line per header plus the request line and the
/// blank line.
pub proof fn lemma_written_head_reads_back(
    method: Method,
    target: Seq<char>,
    http_one_one: bool,
    headers: Seq<(Seq<u8>, Seq<u8>)>,
    rest: Seq<u8>,
)
    requires
        no_lf(utf8(target)),
        lines_unbroken(headers),
    ensures
        header_block(request_head(method, target, http_one_one, headers) + rest) == Some(
            request_head(method, target, http_one_one, headers),
        ),
        count_lf(request_head(method, target, http_one_one, headers)) == headers.len() + 2,
{
    let head = request_head(method, target, http_one_one, headers);
    let d = head + rest;
    let n = headers.len() as int;
    let pre = request_line(method, target, http_one_one) + header_lines(headers.take(n));
    assert(headers.take(n) == headers);
    assert(head == pre + crlf());
    assert(d.take(pre.len() as int) == pre);
    lemma_head_prefix(d, method, target, http_one_one, headers, n);
    let k: int = pre.len() as int + 2;
    assert(d[k - 1] == LF);
    assert(d[k - 2] == CR);
    assert(d[k - 3] == pre.last());
    assert(is_block_end(d, k));
    assert forall|j: int| 0 <= j < k implies !#[trigger] is_block_end(d, j) by {
        if j == k - 1 {
            assert(d[j - 1] == CR);
        }
    }
    assert(is_first_block_end(d, k));
    lemma_first_block_end_unique(d, k);
    assert(d.take(k) == head);
    lemma_count_lf_concat(pre, crlf());
    lemma_count_lf_crlf();
}

/// Headers whose values were written as UTF-8 keep every pair, in order, when the
/// values are decoded as text again.
pub proof fn lemma_text_headers_of_utf8(hs: Seq<(Seq<char>, Seq<char>)>)
    ensures
        text_headers(hs.map_values(|p: (Seq<char>, Seq<char>)| (p.0, utf8(p.1)))) == hs,
    decreases hs.len(),
{
    let raw = hs.map_values(|p: (Seq<char>, Seq<char>)| (p.0, utf8(p.1)));
    if hs.len() > 0 {
        lemma_text_headers_of_utf8(hs.drop_last());
        assert(raw.drop_last() == hs.drop_last().map_values(
            |p: (Seq<char>, Seq<char>)| (p.0, utf8(p.1)),
        ));
        encode_utf8_valid_utf8(hs.last().1);
        encode_utf8_decode_utf8(hs.last().1);
        assert(hs.drop_last().push(hs.last()) == hs);
    }
}

/// A request with a body to a domain host is its request line, the caller's header
/// lines, a `Content-Length` line whose value reads back as the body's length, a `Host`
/// line with the domain, the blank line, and then the body bytes unchanged.
pub proof fn lemma_body_after_boring_head(
    method: Method,
    u: (Seq<char>, Option<Seq<char>>, Option<Seq<char>>),
    headers: Seq<(Seq<u8>, Seq<u8>)>,
    body: Seq<u8>,
)
    requires
        u.2 is Some,
        0 < body.len() <= u64::MAX,
    ensures
        request_with_body(method, u, headers, body) == request_line(method, target_text(u), true)
            + header_lines(headers) + header_line(utf8("Content-Length"@), decimal(body.len()))
            + header_line(utf8("Host"@), utf8(u.2->Some_0)) + crlf() + body,
        decimal_u64(decimal(body.len())) == Some(body.len() as u64),
        request_with_body(method, u, headers, body).skip(
            request_with_body(method, u, headers, body).len() - body.len(),
        ) == body,
{
    let extra = boring_headers(u, body.len());
    lemma_header_lines_concat(headers, extra);
    assert(extra.drop_last() == seq![extra[0]]);
    assert(seq![extra[0]].drop_last() == Seq::<(Seq<u8>, Seq<u8>)>::empty());
    assert(header_lines(Seq::<(Seq<u8>, Seq<u8>)>::empty()) == Seq::<u8>::empty());
    assert(header_lines(seq![extra[0]]) =~= header_line(extra[0].0, extra[0].1));
    lemma_decimal_reads_back(body.len());
    let out = request_with_body(method, u, headers, body);
    let head = request_head(method, target_text(u), true, headers + extra);
    assert(out == head + body);
    assert(out.skip(head.len() as int) == body);
}

} // verus!
