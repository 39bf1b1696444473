use http_framing::{
    header_block_step, read_response, read_until_empty_line, response_from_head, write_raw,
    HttpError, LineStep, Method, Response, ResponseHead,
};

fn response(code: u16, headers: &[(&str, &str)]) -> Response {
    Response {
        code,
        message: "M".to_string(),
        headers: headers.iter().map(|(k, v)| (k.to_string(), v.to_string())).collect(),
    }
}

#[test]
fn reads_ok_response() {
    let data = b"HTTP/1.1 200 OK\r\nContent-Length: 5\r\n\r\nhello";
    let r = read_response(data).unwrap();
    assert_eq!(r.code, 200);
    assert_eq!(r.message, "OK");
    assert_eq!(r.content_length(), Some(5));
    assert!(r.is_ok());
    assert_eq!(r.headers, vec![("Content-Length".to_string(), "5".to_string())]);
}

#[test]
fn redirect_is_not_ok() {
    let r = read_response(b"HTTP/1.1 301 Moved Permanently\r\nLocation: /x\r\n\r\n").unwrap();
    assert_eq!(r.code, 301);
    assert_eq!(r.message, "Moved Permanently");
    assert!(!r.is_ok());
    assert!(!response(204, &[]).is_ok());
    assert!(response(200, &[]).is_ok());
}

#[test]
fn header_lookup_ignores_case() {
    let r = response(200, &[("Content-Length", "12"), ("content-length", "13"), ("X", "y")]);
    assert_eq!(r.get_header("content-length"), Some("12"));
    assert_eq!(r.get_header("CONTENT-LENGTH"), Some("12"));
    assert_eq!(r.get_header("x"), Some("y"));
    assert_eq!(r.get_header("Content-Lengt"), None);
    assert_eq!(r.content_length(), Some(12));
}

#[test]
fn content_length_values() {
    assert_eq!(response(200, &[]).content_length(), None);
    assert_eq!(response(200, &[("Content-Length", "+7")]).content_length(), Some(7));
    assert_eq!(response(200, &[("Content-Length", "")]).content_length(), None);
    assert_eq!(response(200, &[("Content-Length", "+")]).content_length(), None);
    assert_eq!(response(200, &[("Content-Length", "-1")]).content_length(), None);
    assert_eq!(response(200, &[("Content-Length", " 1")]).content_length(), None);
    assert_eq!(response(200, &[("Content-Length", "12a")]).content_length(), None);
    assert_eq!(
        response(200, &[("Content-Length", "18446744073709551615")]).content_length(),
        Some(u64::MAX)
    );
    assert_eq!(response(200, &[("Content-Length", "18446744073709551616")]).content_length(), None);
    assert_eq!(response(200, &[("Content-Length", "007")]).content_length(), Some(7));
}

#[test]
fn header_block_stops_after_blank_line() {
    let (block, lines) = read_until_empty_line(b"A: 1\r\nB: 2\r\n\r\nbody\r\n\r\n").unwrap();
    assert_eq!(block, b"A: 1\r\nB: 2\r\n\r\n".to_vec());
    assert_eq!(lines, 3);
}

#[test]
fn header_block_with_bare_line_feeds() {
    let (block, lines) = read_until_empty_line(b"HTTP/1.1 200 OK\nA: 1\n\nrest").unwrap();
    assert_eq!(block, b"HTTP/1.1 200 OK\nA: 1\n\n".to_vec());
    assert_eq!(lines, 3);
}

#[test]
fn truncated_streams() {
    assert_eq!(read_until_empty_line(b""), Err(HttpError::TruncatedStream));
    assert_eq!(read_until_empty_line(b"A: 1\r\nB"), Err(HttpError::TruncatedStream));
    assert_eq!(read_until_empty_line(b"A: 1\r\n"), Err(HttpError::TruncatedStream));
    assert!(matches!(read_response(b"HTTP/1.1 200 OK\r\n"), Err(HttpError::TruncatedStream)));
}

#[test]
fn line_steps() {
    assert_eq!(header_block_step(b"A\r\n", 0), LineStep::Truncated);
    assert_eq!(header_block_step(b"A\r", 2), LineStep::Truncated);
    assert_eq!(header_block_step(b"A\r\n", 3), LineStep::Continue);
    assert_eq!(header_block_step(b"A\r\n\r\n", 2), LineStep::BlockEnd);
    assert_eq!(header_block_step(b"A\n\n", 1), LineStep::BlockEnd);
    assert_eq!(header_block_step(b"\r\n", 2), LineStep::Continue);
}

#[test]
fn malformed_block_is_rejected() {
    assert!(matches!(read_response(b"garbage\r\n\r\n"), Err(HttpError::MalformedHeaderBlock)));
    assert!(matches!(
        read_response(b"HTTP/1.1 200 OK\r\nBad Name: x\r\n\r\n"),
        Err(HttpError::MalformedHeaderBlock)
    ));
}

#[test]
fn missing_reason_reads_as_empty() {
    let r = read_response(b"HTTP/1.1 204\r\n\r\n").unwrap();
    assert_eq!(r.code, 204);
    assert_eq!(r.message, "");
}

#[test]
fn head_checks() {
    let no_code = ResponseHead { code: None, reason: Some("OK".to_string()), headers: vec![] };
    assert!(matches!(response_from_head(no_code), Err(HttpError::MissingStatusCode)));
    let no_reason = ResponseHead { code: Some(200), reason: None, headers: vec![] };
    assert!(matches!(response_from_head(no_reason), Err(HttpError::MissingReasonPhrase)));
    let mixed = ResponseHead {
        code: Some(404),
        reason: Some("Not Found".to_string()),
        headers: vec![
            ("A".to_string(), b"x".to_vec()),
            ("B".to_string(), vec![0xff, 0xfe]),
            ("C".to_string(), "\u{e9}".as_bytes().to_vec()),
        ],
    };
    let r = response_from_head(mixed).unwrap();
    assert_eq!(r.code, 404);
    assert_eq!(r.message, "Not Found");
    assert_eq!(
        r.headers,
        vec![("A".to_string(), "x".to_string()), ("C".to_string(), "\u{e9}".to_string())]
    );
}

#[test]
fn non_text_header_value_is_dropped() {
    let r = read_response(b"HTTP/1.1 200 OK\r\nA: \xff\r\nB: 2\r\n\r\n").unwrap();
    assert_eq!(r.headers, vec![("B".to_string(), "2".to_string())]);
}

#[test]
fn written_headers_read_back() {
    let headers = vec![
        ("Host".to_string(), "fau.xxx".to_string()),
        ("X-Foo".to_string(), "Bar".to_string()),
        ("X-Foo".to_string(), "Baz qux".to_string()),
    ];
    let mut head = Vec::new();
    write_raw(&mut head, Method::GET, "/test", true, &headers);
    let mut stream = head.clone();
    stream.extend_from_slice(b"trailing body");
    let (block, lines) = read_until_empty_line(&stream).unwrap();
    assert_eq!(block, head);
    assert_eq!(lines, headers.len() + 2);
    let first_line_end = head.iter().position(|b| *b == b'\n').unwrap() + 1;
    let mut as_response = b"HTTP/1.1 200 OK\r\n".to_vec();
    as_response.extend_from_slice(&head[first_line_end..]);
    let r = read_response(&as_response).unwrap();
    assert_eq!(r.headers, headers);
}
