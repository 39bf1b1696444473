use http_framing::{
    write_body_for_url, write_body_plus_boring_headers, write_raw, HttpError, Method, TargetUrl,
};

fn pairs(list: &[(&str, &str)]) -> Vec<(String, String)> {
    list.iter().map(|(k, v)| (k.to_string(), v.to_string())).collect()
}

#[test]
fn write_ergonomics() {
    let mut v = Vec::new();
    write_raw(&mut v, Method::GET, "/test", true, &pairs(&[("Host", "fau.xxx"), ("X-Foo", "Bar")]));
    assert_eq!(
        String::from_utf8(v).unwrap(),
        "GET /test HTTP/1.1\r\nHost: fau.xxx\r\nX-Foo: Bar\r\n\r\n"
    )
}

#[test]
fn write_raw_http_one_zero_without_headers() {
    let mut v = b"prefix:".to_vec();
    write_raw(&mut v, Method::DELETE, "*", false, &[]);
    assert_eq!(v, b"prefix:DELETE * HTTP/1.0\r\n\r\n".to_vec());
}

#[test]
fn write_raw_passes_text_through() {
    let mut v = Vec::new();
    write_raw(&mut v, Method::PATCH, "/caf\u{e9}", true, &pairs(&[("A", ""), ("A", "\u{263a}")]));
    assert_eq!(
        String::from_utf8(v).unwrap(),
        "PATCH /caf\u{e9} HTTP/1.1\r\nA: \r\nA: \u{263a}\r\n\r\n"
    );
}

#[test]
fn method_names() {
    let all = [
        (Method::GET, "GET"),
        (Method::POST, "POST"),
        (Method::HEAD, "HEAD"),
        (Method::PUT, "PUT"),
        (Method::DELETE, "DELETE"),
        (Method::OPTIONS, "OPTIONS"),
        (Method::PATCH, "PATCH"),
        (Method::CONNECT, "CONNECT"),
        (Method::TRACE, "TRACE"),
    ];
    for (m, name) in all.iter() {
        assert_eq!(m.as_str(), *name);
    }
    assert!(Method::GET < Method::TRACE);
}

#[test]
fn body_with_domain_host() {
    let mut v = Vec::new();
    let r = write_body_plus_boring_headers(
        &mut v,
        Method::POST,
        "http://example.com/a/b",
        &pairs(&[("X-Foo", "Bar")]),
        b"hello",
    );
    assert_eq!(r, Ok(()));
    assert_eq!(
        String::from_utf8(v).unwrap(),
        "POST /a/b HTTP/1.1\r\nX-Foo: Bar\r\nContent-Length: 5\r\nHost: example.com\r\n\r\nhello"
    );
}

#[test]
fn body_with_ip_host_has_no_host_header() {
    let mut v = Vec::new();
    let r = write_body_plus_boring_headers(&mut v, Method::PUT, "http://127.0.0.1:8080/x", &[], b"");
    assert_eq!(r, Ok(()));
    assert_eq!(String::from_utf8(v).unwrap(), "PUT /x HTTP/1.1\r\nContent-Length: 0\r\n\r\n");
    let mut w = Vec::new();
    let r = write_body_plus_boring_headers(&mut w, Method::GET, "http://[::1]/", &[], b"ab");
    assert_eq!(r, Ok(()));
    assert_eq!(w, b"GET / HTTP/1.1\r\nContent-Length: 2\r\n\r\nab".to_vec());
}

#[test]
fn body_length_of_a_large_body() {
    let body = vec![7u8; 1234];
    let mut v = Vec::new();
    write_body_plus_boring_headers(&mut v, Method::POST, "https://h.example/", &[], &body).unwrap();
    let head = b"POST / HTTP/1.1\r\nContent-Length: 1234\r\nHost: h.example\r\n\r\n".to_vec();
    assert_eq!(&v[..head.len()], &head[..]);
    assert_eq!(&v[head.len()..], &body[..]);
}

#[test]
fn bad_url_is_rejected_and_nothing_written() {
    let mut v = b"x".to_vec();
    let r = write_body_plus_boring_headers(&mut v, Method::GET, "not a url", &[], b"body");
    assert_eq!(r, Err(HttpError::UrlParse));
    assert_eq!(v, b"x".to_vec());
    assert!(matches!(TargetUrl::parse("http://exa mple.com/"), Err(HttpError::UrlParse)));
}

#[test]
fn target_with_query() {
    let u = TargetUrl::parse("http://example.com/search?q=1&r=2#frag").unwrap();
    assert_eq!(u.request_target(), "/search?q=1&r=2");
    assert_eq!(u.path, "/search");
    assert_eq!(u.query, Some("q=1&r=2".to_string()));
    assert_eq!(u.domain, Some("example.com".to_string()));
    let plain = TargetUrl::parse("http://example.com").unwrap();
    assert_eq!(plain.request_target(), "/");
    let mut v = Vec::new();
    write_body_for_url(&mut v, Method::GET, &u, &[], b"");
    assert_eq!(
        String::from_utf8(v).unwrap(),
        "GET /search?q=1&r=2 HTTP/1.1\r\nContent-Length: 0\r\nHost: example.com\r\n\r\n"
    );
}

#[test]
fn target_url_built_by_hand() {
    let u = TargetUrl { path: "/p".to_string(), query: Some(String::new()), domain: None };
    assert_eq!(u.request_target(), "/p?");
    let mut v = Vec::new();
    write_body_for_url(&mut v, Method::OPTIONS, &u, &pairs(&[("K", "V")]), b"zz");
    assert_eq!(String::from_utf8(v).unwrap(), "OPTIONS /p? HTTP/1.1\r\nK: V\r\nContent-Length: 2\r\n\r\nzz");
}
