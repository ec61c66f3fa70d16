use std::io::Write;
use aurora::fetch::{file_target_path, resolve_relative_url, FetchError, ParsedUrl, Scheme};
use aurora::http::{
    build_request, decode_chunked_body, find_crlf, find_header_end, header_value, is_redirect,
    next_step, strip_header_separator, FetchStep, HttpResponse,
};

#[test]
fn parses_http_urls() {
    let parsed = ParsedUrl::parse("http://example.com:8080/cats?name=loaf").unwrap();
    assert_eq!(parsed.scheme, Scheme::Http);
    assert_eq!(parsed.host, "example.com");
    assert_eq!(parsed.port, 8080);
    assert_eq!(parsed.path_and_query, "/cats?name=loaf");
}

#[test]
fn parses_https_urls() {
    let parsed = ParsedUrl::parse("https://example.com/cats").unwrap();
    assert_eq!(parsed.scheme, Scheme::Https);
    assert_eq!(parsed.host, "example.com");
    assert_eq!(parsed.port, 443);
    assert_eq!(parsed.path_and_query, "/cats");
}

#[test]
fn rejects_non_http_urls() {
    match ParsedUrl::parse("ftp://example.com") {
        Err(FetchError::UnsupportedScheme(scheme)) => assert_eq!(scheme, "ftp"),
        other => panic!("unexpected parse result: {other:?}"),
    }
}

#[test]
fn decodes_chunked_responses() {
    let body = b"4\r\nWiki\r\n5\r\npedia\r\n0\r\n\r\n";
    let decoded = decode_chunked_body(body).unwrap();
    assert_eq!(decoded, b"Wikipedia");
}

#[test]
fn parses_http_response_body() {
    let response = HttpResponse::parse(
        b"HTTP/1.1 200 OK\r\nContent-Length: 31\r\nContent-Type: text/html\r\n\r\n<html><body>cats</body></html>",
    )
    .unwrap();

    assert_eq!(response.status_code, 200);
    assert_eq!(
        String::from_utf8_lossy(&response.body),
        "<html><body>cats</body></html>"
    );
}

#[test]
fn resolves_redirect_targets() {
    let base = "https://example.com/cats/start";

    assert_eq!(
        resolve_relative_url(base, "/photos").unwrap(),
        "https://example.com/photos"
    );
    assert_eq!(
        resolve_relative_url(base, "loaf").unwrap(),
        "https://example.com/cats/loaf"
    );
    assert_eq!(
        resolve_relative_url(base, "//cdn.example.com/cat.jpg").unwrap(),
        "https://cdn.example.com/cat.jpg"
    );
    assert_eq!(
        resolve_relative_url(base, "http://other.test/zoom").unwrap(),
        "http://other.test/zoom"
    );
}

#[test]
fn resolves_relative_file_paths() {
    let base = "file:///tmp/aurora/fixtures/google-homepage/index.html";

    assert_eq!(
        resolve_relative_url(base, "styles.css").unwrap(),
        "file:///tmp/aurora/fixtures/google-homepage/styles.css"
    );
}

#[test]
fn parses_chunked_http_response_body() {
    let response = HttpResponse::parse(
        b"HTTP/1.1 200 OK\r\nTransfer-Encoding: chunked\r\n\r\n11\r\n<html>cats</html>\r\n0\r\n\r\n",
    )
    .unwrap();

    assert_eq!(String::from_utf8_lossy(&response.body), "<html>cats</html>");
}

#[test]
fn url_errors_and_ports() {
    match ParsedUrl::parse("https://") {
        Err(FetchError::InvalidUrl(u)) => assert_eq!(u, "https://"),
        other => panic!("unexpected: {other:?}"),
    }
    match ParsedUrl::parse("http://:80/") {
        Err(FetchError::InvalidUrl(u)) => assert_eq!(u, "http://:80/"),
        other => panic!("unexpected: {other:?}"),
    }
    match ParsedUrl::parse("http://host:99999/") {
        Err(FetchError::InvalidUrl(_)) => {}
        other => panic!("unexpected: {other:?}"),
    }
    match ParsedUrl::parse("http://bad host:81/x") {
        Err(FetchError::InvalidUrl(u)) => assert_eq!(u, "bad host:81/x"),
        other => panic!("unexpected: {other:?}"),
    }
    match ParsedUrl::parse("mailto:someone") {
        Err(FetchError::UnsupportedScheme(s)) => assert_eq!(s, "mailto:someone"),
        other => panic!("unexpected: {other:?}"),
    }
    let u = ParsedUrl::parse("http://example.com").unwrap();
    assert_eq!(u.path_and_query, "/");
    assert_eq!(u.authority(), "example.com");
    assert_eq!(u.socket_addr(), "example.com:80");
    assert_eq!(u.scheme_prefix(), "http://");
    let u = ParsedUrl::parse("https://example.com:8443/a").unwrap();
    assert_eq!(u.authority(), "example.com:8443");
    assert_eq!(u.scheme_prefix(), "https://");
}

#[test]
fn resolves_against_directories_and_roots() {
    assert_eq!(
        resolve_relative_url("http://h.test", "x.css").unwrap(),
        "http://h.test/x.css"
    );
    assert_eq!(
        resolve_relative_url("http://h.test:81/a/b?q=1", "c").unwrap(),
        "http://h.test:81/a/c"
    );
    assert_eq!(
        resolve_relative_url("https://a.test/", "////cdn.test/x").unwrap(),
        "https://cdn.test/x"
    );
    assert!(matches!(
        resolve_relative_url("gopher://x", "y"),
        Err(FetchError::UnsupportedScheme(_))
    ));
    assert_eq!(
        resolve_relative_url("file:///tmp/x.html", "file:///etc/y.css").unwrap(),
        "file:///etc/y.css"
    );
    assert_eq!(
        resolve_relative_url("file:///srv/site/a/index.html", "../b/./c.css").unwrap(),
        "file:///srv/site/b/c.css"
    );
    assert_eq!(
        resolve_relative_url("file:///srv/site/index.html", "/abs/./x/../y.css").unwrap(),
        "file:///abs/y.css"
    );
}

#[test]
fn file_targets_follow_path_components() {
    assert_eq!(file_target_path("/a/b/index.html", "c.css", false), "/a/b/c.css");
    assert_eq!(file_target_path("/a/b", "c.css", true), "/a/b/c.css");
    assert_eq!(file_target_path("/", "c.css", false), "/c.css");
    assert_eq!(file_target_path("/a/b/.", "c.css", false), "/a/c.css");
    assert_eq!(file_target_path("/a", "../../../c", false), "/c");
    assert_eq!(file_target_path("x/y.html", "z", false), "x/z");
    assert_eq!(file_target_path("y.html", "../z", false), "z");
}

#[test]
fn frames_and_reads_responses() {
    assert_eq!(find_header_end(b"a\r\n\r\nb"), Some(1));
    assert_eq!(find_header_end(b"a\n\nb"), Some(1));
    assert_eq!(find_header_end(b"abc"), None);
    assert_eq!(strip_header_separator(b"\r\n\r\nxy"), b"xy".to_vec());
    assert_eq!(strip_header_separator(b"\n\nxy"), b"xy".to_vec());
    assert_eq!(strip_header_separator(b"xy"), b"xy".to_vec());
    assert_eq!(find_crlf(b"ab\r\ncd", 0), Some(2));
    assert_eq!(find_crlf(b"ab\r\ncd", 3), None);

    let r = HttpResponse::parse(b"HTTP/1.1 404 Not Found  \r\nX-A:  1 \r\nbad line\r\n\r\nrest").unwrap();
    assert_eq!(r.status_code, 404);
    assert_eq!(r.reason_phrase, "Not Found");
    assert_eq!(r.headers, vec![("x-a".to_string(), "1".to_string())]);
    assert_eq!(r.body, b"rest".to_vec());
    assert_eq!(r.header("X-A"), Some("1"));
    assert_eq!(header_value(&r.headers, "missing"), None);

    let r = HttpResponse::parse(b"HTTP/1.1 200 OK\r\nContent-Length: 2\r\n\r\nabcdef").unwrap();
    assert_eq!(r.body, b"ab".to_vec());
    let r = HttpResponse::parse(b"HTTP/1.1 200\r\nContent-Length: x\r\n\r\nabc").unwrap();
    assert_eq!(r.body, b"abc".to_vec());
    assert_eq!(r.reason_phrase, "");

    for (input, message) in [
        (&b"no terminator"[..], "missing header terminator"),
        (&b"\r\n\r\nbody"[..], "missing status line"),
        (&b"HTTP/1.1\r\n\r\n"[..], "missing status code"),
        (&b"HTTP/1.1 abc OK\r\n\r\n"[..], "invalid status code"),
        (&b"HTTP/1.1 200 OK\r\nTransfer-Encoding: chunked\r\n\r\n5\r\nab"[..], "truncated chunk body"),
    ] {
        match HttpResponse::parse(input) {
            Err(FetchError::InvalidResponse(m)) => assert_eq!(m, message),
            other => panic!("unexpected: {other:?}"),
        }
    }
}

#[test]
fn chunked_body_errors() {
    let cases: [(&[u8], &str); 4] = [
        (b"4\r\nWik", "truncated chunk body"),
        (b"zz\r\n", "invalid chunk size"),
        (b"4", "unterminated chunk size"),
        (b"2\r\nabXY0\r\n\r\n", "missing chunk terminator"),
    ];
    for (input, message) in cases {
        match decode_chunked_body(input) {
            Err(FetchError::InvalidResponse(m)) => assert_eq!(m, message),
            other => panic!("unexpected: {other:?}"),
        }
    }
    assert_eq!(decode_chunked_body(b"3;ext=1\r\nabc\r\n0\r\n").unwrap(), b"abc".to_vec());
    match decode_chunked_body(b"4\r\nWiki") {
        Err(FetchError::InvalidResponse(m)) => assert_eq!(m, "missing chunk terminator"),
        other => panic!("unexpected: {other:?}"),
    }
    match decode_chunked_body(&[0xff, 0xfe, b'\r', b'\n']) {
        Err(FetchError::InvalidResponse(m)) => assert_eq!(m, "non-utf8 chunk size"),
        other => panic!("unexpected: {other:?}"),
    }
}

#[test]
fn decides_next_fetch_step() {
    assert!(is_redirect(301) && is_redirect(308) && !is_redirect(200) && !is_redirect(304));
    let redirect = HttpResponse::parse(b"HTTP/1.1 302 Found\r\nLocation: /next\r\n\r\n").unwrap();
    match next_step("https://a.test/x/y", redirect, 5) {
        FetchStep::Follow(url) => assert_eq!(url, "https://a.test/next"),
        other => panic!("unexpected: {other:?}"),
    }
    let redirect = HttpResponse::parse(b"HTTP/1.1 302 Found\r\nLocation: /next\r\n\r\n").unwrap();
    match next_step("https://a.test/x/y", redirect, 0) {
        FetchStep::Fail(FetchError::InvalidResponse(m)) => assert_eq!(m, "too many redirects"),
        other => panic!("unexpected: {other:?}"),
    }
    let redirect = HttpResponse::parse(b"HTTP/1.1 301 Moved\r\n\r\n").unwrap();
    match next_step("https://a.test/", redirect, 3) {
        FetchStep::Fail(FetchError::InvalidResponse(m)) => assert_eq!(m, "missing location header"),
        other => panic!("unexpected: {other:?}"),
    }
    let missing = HttpResponse::parse(b"HTTP/1.1 404 Not Found\r\n\r\n").unwrap();
    match next_step("https://a.test/", missing, 3) {
        FetchStep::Fail(FetchError::InvalidResponse(m)) => assert_eq!(m, "HTTP 404"),
        other => panic!("unexpected: {other:?}"),
    }
    let ok = HttpResponse::parse(b"HTTP/1.1 200 OK\r\n\r\nhello").unwrap();
    match next_step("https://a.test/", ok, 3) {
        FetchStep::Done(body) => assert_eq!(body, b"hello".to_vec()),
        other => panic!("unexpected: {other:?}"),
    }
    let gz = HttpResponse::parse(b"HTTP/1.1 200 OK\r\nContent-Encoding: GZIP\r\n\r\nnot gzip").unwrap();
    match next_step("https://a.test/", gz, 3) {
        FetchStep::Done(body) => assert_eq!(body, b"not gzip".to_vec()),
        other => panic!("unexpected: {other:?}"),
    }
}

#[test]
fn decompresses_gzip_bodies() {
    let mut enc = flate2::write::GzEncoder::new(Vec::new(), flate2::Compression::default());
    enc.write_all(b"squeezed cats").unwrap();
    let packed = enc.finish().unwrap();
    let mut raw = b"HTTP/1.1 200 OK\r\nContent-Encoding: gzip\r\n\r\n".to_vec();
    raw.extend_from_slice(&packed);
    let resp = HttpResponse::parse(&raw).unwrap();
    match next_step("http://a.test/", resp, 1) {
        FetchStep::Done(body) => assert_eq!(body, b"squeezed cats".to_vec()),
        other => panic!("unexpected: {other:?}"),
    }
}

#[test]
fn builds_requests() {
    let u = ParsedUrl::parse("http://example.com:8080/cats?x=1").unwrap();
    let req = build_request(&u);
    assert!(req.starts_with("GET /cats?x=1 HTTP/1.1\r\nHost: example.com:8080\r\nUser-Agent: "));
    assert!(req.ends_with("Connection: close\r\n\r\n"));
}

#[test]
fn reprinted_urls_read_back_the_same() {
    for u in [
        "http://example.com",
        "https://example.com:443/a/b?x=1",
        "http://localhost:8080/inbox",
        "https://h:80/",
        "http://h:0080/p",
    ] {
        let p = ParsedUrl::parse(u).unwrap();
        let text = format!("{}{}{}", p.scheme_prefix(), p.authority(), p.path_and_query);
        assert_eq!(ParsedUrl::parse(&text).unwrap(), p);
    }
    assert_eq!(
        ParsedUrl::parse("http://h:0080/p").unwrap().authority(),
        "h"
    );
}
