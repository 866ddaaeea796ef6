use static_server::http::{Method, RequestRange};
use static_server::request::Request;

#[test]
fn request_fields() {
    let r = Request::parse(
        "HEAD /a%20b/%C3%A9.txt HTTP/1.0\r\nhOsT: Example.org\r\nUser-Agent: Tester/1.0\r\nX-Real-IP: 10.0.0.1\r\nX-Other: y\r\n\r\n",
    )
    .unwrap();
    assert_eq!(r.method, Method::Head);
    assert_eq!(r.path, "/a b/é.txt");
    assert_eq!(r.host, "Example.org");
    assert_eq!(r.user_agent, "Tester/1.0");
    assert_eq!(r.real_ip.as_deref(), Some("10.0.0.1"));
    assert_eq!(r.range, None);
}

#[test]
fn defaults_without_optional_headers() {
    let r = Request::parse("GET / HTTP/1.1\nHost: x\n\n").unwrap();
    assert_eq!(r.method, Method::Get);
    assert_eq!(r.path, "/");
    assert_eq!(r.user_agent, "");
    assert_eq!(r.real_ip, None);
}

#[test]
fn headers_stop_at_blank_line() {
    let r = Request::parse("GET / HTTP/1.1\r\nHost: a\r\n\r\nHost: b\r\n").unwrap();
    assert_eq!(r.host, "a");
    let later = Request::parse("GET / HTTP/1.1\r\nHost: a\r\nHost: b\r\n").unwrap();
    assert_eq!(later.host, "b");
}

#[test]
fn malformed_requests() {
    assert!(Request::parse("").is_none());
    assert!(Request::parse("POST / HTTP/1.1\r\nHost: x\r\n\r\n").is_none());
    assert!(Request::parse("get / HTTP/1.1\r\nHost: x\r\n\r\n").is_none());
    assert!(Request::parse("GET / HTTP/2\r\nHost: x\r\n\r\n").is_none());
    assert!(Request::parse("GET /\r\nHost: x\r\n\r\n").is_none());
    assert!(Request::parse("GET / HTTP/1.1\r\nHost x\r\n\r\n").is_none());
    assert!(Request::parse("GET / HTTP/1.1\r\nHost:x\r\n\r\n").is_none());
}

#[test]
fn bad_escapes() {
    assert!(Request::parse("GET /%zz HTTP/1.1\r\nHost: x\r\n\r\n").is_none());
    assert!(Request::parse("GET /%4 HTTP/1.1\r\nHost: x\r\n\r\n").is_none());
    assert!(Request::parse("GET /% HTTP/1.1\r\nHost: x\r\n\r\n").is_none());
    assert!(Request::parse("GET /%+F HTTP/1.1\r\nHost: x\r\n\r\n").is_none());
    assert!(Request::parse("GET /%ff HTTP/1.1\r\nHost: x\r\n\r\n").is_none());
    let dots = Request::parse("GET /%2e%2E/secret HTTP/1.1\r\nHost: x\r\n\r\n").unwrap();
    assert_eq!(dots.path, "/../secret");
}

#[test]
fn range_header_forms() {
    assert_eq!(RequestRange::parse("bytes=2-"), Some(RequestRange::From(2)));
    assert_eq!(RequestRange::parse("bytes=-5"), Some(RequestRange::Suffix(5)));
    assert_eq!(RequestRange::parse("bytes=1-3"), Some(RequestRange::Full(1, 3)));
    assert_eq!(RequestRange::parse("bytes=+7-"), Some(RequestRange::From(7)));
    assert_eq!(RequestRange::parse("bytes=-"), None);
    assert_eq!(RequestRange::parse("bytes=a-"), None);
    assert_eq!(RequestRange::parse("bytes=1-b"), None);
    assert_eq!(RequestRange::parse("bytes=5"), None);
    assert_eq!(RequestRange::parse("items=1-2"), None);
    assert_eq!(RequestRange::parse("bytes=99999999999999999999999-"), None);
}

#[test]
fn unusable_range_is_ignored() {
    let r = Request::parse("GET / HTTP/1.1\r\nRange: bytes=x-\r\nHost: x\r\n\r\n").unwrap();
    assert_eq!(r.range, None);
    let r = Request::parse("GET / HTTP/1.1\r\nRANGE: bytes=0-9\r\nHost: x\r\n\r\n").unwrap();
    assert_eq!(r.range, Some(RequestRange::Full(0, 9)));
}

#[test]
fn method_names() {
    assert_eq!(Method::parse("GET"), Some(Method::Get));
    assert_eq!(Method::parse("HEAD"), Some(Method::Head));
    assert_eq!(Method::parse("PUT"), None);
    assert_eq!(Method::Head.as_str(), "HEAD");
}
