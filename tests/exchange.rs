use static_server::connection::{after_read, bad_request, respond, ReadStep, MAX_REQUEST_SIZE};
use static_server::http::{Content, Method, RequestRange, Response, Status};
use static_server::mime::{mime_type, sniff_type};
use static_server::request::Request;
use static_server::transfer::{file_content, read_limit, start_position, MAX_PARTIAL_PACKET_SIZE};

fn text(bytes: &[u8]) -> String {
    String::from_utf8(bytes.to_vec()).unwrap()
}

/// Runs the lookup of a file of the given content the way the server does.
fn serve_file(request: &Request, ext: &str, file: &[u8]) -> (Vec<u8>, bool) {
    let mime = mime_type(ext);
    let start = start_position(request.range);
    let limit = read_limit(file.len());
    let from = start.min(file.len());
    let to = (from + limit).min(file.len());
    let found = file_content(mime, file.len(), start, file[from..to].to_vec());
    respond(request, found)
}

#[test]
fn get_small_file_whole() {
    let request = Request::parse("GET /readme.txt HTTP/1.1\r\nHost: x\r\n\r\n").unwrap();
    assert_eq!(request.path, "/readme.txt");
    let (bytes, close) = serve_file(&request, "txt", b"hello");
    assert_eq!(
        text(&bytes),
        "HTTP/1.1 200 OK\r\nContent-Type: text/plain\r\nContent-Length: 5\r\n\r\nhello"
    );
    assert!(close);
}

#[test]
fn open_range_gives_last_slice() {
    let request =
        Request::parse("GET /readme.txt HTTP/1.1\r\nHost: x\r\nRange: bytes=2-\r\n\r\n").unwrap();
    assert_eq!(request.range, Some(RequestRange::From(2)));
    let (bytes, close) = serve_file(&request, "txt", b"hello");
    assert_eq!(
        text(&bytes),
        "HTTP/1.1 206 PARTIAL CONTENT\r\nContent-Type: text/plain\r\nContent-Length: 3\r\nContent-Range: bytes 2-4/5\r\n\r\nllo"
    );
    assert!(close);
}

#[test]
fn missing_file_names_path() {
    let request = Request::parse("GET /nope HTTP/1.1\r\nHost: x\r\n\r\n").unwrap();
    let (bytes, close) = respond(&request, None);
    let reply = text(&bytes);
    assert!(reply.starts_with("HTTP/1.1 404 NOT FOUND\r\n"));
    assert!(reply.ends_with("\r\n\r\n404 NOT FOUND - '/nope'"));
    assert!(reply.contains("/nope"));
    assert!(close);
}

#[test]
fn missing_host_is_bad_request() {
    assert!(Request::parse("GET /readme.txt HTTP/1.1\r\nUser-Agent: t\r\n\r\n").is_none());
    let (bytes, close) = bad_request();
    assert_eq!(text(&bytes), "HTTP/1.1 400 BAD REQUEST\r\n\r\n");
    assert!(close);
}

#[test]
fn head_has_get_headers_and_no_body() {
    let get = Request::parse("GET /a.txt HTTP/1.1\r\nHost: x\r\n\r\n").unwrap();
    let head = Request::parse("HEAD /a.txt HTTP/1.1\r\nHost: x\r\n\r\n").unwrap();
    assert_eq!(head.method, Method::Head);
    let (g, _) = serve_file(&get, "txt", b"some text");
    let (h, _) = serve_file(&head, "txt", b"some text");
    assert_eq!([h.clone(), b"some text".to_vec()].concat(), g);
    assert!(text(&h).ends_with("Content-Length: 9\r\n\r\n"));
    let (g404, _) = respond(&get, None);
    let (h404, _) = respond(&head, None);
    assert!(g404.starts_with(&h404));
    assert!(g404.len() > h404.len());
}

fn content_length(message: &[u8]) -> (usize, usize) {
    let s = String::from_utf8_lossy(message).to_string();
    let head_end = s.find("\r\n\r\n").unwrap() + 4;
    let field = s
        .lines()
        .find(|l| l.starts_with("Content-Length: "))
        .unwrap()
        .trim_start_matches("Content-Length: ")
        .parse()
        .unwrap();
    (field, message.len() - head_end)
}

#[test]
fn content_length_matches_body() {
    let request = Request::parse("GET /x HTTP/1.1\r\nHost: h\r\n\r\n").unwrap();
    for file in [&b""[..], b"a", b"0123456789abcdef", &[0xffu8, 0, 1, 2]] {
        let (bytes, _) = serve_file(&request, "bin", file);
        let (field, body) = content_length(&bytes);
        assert_eq!(field, body);
        assert_eq!(body, file.len());
    }
    let (bytes, _) = respond(&request, None);
    let (field, body) = content_length(&bytes);
    assert_eq!(field, body);
}

#[test]
fn large_file_is_delivered_in_order() {
    let size = 2 * MAX_PARTIAL_PACKET_SIZE + 5;
    let file: Vec<u8> = (0..size).map(|i| (i % 251) as u8).collect();
    let mut got: Vec<u8> = Vec::new();
    let mut offset: Option<usize> = None;
    let mut rounds = 0;
    loop {
        let source = match offset {
            None => "GET /big.mp4 HTTP/1.1\r\nHost: h\r\n\r\n".to_string(),
            Some(o) => format!("GET /big.mp4 HTTP/1.1\r\nHost: h\r\nRange: bytes={o}-\r\n\r\n"),
        };
        let request = Request::parse(&source).unwrap();
        let mime = mime_type("mp4");
        let start = start_position(request.range);
        let limit = read_limit(size);
        let to = (start + limit).min(size);
        let (content, end) =
            file_content(mime, size, start, file[start..to].to_vec()).unwrap();
        let (first, last, total) = content.range.unwrap();
        assert_eq!(first, got.len());
        assert_eq!(total, size);
        assert_eq!(last - first + 1, content.bytes.len());
        got.extend_from_slice(&content.bytes);
        rounds += 1;
        if end {
            assert_eq!(last, size - 1);
            break;
        }
        offset = Some(last + 1);
    }
    assert_eq!(rounds, 3);
    assert_eq!(got, file);
}

#[test]
fn every_read_is_capped() {
    assert_eq!(read_limit(123), 123);
    assert_eq!(read_limit(MAX_PARTIAL_PACKET_SIZE), MAX_PARTIAL_PACKET_SIZE);
    assert_eq!(read_limit(3 * MAX_PARTIAL_PACKET_SIZE), MAX_PARTIAL_PACKET_SIZE);
    let too_many = vec![0u8; MAX_PARTIAL_PACKET_SIZE + 1];
    assert!(file_content(None, MAX_PARTIAL_PACKET_SIZE + 1, 0, too_many).is_none());
}

#[test]
fn unknown_type_is_sniffed_from_the_slice() {
    let (c, end) = file_content(None, 3, 0, vec![104, 105, 10]).unwrap();
    assert_eq!(c.mime_type, "text/plain");
    assert_eq!(c.range, None);
    assert!(end);
    let (c, _) = file_content(None, 2, 0, vec![0xc3, 0xa9]).unwrap();
    assert_eq!(c.mime_type, "application/octet-stream");
    let size = MAX_PARTIAL_PACKET_SIZE + 2;
    let mut file = vec![b'a'; size];
    file[size - 1] = 0xff;
    let request = Request::parse("GET /data.bin HTTP/1.1\r\nHost: h\r\n\r\n").unwrap();
    let (first, close) = serve_file(&request, "bin", &file);
    assert!(!close);
    let (field, body) = content_length(&first);
    assert_eq!(field, body);
    assert_eq!(body, MAX_PARTIAL_PACKET_SIZE);
    let reply = String::from_utf8_lossy(&first[..200]).to_string();
    assert!(reply.starts_with("HTTP/1.1 206 PARTIAL CONTENT\r\nContent-Type: text/plain\r\n"));
    let rest = format!("GET /data.bin HTTP/1.1\r\nHost: h\r\nRange: bytes={MAX_PARTIAL_PACKET_SIZE}-\r\n\r\n");
    let request = Request::parse(&rest).unwrap();
    let (last, close) = serve_file(&request, "bin", &file);
    assert!(close);
    let expected_tail = format!("Content-Range: bytes {}-{}/{}\r\n\r\n", MAX_PARTIAL_PACKET_SIZE, size - 1, size);
    let last_text = String::from_utf8_lossy(&last).to_string();
    assert!(last_text.contains("application/octet-stream"));
    assert!(last_text.contains(&expected_tail));
}

#[test]
fn read_past_end_finds_nothing() {
    assert!(file_content(Some("text/plain"), 5, 9, vec![]).is_none());
    assert!(file_content(Some("text/plain"), 5, 3, vec![1, 2, 3]).is_none());
    let (c, end) = file_content(Some("text/plain"), 0, 0, vec![]).unwrap();
    assert!(c.bytes.is_empty());
    assert!(end);
}

#[test]
fn suffix_range_starts_at_zero() {
    // The offset that a suffix range implies is not honoured: the slice starts at zero.
    assert_eq!(start_position(Some(RequestRange::Suffix(3))), 0);
    assert_eq!(start_position(Some(RequestRange::Full(4, 9))), 4);
    assert_eq!(start_position(None), 0);
}

#[test]
fn read_steps() {
    let mut buffer = Vec::new();
    assert_eq!(after_read(&mut buffer, b"GET / HTTP/1.1\r\n"), ReadStep::Wait);
    assert_eq!(after_read(&mut buffer, b"Host: x\r\n\r\n"), ReadStep::Dispatch);
    assert_eq!(buffer.len(), 27);
    assert_eq!(after_read(&mut buffer, b""), ReadStep::Close);
    let mut plain = b"GET / HTTP/1.1\nHost: x\n".to_vec();
    assert_eq!(after_read(&mut plain, b"\n"), ReadStep::Dispatch);
    let mut big = vec![b'a'; MAX_REQUEST_SIZE];
    assert_eq!(after_read(&mut big, b"\r\n\r\n"), ReadStep::Close);
}

#[test]
fn status_lines() {
    assert_eq!(Status::Success.header(), "HTTP/1.1 200 OK");
    assert_eq!(Status::PartialContent.header(), "HTTP/1.1 206 PARTIAL CONTENT");
    assert_eq!(Status::BadRequest.code(), 400);
    assert_eq!(Status::NotFound.name(), "NOT FOUND");
}

#[test]
fn slice_forces_partial_status() {
    let content = Content { mime_type: "text/plain", range: Some((0, 1, 9)), bytes: vec![65, 66] };
    let bytes = Response::new(Status::Success).with_content(content).format(false);
    assert_eq!(
        text(&bytes),
        "HTTP/1.1 206 PARTIAL CONTENT\r\nContent-Type: text/plain\r\nContent-Length: 2\r\nContent-Range: bytes 0-1/9\r\n\r\nAB"
    );
    let html = Content::html("<p>é</p>".to_string());
    assert_eq!(html.mime_type, "text/html");
    assert_eq!(html.bytes, "<p>é</p>".as_bytes());
}

#[test]
fn mime_table_and_sniffing() {
    assert_eq!(mime_type("txt"), Some("text/plain"));
    assert_eq!(mime_type("htm"), Some("text/html"));
    assert_eq!(mime_type("jpg"), Some("image/jpeg"));
    assert_eq!(mime_type("3gp2"), Some("video/3gpp2"));
    assert_eq!(mime_type("json"), Some("application/json"));
    assert_eq!(mime_type("TXT"), None);
    assert_eq!(mime_type(""), None);
    assert_eq!(sniff_type(b"plain"), "text/plain");
    assert_eq!(sniff_type(&[0x80]), "application/octet-stream");
}
