use guest_server::HttpMethod;
use guest_server::ReadError;
use guest_server::ReadStep;
use guest_server::RequestReader;

fn read_all(chunks: &[&[u8]], close: bool) -> ReadStep {
    let mut reader = RequestReader::new();
    let mut last = ReadStep::NeedMore;
    for c in chunks {
        last = reader.feed(c);
        if !matches!(last, ReadStep::NeedMore) {
            return last;
        }
    }
    if close {
        last = reader.feed(&[]);
    }
    last
}

fn done(step: ReadStep) -> (Option<HttpMethod>, Vec<u8>, Vec<u8>) {
    match step {
        ReadStep::Done(r) => (r.method, r.path, r.body),
        ReadStep::NeedMore => panic!("reader wants more input"),
        ReadStep::Failed(e) => panic!("reader failed: {:?}", e),
    }
}

#[test]
fn whole_request_in_one_read() {
    let req = b"POST /submit HTTP/1.1\r\nHost: x\r\nContent-Length: 5\r\n\r\nhello";
    let (m, p, b) = done(read_all(&[req], false));
    assert_eq!(m, Some(HttpMethod::POST));
    assert_eq!(p, b"/submit".to_vec());
    assert_eq!(b, b"hello".to_vec());
}

#[test]
fn request_delivered_one_byte_at_a_time() {
    let req = b"POST /a HTTP/1.1\r\ncontent-length: 12\r\n\r\nhello, world";
    let chunks: Vec<&[u8]> = req.chunks(1).collect();
    let mut reader = RequestReader::new();
    let mut result = None;
    for (i, c) in chunks.iter().enumerate() {
        match reader.feed(c) {
            ReadStep::NeedMore => assert!(i + 1 < chunks.len()),
            other => {
                assert_eq!(i + 1, chunks.len());
                result = Some(other);
            }
        }
    }
    let (m, p, b) = done(result.unwrap());
    assert_eq!(m, Some(HttpMethod::POST));
    assert_eq!(p, b"/a".to_vec());
    assert_eq!(b.len(), 12);
    assert_eq!(b, b"hello, world".to_vec());
}

#[test]
fn body_is_cut_at_the_declared_length() {
    let req = b"POST /a HTTP/1.1\r\nContent-Length: 3\r\n\r\nabcdef";
    let (_, _, b) = done(read_all(&[req], false));
    assert_eq!(b, b"abc".to_vec());
}

#[test]
fn get_without_length_has_empty_body() {
    let req = b"GET /index.html HTTP/1.1\r\nAccept: */*\r\n\r\n";
    let (m, p, b) = done(read_all(&[req], false));
    assert_eq!(m, Some(HttpMethod::GET));
    assert_eq!(p, b"/index.html".to_vec());
    assert!(b.is_empty());
}

#[test]
fn early_close_before_body_is_incomplete_body() {
    let req = b"POST /a HTTP/1.1\r\nContent-Length: 10\r\n\r\nabc";
    match read_all(&[req], false) {
        ReadStep::NeedMore => {}
        _ => panic!("three of ten bytes cannot finish the body"),
    }
    match read_all(&[req], true) {
        ReadStep::Failed(e) => assert_eq!(e, ReadError::IncompleteBody),
        _ => panic!("expected IncompleteBody"),
    }
}

#[test]
fn close_before_blank_line_is_malformed() {
    let req = b"GET / HTTP/1.1\r\nHost: x\r\n";
    match read_all(&[req], true) {
        ReadStep::Failed(e) => assert_eq!(e, ReadError::MalformedRequest),
        _ => panic!("expected MalformedRequest"),
    }
    match read_all(&[], true) {
        ReadStep::Failed(e) => assert_eq!(e, ReadError::MalformedRequest),
        _ => panic!("expected MalformedRequest"),
    }
}

#[test]
fn request_line_with_one_token_is_malformed() {
    match read_all(&[b"GET\r\n\r\n"], false) {
        ReadStep::Failed(e) => assert_eq!(e, ReadError::MalformedRequest),
        _ => panic!("expected MalformedRequest"),
    }
    match read_all(&[b"\r\n"], false) {
        ReadStep::Failed(e) => assert_eq!(e, ReadError::MalformedRequest),
        _ => panic!("expected MalformedRequest"),
    }
}

#[test]
fn unknown_method_is_carried_as_absent() {
    let (m, p, _) = done(read_all(&[b"PUT /x HTTP/1.1\r\n\r\n"], false));
    assert_eq!(m, None);
    assert_eq!(p, b"/x".to_vec());
    let (m, _, _) = done(read_all(&[b"get /x HTTP/1.1\r\n\r\n"], false));
    assert_eq!(m, None);
}

#[test]
fn content_length_forms() {
    let (_, _, b) = done(read_all(&[b"POST / HTTP/1.1\r\nCONTENT-LENGTH:   2  \r\n\r\nxyz"], false));
    assert_eq!(b, b"xy".to_vec());
    let (_, _, b) = done(read_all(&[b"POST / HTTP/1.1\r\nContent-Length: +2\r\n\r\nxyz"], false));
    assert_eq!(b, b"xy".to_vec());
    let (_, _, b) = done(read_all(&[b"POST / HTTP/1.1\r\nContent-Length: abc\r\n\r\nxyz"], false));
    assert!(b.is_empty());
    let (_, _, b) = done(read_all(&[b"POST / HTTP/1.1\r\nContent-Length: -1\r\n\r\nxyz"], false));
    assert!(b.is_empty());
    let (_, _, b) = done(read_all(
        &[b"POST / HTTP/1.1\r\nContent-Length: 99999999999999999999999\r\n\r\nxyz"],
        false,
    ));
    assert!(b.is_empty());
}

#[test]
fn last_parsable_content_length_wins() {
    let req = b"POST / HTTP/1.1\r\nContent-Length: 1\r\nContent-Length: 2\r\nContent-Length: no\r\n\r\nabc";
    let (_, _, b) = done(read_all(&[req], false));
    assert_eq!(b, b"ab".to_vec());
}

#[test]
fn invalid_utf8_is_passed_through() {
    let req = b"POST /\xff\xfe HTTP/1.1\r\nContent-Length: 2\r\n\r\n\xc3\x28";
    let (m, p, b) = done(read_all(&[req], false));
    assert_eq!(m, Some(HttpMethod::POST));
    assert_eq!(p, b"/\xff\xfe".to_vec());
    assert_eq!(b, b"\xc3\x28".to_vec());
}

#[test]
fn built_content_length_reads_back_byte_by_byte() {
    let body = "\u{e9}".repeat(150);
    let r = guest_server::HttpResponse::new(200, Some(body.clone()));
    let value = r
        .headers
        .iter()
        .find(|(k, _)| k == "Content-Length")
        .map(|(_, v)| v.clone())
        .unwrap();
    assert_eq!(value, "300");
    let mut req = format!("POST /len HTTP/1.1\r\nContent-Length: {}\r\n\r\n", value).into_bytes();
    req.extend_from_slice(body.as_bytes());
    let mut reader = RequestReader::new();
    let mut result = None;
    for c in req.chunks(1) {
        match reader.feed(c) {
            ReadStep::NeedMore => {}
            other => {
                result = Some(other);
                break;
            }
        }
    }
    let (_, _, b) = done(result.unwrap());
    assert_eq!(b.len(), 300);
    assert_eq!(b, body.into_bytes());
}
