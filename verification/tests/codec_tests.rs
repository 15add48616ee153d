use guestbook::codec::content_length;
use guestbook::codec::headers_body_start;
use guestbook::codec::parse_request;
use guestbook::codec::parse_request_line;
use guestbook::codec::parse_status_line;
use guestbook::codec::read_response_headers;
use guestbook::codec::serialize_response;
use guestbook::codec::Method;
use guestbook::codec::ServerError;

#[test]
fn test_read_response_headers() {
    let headers = "Content-Length: 40\r\nHost:google.com\r\nKey:value\r\n\r\n".as_bytes();
    let map = read_response_headers(headers, 0);
    assert_eq!(map.len(), 3);
    assert_eq!(map.get(b"key"), Some(&b"value".to_vec()));
    assert_eq!(map.get(b"content-length"), Some(&b"40".to_vec()));
    assert_eq!(map.get(b"host"), Some(&b"google.com".to_vec()));
}

#[test]
fn header_line_without_colon_is_skipped() {
    let headers = b"no colon here\r\nGood: yes\r\n\r\n";
    let map = read_response_headers(headers, 0);
    assert_eq!(map.len(), 1);
    assert_eq!(map.get(b"good"), Some(&b"yes".to_vec()));
}

#[test]
fn duplicate_header_last_write_wins() {
    let headers = b"X: 1\r\nX: 2\r\n\r\n";
    let map = read_response_headers(headers, 0);
    assert_eq!(map.get(b"x"), Some(&b"2".to_vec()));
}

#[test]
fn request_line_splits_three_tokens() {
    let r = parse_request_line(b"GET /path HTTP/1.0\r\n").unwrap();
    assert_eq!(r.0, Method::Get);
    assert_eq!(r.1, b"/path".to_vec());
    let r = parse_request_line(b"POST / HTTP/1.1\r\n").unwrap();
    assert_eq!(r.0, Method::Post);
    assert_eq!(r.1, b"/".to_vec());
}

#[test]
fn request_line_two_tokens_is_malformed() {
    assert_eq!(
        parse_request_line(b"GET /path\r\n"),
        Err(ServerError::MalformedHeader)
    );
    assert_eq!(parse_request_line(b""), Err(ServerError::MalformedHeader));
}

#[test]
fn request_line_four_tokens_is_malformed() {
    assert_eq!(
        parse_request_line(b"GET / HTTP/1.0 extra\r\n"),
        Err(ServerError::MalformedHeader)
    );
    assert_eq!(
        parse_request_line(b"GET / HTTP/1.0 \r\n"),
        Err(ServerError::MalformedHeader)
    );
    match parse_request(b"GET / HTTP/1.0 x\r\n\r\n") {
        Err(e) => assert_eq!(e, ServerError::MalformedHeader),
        Ok(_) => panic!("four-token request line was accepted"),
    }
}

#[test]
fn request_line_version_may_end_bare() {
    let r = parse_request_line(b"GET / HTTP/1.0").unwrap();
    assert_eq!(r.0, Method::Get);
    assert_eq!(r.1, b"/".to_vec());
    let r = parse_request_line(b"GET / HTTP/1.0\n").unwrap();
    assert_eq!(r.1, b"/".to_vec());
}

#[test]
fn request_line_odd_verb_is_unsupported() {
    assert_eq!(
        parse_request_line(b"PUT /path HTTP/1.0\r\n"),
        Err(ServerError::UnsupportedMethod)
    );
}

#[test]
fn parse_request_reads_declared_body_length() {
    let raw = b"POST /add HTTP/1.0\r\nContent-Length: 5\r\n\r\nabcdefgh";
    let req = parse_request(raw).unwrap();
    assert_eq!(req.method, Method::Post);
    assert_eq!(req.url, b"/add".to_vec());
    assert_eq!(req.body, b"abcde".to_vec());
    assert_eq!(req.body.len(), content_length(&req.headers));
}

#[test]
fn parse_request_unparsable_length_means_empty_body() {
    let raw = b"POST / HTTP/1.0\r\nContent-Length: ten\r\n\r\nabc";
    let req = parse_request(raw).unwrap();
    assert_eq!(req.body, b"".to_vec());
}

#[test]
fn parse_request_truncated_body_is_unreadable() {
    let raw = b"POST / HTTP/1.0\r\nContent-Length: 50\r\n\r\nshort";
    match parse_request(raw) {
        Err(e) => assert_eq!(e, ServerError::Utf8ParseError),
        Ok(_) => panic!("truncated body was accepted"),
    }
}

#[test]
fn parse_request_body_must_be_text() {
    let mut raw = b"POST / HTTP/1.0\r\nContent-Length: 2\r\n\r\n".to_vec();
    raw.push(0xff);
    raw.push(0xfe);
    match parse_request(&raw) {
        Err(e) => assert_eq!(e, ServerError::Utf8ParseError),
        Ok(_) => panic!("invalid text body was accepted"),
    }
}

#[test]
fn body_start_is_after_blank_line() {
    let raw = b"A: 1\r\n\r\nbody";
    assert_eq!(headers_body_start(raw, 0), 8);
}

#[test]
fn serialize_then_reparse_round_trips() {
    let headers = vec![(b"Set-Cookie".to_vec(), b"token=77; SameSite=Lax".to_vec())];
    let body = b"hello";
    let out = serialize_response(b"200 OK", &headers, body);
    let text = out.clone();
    let line_end = text.iter().position(|&b| b == b'\n').unwrap() + 1;
    let status = parse_status_line(&text[..line_end]).unwrap();
    assert_eq!(status, b"200 OK".to_vec());
    let map = read_response_headers(&text, line_end);
    assert_eq!(map.get(b"content-length"), Some(&b"5".to_vec()));
    assert_eq!(
        map.get(b"set-cookie"),
        Some(&b"token=77; SameSite=Lax".to_vec())
    );
    assert_eq!(&text[text.len() - 5..], b"hello");
}

#[test]
fn serialized_shape_is_exact() {
    let headers: Vec<(Vec<u8>, Vec<u8>)> = Vec::new();
    let out = serialize_response(b"404 Not Found", &headers, b"gone");
    assert_eq!(
        out,
        b"HTTP/1.0 404 Not Found\r\nContent-Length: 4\r\n\r\ngone".to_vec()
    );
}

#[test]
fn status_line_without_prefix_is_rejected() {
    assert_eq!(parse_status_line(b"HTTP/1.1 200 OK\r\n"), None);
    assert_eq!(parse_status_line(b"junk"), None);
}
