use httpclient::error::Error;
use httpclient::response::{Response, ResponseReader};

#[test]
fn parses_status_headers_and_body() {
    let raw = b"HTTP/1.1 206 Partial Content\r\nContent-Length: 3\r\nX-A: one\r\nx-a: two\r\n\r\nabc";
    let r = Response::parse(raw).unwrap();
    assert_eq!(r.version, "HTTP/1.1");
    assert_eq!(r.status_code, 206);
    assert_eq!(r.status_name, "Partial Content");
    assert_eq!(r.headers.len(), 3);
    assert_eq!(r.header("content-length").map(|v| v.as_str()), Some(" 3"));
    assert_eq!(r.header("X-A").map(|v| v.as_str()), Some(" one"));
    assert_eq!(r.body, Some(b"abc".to_vec()));
}

#[test]
fn body_is_absent_when_empty() {
    let r = Response::parse(b"HTTP/1.1 200 OK\r\n\r\n").unwrap();
    assert_eq!(r.body, None);
    assert!(r.headers.is_empty());
}

#[test]
fn body_bytes_are_kept_verbatim() {
    let r = Response::parse(b"HTTP/1.0 200 OK\n\nline1\nline2\r\n").unwrap();
    assert_eq!(r.version, "HTTP/1.0");
    assert_eq!(r.body, Some(b"line1\nline2\r\n".to_vec()));
}

#[test]
fn status_line_missing_a_field() {
    assert!(matches!(Response::parse(b"HTTP/1.1 200\r\n\r\n"), Err(Error::HeaderParsingError)));
    assert!(matches!(Response::parse(b"HTTP/1.1\r\n\r\n"), Err(Error::HeaderParsingError)));
    assert!(matches!(Response::parse(b"HTTP/1.1 abc OK\r\n\r\n"), Err(Error::HeaderParsingError)));
}

#[test]
fn header_without_colon() {
    assert!(matches!(
        Response::parse(b"HTTP/1.1 200 OK\r\nBroken\r\n\r\n"),
        Err(Error::HeaderParsingError)
    ));
}

#[test]
fn invalid_utf8_in_head() {
    assert!(matches!(
        Response::parse(b"HTTP/1.1 200 \xff\r\n\r\n"),
        Err(Error::Utf8ParsingError)
    ));
    assert!(matches!(
        Response::parse(b"HTTP/1.1 200 OK\r\nA: \xfe\r\n\r\n"),
        Err(Error::Utf8ParsingError)
    ));
}

#[test]
fn stream_ending_inside_the_head() {
    assert!(matches!(Response::parse(b""), Err(Error::HeaderParsingError)));
    assert!(matches!(
        Response::parse(b"HTTP/1.1 200 OK\r\nA: b\r\n"),
        Err(Error::HeaderParsingError)
    ));
}

#[test]
fn reader_reports_when_headers_are_done() {
    let mut reader = ResponseReader::new();
    reader.feed_all(b"HTTP/1.1 302 Found\r\nLocation: https://b.org/\r\n").unwrap();
    assert!(!reader.headers_done());
    reader.feed(b'\r').unwrap();
    reader.feed(b'\n').unwrap();
    assert!(reader.headers_done());
    let r = reader.finish().unwrap();
    assert_eq!(r.status_code, 302);
    assert_eq!(r.status_name, "Found");
    assert_eq!(r.header("location").map(|v| v.as_str()), Some(" https://b.org/"));
}

#[test]
fn status_line_with_empty_version() {
    let r = Response::parse(b" 200 OK\r\n\r\n").unwrap();
    assert_eq!(r.version, "");
    assert_eq!(r.status_code, 200);
    assert_eq!(r.status_name, "OK");
}

#[test]
fn first_header_of_each_exact_name_is_kept() {
    let raw = b"HTTP/1.1 200 OK\r\nContent-Length: 5\r\ncontent-length: 7\r\nContent-Length: 9\r\n\r\n";
    let r = Response::parse(raw).unwrap();
    assert_eq!(
        r.headers,
        vec![
            ("Content-Length".to_string(), " 5".to_string()),
            ("content-length".to_string(), " 7".to_string()),
        ]
    );
    assert_eq!(r.header("CONTENT-LENGTH").map(|v| v.as_str()), Some(" 5"));
}
