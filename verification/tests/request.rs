use thermos::http::request::{clean_header, read_headers, read_line, HeadersRead};
use thermos::{ReadStep, Request, RequestReadError};

/// Feeds `bytes` one at a time, as a server reads a stream, and returns
/// the decision, or `None` where reading would run forever.
fn read_all(bytes: &[u8]) -> Option<Result<Request, RequestReadError>> {
    let mut received = Vec::new();
    for b in bytes {
        match Request::try_from_stream(&received, false)? {
            ReadStep::Done(r) => return Some(r),
            ReadStep::NeedByte => received.push(*b),
        }
    }
    match Request::try_from_stream(&received, false)? {
        ReadStep::Done(r) => return Some(r),
        ReadStep::NeedByte => {}
    }
    match Request::try_from_stream(&received, true)? {
        ReadStep::Done(r) => Some(r),
        ReadStep::NeedByte => panic!("a decision at the end of the stream"),
    }
}

#[test]
fn request_needs_bytes_until_the_first_line_ends() {
    assert!(matches!(Request::from_stream(b"", false), ReadStep::NeedByte));
    assert!(matches!(Request::from_stream(b"GET / HTTP/1.1", false), ReadStep::NeedByte));
    assert!(matches!(Request::from_stream(b"GET / HTTP/1.1\r", false), ReadStep::NeedByte));
}

#[test]
fn request_target_is_never_accepted() {
    // The target reader accepts no character of a scheme, so a request
    // line with an ordinary path stops at the target.
    match read_all(b"GET / HTTP/1.1\r\nHost: x\r\n\r\n") {
        Some(Err(RequestReadError::InvalidUri(u))) => assert_eq!(u, "/"),
        other => panic!("unexpected: {:?}", other),
    }
    match read_all(b"POST http://example.com/a HTTP/1.1\r\n\r\n") {
        Some(Err(RequestReadError::InvalidUri(u))) => assert_eq!(u, "http://example.com/a"),
        other => panic!("unexpected: {:?}", other),
    }
    match read_all(b"GET :// HTTP/1.1\r\n") {
        Some(Err(RequestReadError::InvalidUri(u))) => assert_eq!(u, "://"),
        other => panic!("unexpected: {:?}", other),
    }
}

#[test]
fn request_target_that_never_ends() {
    assert!(read_all(b"GET :x HTTP/1.1\r\n\r\n").is_none());
    assert!(read_all(b"GET ://: HTTP/1.1\r\n\r\n").is_none());
    assert!(Request::try_from_stream(b"GET : HTTP/1.1\r\n", false).is_none());
}

#[test]
fn request_line_errors() {
    match read_all(b"") {
        Some(Err(RequestReadError::MalformedRequest(l))) => assert_eq!(l, ""),
        other => panic!("unexpected: {:?}", other),
    }
    match read_all(b"   \t \r\n") {
        Some(Err(RequestReadError::MalformedRequest(l))) => assert_eq!(l, "   \t "),
        other => panic!("unexpected: {:?}", other),
    }
    match read_all(b"FETCH / HTTP/1.1\r\n") {
        Some(Err(RequestReadError::InvalidMethod(m))) => assert_eq!(m, "FETCH"),
        other => panic!("unexpected: {:?}", other),
    }
    match read_all(b"GET\r\n") {
        Some(Err(RequestReadError::MalformedRequest(l))) => assert_eq!(l, "GET"),
        other => panic!("unexpected: {:?}", other),
    }
    // Non-ASCII whitespace separates words too.
    match read_all("GET\u{a0}/x\r\n".as_bytes()) {
        Some(Err(RequestReadError::InvalidUri(u))) => assert_eq!(u, "/x"),
        other => panic!("unexpected: {:?}", other),
    }
    // A stream that ends without CR LF ends the line; a final CR is dropped.
    match read_all(b"GET\r") {
        Some(Err(RequestReadError::MalformedRequest(l))) => assert_eq!(l, "GET"),
        other => panic!("unexpected: {:?}", other),
    }
}

#[test]
fn request_line_not_utf8() {
    match read_all(b"GET \xff HTTP/1.1\r\n") {
        Some(Err(RequestReadError::IoError(e))) => assert_eq!(e.kind(), std::io::ErrorKind::InvalidData),
        other => panic!("unexpected: {:?}", other),
    }
}

#[test]
fn request_decision_is_settled_once_made() {
    let first = Request::from_stream(b"BREW / HTTP/1.1\r\n", false);
    let later = Request::from_stream(b"BREW / HTTP/1.1\r\nmore bytes", true);
    match (first, later) {
        (ReadStep::Done(Err(RequestReadError::InvalidMethod(a))), ReadStep::Done(Err(RequestReadError::InvalidMethod(b)))) => {
            assert_eq!(a, b);
        }
        _ => panic!("both decisions name the method"),
    }
}

#[test]
fn io_errors_convert() {
    let e: RequestReadError = std::io::Error::new(std::io::ErrorKind::Other, "x").into();
    assert!(matches!(e, RequestReadError::IoError(_)));
}

#[test]
fn lines_end_at_cr_lf() {
    assert_eq!(read_line(b"ab\r\ncd", 0, false), Some((2, 4)));
    assert_eq!(read_line(b"ab\r\ncd", 4, false), None);
    assert_eq!(read_line(b"ab\r\ncd", 4, true), Some((6, 6)));
    assert_eq!(read_line(b"a\r\r\n", 0, false), Some((2, 4)));
    assert_eq!(read_line(b"a\rb", 0, true), Some((3, 3)));
    assert_eq!(read_line(b"ab\r", 0, true), Some((2, 3)));
    assert_eq!(read_line(b"ab\r", 0, false), None);
    assert_eq!(read_line(b"a\nb\r\n", 0, false), Some((3, 5)));
}

#[test]
fn header_names_are_cleaned() {
    assert_eq!(clean_header("content-LENGTH"), "Content-Length");
    assert_eq!(clean_header("x-forwarded-for"), "X-Forwarded-For");
    assert_eq!(clean_header("1abc"), "1Abc");
    assert_eq!(clean_header("--a"), "--A");
    assert_eq!(clean_header(""), "");
    assert_eq!(clean_header("étÉ-x"), "étÉ-X");
}

#[test]
fn header_lines_are_read() {
    let bytes = b"Host: a\r\ncontent-length: 3\r\nhost:b\r\n\r\nabc";
    match read_headers(bytes, 0, false) {
        HeadersRead::Ended(h, pos) => {
            assert_eq!(pos, 38);
            assert_eq!(h.len(), 2);
            // The character after the colon is skipped, space or not.
            assert_eq!(h.get("Host").map(|s| s.as_str()), Some(""));
            assert_eq!(h.get("Content-Length").map(|s| s.as_str()), Some("3"));
            let (k, v) = h.entry(0);
            assert_eq!((k.as_str(), v.as_str()), ("Host", ""));
        }
        _ => panic!("headers end at the empty line"),
    }
    assert!(matches!(read_headers(b"Host: a\r\n", 0, false), HeadersRead::More));
    match read_headers(b"no colon\r\n\r\n", 0, false) {
        HeadersRead::Failed(RequestReadError::MalformedHeader(l)) => assert_eq!(l, "no colon"),
        _ => panic!("a header line needs a colon"),
    }
    match read_headers(b"a:\r\n\r\n", 0, false) {
        HeadersRead::Ended(h, _) => assert_eq!(h.get("A").map(|s| s.as_str()), Some("")),
        _ => panic!("an empty value is a value"),
    }
    assert!(matches!(read_headers(b"", 0, true), HeadersRead::Ended(_, 0)));
}

#[test]
fn clean_header_twice_is_clean_header_once() {
    for name in ["content-LENGTH", "x-FORWARDED-for", "1abc", "--a", "Ünï-cöde", "a1-b2", ""] {
        let once = clean_header(name);
        assert_eq!(clean_header(&once), once);
    }
}

#[test]
fn clean_header_ignores_the_case_of_its_input() {
    for name in ["CONTENT-TYPE", "X-Forwarded-For", "aBc-DeF", "Ünï-CÖDE", "-X-"] {
        assert_eq!(clean_header(&name.to_ascii_lowercase()), clean_header(name));
    }
    assert_eq!(clean_header("CONTENT-TYPE"), "Content-Type");
}
