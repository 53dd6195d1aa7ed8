use thermos::http::content_type::{ApplicationType, ContentType, TextType};
use thermos::{Response, Status};

#[test]
fn response_bytes_of_a_status() {
    let r = Response::with_status(Status::NotFound);
    assert_eq!(r.bytes().unwrap(), b"HTTP/1.1 404 Not Found\r\nServer: Thermos\r\n\r\n".to_vec());
    assert_eq!(r.content_type, ContentType::Application(ApplicationType::OctetStream));
}

#[test]
fn response_bytes_of_a_text() {
    let r = Response::with_text("héllo");
    assert_eq!(r.body, "héllo".as_bytes().to_vec());
    assert_eq!(r.content_type, ContentType::Text(TextType::Plain));
    assert_eq!(r.bytes().unwrap(), "HTTP/1.1 200 OK\r\nServer: Thermos\r\n\r\nhéllo".as_bytes().to_vec());
    assert_eq!(r.to_string().unwrap(), "HTTP/1.1 200 OK\r\nServer: Thermos\r\n\r\nhéllo");
}

#[test]
fn response_header_names_are_formatted() {
    let mut r = Response::default();
    r.headers.insert("x-CUSTOM-thing".to_string(), "V".to_string());
    r.headers.insert("SERVER".to_string(), "other".to_string());
    assert_eq!(
        r.to_string().unwrap(),
        "HTTP/1.1 200 OK\r\nServer: Thermos\r\nX-custom-thing: V\r\nServer: other\r\n\r\n"
    );
}

#[test]
fn response_body_not_utf8() {
    let mut r = Response::with_status(Status::Unimplemented(299));
    r.body = vec![0xff];
    let bytes = r.bytes().unwrap();
    assert_eq!(bytes, b"HTTP/1.1 299 Unimplemented\r\nServer: Thermos\r\n\r\n\xff".to_vec());
    assert!(r.to_string().is_none());
}

#[test]
fn response_from_file_contents() {
    let r = Response::with_file_contents("plain", vec![1, 2]);
    assert_eq!(r.content_type, ContentType::Text(TextType::Plain));
    assert_eq!(r.body, vec![1, 2]);
    let r = Response::with_file_contents("html", vec![]);
    assert_eq!(r.content_type, ContentType::Text(TextType::Plain));
    assert_eq!(r.status, Status::OK);
}

