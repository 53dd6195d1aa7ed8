use thermos::context::Context;
use thermos::http::content_type::{ApplicationType, ContentType, ParseApplicationTypeError, ParseContentTypeError, ParseTextTypeError, TextType};
use thermos::http::uri::{ParseUriError, Uri};
use thermos::string_map::StringMap;
use thermos::text::{chars_eq, parse_usize, split_chars, split_whitespace, str_eq, string_from_chars, usize_to_string};

#[test]
fn content_types() {
    assert_eq!(ApplicationType::from_str("octet-stream"), Ok(ApplicationType::OctetStream));
    assert_eq!(ApplicationType::from_str("json"), Err(ParseApplicationTypeError));
    assert_eq!(TextType::from_str("plain"), Ok(TextType::Plain));
    assert_eq!(TextType::from_str("html"), Err(ParseTextTypeError));
    assert_eq!(ContentType::from_str("text/plain"), Err(ParseContentTypeError));
    assert_eq!(ContentType::default().to_string(), "application/octet-stream");
    assert_eq!(ContentType::Text(TextType::Plain).to_string(), "text/plain");
    assert_eq!(TextType::default(), TextType::Plain);
    assert_eq!(ApplicationType::default().to_string(), "octet-stream");
}

#[test]
fn uris() {
    assert_eq!(Uri::from_str("").err(), Some(ParseUriError::SuddenEol));
    assert_eq!(Uri::from_str("http://x").err(), Some(ParseUriError::InvalidScheme));
    assert_eq!(Uri::from_str("/index").err(), Some(ParseUriError::InvalidScheme));
    assert_eq!(Uri::from_str("://").err(), Some(ParseUriError::SuddenEol));
    assert_eq!(Uri::from_str("://a").err(), Some(ParseUriError::InvalidScheme));
    assert!(!Uri::parse_terminates(":"));
    assert!(!Uri::parse_terminates("://:"));
    assert!(Uri::parse_terminates("://"));
    let u = Uri { path: "/p".to_string(), scheme: "http".to_string(), search_params: StringMap::new() };
    assert_eq!(u.authority(), Some(String::new()));
    assert_eq!(u.to_string(), "http:///p");
}

#[test]
fn context_has_no_params() {
    let c = Context::default();
    assert_eq!(c.param("id"), None);
}

#[test]
fn string_map_reads_what_was_written() {
    let mut m = StringMap::new();
    assert_eq!(m.len(), 0);
    m.insert("a".to_string(), "1".to_string());
    m.insert("b".to_string(), "2".to_string());
    m.insert("a".to_string(), "3".to_string());
    assert_eq!(m.len(), 2);
    assert_eq!(m.get("a").map(|s| s.as_str()), Some("3"));
    assert_eq!(m.get("b").map(|s| s.as_str()), Some("2"));
    assert_eq!(m.get("c"), None);
    let (k, v) = m.entry(0);
    assert_eq!((k.as_str(), v.as_str()), ("a", "3"));
    let copy = m.clone();
    m.remove("a");
    assert_eq!(m.get("a"), None);
    assert_eq!(m.len(), 1);
    assert_eq!(copy.get("a").map(|s| s.as_str()), Some("3"));
    m.remove("zz");
    assert_eq!(m.len(), 1);
}

#[test]
fn decimal_numbers() {
    assert_eq!(usize_to_string(0), "0");
    assert_eq!(usize_to_string(1234), "1234");
    assert_eq!(usize_to_string(usize::MAX), usize::MAX.to_string());
    for n in [0usize, 7, 10, 99, 100, 65535, usize::MAX] {
        assert_eq!(parse_usize(&usize_to_string(n)), Some(n));
    }
    assert_eq!(parse_usize("+12"), Some(12));
    assert_eq!(parse_usize("0012"), Some(12));
    assert_eq!(parse_usize(""), None);
    assert_eq!(parse_usize("+"), None);
    assert_eq!(parse_usize("-1"), None);
    assert_eq!(parse_usize("1_000"), None);
    assert_eq!(parse_usize(" 1"), None);
    assert_eq!(parse_usize("18446744073709551616"), "18446744073709551616".parse::<usize>().ok());
}

#[test]
fn splitting() {
    let v: Vec<char> = "/a//b".chars().collect();
    let parts: Vec<String> = split_chars(&v, '/').iter().map(|p| p.iter().collect()).collect();
    assert_eq!(parts, vec!["", "a", "", "b"]);
    let v: Vec<char> = "".chars().collect();
    assert_eq!(split_chars(&v, '/').len(), 1);
    let v: Vec<char> = " GET \t/x\u{2003}HTTP/1.1 \n".chars().collect();
    let words: Vec<String> = split_whitespace(&v).iter().map(|p| p.iter().collect()).collect();
    assert_eq!(words, vec!["GET", "/x", "HTTP/1.1"]);
    let v: Vec<char> = "a\u{1c}b".chars().collect();
    assert_eq!(split_whitespace(&v).len(), 1);
}

#[test]
fn strings() {
    assert!(str_eq("héllo", "héllo"));
    assert!(!str_eq("a", "ab"));
    assert!(chars_eq(&['x'], &['x']));
    assert_eq!(string_from_chars(&['h', 'i']), "hi");
}
