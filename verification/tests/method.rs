use thermos::{Method, ParseMethodError};

#[test]
fn method_test_from_string() {
    assert_eq!(Method::from_str("GET"), Ok(Method::GET));
    assert_eq!(Method::from_str("POST"), Ok(Method::POST));
    assert_eq!(Method::from_str("Invalid"), Err(ParseMethodError));
}

#[test]
fn method_names_are_case_sensitive() {
    assert_eq!(Method::from_str("get"), Err(ParseMethodError));
    assert_eq!(Method::from_str("GET "), Err(ParseMethodError));
    assert_eq!(Method::from_str(""), Err(ParseMethodError));
}

#[test]
fn method_name_roundtrip() {
    for m in [Method::GET, Method::POST] {
        let name = m.to_string();
        assert_eq!(Method::from_str(&name), Ok(m));
    }
    assert_eq!(Method::POST.to_string(), "POST");
}
