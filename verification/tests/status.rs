use thermos::{ParseStatusError, Status};

#[test]
fn test_code() {
    assert_eq!(Status::OK.code(), 200);
}

#[test]
fn test_is_ok() {
    assert!(!Status::Continue.is_ok());
    assert!(Status::OK.is_ok());
    assert!(Status::Created.is_ok());
    assert!(!Status::MultipleChoices.is_ok());
    assert!(!Status::MovedPermanently.is_ok());
}

#[test]
fn status_test_from_string() {
    assert_eq!(Status::from_str("200"), Ok(Status::OK));
}

#[test]
fn status_from_str_edges() {
    assert_eq!(Status::from_str("+404"), Ok(Status::NotFound));
    assert_eq!(Status::from_str("007"), Ok(Status::Unimplemented(7)));
    assert_eq!(Status::from_str("-1"), Err(ParseStatusError));
    assert_eq!(Status::from_str(""), Err(ParseStatusError));
    assert_eq!(Status::from_str("+"), Err(ParseStatusError));
    assert_eq!(Status::from_str("20 0"), Err(ParseStatusError));
    assert_eq!(Status::from_str("99999999999999999999999"), Err(ParseStatusError));
}

#[test]
fn status_code_conversions() {
    assert_eq!(Status::from(404usize), Status::NotFound);
    assert_eq!(Status::from(999usize), Status::Unimplemented(999));
    assert_eq!(usize::from(Status::Created), 201);
    let code: usize = Status::InternalServerError.into();
    assert_eq!(code, 500);
    for code in [0usize, 100, 101, 102, 103, 200, 201, 300, 301, 400, 404, 500, 418] {
        assert_eq!(Status::from_code(code).code(), code);
    }
    // An unimplemented status that carries a named code does not come back.
    assert_eq!(Status::from_code(Status::Unimplemented(200).code()), Status::OK);
}

#[test]
fn status_text() {
    assert_eq!(Status::NotFound.to_string(), "404 Not Found");
    assert_eq!(Status::OK.to_string(), "200 OK");
    assert_eq!(Status::Unimplemented(299).to_string(), "299 Unimplemented");
    assert!(Status::Unimplemented(299).is_ok());
    assert!(!Status::Unimplemented(300).is_ok());
}

#[test]
fn statuses_are_ordered() {
    assert!(Status::Unimplemented(999) < Status::Continue);
    assert!(Status::Continue < Status::OK);
    assert!(Status::NotFound < Status::InternalServerError);
    assert!(Status::Unimplemented(1) < Status::Unimplemented(2));
}
