//! Response status codes.
use vstd::prelude::*;

use crate::text::{decimal, parse_usize, spec_parse_usize, usize_to_string};

verus! {

/// A response status. Codes without a variant of their own are carried by
/// `Unimplemented`. Statuses are ordered as their variants are listed.
#[derive(Clone, Debug, Eq, Hash, Ord, PartialEq, PartialOrd, Structural)]
pub enum Status {
    // Any other code
    Unimplemented(usize),
    // Informational (1xx)
    Continue,
    SwitchingProtocols,
    Processing,
    EarlyHints,
    // Success (2xx)
    OK,
    Created,
    // Redirection (3xx)
    MultipleChoices,
    MovedPermanently,
    // Client errors (4xx)
    BadRequest,
    NotFound,
    // Server errors (5xx)
    InternalServerError,
}

/// The text is not a status code.
#[derive(Debug, PartialEq, Eq, Structural)]
pub struct ParseStatusError;

/// The numeric code of a status.
pub open spec fn status_code(s: Status) -> usize {
    match s {
        Status::Continue => 100,
        Status::SwitchingProtocols => 101,
        Status::Processing => 102,
        Status::EarlyHints => 103,
        Status::OK => 200,
        Status::Created => 201,
        Status::MultipleChoices => 300,
        Status::MovedPermanently => 301,
        Status::BadRequest => 400,
        Status::NotFound => 404,
        Status::InternalServerError => 500,
        Status::Unimplemented(code) => code,
    }
}

/// The status for a numeric code: the named variant where there is one.
pub open spec fn status_from_code(code: usize) -> Status {
    match code {
        100 => Status::Continue,
        101 => Status::SwitchingProtocols,
        102 => Status::Processing,
        103 => Status::EarlyHints,
        200 => Status::OK,
        201 => Status::Created,
        300 => Status::MultipleChoices,
        301 => Status::MovedPermanently,
        400 => Status::BadRequest,
        404 => Status::NotFound,
        500 => Status::InternalServerError,
        _ => Status::Unimplemented(code),
    }
}

/// Whether `code` has a variant of its own.
pub open spec fn is_named_code(code: usize) -> bool {
    status_from_code(code) != Status::Unimplemented(code)
}

/// The reason phrase written after the code.
pub open spec fn reason_phrase(s: Status) -> Seq<char> {
    match s {
        Status::BadRequest => "Bad Request"@,
        Status::Continue => "Continue"@,
        Status::Created => "Created"@,
        Status::EarlyHints => "Early Hints"@,
        Status::InternalServerError => "Internal Server Error"@,
        Status::MovedPermanently => "Moved Permanently"@,
        Status::MultipleChoices => "Multiple Choices"@,
        Status::NotFound => "Not Found"@,
        Status::OK => "OK"@,
        Status::Processing => "Processing"@,
        Status::SwitchingProtocols => "Switching Protocols"@,
        Status::Unimplemented(_) => "Unimplemented"@,
    }
}

/// How a status is written in a status line: the code in decimal, a space,
/// and the reason phrase.
pub open spec fn status_text(s: Status) -> Seq<char> {
    decimal(status_code(s) as nat) + seq![' '] + reason_phrase(s)
}

impl Status {
    /// The numeric code.
    pub fn code(&self) -> (r: usize)
        ensures
            r == status_code(*self),
    {
        match self {
            Status::Continue => 100,
            Status::SwitchingProtocols => 101,
            Status::Processing => 102,
            Status::EarlyHints => 103,
            Status::OK => 200,
            Status::Created => 201,
            Status::MultipleChoices => 300,
            Status::MovedPermanently => 301,
            Status::BadRequest => 400,
            Status::NotFound => 404,
            Status::InternalServerError => 500,
            Status::Unimplemented(code) => *code,
        }
    }

    /// Whether the status is a success: its code is in 200..300.
    pub fn is_ok(&self) -> (r: bool)
        ensures
            r == (200 <= status_code(*self) && status_code(*self) < 300),
    {
        let code = self.code();
        code >= 200 && code < 300
    }

    /// The status for a numeric code.
    pub fn from_code(code: usize) -> (r: Status)
        ensures
            r == status_from_code(code),
    {
        match code {
            100 => Status::Continue,
            101 => Status::SwitchingProtocols,
            102 => Status::Processing,
            103 => Status::EarlyHints,
            200 => Status::OK,
            201 => Status::Created,
            300 => Status::MultipleChoices,
            301 => Status::MovedPermanently,
            400 => Status::BadRequest,
            404 => Status::NotFound,
            500 => Status::InternalServerError,
            code => Status::Unimplemented(code),
        }
    }

    /// Reads a status from a decimal code, as `usize::from_str` reads it.
    pub fn from_str(s: &str) -> (r: Result<Status, ParseStatusError>)
        ensures
            r == match spec_parse_usize(s@) {
                Some(code) => Ok(status_from_code(code)),
                None => Err(ParseStatusError),
            },
    {
        match parse_usize(s) {
            Some(code) => Ok(Status::from_code(code)),
            None => Err(ParseStatusError),
        }
    }

    /// The status as a status line writes it, such as `404 Not Found`.
    pub fn to_string(&self) -> (r: String)
        ensures
            r@ == status_text(*self),
    {
        let mut s = usize_to_string(self.code());
        let reason = match self {
            Status::BadRequest => "Bad Request",
            Status::Continue => "Continue",
            Status::Created => "Created",
            Status::EarlyHints => "Early Hints",
            Status::InternalServerError => "Internal Server Error",
            Status::MovedPermanently => "Moved Permanently",
            Status::MultipleChoices => "Multiple Choices",
            Status::NotFound => "Not Found",
            Status::OK => "OK",
            Status::Processing => "Processing",
            Status::SwitchingProtocols => "Switching Protocols",
            _ => "Unimplemented",
        };
        assert(reason@ == reason_phrase(*self));
        proof {
            reveal_strlit(" ");
        }
        s.append(" ");
        assert(" "@ =~= seq![' ']);
        s.append(reason);
        s
    }
}

impl From<usize> for Status {
    fn from(value: usize) -> (r: Self) {
        Status::from_code(value)
    }
}

impl vstd::std_specs::convert::FromSpecImpl<usize> for Status {
    open spec fn obeys_from_spec() -> bool {
        true
    }

    open spec fn from_spec(v: usize) -> Status {
        status_from_code(v)
    }
}

impl From<Status> for usize {
    fn from(value: Status) -> (r: Self) {
        value.code()
    }
}

impl vstd::std_specs::convert::FromSpecImpl<Status> for usize {
    open spec fn obeys_from_spec() -> bool {
        true
    }

    open spec fn from_spec(v: Status) -> usize {
        status_code(v)
    }
}

/// Turning a code into a status and back gives the code; turning a status
/// into its code and back gives the status, except for an `Unimplemented`
/// status that carries a code with a variant of its own.
pub proof fn lemma_status_code_roundtrip(code: usize, s: Status)
    ensures
        status_code(status_from_code(code)) == code,
        !(s matches Status::Unimplemented(c) && is_named_code(c)) ==> status_from_code(
            status_code(s),
        ) == s,
{
}

/// Reading the decimal code of a status gives the status back, up to the
/// same exception.
pub proof fn lemma_status_parse_code(s: Status)
    ensures
        spec_parse_usize(decimal(status_code(s) as nat)) == Some(status_code(s)),
        !(s matches Status::Unimplemented(c) && is_named_code(c)) ==> status_from_code(
            status_code(s),
        ) == s,
{
    crate::text::lemma_parse_decimal(status_code(s));
}

/// The reason phrase that the HTTP status code registry (RFC 9110) gives
/// a code, for the codes of that registry; `None` for other codes.
pub open spec fn registered_reason(code: usize) -> Option<Seq<char>> {
    match code {
        100 => Some("Continue"@),
        101 => Some("Switching Protocols"@),
        102 => Some("Processing"@),
        103 => Some("Early Hints"@),
        200 => Some("OK"@),
        201 => Some("Created"@),
        202 => Some("Accepted"@),
        203 => Some("Non-Authoritative Information"@),
        204 => Some("No Content"@),
        300 => Some("Multiple Choices"@),
        301 => Some("Moved Permanently"@),
        302 => Some("Found"@),
        303 => Some("See Other"@),
        304 => Some("Not Modified"@),
        307 => Some("Temporary Redirect"@),
        308 => Some("Permanent Redirect"@),
        400 => Some("Bad Request"@),
        401 => Some("Unauthorized"@),
        403 => Some("Forbidden"@),
        404 => Some("Not Found"@),
        405 => Some("Method Not Allowed"@),
        500 => Some("Internal Server Error"@),
        501 => Some("Not Implemented"@),
        502 => Some("Bad Gateway"@),
        503 => Some("Service Unavailable"@),
        _ => None,
    }
}

/// Each named status has its standard code.
pub proof fn lemma_standard_codes()
    ensures
        status_code(Status::Continue) == 100,
        status_code(Status::SwitchingProtocols) == 101,
        status_code(Status::Processing) == 102,
        status_code(Status::EarlyHints) == 103,
        status_code(Status::OK) == 200,
        status_code(Status::Created) == 201,
        status_code(Status::MultipleChoices) == 300,
        status_code(Status::MovedPermanently) == 301,
        status_code(Status::BadRequest) == 400,
        status_code(Status::NotFound) == 404,
        status_code(Status::InternalServerError) == 500,
        forall|c: usize| #[trigger] status_code(Status::Unimplemented(c)) == c,
{
}

/// Every named status is written with the phrase that the registry gives
/// its code; only an `Unimplemented` status is written `Unimplemented`.
pub proof fn lemma_reason_phrases(s: Status)
    ensures
        !(s is Unimplemented) ==> registered_reason(status_code(s)) == Some(reason_phrase(s)),
        (s is Unimplemented) <==> reason_phrase(s) == "Unimplemented"@,
{
    reveal_strlit("Unimplemented");
    reveal_strlit("Continue");
    reveal_strlit("Switching Protocols");
    reveal_strlit("Processing");
    reveal_strlit("Early Hints");
    reveal_strlit("OK");
    reveal_strlit("Created");
    reveal_strlit("Multiple Choices");
    reveal_strlit("Moved Permanently");
    reveal_strlit("Bad Request");
    reveal_strlit("Not Found");
    reveal_strlit("Internal Server Error");
    if !(s is Unimplemented) {
        assert(reason_phrase(s).len() != "Unimplemented"@.len());
    }
}

} // verus!
