//! Request methods.
use vstd::prelude::*;

use crate::text::{str_eq, string_of};

verus! {

/// A request method.
#[derive(Clone, Debug, Eq, Hash, PartialEq, Structural)]
pub enum Method {
    GET,
    POST,
}

/// The text is not a known method.
#[derive(Debug, PartialEq, Eq, Structural)]
pub struct ParseMethodError;

/// The name of a method, as it is written in a request.
pub open spec fn method_name(m: Method) -> Seq<char> {
    match m {
        Method::GET => seq!['G', 'E', 'T'],
        Method::POST => seq!['P', 'O', 'S', 'T'],
    }
}

/// The method named `s`; names are case-sensitive.
pub open spec fn spec_method_from(s: Seq<char>) -> Option<Method> {
    if s == method_name(Method::GET) {
        Some(Method::GET)
    } else if s == method_name(Method::POST) {
        Some(Method::POST)
    } else {
        None
    }
}

impl Method {
    /// Reads a method from its name.
    pub fn from_str(s: &str) -> (r: Result<Method, ParseMethodError>)
        ensures
            r == match spec_method_from(s@) {
                Some(m) => Ok(m),
                None => Err(ParseMethodError),
            },
    {
        proof {
            reveal_strlit("GET");
            reveal_strlit("POST");
        }
        assert("GET"@ =~= method_name(Method::GET));
        assert("POST"@ =~= method_name(Method::POST));
        if str_eq(s, "GET") {
            Ok(Method::GET)
        } else if str_eq(s, "POST") {
            Ok(Method::POST)
        } else {
            Err(ParseMethodError)
        }
    }

    /// The method's name.
    pub fn to_string(&self) -> (r: String)
        ensures
            r@ == method_name(*self),
    {
        proof {
            reveal_strlit("GET");
            reveal_strlit("POST");
        }
        match self {
            Method::GET => {
                assert("GET"@ =~= method_name(Method::GET));
                string_of("GET")
            },
            Method::POST => {
                assert("POST"@ =~= method_name(Method::POST));
                string_of("POST")
            },
        }
    }
}

/// Writing a method's name and reading it back gives the method.
pub proof fn lemma_method_name_roundtrip(m: Method)
    ensures
        spec_method_from(method_name(m)) == Some(m),
{
    assert(method_name(Method::GET) != method_name(Method::POST)) by {
        assert(method_name(Method::GET).len() != method_name(Method::POST).len());
    }
}

/// A text is read as a method exactly when it is that method's name, and
/// the names are `GET` and `POST` as written, in capitals: every text read
/// as a method is made of the capital letters `A` to `Z` only, so reading
/// is case-sensitive.
pub proof fn lemma_method_from_names(t: Seq<char>, m: Method)
    ensures
        spec_method_from(t) == Some(m) <==> t == method_name(m),
        method_name(Method::GET) == "GET"@,
        method_name(Method::POST) == "POST"@,
        spec_method_from(t) is Some ==> forall|i: int| 0 <= i < t.len() ==> 'A' <= #[trigger] t[i] <= 'Z',
{
    reveal_strlit("GET");
    reveal_strlit("POST");
    assert("GET"@ =~= method_name(Method::GET));
    assert("POST"@ =~= method_name(Method::POST));
    lemma_method_name_roundtrip(m);
}

} // verus!
