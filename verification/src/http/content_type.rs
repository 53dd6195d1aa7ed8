//! Media types of request and response bodies.
use vstd::prelude::*;

use crate::text::{str_eq, string_of};

verus! {

/// The subtypes of `application/...` that the library knows.
#[derive(Clone, Debug, Eq, Hash, PartialEq, Structural)]
pub enum ApplicationType {
    OctetStream,
}

/// The subtypes of `text/...` that the library knows.
#[derive(Clone, Debug, Eq, Hash, PartialEq, Structural)]
pub enum TextType {
    Plain,
}

/// A media type.
#[derive(Clone, Debug, Eq, Hash, PartialEq, Structural)]
pub enum ContentType {
    Application(ApplicationType),
    Text(TextType),
}

/// The text is not a known application subtype.
#[derive(Clone, Debug, PartialEq, Eq, Structural)]
pub struct ParseApplicationTypeError;

/// The text is not a known text subtype.
#[derive(Clone, Debug, PartialEq, Eq, Structural)]
pub struct ParseTextTypeError;

/// The text is not a media type that can be read.
#[derive(Clone, Debug, PartialEq, Eq, Structural)]
pub struct ParseContentTypeError;

pub open spec fn application_type_name(t: ApplicationType) -> Seq<char> {
    match t {
        ApplicationType::OctetStream => seq!['o', 'c', 't', 'e', 't', '-', 's', 't', 'r', 'e', 'a', 'm'],
    }
}

pub open spec fn text_type_name(t: TextType) -> Seq<char> {
    match t {
        TextType::Plain => seq!['p', 'l', 'a', 'i', 'n'],
    }
}

/// How a media type is written: `application/<subtype>` or `text/<subtype>`.
pub open spec fn content_type_text(t: ContentType) -> Seq<char> {
    match t {
        ContentType::Application(a) => seq!['a', 'p', 'p', 'l', 'i', 'c', 'a', 't', 'i', 'o', 'n', '/']
            + application_type_name(a),
        ContentType::Text(x) => seq!['t', 'e', 'x', 't', '/'] + text_type_name(x),
    }
}

pub open spec fn spec_application_type_from(s: Seq<char>) -> Option<ApplicationType> {
    if s == application_type_name(ApplicationType::OctetStream) {
        Some(ApplicationType::OctetStream)
    } else {
        None
    }
}

pub open spec fn spec_text_type_from(s: Seq<char>) -> Option<TextType> {
    if s == text_type_name(TextType::Plain) {
        Some(TextType::Plain)
    } else {
        None
    }
}

/// What reading a media type gives: no text is read as a media type.
pub open spec fn spec_content_type_from(s: Seq<char>) -> Option<ContentType> {
    None
}

/// The media type used where none is given: `application/octet-stream`.
pub open spec fn default_content_type() -> ContentType {
    ContentType::Application(ApplicationType::OctetStream)
}

impl Default for ApplicationType {
    fn default() -> (r: Self)
        ensures
            r == ApplicationType::OctetStream,
    {
        ApplicationType::OctetStream
    }
}

impl Default for TextType {
    fn default() -> (r: Self)
        ensures
            r == TextType::Plain,
    {
        TextType::Plain
    }
}

impl Default for ContentType {
    fn default() -> (r: Self)
        ensures
            r == default_content_type(),
    {
        ContentType::Application(ApplicationType::OctetStream)
    }
}

impl ApplicationType {
    /// Reads an application subtype from its name.
    pub fn from_str(s: &str) -> (r: Result<ApplicationType, ParseApplicationTypeError>)
        ensures
            r == match spec_application_type_from(s@) {
                Some(t) => Ok(t),
                None => Err(ParseApplicationTypeError),
            },
    {
        proof {
            reveal_strlit("octet-stream");
        }
        assert("octet-stream"@ =~= application_type_name(ApplicationType::OctetStream));
        if str_eq(s, "octet-stream") {
            Ok(ApplicationType::OctetStream)
        } else {
            Err(ParseApplicationTypeError)
        }
    }

    /// The subtype's name.
    pub fn to_string(&self) -> (r: String)
        ensures
            r@ == application_type_name(*self),
    {
        proof {
            reveal_strlit("octet-stream");
        }
        assert("octet-stream"@ =~= application_type_name(ApplicationType::OctetStream));
        string_of("octet-stream")
    }
}

impl TextType {
    /// Reads a text subtype from its name.
    pub fn from_str(s: &str) -> (r: Result<TextType, ParseTextTypeError>)
        ensures
            r == match spec_text_type_from(s@) {
                Some(t) => Ok(t),
                None => Err(ParseTextTypeError),
            },
    {
        proof {
            reveal_strlit("plain");
        }
        assert("plain"@ =~= text_type_name(TextType::Plain));
        if str_eq(s, "plain") {
            Ok(TextType::Plain)
        } else {
            Err(ParseTextTypeError)
        }
    }

    /// The subtype's name.
    pub fn to_string(&self) -> (r: String)
        ensures
            r@ == text_type_name(*self),
    {
        proof {
            reveal_strlit("plain");
        }
        assert("plain"@ =~= text_type_name(TextType::Plain));
        string_of("plain")
    }
}

impl ContentType {
    /// Reads a media type. No text is read as one: the result is always the
    /// error.
    pub fn from_str(s: &str) -> (r: Result<ContentType, ParseContentTypeError>)
        ensures
            r == match spec_content_type_from(s@) {
                Some(t) => Ok(t),
                None => Err(ParseContentTypeError),
            },
    {
        Err(ParseContentTypeError)
    }

    /// The media type as it is written.
    pub fn to_string(&self) -> (r: String)
        ensures
            r@ == content_type_text(*self),
    {
        proof {
            reveal_strlit("application/");
            reveal_strlit("text/");
        }
        let (mut s, sub) = match self {
            ContentType::Application(a) => {
                assert("application/"@ =~= seq!['a', 'p', 'p', 'l', 'i', 'c', 'a', 't', 'i', 'o', 'n', '/']);
                (string_of("application/"), a.to_string())
            },
            ContentType::Text(t) => {
                assert("text/"@ =~= seq!['t', 'e', 'x', 't', '/']);
                (string_of("text/"), t.to_string())
            },
        };
        s.append(sub.as_str());
        s
    }
}

/// Writing a subtype's name and reading it back gives the subtype.
pub proof fn lemma_subtype_names_roundtrip(a: ApplicationType, t: TextType)
    ensures
        spec_application_type_from(application_type_name(a)) == Some(a),
        spec_text_type_from(text_type_name(t)) == Some(t),
{
}

/// Media types are written `application/octet-stream` and `text/plain`,
/// the default being `application/octet-stream`; a subtype is read from a
/// text exactly when the text is its name, written in lower case.
pub proof fn lemma_media_type_names(t: Seq<char>, a: ApplicationType, x: TextType)
    ensures
        content_type_text(ContentType::Application(ApplicationType::OctetStream))
            == "application/octet-stream"@,
        content_type_text(ContentType::Text(TextType::Plain)) == "text/plain"@,
        default_content_type() == ContentType::Application(ApplicationType::OctetStream),
        spec_application_type_from(t) == Some(a) <==> t == application_type_name(a),
        spec_text_type_from(t) == Some(x) <==> t == text_type_name(x),
        application_type_name(ApplicationType::OctetStream) == "octet-stream"@,
        text_type_name(TextType::Plain) == "plain"@,
{
    reveal_strlit("application/octet-stream");
    reveal_strlit("text/plain");
    reveal_strlit("octet-stream");
    reveal_strlit("plain");
    assert(content_type_text(ContentType::Application(ApplicationType::OctetStream))
        =~= "application/octet-stream"@);
    assert(content_type_text(ContentType::Text(TextType::Plain)) =~= "text/plain"@);
    assert(application_type_name(ApplicationType::OctetStream) =~= "octet-stream"@);
    assert(text_type_name(TextType::Plain) =~= "plain"@);
}

} // verus!
