//! Request targets.
use vstd::prelude::*;

use crate::string_map::{Entries, StringMap};
use crate::text::{chars_of, is_ascii_alphanumeric, push_char, spec_is_ascii_alphanumeric, string_of};

verus! {

/// Whether `ch` is an unreserved URI character: an ASCII letter or digit, or
/// one of `-`, `.`, `_`, `~`.
#[allow(dead_code)]
fn is_char_unreserved(ch: char) -> (r: bool)
    ensures
        r == (spec_is_ascii_alphanumeric(ch) || ch == '-' || ch == '.' || ch == '_' || ch == '~'),
{
    is_ascii_alphanumeric(ch) || ch == '-' || ch == '.' || ch == '_' || ch == '~'
}

/// A request target.
#[derive(Clone, Debug)]
pub struct Uri {
    pub path: String,
    pub scheme: String,
    pub search_params: StringMap,
}

/// A request target as plain values.
pub struct UriView {
    pub path: Seq<char>,
    pub scheme: Seq<char>,
    pub search_params: Entries,
}

impl View for Uri {
    type V = UriView;

    open spec fn view(&self) -> UriView {
        UriView { path: self.path@, scheme: self.scheme@, search_params: self.search_params@ }
    }
}

/// Why a target could not be read.
#[derive(Debug, PartialEq, Eq, Structural)]
pub enum ParseUriError {
    InvalidScheme,
    SuddenEol,
}

/// How a target is written: the scheme, `://`, the (empty) authority, and
/// the path.
pub open spec fn uri_text(u: UriView) -> Seq<char> {
    u.scheme + seq![':', '/', '/'] + u.path
}

/// Whether reading `s` as a target comes to an end. The reader takes a
/// scheme up to the first `:` (no character is accepted in a scheme), then
/// an authority after `//` up to the next `:` (no character is accepted
/// there either); an input that gets past both, which starts with `:` and
/// is not `://` followed by a character other than `:` or by nothing, makes
/// the reader run forever.
pub open spec fn uri_parse_terminates(s: Seq<char>) -> bool {
    ||| s.len() == 0
    ||| s[0] != ':'
    ||| (s.len() >= 3 && s[1] == '/' && s[2] == '/' && (s.len() == 3 || s[3] != ':'))
}

/// The error that reading `s` as a target gives, for an input on which the
/// reader comes to an end.
pub open spec fn uri_parse_error(s: Seq<char>) -> ParseUriError {
    if s.len() == 0 {
        ParseUriError::SuddenEol
    } else if s[0] != ':' {
        ParseUriError::InvalidScheme
    } else if s.len() == 3 {
        ParseUriError::SuddenEol
    } else {
        ParseUriError::InvalidScheme
    }
}

impl Uri {
    /// The authority part, which is always empty.
    pub fn authority(&self) -> (r: Option<String>)
        ensures
            r matches Some(a) && a@.len() == 0,
    {
        Some(String::new())
    }

    /// The target as it is written.
    pub fn to_string(&self) -> (r: String)
        ensures
            r@ == uri_text(self@),
    {
        let mut s = string_of(self.scheme.as_str());
        proof {
            reveal_strlit("://");
        }
        s.append("://");
        assert("://"@ =~= seq![':', '/', '/']);
        let authority = self.authority();
        if let Some(a) = authority {
            s.append(a.as_str());
            assert(s@ =~= self.scheme@ + seq![':', '/', '/']);
        }
        s.append(self.path.as_str());
        s
    }

    /// Whether reading `s` as a target comes to an end.
    pub fn parse_terminates(s: &str) -> (r: bool)
        ensures
            r == uri_parse_terminates(s@),
    {
        let cs = chars_of(s);
        cs.len() == 0 || cs[0] != ':' || (cs.len() >= 3 && cs[1] == '/' && cs[2] == '/' && (
        cs.len() == 3 || cs[3] != ':'))
    }

    /// Reads a target. The reader accepts no character in a scheme or an
    /// authority, so it never succeeds; the inputs on which it would run
    /// forever are left out.
    pub fn from_str(s: &str) -> (r: Result<Uri, ParseUriError>)
        requires
            uri_parse_terminates(s@),
        ensures
            r matches Err(e) && e == uri_parse_error(s@),
    {
        let chars = chars_of(s);
        let mut char_index: usize = 0;
        let mut scheme = String::new();
        // Scheme, up to the first `:`.
        loop
            invariant_except_break
                chars@ == s@,
                char_index == 0,
            ensures
                chars@ == s@,
                char_index == 1,
                chars.len() >= 1,
                chars@[0] == ':',
            decreases chars.len() - char_index,
        {
            if char_index >= chars.len() {
                return Err(ParseUriError::SuddenEol);
            }
            let ch = chars[char_index];
            char_index = char_index + 1;
            if ch == ':' {
                break;
            }
            if !is_ascii_alphanumeric(ch) {
                return Err(ParseUriError::InvalidScheme);
            }
            if !(ch == '+' || ch == '.' || ch == '-') {
                return Err(ParseUriError::InvalidScheme);
            }
            push_char(&mut scheme, ch);
        }
        // Authority, after `//`, up to the next `:`.
        if chars.len() > char_index + 1 && chars[char_index] == '/' && chars[char_index + 1] == '/' {
            char_index = char_index + 2;
            let mut authority = String::new();
            loop
                invariant_except_break
                    chars@ == s@,
                    char_index == 3,
                    chars.len() >= 3,
                    chars@[0] == ':',
                    chars@[1] == '/',
                    chars@[2] == '/',
                    uri_parse_terminates(s@),
                ensures
                    chars@ == s@,
                    char_index == 3,
                    chars.len() > 3,
                    chars@[3] == ':',
                decreases chars.len() - char_index,
            {
                if char_index >= chars.len() {
                    return Err(ParseUriError::SuddenEol);
                }
                let ch = chars[char_index];
                if ch == ':' {
                    break;
                }
                if !is_ascii_alphanumeric(ch) {
                    return Err(ParseUriError::InvalidScheme);
                }
                if !(ch == '+' || ch == '.' || ch == '-') {
                    return Err(ParseUriError::InvalidScheme);
                }
                push_char(&mut authority, ch);
                char_index = char_index + 1;
            }
        }
        // Every input that gets this far was left out by the precondition.
        assert(!uri_parse_terminates(s@));
        Ok(Uri { path: String::new(), scheme, search_params: StringMap::new() })
    }
}

/// Reading a target that does not start with `:` comes to an end: the
/// first character of a non-empty target is not accepted in a scheme, so
/// the reader stops there with `InvalidScheme`; an empty target stops it at
/// once with `SuddenEol`. Targets such as `/search?q=x` are refused, not
/// read forever.
pub proof fn lemma_target_reading_ends(s: Seq<char>)
    requires
        s.len() == 0 || s[0] != ':',
    ensures
        uri_parse_terminates(s),
        uri_parse_error(s) == if s.len() == 0 {
            ParseUriError::SuddenEol
        } else {
            ParseUriError::InvalidScheme
        },
{
}

} // verus!
