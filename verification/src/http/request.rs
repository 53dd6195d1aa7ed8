//! Requests, and reading them from the bytes of a stream.
//!
//! Reading is a decision on the bytes received so far: either the request
//! (or the error) is settled, or one more byte is needed. The caller reads
//! bytes one at a time and asks again; once the stream has ended it says
//! so, and the decision is then always settled.
use vstd::prelude::*;
use vstd::utf8::{decode_utf8, valid_utf8};

use crate::http::content_type::{content_type_text, default_content_type, spec_content_type_from, ContentType};
use crate::http::method::{spec_method_from, Method};
use crate::http::uri::{uri_parse_error, uri_parse_terminates, ParseUriError, Uri, UriView};
use crate::string_map::{insert_entry, lookup, remove_entry, Entries, StringMap};
use crate::text::{
    ascii_lowercase, ascii_uppercase, chars_of, decimal, invalid_data_error, io_error_kind,
    is_alphabetic, IoErrorKind,
    parse_usize, spec_ascii_lower, spec_ascii_upper, spec_is_alphabetic, spec_parse_usize,
    spec_words, split_whitespace, str_eq, string_from_chars, string_of, usize_to_string,
    utf8_error_of, utf8_to_string, views_of,
};

verus! {

pub const CR_BYTE: u8 = 13;

pub const LF_BYTE: u8 = 10;

// ---------------------------------------------------------------------------
// Header names
// ---------------------------------------------------------------------------

/// Whether the next alphabetic character of a header name after `s` starts
/// a word: at the start of the name, and after each `-`, until an
/// alphabetic character has been upper-cased.
pub open spec fn word_start_after(s: Seq<char>) -> bool
    decreases s.len(),
{
    if s.len() == 0 {
        true
    } else {
        let w = word_start_after(s.drop_last()) || s.last() == '-';
        if spec_is_alphabetic(s.last()) && w {
            false
        } else {
            w
        }
    }
}

/// A header name in its usual form: the first alphabetic character of each
/// `-`-separated word upper-cased (ASCII only), every other character
/// lower-cased (ASCII only).
pub open spec fn spec_clean_header(s: Seq<char>) -> Seq<char>
    decreases s.len(),
{
    if s.len() == 0 {
        Seq::empty()
    } else {
        let c = s.last();
        let w = word_start_after(s.drop_last()) || c == '-';
        spec_clean_header(s.drop_last()).push(
            if spec_is_alphabetic(c) && w {
                spec_ascii_upper(c)
            } else {
                spec_ascii_lower(c)
            },
        )
    }
}

/// Puts a header name in its usual form, such as `Content-Length` for
/// `content-LENGTH`.
pub fn clean_header(header: &str) -> (r: String)
    ensures
        r@ == spec_clean_header(header@),
{
    let cs = chars_of(header);
    let mut cleaned: Vec<char> = Vec::new();
    let mut is_word_beginning = true;
    let mut i: usize = 0;
    while i < cs.len()
        invariant
            i <= cs.len(),
            cs@ == header@,
            cleaned@ == spec_clean_header(cs@.take(i as int)),
            is_word_beginning == word_start_after(cs@.take(i as int)),
        decreases cs.len() - i,
    {
        let c = cs[i];
        assert(cs@.take(i + 1).drop_last() == cs@.take(i as int));
        assert(cs@.take(i + 1).last() == c);
        if c == '-' {
            is_word_beginning = true;
        }
        if is_alphabetic(c) && is_word_beginning {
            cleaned.push(ascii_uppercase(c));
            is_word_beginning = false;
        } else {
            cleaned.push(ascii_lowercase(c));
        }
        i = i + 1;
    }
    assert(cs@.take(cs.len() as int) == cs@);
    string_from_chars(cleaned.as_slice())
}

/// Two characters with the same ASCII lower-case form are alike for a
/// header name: both alphabetic or neither, both `-` or neither, and with
/// the same ASCII upper-case form.
proof fn lemma_same_lower_char(a: char, b: char)
    requires
        spec_ascii_lower(a) == spec_ascii_lower(b),
    ensures
        spec_is_alphabetic(a) == spec_is_alphabetic(b),
        (a == '-') == (b == '-'),
        spec_ascii_upper(a) == spec_ascii_upper(b),
{
}

/// A character keeps its ASCII lower-case form when it is upper- or
/// lower-cased first.
proof fn lemma_lower_of_cased(c: char)
    ensures
        spec_ascii_lower(spec_ascii_upper(c)) == spec_ascii_lower(c),
        spec_ascii_lower(spec_ascii_lower(c)) == spec_ascii_lower(c),
{
}

/// Header names that differ only in ASCII case are cleaned alike.
proof fn lemma_clean_header_same_lower(s: Seq<char>, t: Seq<char>)
    requires
        s.len() == t.len(),
        forall|i: int| 0 <= i < s.len() ==> spec_ascii_lower(#[trigger] s[i]) == spec_ascii_lower(t[i]),
    ensures
        spec_clean_header(s) == spec_clean_header(t),
        word_start_after(s) == word_start_after(t),
    decreases s.len(),
{
    if s.len() > 0 {
        let n = s.len() - 1;
        assert forall|i: int| 0 <= i < n implies spec_ascii_lower(#[trigger] s.drop_last()[i])
            == spec_ascii_lower(t.drop_last()[i]) by {
            assert(s.drop_last()[i] == s[i]);
            assert(t.drop_last()[i] == t[i]);
        }
        lemma_clean_header_same_lower(s.drop_last(), t.drop_last());
        assert(spec_ascii_lower(s[n]) == spec_ascii_lower(t[n]));
        lemma_same_lower_char(s.last(), t.last());
    }
}

/// Cleaning changes characters by ASCII case only.
proof fn lemma_clean_header_lower(s: Seq<char>)
    ensures
        spec_clean_header(s).len() == s.len(),
        forall|i: int|
            0 <= i < s.len() ==> spec_ascii_lower(#[trigger] spec_clean_header(s)[i])
                == spec_ascii_lower(s[i]),
    decreases s.len(),
{
    if s.len() > 0 {
        let d = s.drop_last();
        lemma_clean_header_lower(d);
        lemma_lower_of_cased(s.last());
        assert forall|i: int| 0 <= i < s.len() implies spec_ascii_lower(
            #[trigger] spec_clean_header(s)[i],
        ) == spec_ascii_lower(s[i]) by {
            if i < d.len() {
                assert(spec_clean_header(s)[i] == spec_clean_header(d)[i]);
                assert(d[i] == s[i]);
            }
        }
    }
}

/// Cleaning a header name twice gives what cleaning it once gives.
pub proof fn lemma_clean_header_idempotent(s: Seq<char>)
    ensures
        spec_clean_header(spec_clean_header(s)) == spec_clean_header(s),
{
    lemma_clean_header_lower(s);
    let d = spec_clean_header(s);
    assert forall|i: int| 0 <= i < d.len() implies spec_ascii_lower(#[trigger] d[i])
        == spec_ascii_lower(s[i]) by {}
    lemma_clean_header_same_lower(d, s);
}

/// Lower-casing a header name (ASCII only) before cleaning it changes
/// nothing: the case of the name given does not matter.
pub proof fn lemma_clean_header_ignores_case(s: Seq<char>)
    ensures
        spec_clean_header(s.map_values(|c: char| spec_ascii_lower(c))) == spec_clean_header(s),
{
    let l = s.map_values(|c: char| spec_ascii_lower(c));
    assert forall|i: int| 0 <= i < l.len() implies spec_ascii_lower(#[trigger] l[i])
        == spec_ascii_lower(s[i]) by {
        lemma_lower_of_cased(s[i]);
    }
    lemma_clean_header_same_lower(l, s);
}

/// The two header names that a request keeps apart from the others are
/// already in their usual form.
pub proof fn lemma_special_names_clean()
    ensures
        spec_clean_header("Content-Length"@) == "Content-Length"@,
        spec_clean_header("Content-Type"@) == "Content-Type"@,
{
    reveal_strlit("Content-Length");
    reveal_strlit("Content-Type");
    let cl = seq!['C', 'o', 'n', 't', 'e', 'n', 't', '-', 'L', 'e', 'n', 'g', 't', 'h'];
    let ct = seq!['C', 'o', 'n', 't', 'e', 'n', 't', '-', 'T', 'y', 'p', 'e'];
    assert("Content-Length"@ =~= cl);
    assert("Content-Type"@ =~= ct);
    reveal_with_fuel(spec_clean_header, 15);
    reveal_with_fuel(word_start_after, 15);
    assert(spec_clean_header(cl) =~= cl);
    assert(spec_clean_header(ct) =~= ct);
}

/// The two special header names are different names.
pub proof fn lemma_special_names_differ()
    ensures
        "Content-Length"@ != "Content-Type"@,
{
    reveal_strlit("Content-Length");
    reveal_strlit("Content-Type");
    assert("Content-Length"@.len() != "Content-Type"@.len());
}

// ---------------------------------------------------------------------------
// Lines
// ---------------------------------------------------------------------------

/// The position of the first CR LF pair at or after `j`.
pub open spec fn find_crlf(b: Seq<u8>, j: int) -> Option<int>
    decreases b.len() - j,
{
    if j < 0 || j + 1 >= b.len() {
        None
    } else if b[j] == CR_BYTE && b[j + 1] == LF_BYTE {
        Some(j)
    } else {
        find_crlf(b, j + 1)
    }
}

/// Where the line that starts at `pos` ends: the end of its content and the
/// position after the line. A line ends at a CR LF pair, which is not part
/// of it; once the stream has ended, also at the end of the bytes, less a
/// CR that ends them. `None` while neither has been seen.
pub open spec fn line_bounds(b: Seq<u8>, pos: int, at_end: bool) -> Option<(int, int)> {
    match find_crlf(b, pos) {
        Some(j) => Some((j, j + 2)),
        None => if !at_end {
            None
        } else if b.len() > pos && b.last() == CR_BYTE {
            Some((b.len() - 1, b.len() as int))
        } else {
            Some((b.len() as int, b.len() as int))
        },
    }
}

proof fn lemma_find_crlf_bounds(b: Seq<u8>, j: int)
    requires
        0 <= j,
    ensures
        find_crlf(b, j) matches Some(k) ==> j <= k && k + 2 <= b.len(),
    decreases b.len() - j,
{
    if j + 1 < b.len() && !(b[j] == CR_BYTE && b[j + 1] == LF_BYTE) {
        lemma_find_crlf_bounds(b, j + 1);
    }
}

/// A line lies within the bytes, after its start.
pub proof fn lemma_line_bounds(b: Seq<u8>, pos: int, at_end: bool)
    requires
        0 <= pos <= b.len(),
    ensures
        line_bounds(b, pos, at_end) matches Some((e, n)) ==> pos <= e <= n <= b.len(),
{
    lemma_find_crlf_bounds(b, pos);
}

/// Finds where the line that starts at `pos` ends, as [`line_bounds`] says.
pub fn read_line(received: &[u8], pos: usize, at_end: bool) -> (r: Option<(usize, usize)>)
    requires
        pos <= received.len(),
    ensures
        match r {
            Some((e, n)) => line_bounds(received@, pos as int, at_end) == Some((e as int, n as int)),
            None => line_bounds(received@, pos as int, at_end) is None,
        },
{
    let mut j: usize = pos;
    while j < received.len() && j + 1 < received.len()
        invariant
            pos <= j <= received.len(),
            find_crlf(received@, pos as int) == find_crlf(received@, j as int),
        decreases received.len() - j,
    {
        if received[j] == CR_BYTE && received[j + 1] == LF_BYTE {
            return Some((j, j + 2));
        }
        j = j + 1;
    }
    assert(find_crlf(received@, j as int) is None);
    let len = received.len();
    if !at_end {
        None
    } else if len > pos && received[len - 1] == CR_BYTE {
        Some((len - 1, len))
    } else {
        Some((len, len))
    }
}

// ---------------------------------------------------------------------------
// Header lines
// ---------------------------------------------------------------------------

/// The position of the first `c` in `s`.
pub open spec fn first_index_of(s: Seq<char>, c: char) -> Option<int>
    decreases s.len(),
{
    if s.len() == 0 {
        None
    } else {
        match first_index_of(s.drop_last(), c) {
            Some(i) => Some(i),
            None => if s.last() == c {
                Some(s.len() - 1)
            } else {
                None
            },
        }
    }
}

/// A header line split into its name, everything before the first `:`, and
/// its value, everything after the character that follows the `:`.
pub open spec fn header_split(line: Seq<char>) -> Option<(Seq<char>, Seq<char>)> {
    match first_index_of(line, ':') {
        None => None,
        Some(ci) => Some(
            (
                line.take(ci),
                if ci + 1 < line.len() {
                    line.skip(ci + 2)
                } else {
                    Seq::empty()
                },
            ),
        ),
    }
}

fn split_header(line: &[char]) -> (r: Option<(Vec<char>, Vec<char>)>)
    ensures
        match r {
            Some((name, value)) => header_split(line@) == Some((name@, value@)),
            None => header_split(line@) is None,
        },
{
    let mut name: Vec<char> = Vec::new();
    let mut i: usize = 0;
    while i < line.len()
        invariant
            i <= line.len(),
            name@ == line@.take(i as int),
            first_index_of(line@.take(i as int), ':') is None,
        decreases line.len() - i,
    {
        assert(line@.take(i + 1).drop_last() == line@.take(i as int));
        if line[i] == ':' {
            proof {
                lemma_first_index_prefix(line@, ':', i as int);
            }
            let mut value: Vec<char> = Vec::new();
            if i + 1 < line.len() {
                let mut k: usize = i + 2;
                while k < line.len()
                    invariant
                        i + 2 <= k <= line.len(),
                        value@ == line@.subrange(i + 2, k as int),
                    decreases line.len() - k,
                {
                    value.push(line[k]);
                    k = k + 1;
                    assert(value@ =~= line@.subrange(i + 2, k as int));
                }
                assert(value@ =~= line@.skip(i + 2));
            }
            return Some((name, value));
        }
        name.push(line[i]);
        i = i + 1;
        assert(name@ == line@.take(i as int));
    }
    assert(line@.take(line.len() as int) == line@);
    None
}

proof fn lemma_first_index_prefix(s: Seq<char>, c: char, i: int)
    requires
        0 <= i < s.len(),
        first_index_of(s.take(i), c) is None,
        s[i] == c,
    ensures
        first_index_of(s, c) == Some(i),
    decreases s.len(),
{
    if i < s.len() - 1 {
        assert(s.drop_last().take(i) == s.take(i));
        lemma_first_index_prefix(s.drop_last(), c, i);
    } else {
        assert(s.drop_last() == s.take(i));
    }
}

// ---------------------------------------------------------------------------
// Errors and outcomes
// ---------------------------------------------------------------------------

/// Why a request could not be read.
#[derive(Debug)]
pub enum RequestReadError {
    EmptyRequest,
    InvalidContentLength((usize, usize)),
    InvalidMethod(String),
    InvalidUri(String),
    IoError(std::io::Error),
    MalformedHeader(String),
    MalformedRequest(String),
}

/// Why a request could not be read, as plain values; an I/O error by its
/// kind.
pub enum ReadError {
    EmptyRequest,
    InvalidContentLength(usize, usize),
    InvalidMethod(Seq<char>),
    InvalidUri(Seq<char>),
    IoError(IoErrorKind),
    MalformedHeader(Seq<char>),
    MalformedRequest(Seq<char>),
}

impl View for RequestReadError {
    type V = ReadError;

    open spec fn view(&self) -> ReadError {
        match self {
            RequestReadError::EmptyRequest => ReadError::EmptyRequest,
            RequestReadError::InvalidContentLength(p) => ReadError::InvalidContentLength(p.0, p.1),
            RequestReadError::InvalidMethod(s) => ReadError::InvalidMethod(s@),
            RequestReadError::InvalidUri(s) => ReadError::InvalidUri(s@),
            RequestReadError::IoError(e) => ReadError::IoError(io_error_kind(*e)),
            RequestReadError::MalformedHeader(s) => ReadError::MalformedHeader(s@),
            RequestReadError::MalformedRequest(s) => ReadError::MalformedRequest(s@),
        }
    }
}

impl From<std::io::Error> for RequestReadError {
    fn from(value: std::io::Error) -> (r: Self) {
        RequestReadError::IoError(value)
    }
}

impl vstd::std_specs::convert::FromSpecImpl<std::io::Error> for RequestReadError {
    open spec fn obeys_from_spec() -> bool {
        true
    }

    open spec fn from_spec(v: std::io::Error) -> RequestReadError {
        RequestReadError::IoError(v)
    }
}

/// Where reading the header lines has got to.
pub enum HeadersOutcome {
    /// More bytes are needed.
    More,
    Failed(ReadError),
    /// The headers read, and the position after the empty line that ends
    /// them.
    Ended(Entries, int),
}

/// Reading header lines from `pos` on, with `acc` read so far. Each line
/// `name: value` stores `value` under the cleaned `name`, replacing an
/// earlier value; an empty line ends the headers.
pub open spec fn spec_headers(b: Seq<u8>, pos: int, at_end: bool, acc: Entries) -> HeadersOutcome
    decreases b.len() - pos,
{
    if pos < 0 || pos > b.len() {
        HeadersOutcome::More
    } else {
        match line_bounds(b, pos, at_end) {
            None => HeadersOutcome::More,
            Some((e, n)) => if e <= pos {
                HeadersOutcome::Ended(acc, n)
            } else if !valid_utf8(b.subrange(pos, e)) {
                HeadersOutcome::Failed(ReadError::IoError(IoErrorKind::InvalidData))
            } else {
                let line = decode_utf8(b.subrange(pos, e));
                match header_split(line) {
                    None => HeadersOutcome::Failed(ReadError::MalformedHeader(line)),
                    Some((name, value)) => {
                        proof {
                            lemma_line_bounds(b, pos, at_end);
                        }
                        spec_headers(
                            b,
                            n,
                            at_end,
                            insert_entry(acc, spec_clean_header(name), value),
                        )
                    },
                }
            },
        }
    }
}

/// Where reading the header lines has got to.
pub enum HeadersRead {
    More,
    Failed(RequestReadError),
    Ended(StringMap, usize),
}

impl View for HeadersRead {
    type V = HeadersOutcome;

    open spec fn view(&self) -> HeadersOutcome {
        match self {
            HeadersRead::More => HeadersOutcome::More,
            HeadersRead::Failed(e) => HeadersOutcome::Failed(e@),
            HeadersRead::Ended(m, p) => HeadersOutcome::Ended(m@, *p as int),
        }
    }
}

/// Reads the header lines that start at `start`.
pub fn read_headers(received: &[u8], start: usize, at_end: bool) -> (r: HeadersRead)
    requires
        start <= received.len(),
    ensures
        r@ == spec_headers(received@, start as int, at_end, Seq::empty()),
{
    let mut headers = StringMap::new();
    let mut pos: usize = start;
    loop
        invariant
            pos <= received.len(),
            spec_headers(received@, start as int, at_end, Seq::empty()) == spec_headers(
                received@,
                pos as int,
                at_end,
                headers@,
            ),
        decreases received.len() - pos,
    {
        proof {
            lemma_line_bounds(received@, pos as int, at_end);
        }
        let (end, next) = match read_line(received, pos, at_end) {
            None => {
                return HeadersRead::More;
            },
            Some(bounds) => bounds,
        };
        if end <= pos {
            return HeadersRead::Ended(headers, next);
        }
        let bytes = vstd::slice::slice_subrange(received, pos, end);
        let line = match utf8_to_string(bytes) {
            Err(e) => {
                return HeadersRead::Failed(RequestReadError::IoError(invalid_data_error(e)));
            },
            Ok(s) => s,
        };
        let cs = chars_of(line.as_str());
        match split_header(cs.as_slice()) {
            None => {
                return HeadersRead::Failed(RequestReadError::MalformedHeader(line));
            },
            Some((name, value)) => {
                let name = string_from_chars(name.as_slice());
                let cleaned = clean_header(name.as_str());
                headers.insert(cleaned, string_from_chars(value.as_slice()));
                pos = next;
            },
        }
    }
}

// ---------------------------------------------------------------------------
// Requests
// ---------------------------------------------------------------------------

/// A request.
#[derive(Clone, Debug)]
pub struct Request {
    pub content_type: ContentType,
    headers: StringMap,
    pub body: Vec<u8>,
    pub method: Method,
    pub uri: Uri,
    pub version: String,
}

/// A request as plain values. `headers` holds the headers other than
/// `Content-Length` and `Content-Type`, which the body and `content_type`
/// stand for.
pub struct RequestView {
    pub content_type: ContentType,
    pub headers: Entries,
    pub body: Seq<u8>,
    pub method: Method,
    pub uri: UriView,
    pub version: Seq<char>,
}

impl View for Request {
    type V = RequestView;

    closed spec fn view(&self) -> RequestView {
        RequestView {
            content_type: self.content_type,
            headers: self.headers@,
            body: self.body@,
            method: self.method,
            uri: self.uri@,
            version: self.version@,
        }
    }
}

/// What the request line gives.
pub enum LineOutcome {
    Failed(ReadError),
    /// Reading the target runs forever.
    Hangs,
    Parsed(Method, UriView, Seq<char>),
}

/// What reading `s` as a target gives, on an input where reading ends.
pub open spec fn spec_uri_from(s: Seq<char>) -> Result<UriView, ParseUriError> {
    Err(uri_parse_error(s))
}

/// Reading the request line: its first three whitespace-separated words are
/// the method, the target and the version.
pub open spec fn spec_request_line(line: Seq<char>) -> LineOutcome {
    let w = spec_words(line);
    if w.len() < 1 {
        LineOutcome::Failed(ReadError::MalformedRequest(line))
    } else {
        match spec_method_from(w[0]) {
            None => LineOutcome::Failed(ReadError::InvalidMethod(w[0])),
            Some(m) => if w.len() < 2 {
                LineOutcome::Failed(ReadError::MalformedRequest(line))
            } else if !uri_parse_terminates(w[1]) {
                LineOutcome::Hangs
            } else {
                match spec_uri_from(w[1]) {
                    Err(_) => LineOutcome::Failed(ReadError::InvalidUri(w[1])),
                    Ok(u) => if w.len() < 3 {
                        LineOutcome::Failed(ReadError::MalformedRequest(line))
                    } else {
                        LineOutcome::Parsed(m, u, w[2])
                    },
                }
            },
        }
    }
}

/// The body length that the headers announce: the decimal value of
/// `Content-Length`, or 0 where it is missing or not a number.
pub open spec fn content_length_of(h: Entries) -> usize {
    match lookup(h, "Content-Length"@) {
        Some(s) => match spec_parse_usize(s) {
            Some(n) => n,
            None => 0,
        },
        None => 0,
    }
}

/// The media type that the headers announce, or the default one.
pub open spec fn content_type_of(h: Entries) -> ContentType {
    match lookup(h, "Content-Type"@) {
        Some(s) => match spec_content_type_from(s) {
            Some(t) => t,
            None => default_content_type(),
        },
        None => default_content_type(),
    }
}

/// Where reading the body has got to.
pub enum BodyOutcome {
    More,
    Failed(ReadError),
    Got(Seq<u8>),
}

/// Reading a body of `cl` bytes from `pos` on. A stream that ends early is
/// an error that reports `cl` and one more than the bytes there were.
pub open spec fn spec_body(b: Seq<u8>, pos: int, at_end: bool, cl: usize) -> BodyOutcome {
    if cl == 0 {
        BodyOutcome::Got(Seq::empty())
    } else if b.len() - pos >= cl {
        BodyOutcome::Got(b.subrange(pos, pos + cl))
    } else if at_end {
        BodyOutcome::Failed(ReadError::InvalidContentLength(cl, (b.len() - pos + 1) as usize))
    } else {
        BodyOutcome::More
    }
}

/// Where reading a request has got to.
pub enum ReadOutcome {
    /// One more byte is needed.
    NeedByte,
    Done(Result<RequestView, ReadError>),
    /// Reading runs forever.
    Hangs,
}

/// Reading a request from the bytes `b` received so far; `at_end` says
/// whether the stream has ended. The request line comes first, then header
/// lines up to an empty line, then as many body bytes as `Content-Length`
/// announces.
pub open spec fn spec_read_request(b: Seq<u8>, at_end: bool) -> ReadOutcome {
    match line_bounds(b, 0, at_end) {
        None => ReadOutcome::NeedByte,
        Some((e, n)) => if !valid_utf8(b.subrange(0, e)) {
            ReadOutcome::Done(Err(ReadError::IoError(IoErrorKind::InvalidData)))
        } else {
            match spec_request_line(decode_utf8(b.subrange(0, e))) {
                LineOutcome::Failed(err) => ReadOutcome::Done(Err(err)),
                LineOutcome::Hangs => ReadOutcome::Hangs,
                LineOutcome::Parsed(m, u, v) => match spec_headers(b, n, at_end, Seq::empty()) {
                    HeadersOutcome::More => ReadOutcome::NeedByte,
                    HeadersOutcome::Failed(err) => ReadOutcome::Done(Err(err)),
                    HeadersOutcome::Ended(h, p) => {
                        let cl = content_length_of(h);
                        let h1 = remove_entry(h, "Content-Length"@);
                        let ct = content_type_of(h1);
                        let h2 = remove_entry(h1, "Content-Type"@);
                        match spec_body(b, p, at_end, cl) {
                            BodyOutcome::More => ReadOutcome::NeedByte,
                            BodyOutcome::Failed(err) => ReadOutcome::Done(Err(err)),
                            BodyOutcome::Got(body) => ReadOutcome::Done(
                                Ok(
                                    RequestView {
                                        content_type: ct,
                                        headers: h2,
                                        body,
                                        method: m,
                                        uri: u,
                                        version: v,
                                    },
                                ),
                            ),
                        }
                    },
                },
            }
        },
    }
}

/// Where reading a request has got to.
pub enum ReadStep {
    /// One more byte is needed.
    NeedByte,
    Done(Result<Request, RequestReadError>),
}

impl View for ReadStep {
    type V = ReadOutcome;

    open spec fn view(&self) -> ReadOutcome {
        match self {
            ReadStep::NeedByte => ReadOutcome::NeedByte,
            ReadStep::Done(Ok(r)) => ReadOutcome::Done(Ok(r@)),
            ReadStep::Done(Err(e)) => ReadOutcome::Done(Err(e@)),
        }
    }
}

/// Copies `b[from..to]`.
fn copy_bytes(b: &[u8], from: usize, to: usize) -> (r: Vec<u8>)
    requires
        from <= to <= b.len(),
    ensures
        r@ == b@.subrange(from as int, to as int),
{
    let mut r: Vec<u8> = Vec::new();
    let mut i: usize = from;
    while i < to
        invariant
            from <= i <= to,
            to <= b.len(),
            r@ == b@.subrange(from as int, i as int),
        decreases to - i,
    {
        r.push(b[i]);
        i = i + 1;
        assert(r@ =~= b@.subrange(from as int, i as int));
    }
    r
}

impl Request {
    /// Decides on the bytes received so far: `None` where reading would run
    /// forever, otherwise the step as [`spec_read_request`] gives it.
    pub fn try_from_stream(received: &[u8], at_end: bool) -> (r: Option<ReadStep>)
        ensures
            match r {
                None => spec_read_request(received@, at_end) is Hangs,
                Some(step) => step@ == spec_read_request(received@, at_end),
            },
    {
        let ghost b = received@;
        proof {
            lemma_line_bounds(b, 0, at_end);
        }
        let (end, next) = match read_line(received, 0, at_end) {
            None => {
                return Some(ReadStep::NeedByte);
            },
            Some(bounds) => bounds,
        };
        let first_bytes = vstd::slice::slice_subrange(received, 0, end);
        let first_line = match utf8_to_string(first_bytes) {
            Err(e) => {
                return Some(ReadStep::Done(Err(RequestReadError::IoError(invalid_data_error(e)))));
            },
            Ok(s) => s,
        };
        let ghost line = first_line@;
        let cs = chars_of(first_line.as_str());
        let words = split_whitespace(cs.as_slice());
        let ghost w = views_of(words@);
        assert(w == spec_words(line));
        if words.len() < 1 {
            return Some(ReadStep::Done(Err(RequestReadError::MalformedRequest(first_line))));
        }
        let method_string = string_from_chars(words[0].as_slice());
        assert(method_string@ == w[0]);
        let method = match Method::from_str(method_string.as_str()) {
            Err(_) => {
                return Some(ReadStep::Done(Err(RequestReadError::InvalidMethod(method_string))));
            },
            Ok(m) => m,
        };
        if words.len() < 2 {
            return Some(ReadStep::Done(Err(RequestReadError::MalformedRequest(first_line))));
        }
        let uri_string = string_from_chars(words[1].as_slice());
        assert(uri_string@ == w[1]);
        if !Uri::parse_terminates(uri_string.as_str()) {
            return None;
        }
        let uri = match Uri::from_str(uri_string.as_str()) {
            Err(_) => {
                return Some(ReadStep::Done(Err(RequestReadError::InvalidUri(uri_string))));
            },
            Ok(u) => u,
        };
        if words.len() < 3 {
            return Some(ReadStep::Done(Err(RequestReadError::MalformedRequest(first_line))));
        }
        let version = string_from_chars(words[2].as_slice());
        let (mut headers, body_start) = match read_headers(received, next, at_end) {
            HeadersRead::More => {
                return Some(ReadStep::NeedByte);
            },
            HeadersRead::Failed(e) => {
                return Some(ReadStep::Done(Err(e)));
            },
            HeadersRead::Ended(h, p) => (h, p),
        };
        let content_length: usize = match headers.get("Content-Length") {
            Some(s) => match parse_usize(s.as_str()) {
                Some(n) => n,
                None => 0,
            },
            None => 0,
        };
        headers.remove("Content-Length");
        let content_type = match headers.get("Content-Type") {
            Some(s) => match ContentType::from_str(s.as_str()) {
                Ok(t) => t,
                Err(_) => ContentType::default(),
            },
            None => ContentType::default(),
        };
        headers.remove("Content-Type");
        let mut body: Vec<u8> = Vec::new();
        if content_length > 0 {
            let have = received.len() - body_start;
            if have >= content_length {
                body = copy_bytes(received, body_start, body_start + content_length);
            } else if at_end {
                return Some(
                    ReadStep::Done(
                        Err(RequestReadError::InvalidContentLength((content_length, have + 1))),
                    ),
                );
            } else {
                return Some(ReadStep::NeedByte);
            }
        }
        Some(
            ReadStep::Done(
                Ok(Request { body, content_type, headers, method, uri, version }),
            ),
        )
    }

    /// Decides on the bytes received so far, as [`spec_read_request`]
    /// says; the inputs on which reading runs forever are left out.
    pub fn from_stream(received: &[u8], at_end: bool) -> (step: ReadStep)
        requires
            !(spec_read_request(received@, at_end) is Hangs),
        ensures
            step@ == spec_read_request(received@, at_end),
    {
        match Request::try_from_stream(received, at_end) {
            Some(step) => step,
            None => {
                assert(false);
                ReadStep::NeedByte
            },
        }
    }
}

/// The contents of an optional string.
pub open spec fn opt_view(o: Option<String>) -> Option<Seq<char>> {
    match o {
        Some(s) => Some(s@),
        None => None,
    }
}

/// The value of header `name` in request `r`: `Content-Length` is the body
/// length in decimal and `Content-Type` the media type, whatever the case
/// of the name; any other name is looked up as it is given.
pub open spec fn spec_header(r: RequestView, name: Seq<char>) -> Option<Seq<char>> {
    let c = spec_clean_header(name);
    if c == "Content-Length"@ {
        Some(decimal(r.body.len()))
    } else if c == "Content-Type"@ {
        Some(content_type_text(r.content_type))
    } else {
        lookup(r.headers, name)
    }
}

/// All headers of `r`, with `Content-Length` and `Content-Type` set from
/// the body and the media type.
pub open spec fn spec_all_headers(r: RequestView) -> Entries {
    insert_entry(
        insert_entry(r.headers, "Content-Length"@, decimal(r.body.len())),
        "Content-Type"@,
        content_type_text(r.content_type),
    )
}

/// `r` after setting header `name` to `value`: `Content-Length` cannot be
/// set (it follows the body), `Content-Type` sets the media type (the
/// default one where `value` is not a media type), any other name is stored
/// as it is given.
pub open spec fn spec_set_header(r: RequestView, name: Seq<char>, value: Seq<char>) -> RequestView {
    let c = spec_clean_header(name);
    if c == "Content-Length"@ {
        r
    } else if c == "Content-Type"@ {
        RequestView {
            content_type: match spec_content_type_from(value) {
                Some(t) => t,
                None => default_content_type(),
            },
            ..r
        }
    } else {
        RequestView { headers: insert_entry(r.headers, name, value), ..r }
    }
}

impl Request {
    /// The length of the body.
    pub fn content_length(&self) -> (r: usize)
        ensures
            r == self@.body.len(),
    {
        self.body.len()
    }

    /// The value of header `name`, as [`spec_header`] gives it.
    pub fn header(&self, name: &str) -> (r: Option<String>)
        ensures
            opt_view(r) == spec_header(self@, name@),
    {
        let cleaned = clean_header(name);
        if str_eq(cleaned.as_str(), "Content-Length") {
            Some(usize_to_string(self.content_length()))
        } else if str_eq(cleaned.as_str(), "Content-Type") {
            Some(self.content_type.to_string())
        } else {
            match self.headers.get(name) {
                Some(v) => Some(v.clone()),
                None => None,
            }
        }
    }

    /// All headers, `Content-Length` and `Content-Type` among them.
    pub fn headers(&self) -> (r: StringMap)
        ensures
            r@ == spec_all_headers(self@),
    {
        proof {
            lemma_special_names_clean();
            lemma_special_names_differ();
        }
        let mut headers = self.headers.clone();
        let length = self.header("Content-Length");
        let length = length.unwrap();
        assert(length@ == decimal(self@.body.len()));
        headers.insert(string_of("Content-Length"), length);
        let content_type = self.header("Content-Type");
        let content_type = content_type.unwrap();
        assert(content_type@ == content_type_text(self@.content_type));
        headers.insert(string_of("Content-Type"), content_type);
        headers
    }

    /// Sets header `name` to `value`, as [`spec_set_header`] says.
    pub fn set_header(&mut self, name: &str, value: &str)
        ensures
            final(self)@ == spec_set_header(old(self)@, name@, value@),
    {
        let cleaned = clean_header(name);
        if str_eq(cleaned.as_str(), "Content-Length") {
        } else if str_eq(cleaned.as_str(), "Content-Type") {
            self.content_type = match ContentType::from_str(value) {
                Ok(t) => t,
                Err(_) => ContentType::default(),
            };
        } else {
            self.headers.insert(string_of(name), string_of(value));
        }
    }

    /// The path of the request target.
    pub fn path(&self) -> (r: &str)
        ensures
            r@ == self@.uri.path,
    {
        self.uri.path.as_str()
    }

    /// The body as text, where it is valid UTF-8.
    pub fn text(&self) -> (r: Result<String, std::str::Utf8Error>)
        ensures
            r is Ok <==> valid_utf8(self@.body),
            r matches Ok(s) ==> s@ == decode_utf8(self@.body),
            r matches Err(e) ==> e == utf8_error_of(self@.body),
    {
        utf8_to_string(self.body.as_slice())
    }
}

// ---------------------------------------------------------------------------
// Laws
// ---------------------------------------------------------------------------

/// Reading a header after setting it gives what was set: the value itself
/// for an ordinary name, the body length for `Content-Length` (which cannot
/// be set), and the media type read from the value (or the default one) for
/// `Content-Type`. Setting one ordinary header leaves the value of every
/// other name as it was.
pub proof fn lemma_header_after_set(r: RequestView, name: Seq<char>, value: Seq<char>, other: Seq<char>)
    ensures
        spec_header(spec_set_header(r, name, value), name) == if spec_clean_header(name)
            == "Content-Length"@ {
            Some(decimal(r.body.len()))
        } else if spec_clean_header(name) == "Content-Type"@ {
            Some(
                content_type_text(
                    match spec_content_type_from(value) {
                        Some(t) => t,
                        None => default_content_type(),
                    },
                ),
            )
        } else {
            Some(value)
        },
        other != name && spec_clean_header(other) != "Content-Type"@ ==> spec_header(
            spec_set_header(r, name, value),
            other,
        ) == spec_header(r, other),
{
    crate::string_map::lemma_lookup_insert(r.headers, name, value, other);
}

/// The full header list carries the body length and the media type.
pub proof fn lemma_all_headers_special(r: RequestView)
    ensures
        lookup(spec_all_headers(r), "Content-Length"@) == Some(decimal(r.body.len())),
        lookup(spec_all_headers(r), "Content-Type"@) == Some(content_type_text(r.content_type)),
{
    lemma_special_names_differ();
    let h1 = insert_entry(r.headers, "Content-Length"@, decimal(r.body.len()));
    crate::string_map::lemma_lookup_insert(r.headers, "Content-Length"@, decimal(r.body.len()), "Content-Length"@);
    crate::string_map::lemma_lookup_insert(h1, "Content-Type"@, content_type_text(r.content_type), "Content-Length"@);
}

proof fn lemma_headers_at_end(b: Seq<u8>, pos: int, acc: Entries)
    requires
        0 <= pos <= b.len(),
    ensures
        !(spec_headers(b, pos, true, acc) is More),
    decreases b.len() - pos,
{
    lemma_line_bounds(b, pos, true);
    if let Some((e, n)) = line_bounds(b, pos, true) {
        if e > pos && valid_utf8(b.subrange(pos, e)) {
            let line = decode_utf8(b.subrange(pos, e));
            if let Some((name, value)) = header_split(line) {
                lemma_headers_at_end(b, n, insert_entry(acc, spec_clean_header(name), value));
            }
        }
    }
}

/// A request line with a known method and a target that does not start
/// with `:` is refused for its target (`InvalidUri` with the target), and
/// reading never hangs on it.
pub proof fn lemma_request_line_target_refused(line: Seq<char>)
    requires
        spec_words(line).len() >= 2,
        spec_method_from(spec_words(line)[0]) is Some,
        spec_words(line)[1].len() == 0 || spec_words(line)[1][0] != ':',
    ensures
        spec_request_line(line) == LineOutcome::Failed(ReadError::InvalidUri(spec_words(line)[1])),
{
    crate::http::uri::lemma_target_reading_ends(spec_words(line)[1]);
}

/// Reading a request hangs only on a complete first line that is UTF-8 and
/// whose second word, the target, starts with `:`.
pub proof fn lemma_read_hangs_only_on_colon_target(b: Seq<u8>, at_end: bool)
    ensures
        spec_read_request(b, at_end) is Hangs ==> match line_bounds(b, 0, at_end) {
            Some((e, n)) => {
                let w = spec_words(decode_utf8(b.subrange(0, e)));
                &&& valid_utf8(b.subrange(0, e))
                &&& w.len() >= 2
                &&& w[1].len() > 0
                &&& w[1][0] == ':'
            },
            None => false,
        },
{
    if let Some((e, n)) = line_bounds(b, 0, at_end) {
        if valid_utf8(b.subrange(0, e)) {
            let w = spec_words(decode_utf8(b.subrange(0, e)));
            if w.len() >= 2 && !(w[1].len() > 0 && w[1][0] == ':') {
                crate::http::uri::lemma_target_reading_ends(w[1]);
            }
        }
    }
}

/// Once the stream has ended, reading is always settled: it never asks for
/// another byte.
pub proof fn lemma_read_settles_at_end(b: Seq<u8>)
    ensures
        !(spec_read_request(b, true) is NeedByte),
{
    lemma_line_bounds(b, 0, true);
    if let Some((e, n)) = line_bounds(b, 0, true) {
        lemma_headers_at_end(b, n, Seq::empty());
    }
}

proof fn lemma_find_crlf_extend(b: Seq<u8>, more: Seq<u8>, j: int)
    requires
        0 <= j,
        find_crlf(b, j) is Some,
    ensures
        find_crlf(b + more, j) == find_crlf(b, j),
    decreases b.len() - j,
{
    let bb = b + more;
    assert(bb[j] == b[j]);
    assert(bb[j + 1] == b[j + 1]);
    if !(b[j] == CR_BYTE && b[j + 1] == LF_BYTE) {
        lemma_find_crlf_extend(b, more, j + 1);
    }
}

proof fn lemma_line_extend(b: Seq<u8>, more: Seq<u8>, pos: int, at_end: bool)
    requires
        0 <= pos <= b.len(),
        line_bounds(b, pos, false) is Some,
    ensures
        line_bounds(b + more, pos, at_end) == line_bounds(b, pos, false),
        line_bounds(b, pos, false) matches Some((e, n)) ==> (b + more).subrange(pos, e)
            == b.subrange(pos, e),
{
    lemma_find_crlf_extend(b, more, pos);
    lemma_line_bounds(b, pos, false);
    if let Some((e, n)) = line_bounds(b, pos, false) {
        assert((b + more).subrange(pos, e) =~= b.subrange(pos, e));
    }
}

proof fn lemma_headers_extend(b: Seq<u8>, more: Seq<u8>, pos: int, at_end: bool, acc: Entries)
    requires
        0 <= pos <= b.len(),
        !(spec_headers(b, pos, false, acc) is More),
    ensures
        spec_headers(b + more, pos, at_end, acc) == spec_headers(b, pos, false, acc),
    decreases b.len() - pos,
{
    lemma_line_extend(b, more, pos, at_end);
    lemma_line_bounds(b, pos, false);
    if let Some((e, n)) = line_bounds(b, pos, false) {
        if e > pos && valid_utf8(b.subrange(pos, e)) {
            let line = decode_utf8(b.subrange(pos, e));
            if let Some((name, value)) = header_split(line) {
                lemma_headers_extend(b, more, n, at_end, insert_entry(acc, spec_clean_header(name), value));
            }
        }
    }
}

/// A settled decision stays settled: once the bytes received so far decide
/// the request (or the error, or that reading runs forever), more bytes and
/// the end of the stream change nothing.
pub proof fn lemma_read_prefix_stable(b: Seq<u8>, more: Seq<u8>, at_end: bool)
    requires
        !(spec_read_request(b, false) is NeedByte),
    ensures
        spec_read_request(b + more, at_end) == spec_read_request(b, false),
{
    let bb = b + more;
    lemma_line_extend(b, more, 0, at_end);
    lemma_line_bounds(b, 0, false);
    let (e, n) = line_bounds(b, 0, false).unwrap();
    if valid_utf8(b.subrange(0, e)) {
        if let LineOutcome::Parsed(m, u, v) = spec_request_line(decode_utf8(b.subrange(0, e))) {
            lemma_headers_extend(b, more, n, at_end, Seq::empty());
            if let HeadersOutcome::Ended(h, p) = spec_headers(b, n, false, Seq::empty()) {
                let cl = content_length_of(h);
                if cl > 0 {
                    assert(bb.subrange(p, p + cl) =~= b.subrange(p, p + cl));
                }
            }
        }
    }
}

} // verus!
