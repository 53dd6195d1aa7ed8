//! Responses, and the bytes that carry them.
use vstd::prelude::*;
use vstd::utf8::{decode_utf8, encode_utf8, valid_utf8};

use crate::http::content_type::{default_content_type, spec_text_type_from, ContentType, TextType};
use crate::http::status::{reason_phrase, status_code, status_text, Status};
use crate::string_map::{Entries, StringMap};
use crate::text::{
    ascii_lowercase, ascii_uppercase, chars_of, decimal, spec_ascii_lower, spec_ascii_upper,
    string_from_chars, string_of, utf8_bytes, utf8_to_string,
};

verus! {

/// The protocol version of a new response.
pub const DEFAULT_HTTP_VERSION: &'static str = "HTTP/1.1";

/// The server name that a new response carries.
pub const SERVER_NAME: &'static str = "Thermos";

/// A response.
#[derive(Clone, Debug)]
pub struct Response {
    pub body: Vec<u8>,
    pub content_type: ContentType,
    pub headers: StringMap,
    pub status: Status,
    pub version: String,
}

/// The headers of a new response: `Server: Thermos`.
pub open spec fn default_header_entries() -> Entries {
    seq![("Server"@, SERVER_NAME@)]
}

/// `r` has the defaults of a new response in every field but the body,
/// the media type and the status.
pub open spec fn has_default_envelope(r: Response) -> bool {
    &&& r.headers@ == default_header_entries()
    &&& r.version@ == DEFAULT_HTTP_VERSION@
}

/// A header name as a response writes it: the first character upper-cased
/// and the others lower-cased (ASCII only).
pub open spec fn format_header_name(k: Seq<char>) -> Seq<char> {
    if k.len() == 0 {
        Seq::empty()
    } else {
        seq![spec_ascii_upper(k[0])] + k.drop_first().map_values(|c: char| spec_ascii_lower(c))
    }
}

pub open spec fn crlf() -> Seq<char> {
    seq!['\r', '\n']
}

/// The header lines of a response, one `Name: value` line per entry, in
/// the order of the entries.
pub open spec fn header_lines(m: Entries) -> Seq<char>
    decreases m.len(),
{
    if m.len() == 0 {
        Seq::empty()
    } else {
        header_lines(m.drop_last()) + format_header_name(m.last().0) + seq![':', ' '] + m.last().1
            + crlf()
    }
}

/// The text before the body: the status line, the header lines and an
/// empty line. The media type is not written as a header.
pub open spec fn response_head(r: Response) -> Seq<char> {
    r.version@ + seq![' '] + status_text(r.status) + crlf() + header_lines(r.headers@) + crlf()
}

/// The headers of a new response.
fn default_headers() -> (r: StringMap)
    ensures
        r@ == default_header_entries(),
{
    let mut headers = StringMap::new();
    headers.insert(string_of("Server"), string_of(SERVER_NAME));
    assert(headers@ =~= default_header_entries());
    headers
}

/// Appends the characters of `s` to `out`.
fn push_str(out: &mut Vec<char>, s: &str)
    ensures
        final(out)@ == old(out)@ + s@,
{
    let mut cs = chars_of(s);
    out.append(&mut cs);
}

/// Appends `name` as a response writes it.
fn push_header_name(out: &mut Vec<char>, name: &str)
    ensures
        final(out)@ == old(out)@ + format_header_name(name@),
{
    let cs = chars_of(name);
    let ghost start = out@;
    let mut i: usize = 0;
    while i < cs.len()
        invariant
            i <= cs.len(),
            cs@ == name@,
            out@ == start + format_header_name(cs@.take(i as int)),
        decreases cs.len() - i,
    {
        let c = cs[i];
        let ghost before = out@;
        if i == 0 {
            out.push(ascii_uppercase(c));
            assert(format_header_name(cs@.take(1)) =~= seq![spec_ascii_upper(c)]);
        } else {
            out.push(ascii_lowercase(c));
            let ghost t = cs@.take(i as int);
            let ghost t1 = cs@.take(i + 1);
            assert(t1.drop_first() =~= t.drop_first().push(c));
            assert(format_header_name(t1) =~= format_header_name(t).push(spec_ascii_lower(c)));
        }
        i = i + 1;
    }
    assert(cs@.take(cs.len() as int) == cs@);
}

impl Default for Response {
    fn default() -> (r: Self)
        ensures
            r.body@.len() == 0,
            r.content_type == default_content_type(),
            r.status == Status::OK,
            has_default_envelope(r),
    {
        Response {
            body: Vec::new(),
            content_type: ContentType::default(),
            headers: default_headers(),
            status: Status::OK,
            version: string_of(DEFAULT_HTTP_VERSION),
        }
    }
}

impl Response {
    /// The bytes of the response: the UTF-8 encoding of its head (status
    /// line, headers, empty line), then the body. Writing to memory does
    /// not fail.
    pub fn bytes(&self) -> (r: Result<Vec<u8>, std::io::Error>)
        ensures
            r matches Ok(b) && b@ == encode_utf8(response_head(*self)) + self.body@,
    {
        let mut head: Vec<char> = Vec::new();
        push_str(&mut head, self.version.as_str());
        head.push(' ');
        let status = self.status.to_string();
        push_str(&mut head, status.as_str());
        head.push('\r');
        head.push('\n');
        assert(head@ =~= self.version@ + seq![' '] + status_text(self.status) + crlf());
        let ghost first = head@;
        let n = self.headers.len();
        let mut i: usize = 0;
        while i < n
            invariant
                i <= n,
                n == self.headers@.len(),
                head@ == first + header_lines(self.headers@.take(i as int)),
            decreases n - i,
        {
            let (name, value) = self.headers.entry(i);
            let ghost before = head@;
            push_header_name(&mut head, name.as_str());
            head.push(':');
            head.push(' ');
            push_str(&mut head, value.as_str());
            head.push('\r');
            head.push('\n');
            let ghost t1 = self.headers@.take(i + 1);
            assert(t1.drop_last() =~= self.headers@.take(i as int));
            assert(head@ =~= before + format_header_name(t1.last().0) + seq![':', ' '] + t1.last().1
                + crlf());
            i = i + 1;
        }
        assert(self.headers@.take(n as int) =~= self.headers@);
        head.push('\r');
        head.push('\n');
        assert(head@ =~= response_head(*self));
        let text = string_from_chars(head.as_slice());
        let mut buf = utf8_bytes(text.as_str());
        let ghost head_bytes = buf@;
        let mut k: usize = 0;
        while k < self.body.len()
            invariant
                k <= self.body@.len(),
                buf@ == head_bytes + self.body@.take(k as int),
            decreases self.body.len() - k,
        {
            buf.push(self.body[k]);
            k = k + 1;
            assert(buf@ =~= head_bytes + self.body@.take(k as int));
        }
        assert(self.body@.take(self.body@.len() as int) =~= self.body@);
        Ok(buf)
    }

    /// The response as text, where its bytes are valid UTF-8.
    pub fn to_string(&self) -> (r: Option<String>)
        ensures
            r is Some <==> valid_utf8(encode_utf8(response_head(*self)) + self.body@),
            r matches Some(s) ==> s@ == decode_utf8(encode_utf8(response_head(*self)) + self.body@),
    {
        let bytes = self.bytes();
        match bytes {
            Ok(b) => match utf8_to_string(b.as_slice()) {
                Ok(s) => Some(s),
                Err(_) => None,
            },
            Err(_) => None,
        }
    }

    /// A response with the file contents `contents` as body, its media type
    /// `text/<extension>` where the extension is a known text subtype and
    /// `text/plain` otherwise.
    pub fn with_file_contents(extension: &str, contents: Vec<u8>) -> (r: Self)
        ensures
            r.body@ == contents@,
            r.content_type == ContentType::Text(
                match spec_text_type_from(extension@) {
                    Some(t) => t,
                    None => TextType::Plain,
                },
            ),
            r.status == Status::OK,
            has_default_envelope(r),
    {
        let text_type = match TextType::from_str(extension) {
            Ok(t) => t,
            Err(_) => TextType::default(),
        };
        let mut r = Response::default();
        r.body = contents;
        r.content_type = ContentType::Text(text_type);
        r
    }

    /// A `text/plain` response whose body is `text` in UTF-8.
    pub fn with_text(text: &str) -> (r: Self)
        ensures
            r.body@ == encode_utf8(text@),
            r.content_type == ContentType::Text(TextType::Plain),
            r.status == Status::OK,
            has_default_envelope(r),
    {
        let mut r = Response::default();
        r.body = utf8_bytes(text);
        r.content_type = ContentType::Text(TextType::Plain);
        r
    }

    /// An empty response with status `status`.
    pub fn with_status(status: Status) -> (r: Self)
        ensures
            r.body@.len() == 0,
            r.content_type == default_content_type(),
            r.status == status,
            has_default_envelope(r),
    {
        let mut r = Response::default();
        r.status = status;
        r
    }
}

/// A response with the defaults of a new one begins `HTTP/1.1 `, then the
/// code in decimal, a space and the reason phrase, then the one header line
/// `Server: Thermos`, then an empty line.
pub proof fn lemma_default_response_head(r: Response)
    requires
        has_default_envelope(r),
    ensures
        response_head(r) == "HTTP/1.1 "@ + decimal(status_code(r.status) as nat) + seq![' ']
            + reason_phrase(r.status) + "\r\nServer: Thermos\r\n\r\n"@,
{
    reveal_strlit("HTTP/1.1 ");
    reveal_strlit("HTTP/1.1");
    reveal_strlit("Server");
    reveal_strlit("Thermos");
    reveal_strlit("\r\nServer: Thermos\r\n\r\n");
    let m = r.headers@;
    assert(m.len() == 1);
    assert(m.last() == ("Server"@, SERVER_NAME@));
    assert(SERVER_NAME@ == "Thermos"@);
    assert(r.version@ == "HTTP/1.1"@);
    assert(m.drop_last() =~= Seq::<(Seq<char>, Seq<char>)>::empty());
    assert(header_lines(m.drop_last()) == Seq::<char>::empty());
    assert(format_header_name("Server"@) =~= "Server"@);
    assert(header_lines(m) =~= "Server: "@ + "Thermos"@ + crlf()) by {
        reveal_strlit("Server: ");
    }
    assert(response_head(r) =~= "HTTP/1.1 "@ + decimal(status_code(r.status) as nat) + seq![' ']
        + reason_phrase(r.status) + "\r\nServer: Thermos\r\n\r\n"@) by {
        reveal_strlit("Server: ");
    }
}

} // verus!
