//! The HTTP layer that the WebSocket engine rests on: parsed requests with
//! their headers, and a builder for responses.

use vstd::prelude::*;
use vstd::string::{StrSliceExecFns, StringExecFns};
use vstd::utf8::{decode_utf8, valid_utf8};
use crate::text::{
    collect_chars, decimal, decimal_digits, lemma_low_bytes_of_ascii, low_bytes, push_text,
    str_equal, string_from_ascii, trim, trim_str,
};

verus! {

/// Entry point of the response builder.
pub struct Response {}

/// A response with its status line and any number of headers, still open for
/// more headers.
pub struct ResponseWithStatusLine {
    bytes: Vec<u8>,
}

/// A finished response: status line, headers, empty line and payload.
pub struct ResponseComplete {
    bytes: Vec<u8>,
}

impl View for ResponseWithStatusLine {
    type V = Seq<u8>;

    closed spec fn view(&self) -> Seq<u8> {
        self.bytes@
    }
}

impl View for ResponseComplete {
    type V = Seq<u8>;

    closed spec fn view(&self) -> Seq<u8> {
        self.bytes@
    }
}

/// The end of a line: carriage return and line feed.
pub open spec fn crlf() -> Seq<u8> {
    seq![0x0Du8, 0x0Au8]
}

/// The status line `version code reason` with its line end.
pub open spec fn status_line(version: Seq<char>, status: Seq<char>, code: u16) -> Seq<u8> {
    low_bytes(version) + seq![0x20u8] + decimal(code as nat) + seq![0x20u8] + low_bytes(status)
        + crlf()
}

/// The header line `name: value` with its line end.
pub open spec fn header_line(name: Seq<char>, value: Seq<char>) -> Seq<u8> {
    low_bytes(name) + seq![0x3Au8, 0x20u8] + low_bytes(value) + crlf()
}

/// The `Content-Length` header line for a payload of `len` bytes: the
/// length in decimal digits.
pub open spec fn content_length_line(len: nat) -> Seq<u8> {
    low_bytes("Content-Length"@) + seq![0x3Au8, 0x20u8] + decimal(len) + crlf()
}

impl Response {
    /// Starts a response with the status line
    /// `HTTP-Version SP Status-Code SP Reason-Phrase CRLF`.
    pub fn status(version: &str, status: &str, code: u16) -> (r: ResponseWithStatusLine)
        ensures
            r@ == status_line(version@, status@, code),
    {
        let mut bytes: Vec<u8> = Vec::new();
        push_text(&mut bytes, version);
        bytes.push(0x20);
        let digits: Vec<u8> = decimal_digits(code as u64);
        bytes.extend_from_slice(digits.as_slice());
        bytes.push(0x20);
        push_text(&mut bytes, status);
        bytes.push(0x0D);
        bytes.push(0x0A);
        assert(bytes@ =~= status_line(version@, status@, code));
        ResponseWithStatusLine::from(bytes)
    }
}

impl ResponseWithStatusLine {
    /// The response that consists of `bytes` so far.
    fn from(bytes: Vec<u8>) -> (r: Self)
        ensures
            r@ == bytes@,
    {
        Self { bytes: bytes }
    }

    /// Appends the header line `name: value`.
    fn add_header(&mut self, name: &str, value: &str)
        ensures
            final(self)@ == old(self)@ + header_line(name@, value@),
    {
        let ghost before = self.bytes@;
        push_text(&mut self.bytes, name);
        self.bytes.push(0x3A);
        self.bytes.push(0x20);
        push_text(&mut self.bytes, value);
        self.bytes.push(0x0D);
        self.bytes.push(0x0A);
        assert(self.bytes@ =~= before + header_line(name@, value@));
    }

    /// Adds the header `name: value` and hands the response on; `self` is
    /// left empty. `Content-Length` is not set by hand: `payload` sets it.
    pub fn header(&mut self, name: &str, value: &str) -> (r: Self)
        requires
            name@ != "Content-Length"@,
        ensures
            r@ == old(self)@ + header_line(name@, value@),
            final(self)@ == Seq::<u8>::empty(),
    {
        self.add_header(name, value);
        let mut bytes: Vec<u8> = Vec::new();
        core::mem::swap(&mut self.bytes, &mut bytes);
        Self::from(bytes)
    }

    /// Finishes the response with a payload: the `Content-Length` header,
    /// the empty line and the payload bytes. `self` is left empty.
    pub fn payload(&mut self, bytes: &[u8]) -> (r: ResponseComplete)
        ensures
            r@ == old(self)@ + content_length_line(bytes@.len()) + crlf() + bytes@,
            final(self)@ == Seq::<u8>::empty(),
    {
        let ghost before = self.bytes@;
        let digits: Vec<u8> = decimal_digits(bytes.len() as u64);
        let length: String = string_from_ascii(digits.as_slice());
        self.add_header("Content-Length", length.as_str());
        proof {
            lemma_low_bytes_of_ascii(digits@);
        }
        self.bytes.push(0x0D);
        self.bytes.push(0x0A);
        self.bytes.extend_from_slice(bytes);
        assert(self.bytes@ =~= before + content_length_line(bytes@.len()) + crlf() + bytes@);
        let mut all: Vec<u8> = Vec::new();
        core::mem::swap(&mut self.bytes, &mut all);
        ResponseComplete::from(all)
    }

    /// Finishes the response without a payload: the empty line ends it.
    /// `self` is left empty.
    pub fn build(&mut self) -> (r: ResponseComplete)
        ensures
            r@ == old(self)@ + crlf(),
            final(self)@ == Seq::<u8>::empty(),
    {
        let ghost before = self.bytes@;
        self.bytes.push(0x0D);
        self.bytes.push(0x0A);
        assert(self.bytes@ =~= before + crlf());
        let mut all: Vec<u8> = Vec::new();
        core::mem::swap(&mut self.bytes, &mut all);
        ResponseComplete::from(all)
    }
}

impl ResponseComplete {
    /// The finished response that consists of `bytes`.
    fn from(bytes: Vec<u8>) -> (r: Self)
        ensures
            r@ == bytes@,
    {
        Self { bytes: bytes }
    }

    /// The bytes to be written to the transport.
    pub fn as_bytes(&self) -> (r: &[u8])
        ensures
            r@ == self@,
    {
        self.bytes.as_slice()
    }

    /// Appends the response to the bytes that go out. This cannot fail.
    pub fn send(&self, out: &mut Vec<u8>) -> (r: bool)
        ensures
            r,
            final(out)@ == old(out)@ + self@,
    {
        let ghost before = out@;
        out.extend_from_slice(self.bytes.as_slice());
        assert(out@ =~= before + self@);
        true
    }
}

/// The request methods that are served.
#[derive(Clone, Copy, Debug, PartialEq, Eq, Structural)]
pub enum Method {
    GET,
}

/// A part of the request text, by the offset and the number of its
/// characters.
#[derive(Clone, Copy)]
struct StringRange {
    offset: usize,
    len: usize,
}

impl StringRange {
    /// The range from `start` up to, not including, `end`.
    fn from_indices(start: usize, end: usize) -> (r: Self)
        requires
            start <= end,
        ensures
            r.offset == start,
            r.len == end - start,
    {
        Self { offset: start, len: end - start }
    }

    /// The range of `len` characters from `offset` on.
    #[allow(dead_code)]
    fn from(offset: usize, len: usize) -> (r: Self)
        ensures
            r.offset == offset,
            r.len == len,
    {
        Self { offset: offset, len: len }
    }

    /// The range lies within a text of `n` characters.
    spec fn within(self, n: nat) -> bool {
        self.offset + self.len <= n
    }

    /// The part of `text` that the range stands for.
    spec fn of(self, text: Seq<char>) -> Seq<char> {
        text.subrange(self.offset as int, self.offset + self.len)
    }
}

/// Whether the character is a control character.
#[allow(dead_code)]
fn is_ctl(c: char) -> (r: bool)
    ensures
        r == (c as u32 <= 31 || c as u32 == 127),
{
    c as u32 <= 31 || c as u32 == 127
}

/// Whether the character is an upper case letter `A`-`Z`.
#[allow(dead_code)]
fn is_upalpha(c: char) -> (r: bool)
    ensures
        r == ('A' <= c <= 'Z'),
{
    c >= 'A' && c <= 'Z'
}

/// Whether the character is a lower case letter `a`-`z`.
#[allow(dead_code)]
fn is_loalpha(c: char) -> (r: bool)
    ensures
        r == ('a' <= c <= 'z'),
{
    c >= 'a' && c <= 'z'
}

/// Whether the character is an ASCII character.
#[allow(dead_code)]
fn is_ascii_char(c: char) -> (r: bool)
    ensures
        r == (c as u32 <= 127),
{
    c as u32 <= 127
}

/// A line end, carriage return and line feed, stands at index `i` of `s`.
pub open spec fn crlf_at(s: Seq<char>, i: int) -> bool {
    0 <= i && i + 1 < s.len() && s[i] == '\r' && s[i + 1] == '\n'
}

/// The index of the first line end in `s` at or behind `from`.
pub open spec fn find_crlf(s: Seq<char>, from: int) -> Option<int>
    decreases s.len() - from,
{
    if from < 0 || from + 1 >= s.len() {
        None
    } else if crlf_at(s, from) {
        Some(from)
    } else {
        find_crlf(s, from + 1)
    }
}

/// The index of the first `c` in `s` at or behind `from`.
pub open spec fn find_char(s: Seq<char>, c: char, from: int) -> Option<int>
    decreases s.len() - from,
{
    if from < 0 || from >= s.len() {
        None
    } else if s[from] == c {
        Some(from)
    } else {
        find_char(s, c, from + 1)
    }
}

/// The first line end in `s` at or behind `from`.
fn search_crlf(s: &[char], from: usize) -> (r: Option<usize>)
    ensures
        match r {
            Some(i) => find_crlf(s@, from as int) == Some(i as int) && from <= i && i + 2
                <= s@.len(),
            None => find_crlf(s@, from as int) is None,
        },
{
    let n: usize = s.len();
    let mut i: usize = from;
    while i < n && i + 1 < n
        invariant
            from <= i,
            n == s@.len(),
            find_crlf(s@, from as int) == find_crlf(s@, i as int),
        decreases n - i,
    {
        if s[i] == '\r' && s[i + 1] == '\n' {
            return Some(i);
        }
        i += 1;
    }
    None
}

/// The first `c` in `s` at or behind `from`.
fn search_char(s: &[char], c: char, from: usize) -> (r: Option<usize>)
    ensures
        match r {
            Some(i) => find_char(s@, c, from as int) == Some(i as int) && from <= i < s@.len(),
            None => find_char(s@, c, from as int) is None,
        },
{
    let n: usize = s.len();
    let mut i: usize = from;
    while i < n
        invariant
            from <= i,
            n == s@.len(),
            find_char(s@, c, from as int) == find_char(s@, c, i as int),
        decreases n - i,
    {
        if s[i] == c {
            return Some(i);
        }
        i += 1;
    }
    None
}

/// The first line of a request: method, request URI and HTTP version.
#[derive(Clone)]
pub struct RequestLine {
    pub method: Method,
    request_uri: StringRange,
    http_version: StringRange,
}

/// One header line of a request: the name before the colon and the value
/// behind it.
pub struct Header {
    name: StringRange,
    value: StringRange,
}

/// Mathematical content of a request line.
pub struct RequestLineView {
    pub method: Method,
    pub uri: Seq<char>,
    pub version: Seq<char>,
}

/// Mathematical content of a request: its text and what the text says.
pub struct RequestView {
    pub text: Seq<char>,
    pub line: RequestLineView,
    /// Name and value of each header, as they stand in the text.
    pub headers: Seq<(Seq<char>, Seq<char>)>,
}

/// Why a text is no request.
pub enum ParseFailure {
    /// The request line does not hold two spaces.
    MissingSpaces,
    /// The method is not one that is served.
    InvalidMethod,
    /// A header line, given here, holds no colon.
    MissingColon(Seq<char>),
    /// No empty line ends the headers.
    MissingEnd,
}

/// The words in which a failure is reported.
pub open spec fn failure_message(failure: ParseFailure) -> Seq<char> {
    match failure {
        ParseFailure::MissingSpaces => "Didn't find two spaces in Request-Line"@,
        ParseFailure::InvalidMethod => "Invalid Method"@,
        ParseFailure::MissingColon(line) => "Header '"@ + line + "' does not contain colon!"@,
        ParseFailure::MissingEnd => "Didn't find two consecutives CRLFs"@,
    }
}

/// What can go wrong when a request is parsed.
#[derive(Debug)]
pub enum ParseError {
    /// The bytes are not valid UTF-8.
    Utf(core::str::Utf8Error),
    /// The text is no request; the message says why.
    InvalidRequest(String),
}

/// The error reports the failure in the words of `failure_message`.
pub open spec fn reports(error: ParseError, failure: ParseFailure) -> bool {
    error matches ParseError::InvalidRequest(message) && message@ == failure_message(failure)
}

/// The request line that `text` starts with, read up to the first line end
/// or to the end of the text: `Method SP Request-URI SP HTTP-Version`. The
/// method is what stands before the first space, the URI what stands between
/// the first and the second, and the version all that follows.
pub open spec fn request_line_of(text: Seq<char>) -> Result<RequestLineView, ParseFailure> {
    let line = match find_crlf(text, 0) {
        Some(end) => text.take(end),
        None => text,
    };
    match find_char(line, ' ', 0) {
        None => Err(ParseFailure::MissingSpaces),
        Some(idx0) => match find_char(line, ' ', idx0 + 1) {
            None => Err(ParseFailure::MissingSpaces),
            Some(idx1) => if line.take(idx0) == "GET"@ {
                Ok(
                    RequestLineView {
                        method: Method::GET,
                        uri: line.subrange(idx0 + 1, idx1),
                        version: line.skip(idx1 + 1),
                    },
                )
            } else {
                Err(ParseFailure::InvalidMethod)
            },
        },
    }
}

/// The headers that `lines` hold, one to a line, up to the first empty
/// line. Each line is split at its first colon.
pub open spec fn headers_of(lines: Seq<char>) -> Result<
    Seq<(Seq<char>, Seq<char>)>,
    ParseFailure,
>
    decreases lines.len(),
{
    match find_crlf(lines, 0) {
        None => Err(ParseFailure::MissingEnd),
        Some(end) => {
            let line = lines.take(end);
            if end < 0 || end + 2 > lines.len() {
                Err(ParseFailure::MissingEnd)
            } else if line.len() == 0 {
                Ok(Seq::empty())
            } else {
                match find_char(line, ':', 0) {
                    None => Err(ParseFailure::MissingColon(line)),
                    Some(delim) => match headers_of(lines.skip(end + 2)) {
                        Ok(rest) => Ok(seq![(line.take(delim), line.skip(delim + 1))] + rest),
                        Err(e) => Err(e),
                    },
                }
            }
        },
    }
}

/// The length of the first line of `s`: up to the first line end, or all of
/// `s` where it holds none.
pub open spec fn first_line_len(s: Seq<char>) -> int {
    if s.len() <= 2 {
        s.len() as int
    } else {
        match find_crlf(s, 0) {
            Some(end) => end,
            None => s.len() as int,
        }
    }
}

/// What a request text says: the request line, then the headers from the
/// second line on.
pub open spec fn request_of(text: Seq<char>) -> Result<RequestView, ParseFailure> {
    let end = first_line_len(text);
    let lines = if end + 2 <= text.len() {
        text.skip(end + 2)
    } else {
        Seq::empty()
    };
    match request_line_of(text.take(end)) {
        Err(e) => Err(e),
        Ok(line) => match headers_of(lines) {
            Err(e) => Err(e),
            Ok(headers) => Ok(RequestView { text, line, headers }),
        },
    }
}

impl RequestLine {
    /// The method that the request line names.
    pub closed spec fn method_of(self) -> Method {
        self.method
    }

    /// Both ranges lie within a text of `n` characters.
    pub closed spec fn within(self, n: nat) -> bool {
        self.request_uri.within(n) && self.http_version.within(n)
    }

    /// What the request line says, read in `text`.
    pub closed spec fn view_in(self, text: Seq<char>) -> RequestLineView {
        RequestLineView {
            method: self.method,
            uri: self.request_uri.of(text),
            version: self.http_version.of(text),
        }
    }
}

impl Header {
    /// Both ranges lie within a text of `n` characters.
    spec fn within(self, n: nat) -> bool {
        self.name.within(n) && self.value.within(n)
    }

    /// Name and value of the header, read in `text`.
    spec fn view_in(self, text: Seq<char>) -> (Seq<char>, Seq<char>) {
        (self.name.of(text), self.value.of(text))
    }
}

/// All headers lie within a text of `n` characters.
spec fn headers_within(headers: Seq<Header>, n: nat) -> bool {
    forall|i: int| 0 <= i < headers.len() ==> (#[trigger] headers[i]).within(n)
}

/// Names and values of the headers, read in `text`.
spec fn headers_in(headers: Seq<Header>, text: Seq<char>) -> Seq<(Seq<char>, Seq<char>)> {
    Seq::new(headers.len(), |i: int| headers[i].view_in(text))
}

/// The error for a text that is no request.
fn invalid_request(message: &str) -> (r: ParseError)
    ensures
        r matches ParseError::InvalidRequest(m) && m@ == message@,
{
    ParseError::InvalidRequest(String::from_str(message))
}

/// Splits `s` at its first line end into the line and what follows it.
fn next_line(s: &[char]) -> (r: Option<(&[char], &[char])>)
    ensures
        match r {
            Some((line, rest)) => {
                &&& find_crlf(s@, 0) == Some(line@.len() as int)
                &&& line@.len() + 2 <= s@.len()
                &&& line@ == s@.take(line@.len() as int)
                &&& rest@ == s@.skip(line@.len() as int + 2)
            },
            None => find_crlf(s@, 0) is None,
        },
{
    match search_crlf(s, 0) {
        Some(idx) => {
            let n: usize = s.len();
            let line: &[char] = &s[0..idx];
            let rest: &[char] = &s[idx + 2..n];
            assert(line@ =~= s@.take(idx as int));
            assert(rest@ =~= s@.skip(idx + 2));
            Some((line, rest))
        },
        None => None,
    }
}

/// Reads the request line that `text` starts with.
fn parse_request_line(text: &[char]) -> (r: Result<RequestLine, ParseError>)
    ensures
        match r {
            Ok(line) => line.within(text@.len()) && request_line_of(text@) == Ok::<
                RequestLineView,
                ParseFailure,
            >(line.view_in(text@)),
            Err(e) => request_line_of(text@) matches Err(failure) && reports(e, failure),
        },
{
    let line_end: usize = match search_crlf(text, 0) {
        Some(end) => end,
        None => text.len(),
    };
    let line: &[char] = &text[0..line_end];
    assert(line@ =~= text@.take(line_end as int));
    assert(text@.take(text@.len() as int) =~= text@);
    //  Request-Line   = Method SP Request-URI SP HTTP-Version CRLF
    let idx0: usize = match search_char(line, ' ', 0) {
        Some(first_index) => first_index,
        None => {
            return Err(invalid_request("Didn't find two spaces in Request-Line"));
        },
    };
    let idx1: usize = match search_char(line, ' ', idx0 + 1) {
        Some(second_index) => second_index,
        None => {
            return Err(invalid_request("Didn't find two spaces in Request-Line"));
        },
    };
    proof {
        reveal_strlit("GET");
    }
    let is_get: bool = idx0 == 3 && line[0] == 'G' && line[1] == 'E' && line[2] == 'T';
    proof {
        if is_get {
            assert(line@.take(idx0 as int) =~= "GET"@);
        } else if idx0 == 3 {
            assert(line@.take(3)[0] == line@[0]);
            assert(line@.take(3)[1] == line@[1]);
            assert(line@.take(3)[2] == line@[2]);
        } else {
            assert(line@.take(idx0 as int).len() != "GET"@.len());
        }
    }
    if !is_get {
        return Err(invalid_request("Invalid Method"));
    }
    let parsed = RequestLine {
        method: Method::GET,
        request_uri: StringRange::from_indices(idx0 + 1, idx1),
        http_version: StringRange::from_indices(idx1 + 1, line.len()),
    };
    proof {
        assert(parsed.request_uri.of(text@) =~= line@.subrange(idx0 + 1, idx1 as int));
        assert(parsed.http_version.of(text@) =~= line@.skip(idx1 + 1));
    }
    Ok(parsed)
}

/// Reads the headers in `headers_lines`, the part of `raw` from `offset` on,
/// up to the empty line that ends them.
fn parse_headers(raw: &str, headers_lines: &[char], offset: usize) -> (r: Result<
    Vec<Header>,
    ParseError,
>)
    requires
        offset <= raw@.len() <= usize::MAX,
        headers_lines@ == raw@.skip(offset as int),
    ensures
        match r {
            Ok(headers) => headers_within(headers@, raw@.len()) && headers_of(headers_lines@)
                == Ok::<Seq<(Seq<char>, Seq<char>)>, ParseFailure>(headers_in(headers@, raw@)),
            Err(e) => headers_of(headers_lines@) matches Err(failure) && reports(e, failure),
        },
{
    let mut skipped: usize = offset;
    let mut headers: Vec<Header> = Vec::new();
    let mut lines: &[char] = headers_lines;
    proof {
        assert(headers_in(headers@, raw@) =~= Seq::empty());
        lemma_headers_found(headers_in(headers@, raw@), headers_of(lines@));
    }
    loop
        invariant
            skipped <= raw@.len() <= usize::MAX,
            lines@ == raw@.skip(skipped as int),
            headers_within(headers@, raw@.len()),
            headers_of(headers_lines@) == headers_after(
                headers_in(headers@, raw@),
                headers_of(lines@),
            ),
        decreases lines@.len(),
    {
        let ghost found = headers_in(headers@, raw@);
        match next_line(lines) {
            None => {
                return Err(invalid_request("Didn't find two consecutives CRLFs"));
            },
            Some((line, rest)) => {
                if line.len() == 0 {
                    proof {
                        lemma_headers_found(found, Ok(Seq::empty()));
                    }
                    return Ok(headers);
                }
                let end: usize = skipped + line.len();
                match search_char(line, ':', 0) {
                    Some(delim) => {
                        let header = Header {
                            name: StringRange::from_indices(skipped, skipped + delim),
                            value: StringRange::from_indices(skipped + delim + 1, end),
                        };
                        proof {
                            assert(header.name.of(raw@) =~= line@.take(delim as int));
                            assert(header.value.of(raw@) =~= line@.skip(delim + 1));
                        }
                        headers.push(header);
                        proof {
                            assert(headers_in(headers@, raw@) =~= found.push(
                                header.view_in(raw@),
                            ));
                            assert(rest@ =~= raw@.skip(end + 2));
                            lemma_headers_step(found, header.view_in(raw@), headers_of(rest@));
                        }
                    },
                    None => {
                        let text: &str = raw.substring_char(skipped, end);
                        assert(text@ =~= line@);
                        let mut message: String = String::from_str("Header '");
                        message.append(text);
                        message.append("' does not contain colon!");
                        return Err(ParseError::InvalidRequest(message));
                    },
                }
                skipped = end + 2;
                lines = rest;
            },
        }
    }
}

/// The result of reading headers, given the headers that were found before
/// and the result for the lines behind them.
spec fn headers_after(
    found: Seq<(Seq<char>, Seq<char>)>,
    later: Result<Seq<(Seq<char>, Seq<char>)>, ParseFailure>,
) -> Result<Seq<(Seq<char>, Seq<char>)>, ParseFailure> {
    match later {
        Ok(rest) => Ok(found + rest),
        Err(e) => Err(e),
    }
}

/// With nothing found before, or nothing that follows, the result is what
/// there is.
proof fn lemma_headers_found(
    found: Seq<(Seq<char>, Seq<char>)>,
    later: Result<Seq<(Seq<char>, Seq<char>)>, ParseFailure>,
)
    ensures
        found.len() == 0 ==> headers_after(found, later) == later,
        later == Ok::<Seq<(Seq<char>, Seq<char>)>, ParseFailure>(Seq::empty()) ==> headers_after(
            found,
            later,
        ) == Ok::<Seq<(Seq<char>, Seq<char>)>, ParseFailure>(found),
{
    match later {
        Ok(rest) => {
            if found.len() == 0 {
                assert(found + rest =~= rest);
            }
            if rest.len() == 0 {
                assert(found + rest =~= found);
            }
        },
        Err(e) => {},
    }
}

/// One more header found goes to the end of those found before.
proof fn lemma_headers_step(
    found: Seq<(Seq<char>, Seq<char>)>,
    header: (Seq<char>, Seq<char>),
    later: Result<Seq<(Seq<char>, Seq<char>)>, ParseFailure>,
)
    ensures
        headers_after(found, headers_after(seq![header], later)) == headers_after(
            found.push(header),
            later,
        ),
{
    match later {
        Ok(rest) => {
            assert(found + (seq![header] + rest) =~= found.push(header) + rest);
        },
        Err(e) => {},
    }
}

/// The value of the first header in `headers` whose name is exactly `name`,
/// without the white space around it.
pub open spec fn header_value(headers: Seq<(Seq<char>, Seq<char>)>, name: Seq<char>) -> Option<
    Seq<char>,
>
    decreases headers.len(),
{
    if headers.len() == 0 {
        None
    } else if headers[0].0 == name {
        Some(trim(headers[0].1))
    } else {
        header_value(headers.drop_first(), name)
    }
}

/// A parsed request: its text, with the places of the request line's parts
/// and of the headers in it.
pub struct Request {
    request_line: RequestLine,
    raw_request: String,
    headers: Vec<Header>,
}

impl View for Request {
    type V = RequestView;

    closed spec fn view(&self) -> RequestView {
        RequestView {
            text: self.raw_request@,
            line: self.request_line.view_in(self.raw_request@),
            headers: headers_in(self.headers@, self.raw_request@),
        }
    }
}

impl Request {
    /// Every part lies within the text.
    #[verifier::type_invariant]
    spec fn parts_within_text(self) -> bool {
        &&& self.raw_request@.len() <= usize::MAX
        &&& self.request_line.within(self.raw_request@.len())
        &&& headers_within(self.headers@, self.raw_request@.len())
    }

    /// Parses the text of a request: the request line and the headers up to
    /// the empty line. What follows the empty line is kept but not read.
    pub fn from(raw_text: String) -> (r: Result<Self, ParseError>)
        ensures
            match r {
                Ok(request) => request_of(raw_text@) == Ok::<RequestView, ParseFailure>(request@),
                Err(e) => request_of(raw_text@) matches Err(failure) && reports(e, failure),
            },
    {
        let chars: Vec<char> = collect_chars(raw_text.as_str());
        let text: &[char] = chars.as_slice();
        let n: usize = text.len();
        let req_line_len: usize = Self::line_len(text);
        let first: &[char] = &text[0..req_line_len];
        assert(first@ =~= text@.take(req_line_len as int));
        let request_line: RequestLine = match parse_request_line(first) {
            Ok(line) => line,
            Err(e) => {
                return Err(e);
            },
        };
        let start: usize = if n - req_line_len >= 2 {
            req_line_len + 2
        } else {
            n
        };
        let headers_lines: &[char] = &text[start..n];
        proof {
            assert(headers_lines@ =~= text@.skip(start as int));
            assert(text@.skip(n as int) =~= Seq::<char>::empty());
            assert(request_line.request_uri.of(first@) =~= request_line.request_uri.of(text@));
            assert(request_line.http_version.of(first@) =~= request_line.http_version.of(text@));
        }
        let headers: Vec<Header> = match parse_headers(raw_text.as_str(), headers_lines, start) {
            Ok(headers) => headers,
            Err(e) => {
                return Err(e);
            },
        };
        Ok(Self { request_line: request_line, raw_request: raw_text, headers: headers })
    }

    /// The headers of the request, in order.
    pub fn headers<'a>(&'a self) -> (r: RequestHeaderIterator<'a>)
        ensures
            r@ == self@.headers,
    {
        proof {
            use_type_invariant(self);
        }
        RequestHeaderIterator {
            raw_request: self.raw_request.as_str(),
            headers: self.headers.as_slice(),
        }
    }

    /// The length of the first line of `s`.
    fn line_len(s: &[char]) -> (r: usize)
        ensures
            r == first_line_len(s@),
            r <= s@.len(),
    {
        if s.len() <= 2 {
            return s.len();
        }
        match search_crlf(s, 0) {
            Some(end) => end,
            None => s.len(),
        }
    }

    /// The part of the request text that `range` stands for.
    fn to_slice(&self, range: StringRange) -> (r: &str)
        requires
            self.raw_request@.len() <= usize::MAX,
            range.within(self.raw_request@.len()),
        ensures
            r@ == range.of(self.raw_request@),
    {
        self.raw_request.as_str().substring_char(range.offset, range.offset + range.len)
    }

    /// The whole text of the request.
    pub fn raw_request(&self) -> (r: &str)
        ensures
            r@ == self@.text,
    {
        self.raw_request.as_str()
    }

    /// The request line: the places of the URI and of the version lie
    /// within the request's text, and read in that text the line says what
    /// the request says.
    pub fn request_line(&self) -> (r: &RequestLine)
        ensures
            r.within(self@.text.len()),
            r.view_in(self@.text) == self@.line,
            r.method_of() == self@.line.method,
    {
        proof {
            use_type_invariant(self);
        }
        &self.request_line
    }

    /// The method of the request.
    pub fn method(&self) -> (r: Method)
        ensures
            r == self@.line.method,
    {
        self.request_line.method
    }

    /// The request URI.
    pub fn get_uri(&self) -> (r: &str)
        ensures
            r@ == self@.line.uri,
    {
        proof {
            use_type_invariant(self);
        }
        self.to_slice(self.request_line.request_uri)
    }

    /// The HTTP version.
    pub fn get_http_version(&self) -> (r: &str)
        ensures
            r@ == self@.line.version,
    {
        proof {
            use_type_invariant(self);
        }
        self.to_slice(self.request_line.http_version)
    }

    /// The value of the first header whose name is exactly `name`, without
    /// the white space around it. Names are compared as they stand: case
    /// counts.
    pub fn get_header(&self, name: &str) -> (r: Option<&str>)
        ensures
            match r {
                Some(value) => header_value(self@.headers, name@) == Some(value@),
                None => header_value(self@.headers, name@) is None,
            },
    {
        proof {
            use_type_invariant(self);
        }
        let n: usize = self.headers.len();
        let ghost all = self@.headers;
        let mut i: usize = 0;
        assert(all.skip(0) =~= all);
        while i < n
            invariant
                i <= n,
                n == self.headers@.len(),
                all == headers_in(self.headers@, self.raw_request@),
                self.raw_request@.len() <= usize::MAX,
                headers_within(self.headers@, self.raw_request@.len()),
                header_value(all, name@) == header_value(all.skip(i as int), name@),
            decreases n - i,
        {
            let header: &Header = &self.headers[i];
            let slice: &str = self.to_slice(header.name);
            proof {
                assert(all.skip(i as int)[0] == all[i as int]);
                assert(all.skip(i as int).drop_first() =~= all.skip(i + 1));
            }
            if str_equal(slice, name) {
                return Some(trim_str(self.to_slice(header.value)));
            }
            i += 1;
        }
        None
    }
}

/// The headers of a request that have not been handed out yet.
pub struct RequestHeaderIterator<'a> {
    raw_request: &'a str,
    headers: &'a [Header],
}

impl<'a> View for RequestHeaderIterator<'a> {
    type V = Seq<(Seq<char>, Seq<char>)>;

    closed spec fn view(&self) -> Seq<(Seq<char>, Seq<char>)> {
        headers_in(self.headers@, self.raw_request@)
    }
}

impl<'a> RequestHeaderIterator<'a> {
    /// Every header lies within the text.
    #[verifier::type_invariant]
    spec fn headers_within_text(self) -> bool {
        &&& self.raw_request@.len() <= usize::MAX
        &&& headers_within(self.headers@, self.raw_request@.len())
    }

    /// The next header: its name and its value, both without the white
    /// space around them. `None` when all headers have been handed out.
    pub fn next(&mut self) -> (r: Option<(&'a str, &'a str)>)
        ensures
            match r {
                Some((name, value)) => {
                    &&& old(self)@.len() > 0
                    &&& name@ == trim(old(self)@[0].0)
                    &&& value@ == trim(old(self)@[0].1)
                    &&& final(self)@ == old(self)@.drop_first()
                },
                None => old(self)@.len() == 0 && final(self)@ == old(self)@,
            },
    {
        proof {
            use_type_invariant(&*self);
        }
        let headers: &'a [Header] = self.headers;
        let raw: &'a str = self.raw_request;
        let n: usize = headers.len();
        if n == 0 {
            None
        } else {
            let first: &Header = &headers[0];
            let rest: &'a [Header] = &headers[1..n];
            proof {
                assert(rest@ =~= headers@.drop_first());
                assert(headers_in(rest@, raw@) =~= headers_in(headers@, raw@).drop_first());
            }
            self.headers = rest;
            let name: &'a str = raw.substring_char(
                first.name.offset,
                first.name.offset + first.name.len,
            );
            let value: &'a str = raw.substring_char(
                first.value.offset,
                first.value.offset + first.value.len,
            );
            Some((trim_str(name), trim_str(value)))
        }
    }
}

/// The empty line that ends the headers, two line ends in a row, stands at
/// index `i` of `text`.
pub open spec fn headers_end_at(text: Seq<u8>, i: int) -> bool {
    &&& 0 <= i
    &&& i + 3 < text.len()
    &&& text[i] == 0x0D
    &&& text[i + 1] == 0x0A
    &&& text[i + 2] == 0x0D
    &&& text[i + 3] == 0x0A
}

/// Whether the bytes read so far hold the empty line that ends the headers
/// of a request, so that no more bytes have to be read before it is parsed.
pub fn request_complete(text: &[u8]) -> (r: bool)
    ensures
        r == exists|i: int| headers_end_at(text@, i),
{
    let n: usize = text.len();
    if n < 4 {
        return false;
    }
    let mut k: usize = 0;
    while k < n - 3
        invariant
            4 <= n,
            n == text@.len(),
            k <= n - 3,
            forall|i: int| 0 <= i < k ==> !headers_end_at(text@, i),
        decreases n - k,
    {
        if text[k] == 0x0D && text[k + 1] == 0x0A && text[k + 2] == 0x0D && text[k + 3] == 0x0A {
            assert(headers_end_at(text@, k as int));
            return true;
        }
        k += 1;
    }
    false
}

/// Parses the bytes of a request: they must be UTF-8, and their text must
/// hold a request line and headers that end in an empty line.
pub fn parse_request(text: &[u8]) -> (r: Result<Request, ParseError>)
    ensures
        !valid_utf8(text@) ==> r matches Err(ParseError::Utf(_)),
        valid_utf8(text@) ==> match r {
            Ok(request) => request_of(decode_utf8(text@)) == Ok::<RequestView, ParseFailure>(
                request@,
            ),
            Err(e) => request_of(decode_utf8(text@)) matches Err(failure) && reports(e, failure),
        },
{
    match core::str::from_utf8(text) {
        Err(e) => Err(ParseError::Utf(e)),
        Ok(request_text) => Request::from(request_text.to_owned()),
    }
}

} // verus!
