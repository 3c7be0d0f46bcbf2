//! HTTP/1.x requests: head parsing, body framing and wire form.

use vstd::prelude::*;
use vstd::utf8::{decode_utf8, valid_utf8};

use crate::config::Limits;
use crate::error::{parse_err, ErrorView, MzaniError, MzaniResult};
use crate::number::{parse_unsigned, parsed};
use crate::text::{
    before, chars_of, eq_ignore_ascii_case, find, find_char, find_subslice, lemma_find_extend, lemma_find_props,
    lines_view, nth_word, occurs_at, same_ignoring_case, same_text, split_crlf, split_lines, text_of, trim, trimmed, utf8_text,
    word,
};

verus! {

/// Raw HTTP message bytes.
pub type Bytes = Vec<u8>;

/// The bytes that end a header block.
pub open spec fn header_end() -> Seq<u8> {
    seq![13u8, 10u8, 13u8, 10u8]
}

/// The bytes `\r\n\r\n`.
#[must_use]
pub fn header_end_bytes() -> (r: Vec<u8>)
    ensures
        r@ == header_end(),
{
    vec![13u8, 10u8, 13u8, 10u8]
}

/// The header block of what was received so far, and what came after it: nothing yet while the
/// terminator has not come, and an error once it is clear that the block exceeds `max` bytes.
pub open spec fn header_block(received: Seq<u8>, max: nat) -> Result<Option<(Seq<u8>, Seq<u8>)>, ErrorView> {
    match find(received, header_end()) {
        Some(i) => if i + 4 > max {
            Err(ErrorView::ParseError("header block exceeds maximum size"@))
        } else {
            Ok(Some((received.take(i + 4), received.skip(i + 4))))
        },
        None => if received.len() > max {
            Err(ErrorView::ParseError("header block exceeds maximum size"@))
        } else {
            Ok(None)
        },
    }
}

/// Splits what was received so far at the HTTP header terminator (`\r\n\r\n`).
///
/// # Errors
///
/// Returns [`MzaniError::ParseError`] when the header block exceeds `max_header_bytes`.
pub fn read_header_block(received: &[u8], max_header_bytes: usize) -> (r: MzaniResult<Option<(Bytes, Bytes)>>)
    ensures
        match header_block(received@, max_header_bytes as nat) {
            Ok(Some(parts)) => r matches Ok(Some(got)) && got.0@ == parts.0 && got.1@ == parts.1,
            Ok(None) => r matches Ok(None),
            Err(e) => r matches Err(got) && got@ == e,
        },
{
    let terminator: Vec<u8> = header_end_bytes();
    let received_len: usize = received.len();
    match find_subslice(received, terminator.as_slice()) {
        Some(end) => {
            proof {
                lemma_find_props(received@, header_end());
            }
            let head_len: usize = end + 4;
            if head_len > max_header_bytes {
                return Err(parse_err("header block exceeds maximum size"));
            }
            let raw_head: Bytes = vstd::slice::slice_to_vec(vstd::slice::slice_subrange(received, 0, head_len));
            let body_prefix: Bytes = vstd::slice::slice_to_vec(
                vstd::slice::slice_subrange(received, head_len, received_len),
            );
            Ok(Some((raw_head, body_prefix)))
        },
        None => {
            if received_len > max_header_bytes {
                Err(parse_err("header block exceeds maximum size"))
            } else {
                Ok(None)
            }
        },
    }
}

/// A header field as name and value.
pub open spec fn fields_view(v: Seq<(String, String)>) -> Seq<(Seq<char>, Seq<char>)> {
    v.map_values(|f: (String, String)| (f.0@, f.1@))
}

/// The field that a header line writes: what stands before its first colon and what stands after
/// it, each without surrounding white space.
pub open spec fn header_line(line: Seq<char>) -> Option<(Seq<char>, Seq<char>)> {
    match find(line, seq![':']) {
        Some(i) => Some((trimmed(line.take(i)), trimmed(line.skip(i + 1)))),
        None => None,
    }
}

/// The fields of the lines up to the first empty one, or nothing where one of them has no colon.
pub open spec fn header_lines(lines: Seq<Seq<char>>) -> Option<Seq<(Seq<char>, Seq<char>)>>
    decreases lines.len(),
{
    if lines.len() == 0 || lines[0].len() == 0 {
        Some(Seq::empty())
    } else {
        match (header_line(lines[0]), header_lines(lines.drop_first())) {
            (Some(field), Some(rest)) => Some(seq![field] + rest),
            _ => None,
        }
    }
}

/// The header fields of a message head, in order: the lines behind the start line.
pub open spec fn header_fields(raw_head: Seq<u8>) -> Result<Seq<(Seq<char>, Seq<char>)>, ErrorView> {
    if !valid_utf8(raw_head) {
        Err(ErrorView::ParseError("invalid utf-8 in headers"@))
    } else {
        match header_lines(split_lines(decode_utf8(raw_head)).drop_first()) {
            Some(fields) => Ok(fields),
            None => Err(ErrorView::ParseError("malformed header line"@)),
        }
    }
}

pub(crate) fn parse_header_line(line: &[char]) -> (r: Option<(String, String)>)
    ensures
        match r {
            Some(f) => header_line(line@) == Some((f.0@, f.1@)),
            None => header_line(line@) is None,
        },
{
    let n: usize = line.len();
    match find_char(line, ':') {
        Some(i) => {
            proof {
                lemma_find_props(line@, seq![':']);
            }
            let name: Vec<char> = trim(vstd::slice::slice_subrange(line, 0, i));
            let value: Vec<char> = trim(vstd::slice::slice_subrange(line, i + 1, n));
            Some((text_of(name.as_slice()), text_of(value.as_slice())))
        },
        None => None,
    }
}

/// Parses header fields from an HTTP message head (request or response).
///
/// # Errors
///
/// Returns [`MzaniError::ParseError`] where the head is not UTF-8 or a header line has no colon.
pub fn parse_header_fields(raw_head: &[u8]) -> (r: MzaniResult<Vec<(String, String)>>)
    ensures
        match header_fields(raw_head@) {
            Ok(fields) => r matches Ok(got) && fields_view(got@) == fields,
            Err(e) => r matches Err(got) && got@ == e,
        },
{
    let head: Vec<char> = match utf8_text(raw_head) {
        Some(text) => chars_of(text),
        None => {
            return Err(parse_err("invalid utf-8 in headers"));
        },
    };
    let lines: Vec<Vec<char>> = split_crlf(head.as_slice());
    let ghost all = lines_view(lines@);
    let mut headers: Vec<(String, String)> = Vec::new();
    let mut i: usize = 1;
    proof {
        assert(all.len() >= 1) by {
            reveal(split_lines);
        }
        assert(all.drop_first() =~= all.skip(1));
        assert(fields_view(headers@) =~= Seq::empty());
        if let Some(rest) = header_lines(all.skip(1)) {
            assert(fields_view(headers@) + rest =~= rest);
        }
    }
    while i < lines.len()
        invariant
            1 <= i <= lines@.len(),
            all == lines_view(lines@),
            valid_utf8(raw_head@),
            all == split_lines(decode_utf8(raw_head@)),
            all.drop_first() == all.skip(1),
            header_lines(all.skip(i as int)) is None <==> header_lines(all.skip(1)) is None,
            header_lines(all.skip(i as int)) matches Some(rest) ==> header_lines(all.skip(1)) == Some(
                fields_view(headers@) + rest,
            ),
        ensures
            header_lines(all.skip(1)) == Some(fields_view(headers@)),
        decreases lines@.len() - i,
    {
        let ghost here = all.skip(i as int);
        assert(here[0] == lines@[i as int]@);
        if lines[i].is_empty() {
            assert(fields_view(headers@) + Seq::empty() =~= fields_view(headers@));
            break;
        }
        assert(here.drop_first() =~= all.skip(i + 1));
        match parse_header_line(lines[i].as_slice()) {
            Some(field) => {
                let ghost old_headers = headers@;
                headers.push(field);
                proof {
                    assert(fields_view(headers@) =~= fields_view(old_headers).push((field.0@, field.1@)));
                    if let Some(rest) = header_lines(all.skip(i + 1)) {
                        assert(fields_view(old_headers) + (seq![(field.0@, field.1@)] + rest) =~= fields_view(
                            headers@,
                        ) + rest);
                    }
                }
            },
            None => {
                return Err(parse_err("malformed header line"));
            },
        }
        i = i + 1;
        proof {
            if i == lines@.len() {
                assert(header_lines(all.skip(i as int)) == Some(Seq::<(Seq<char>, Seq<char>)>::empty()));
                assert(fields_view(headers@) + Seq::empty() =~= fields_view(headers@));
            }
        }
    }
    Ok(headers)
}

/// HTTP request method.
#[derive(Debug, Clone, PartialEq, Eq)]
pub enum HttpMethod {
    Get,
    Post,
    Put,
    Delete,
    Head,
    Options,
    Patch,
    /// Any other token, kept as it came.
    Other(String),
}

/// What a request method is.
pub enum MethodView {
    Get,
    Post,
    Put,
    Delete,
    Head,
    Options,
    Patch,
    Other(Seq<char>),
}

impl View for HttpMethod {
    type V = MethodView;

    open spec fn view(&self) -> MethodView {
        match *self {
            HttpMethod::Get => MethodView::Get,
            HttpMethod::Post => MethodView::Post,
            HttpMethod::Put => MethodView::Put,
            HttpMethod::Delete => MethodView::Delete,
            HttpMethod::Head => MethodView::Head,
            HttpMethod::Options => MethodView::Options,
            HttpMethod::Patch => MethodView::Patch,
            HttpMethod::Other(token) => MethodView::Other(token@),
        }
    }
}

impl MethodView {
    /// The token that names this method on the wire.
    pub open spec fn token(self) -> Seq<char> {
        match self {
            MethodView::Get => "GET"@,
            MethodView::Post => "POST"@,
            MethodView::Put => "PUT"@,
            MethodView::Delete => "DELETE"@,
            MethodView::Head => "HEAD"@,
            MethodView::Options => "OPTIONS"@,
            MethodView::Patch => "PATCH"@,
            MethodView::Other(token) => token,
        }
    }
}

/// The method that a token names.
pub open spec fn method_named(token: Seq<char>) -> MethodView {
    if token == "GET"@ {
        MethodView::Get
    } else if token == "POST"@ {
        MethodView::Post
    } else if token == "PUT"@ {
        MethodView::Put
    } else if token == "DELETE"@ {
        MethodView::Delete
    } else if token == "HEAD"@ {
        MethodView::Head
    } else if token == "OPTIONS"@ {
        MethodView::Options
    } else if token == "PATCH"@ {
        MethodView::Patch
    } else {
        MethodView::Other(token)
    }
}

/// Every token is preserved by parsing it as a method: extension verbs pass through unchanged.
pub proof fn law_method_token_round_trip(token: Seq<char>)
    ensures
        method_named(token).token() == token,
{
}

impl HttpMethod {
    /// The method that the token `s` names.
    #[must_use]
    pub fn parse(s: &str) -> (r: HttpMethod)
        ensures
            r@ == method_named(s@),
    {
        if same_text(s, "GET") {
            HttpMethod::Get
        } else if same_text(s, "POST") {
            HttpMethod::Post
        } else if same_text(s, "PUT") {
            HttpMethod::Put
        } else if same_text(s, "DELETE") {
            HttpMethod::Delete
        } else if same_text(s, "HEAD") {
            HttpMethod::Head
        } else if same_text(s, "OPTIONS") {
            HttpMethod::Options
        } else if same_text(s, "PATCH") {
            HttpMethod::Patch
        } else {
            HttpMethod::Other(s.to_owned())
        }
    }

    /// Returns the method as an HTTP token string.
    #[must_use]
    pub fn as_str(&self) -> (r: &str)
        ensures
            r@ == self@.token(),
    {
        match self {
            HttpMethod::Get => "GET",
            HttpMethod::Post => "POST",
            HttpMethod::Put => "PUT",
            HttpMethod::Delete => "DELETE",
            HttpMethod::Head => "HEAD",
            HttpMethod::Options => "OPTIONS",
            HttpMethod::Patch => "PATCH",
            HttpMethod::Other(value) => value.as_str(),
        }
    }
}

/// A parsed request head.
pub struct HeadView {
    pub method: MethodView,
    pub path: Seq<char>,
    pub headers: Seq<(Seq<char>, Seq<char>)>,
}

/// The request head that the bytes write: the first two words of the start line are method and
/// path.
pub open spec fn request_head(raw_head: Seq<u8>) -> Result<HeadView, ErrorView> {
    let request_line = split_lines(decode_utf8(raw_head))[0];
    if !valid_utf8(raw_head) {
        Err(ErrorView::ParseError("invalid utf-8 in headers"@))
    } else {
        match (word(request_line, 0), word(request_line, 1), header_fields(raw_head)) {
            (None, _, _) => Err(ErrorView::ParseError("missing method"@)),
            (_, None, _) => Err(ErrorView::ParseError("missing path"@)),
            (_, _, Err(e)) => Err(e),
            (Some(method), Some(path), Ok(headers)) => Ok(
                HeadView { method: method_named(method), path, headers },
            ),
        }
    }
}

/// Method, path and header fields of a request.
pub type ParsedHead = (HttpMethod, String, Vec<(String, String)>);

/// What a parsed head is.
pub open spec fn head_view(h: ParsedHead) -> HeadView {
    HeadView { method: h.0@, path: h.1@, headers: fields_view(h.2@) }
}

/// Parses a request head.
///
/// # Errors
///
/// Returns [`MzaniError::ParseError`] where the head is not UTF-8, lacks a method or a path, or
/// has a header line without a colon.
pub fn parse_head(raw_head: &[u8]) -> (r: MzaniResult<ParsedHead>)
    ensures
        match request_head(raw_head@) {
            Ok(h) => r matches Ok(got) && head_view(got) == h,
            Err(e) => r matches Err(got) && got@ == e,
        },
{
    let head: Vec<char> = match utf8_text(raw_head) {
        Some(text) => chars_of(text),
        None => {
            return Err(parse_err("invalid utf-8 in headers"));
        },
    };
    let lines: Vec<Vec<char>> = split_crlf(head.as_slice());
    proof {
        assert(lines_view(lines@).len() >= 1) by {
            reveal(split_lines);
        }
        assert(lines_view(lines@)[0] == lines@[0]@);
    }
    let method: HttpMethod = match nth_word(lines[0].as_slice(), 0) {
        Some(token) => HttpMethod::parse(text_of(token.as_slice()).as_str()),
        None => {
            return Err(parse_err("missing method"));
        },
    };
    let path: String = match nth_word(lines[0].as_slice(), 1) {
        Some(token) => text_of(token.as_slice()),
        None => {
            return Err(parse_err("missing path"));
        },
    };
    match parse_header_fields(raw_head) {
        Ok(headers) => Ok((method, path, headers)),
        Err(e) => Err(e),
    }
}

/// The value of the first field whose name is `name` in any case.
pub open spec fn field_value(fields: Seq<(Seq<char>, Seq<char>)>, name: Seq<char>) -> Option<Seq<char>>
    decreases fields.len(),
{
    if fields.len() == 0 {
        None
    } else if same_ignoring_case(fields[0].0, name) {
        Some(fields[0].1)
    } else {
        field_value(fields.drop_first(), name)
    }
}

/// Returns the value of the first header matching `name` (case-insensitive).
#[must_use]
pub fn header_field<'a>(headers: &'a [(String, String)], name: &str) -> (r: Option<&'a str>)
    ensures
        match r {
            Some(value) => field_value(fields_view(headers@), name@) == Some(value@),
            None => field_value(fields_view(headers@), name@) is None,
        },
{
    let mut i: usize = 0;
    let ghost all = fields_view(headers@);
    assert(all.skip(0) =~= all);
    while i < headers.len()
        invariant
            i <= headers@.len(),
            all == fields_view(headers@),
            field_value(all, name@) == field_value(all.skip(i as int), name@),
        decreases headers@.len() - i,
    {
        assert(all.skip(i as int)[0] == (headers@[i as int].0@, headers@[i as int].1@));
        if eq_ignore_ascii_case(headers[i].0.as_str(), name) {
            return Some(headers[i].1.as_str());
        }
        assert(all.skip(i as int).drop_first() =~= all.skip(i + 1));
        i = i + 1;
    }
    None
}

/// The body length that a request declares; zero where it declares none.
pub open spec fn declared_length(headers: Seq<(Seq<char>, Seq<char>)>) -> Result<nat, ErrorView> {
    match field_value(headers, "content-length"@) {
        Some(value) => match parsed(value, 10, usize::MAX as nat) {
            Some(n) => Ok(n),
            None => Err(ErrorView::ParseError("invalid content-length"@)),
        },
        None => Ok(0),
    }
}

/// Parses a `usize` in the given radix.
pub(crate) fn parse_size(s: &[char], radix: u32) -> (r: Option<usize>)
    requires
        2 <= radix <= 16,
    ensures
        match r {
            Some(v) => parsed(s@, radix as nat, usize::MAX as nat) == Some(v as nat),
            None => parsed(s@, radix as nat, usize::MAX as nat) is None,
        },
{
    match parse_unsigned(s, radix, usize::MAX as u64) {
        Some(v) => Some(v as usize),
        None => None,
    }
}

/// The body length that a request declares.
///
/// # Errors
///
/// Returns [`MzaniError::ParseError`] where `Content-Length` is not an unsigned number that fits.
pub fn content_length(headers: &[(String, String)]) -> (r: MzaniResult<usize>)
    ensures
        match declared_length(fields_view(headers@)) {
            Ok(n) => r matches Ok(got) && got == n,
            Err(e) => r matches Err(got) && got@ == e,
        },
{
    match header_field(headers, "content-length") {
        Some(value) => match parse_size(chars_of(value).as_slice(), 10) {
            Some(n) => Ok(n),
            None => Err(parse_err("invalid content-length")),
        },
        None => Ok(0),
    }
}

/// A whole request.
pub struct RequestView {
    pub method: MethodView,
    pub path: Seq<char>,
    pub headers: Seq<(Seq<char>, Seq<char>)>,
    pub body: Seq<u8>,
    pub raw_head: Seq<u8>,
}

impl RequestView {
    /// The request on the wire.
    pub open spec fn wire(self) -> Seq<u8> {
        self.raw_head + self.body
    }
}

/// The request that was received so far: nothing yet while the head or the declared body has not
/// come in full, and an error where the head is malformed or the body exceeds its limit.
pub open spec fn request(received: Seq<u8>, limits: Limits) -> Result<Option<RequestView>, ErrorView> {
    match header_block(received, limits.max_header_bytes as nat) {
        Err(e) => Err(e),
        Ok(None) => Ok(None),
        Ok(Some((raw_head, body))) => match request_head(raw_head) {
            Err(e) => Err(e),
            Ok(h) => match declared_length(h.headers) {
                Err(e) => Err(e),
                Ok(length) => if length > limits.max_body_bytes || body.len() > limits.max_body_bytes {
                    Err(ErrorView::BodyTooLarge)
                } else if body.len() < length {
                    Ok(None)
                } else {
                    Ok(
                        Some(
                            RequestView {
                                method: h.method,
                                path: h.path,
                                headers: h.headers,
                                body,
                                raw_head,
                            },
                        ),
                    )
                },
            },
        },
    }
}

/// Parsed HTTP/1.x request.
#[derive(Debug, Clone)]
pub struct Request {
    method: HttpMethod,
    path: String,
    headers: Vec<(String, String)>,
    body: Bytes,
    raw_head: Bytes,
}

impl View for Request {
    type V = RequestView;

    closed spec fn view(&self) -> RequestView {
        RequestView {
            method: self.method@,
            path: self.path@,
            headers: fields_view(self.headers@),
            body: self.body@,
            raw_head: self.raw_head@,
        }
    }
}

/// How far a request has come in.
enum Framed {
    /// The head is not complete.
    Head,
    /// So many bytes of the body are missing.
    Body(usize),
    /// All of it is there.
    Whole(Request),
}

/// So many bytes are missing: with fewer the request stays incomplete, with as many it is complete.
pub open spec fn is_missing(received: Seq<u8>, limits: Limits, missing: nat) -> bool {
    &&& forall|more: Seq<u8>|
        more.len() < missing ==> (#[trigger] request(received + more, limits)) == Ok::<
            Option<RequestView>,
            ErrorView,
        >(None)
    &&& forall|more: Seq<u8>|
        more.len() == missing ==> (#[trigger] request(received + more, limits)) matches Ok(Some(_))
}

proof fn lemma_incomplete_body(received: Seq<u8>, limits: Limits, missing: nat)
    requires
        header_block(received, limits.max_header_bytes as nat) matches Ok(Some((raw_head, body)))
            && request_head(raw_head) matches Ok(h) && declared_length(h.headers) matches Ok(length) && length
            <= limits.max_body_bytes && body.len() + missing == length,
    ensures
        is_missing(received, limits, missing),
{
    lemma_find_props(received, header_end());
    let i = find(received, header_end()).unwrap();
    assert forall|more: Seq<u8>| more.len() < missing implies (#[trigger] request(received + more, limits)) == Ok::<
        Option<RequestView>,
        ErrorView,
    >(None) by {
        lemma_find_extend(received, more, header_end(), i);
        assert((received + more).take(i + 4) =~= received.take(i + 4));
        assert((received + more).skip(i + 4) =~= received.skip(i + 4) + more);
    }
    assert forall|more: Seq<u8>| more.len() == missing implies (#[trigger] request(received + more, limits)) matches Ok(
        Some(_),
    ) by {
        lemma_find_extend(received, more, header_end(), i);
        assert((received + more).take(i + 4) =~= received.take(i + 4));
        assert((received + more).skip(i + 4) =~= received.skip(i + 4) + more);
    }
}

fn frame(received: &[u8], limits: &Limits) -> (r: MzaniResult<Framed>)
    ensures
        match request(received@, *limits) {
            Ok(Some(v)) => r matches Ok(Framed::Whole(got)) && got@ == v,
            Ok(None) => match r {
                Ok(Framed::Head) => find(received@, header_end()) is None,
                Ok(Framed::Body(missing)) => {
                    &&& missing > 0
                    &&& find(received@, header_end()) is Some
                    &&& is_missing(received@, *limits, missing as nat)
                },
                _ => false,
            },
            Err(e) => r matches Err(got) && got@ == e,
        },
{
    let (raw_head, body): (Bytes, Bytes) = match read_header_block(received, limits.max_header_bytes) {
        Ok(Some(parts)) => parts,
        Ok(None) => {
            return Ok(Framed::Head);
        },
        Err(e) => {
            return Err(e);
        },
    };
    let (method, path, headers): ParsedHead = match parse_head(raw_head.as_slice()) {
        Ok(head) => head,
        Err(e) => {
            return Err(e);
        },
    };
    let length: usize = match content_length(headers.as_slice()) {
        Ok(length) => length,
        Err(e) => {
            return Err(e);
        },
    };
    if length > limits.max_body_bytes || body.len() > limits.max_body_bytes {
        return Err(MzaniError::BodyTooLarge);
    }
    if body.len() < length {
        let missing: usize = length - body.len();
        proof {
            lemma_incomplete_body(received@, *limits, missing as nat);
        }
        return Ok(Framed::Body(missing));
    }
    Ok(Framed::Whole(Request { method, path, headers, body, raw_head }))
}

impl Request {
    /// Parses the request that was received so far, or nothing while it is incomplete.
    ///
    /// # Errors
    ///
    /// Returns [`MzaniError::ParseError`] on malformed heads and [`MzaniError::BodyTooLarge`] when
    /// the declared or received body exceeds its limit.
    pub fn from_stream(received: &[u8], limits: &Limits) -> (r: MzaniResult<Option<Request>>)
        ensures
            match request(received@, *limits) {
                Ok(Some(v)) => r matches Ok(Some(got)) && got@ == v,
                Ok(None) => r matches Ok(None),
                Err(e) => r matches Err(got) && got@ == e,
            },
    {
        match frame(received, limits) {
            Ok(Framed::Whole(request)) => Ok(Some(request)),
            Ok(_) => Ok(None),
            Err(e) => Err(e),
        }
    }

    /// Returns the request method.
    #[must_use]
    pub fn method(&self) -> (r: &HttpMethod)
        ensures
            r@ == self@.method,
    {
        &self.method
    }

    /// Returns the request path.
    #[must_use]
    pub fn path(&self) -> (r: &str)
        ensures
            r@ == self@.path,
    {
        self.path.as_str()
    }

    /// Returns the request headers.
    #[must_use]
    pub fn headers(&self) -> (r: &[(String, String)])
        ensures
            fields_view(r@) == self@.headers,
    {
        self.headers.as_slice()
    }

    /// Returns the request body bytes.
    #[must_use]
    pub fn body(&self) -> (r: &[u8])
        ensures
            r@ == self@.body,
    {
        self.body.as_slice()
    }

    /// Serializes the request back to wire-format bytes.
    #[must_use]
    pub fn to_bytes(&self) -> (r: Bytes)
        ensures
            r@ == self@.wire(),
    {
        let mut out: Bytes = Vec::new();
        out.extend_from_slice(self.raw_head.as_slice());
        out.extend_from_slice(self.body.as_slice());
        assert(out@ =~= self@.wire());
        out
    }
}

/// A request goes out on the wire byte for byte as it came in.
pub proof fn law_request_forwarded_intact(received: Seq<u8>, limits: Limits)
    ensures
        request(received, limits) matches Ok(Some(v)) ==> v.wire() == received,
{
    lemma_find_props(received, header_end());
    if let Some(i) = find(received, header_end()) {
        assert(received.take(i + 4) + received.skip(i + 4) =~= received);
    }
}

/// No request exceeds the body limit.
pub proof fn law_request_body_within_limit(received: Seq<u8>, limits: Limits)
    ensures
        request(received, limits) matches Ok(Some(v)) ==> v.body.len() <= limits.max_body_bytes,
{
}

/// No header block of a request exceeds the header limit.
pub proof fn law_request_head_within_limit(received: Seq<u8>, limits: Limits)
    ensures
        request(received, limits) matches Ok(Some(v)) ==> v.raw_head.len() <= limits.max_header_bytes,
{
    lemma_find_props(received, header_end());
}

/// A request that is refused stays refused, with the same error, whatever comes behind it: where
/// the bytes of a request are cut in pieces makes no difference to that.
pub proof fn law_request_refusal_is_final(received: Seq<u8>, more: Seq<u8>, limits: Limits)
    ensures
        request(received, limits) matches Err(e) ==> request(received + more, limits) == Err::<
            Option<RequestView>,
            ErrorView,
        >(e),
{
    let all = received + more;
    lemma_find_props(received, header_end());
    lemma_find_props(all, header_end());
    match find(received, header_end()) {
        Some(i) => {
            lemma_find_extend(received, more, header_end(), i);
            assert(all.take(i + 4) =~= received.take(i + 4));
            assert(all.skip(i + 4) =~= received.skip(i + 4) + more);
        },
        None => {
            if let Some(i) = find(all, header_end()) {
                if i + 4 <= received.len() {
                    assert(received.subrange(i, i + 4) =~= all.subrange(i, i + 4));
                    assert(occurs_at(received, header_end(), i));
                }
            }
        },
    }
}

/// How many bytes to ask for while a head is coming in.
pub const READ_CHUNK: usize = 4096;

/// What a filled read reports when the peer closes too early.
pub const EARLY_END: &'static str = "failed to fill whole buffer";

/// Reads one request as its bytes come in.
#[derive(Debug)]
pub struct RequestReader {
    limits: Limits,
    received: Bytes,
    missing: usize,
}

impl RequestReader {
    #[verifier::type_invariant]
    spec fn well_formed(self) -> bool {
        &&& self.missing > 0 ==> is_missing(self.received@, self.limits, self.missing as nat)
        &&& self.missing > 0 <==> find(self.received@, header_end()) is Some && request(
            self.received@,
            self.limits,
        ) == Ok::<Option<RequestView>, ErrorView>(None)
    }

    /// All bytes that came in so far.
    pub closed spec fn received(&self) -> Seq<u8> {
        self.received@
    }

    /// The limits that this reader enforces.
    pub closed spec fn limits(&self) -> Limits {
        self.limits
    }

    /// More bytes are to come.
    pub open spec fn pending(&self) -> bool {
        request(self.received(), self.limits()) == Ok::<Option<RequestView>, ErrorView>(None)
    }

    /// A reader to which nothing has come yet.
    #[must_use]
    pub fn new(limits: Limits) -> (r: RequestReader)
        ensures
            r.received() == Seq::<u8>::empty(),
            r.limits() == limits,
            r.pending(),
    {
        proof {
            lemma_find_props(Seq::<u8>::empty(), header_end());
        }
        RequestReader { limits, received: Vec::new(), missing: 0 }
    }

    /// How many bytes to read next at most. Once the head is complete, these are the bytes that are
    /// missing: the body is never read beyond its end.
    #[must_use]
    pub fn wanted(&self) -> (r: usize)
        ensures
            r > 0,
            find(self.received(), header_end()) is None ==> r == READ_CHUNK,
            self.pending() && find(self.received(), header_end()) is Some ==> is_missing(
                self.received(),
                self.limits(),
                r as nat,
            ),
    {
        proof {
            use_type_invariant(self);
        }
        if self.missing > 0 {
            self.missing
        } else {
            READ_CHUNK
        }
    }

    /// Takes the bytes that came in next; the request, once it is complete.
    ///
    /// # Errors
    ///
    /// Returns [`MzaniError::ParseError`] on malformed heads and [`MzaniError::BodyTooLarge`] when
    /// the declared or received body exceeds its limit.
    pub fn feed(&mut self, chunk: &[u8]) -> (r: MzaniResult<Option<Request>>)
        requires
            old(self).pending(),
        ensures
            final(self).received() == old(self).received() + chunk@,
            final(self).limits() == old(self).limits(),
            match request(final(self).received(), final(self).limits()) {
                Ok(Some(v)) => r matches Ok(Some(got)) && got@ == v,
                Ok(None) => r matches Ok(None),
                Err(e) => r matches Err(got) && got@ == e,
            },
    {
        proof {
            use_type_invariant(&*self);
        }
        let limits: Limits = self.limits;
        let ghost before = self.received@;
        let mut taken: RequestReader = RequestReader::new(limits);
        std::mem::swap(self, &mut taken);
        let missing_before: usize = taken.missing;
        let mut received: Bytes = taken.received;
        received.extend_from_slice(chunk);
        assert(received@ =~= before + chunk@);
        if chunk.len() < missing_before {
            let missing: usize = missing_before - chunk.len();
            proof {
                assert forall|more: Seq<u8>| more.len() < missing implies (#[trigger] request(
                    received@ + more,
                    limits,
                )) == Ok::<Option<RequestView>, ErrorView>(None) by {
                    assert(received@ + more =~= before + (chunk@ + more));
                }
                assert forall|more: Seq<u8>| more.len() == missing implies (#[trigger] request(
                    received@ + more,
                    limits,
                )) matches Ok(Some(_)) by {
                    assert(received@ + more =~= before + (chunk@ + more));
                }
                let i = find(before, header_end()).unwrap();
                lemma_find_extend(before, chunk@, header_end(), i);
            }
            *self = RequestReader { limits, received, missing };
            return Ok(None);
        }
        match frame(received.as_slice(), &limits) {
            Ok(Framed::Whole(request)) => {
                *self = RequestReader { limits, received, missing: 0 };
                Ok(Some(request))
            },
            Ok(Framed::Head) => {
                *self = RequestReader { limits, received, missing: 0 };
                Ok(None)
            },
            Ok(Framed::Body(missing)) => {
                *self = RequestReader { limits, received, missing };
                Ok(None)
            },
            Err(e) => {
                *self = RequestReader { limits, received, missing: 0 };
                Err(e)
            },
        }
    }

    /// The error that it is when the client closes before the request is complete: an empty
    /// request while the head was coming in, a failed read while the body was.
    #[must_use]
    pub fn end(&self) -> (r: MzaniError)
        requires
            self.pending(),
        ensures
            r@ == if find(self.received(), header_end()) is None {
                ErrorView::EmptyRequest
            } else {
                ErrorView::Io(EARLY_END@)
            },
    {
        proof {
            use_type_invariant(self);
        }
        if self.missing > 0 {
            MzaniError::Io(EARLY_END.to_owned())
        } else {
            MzaniError::EmptyRequest
        }
    }
}

/// The seven verbs are known by their names; every other token is kept as it is.
pub proof fn law_methods_are_named(method: HttpMethod, token: Seq<char>)
    ensures
        method_named(token) is Get <==> token == "GET"@,
        method_named(token) is Post <==> token == "POST"@,
        method_named(token) is Put <==> token == "PUT"@,
        method_named(token) is Delete <==> token == "DELETE"@,
        method_named(token) is Head <==> token == "HEAD"@,
        method_named(token) is Options <==> token == "OPTIONS"@,
        method_named(token) is Patch <==> token == "PATCH"@,
        method_named(token) matches MethodView::Other(kept) ==> kept == token,
        method is Get <==> method@ is Get,
        method is Post <==> method@ is Post,
        method is Put <==> method@ is Put,
        method is Delete <==> method@ is Delete,
        method is Head <==> method@ is Head,
        method is Options <==> method@ is Options,
        method is Patch <==> method@ is Patch,
        method matches HttpMethod::Other(kept) ==> method@ == MethodView::Other(kept@),
{
    reveal_strlit("GET");
    reveal_strlit("POST");
    reveal_strlit("PUT");
    reveal_strlit("DELETE");
    reveal_strlit("HEAD");
    reveal_strlit("OPTIONS");
    reveal_strlit("PATCH");
    assert("GET"@.len() == 3 && "PUT"@.len() == 3 && "GET"@[0] == 'G' && "PUT"@[0] == 'P');
    assert("POST"@.len() == 4 && "HEAD"@.len() == 4 && "POST"@[0] == 'P' && "HEAD"@[0] == 'H');
    assert("DELETE"@.len() == 6 && "OPTIONS"@.len() == 7 && "PATCH"@.len() == 5);
}

/// A parsed head is seen part by part, its fields in order.
pub proof fn law_heads_are_seen(h: ParsedHead, i: int)
    ensures
        head_view(h).method == h.0@,
        head_view(h).path == h.1@,
        head_view(h).headers.len() == h.2@.len(),
        0 <= i < h.2@.len() ==> head_view(h).headers[i] == (h.2@[i].0@, h.2@[i].1@),
{
}

} // verus!
