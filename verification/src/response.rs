//! HTTP/1.x responses: status line, body framing and incremental reading.

use vstd::prelude::*;
use vstd::utf8::{decode_utf8, encode_utf8, valid_utf8};

use crate::config::Limits;
use crate::error::{parse_err, ErrorView, MzaniError, MzaniResult};
use crate::number::{decimal, decimal_text, parse_unsigned, parsed};
use crate::request::{
    field_value, fields_view, header_block, header_end, header_field, header_fields, header_line, parse_header_fields,
    parse_header_line, parse_size, read_header_block, Bytes, EARLY_END, READ_CHUNK,
};
use crate::text::{
    before, bytes_of, chars_of, crlf, eq_ignore_ascii_case, find, find_subslice, lemma_find_extend, lemma_find_props,
    lines_view, nth_word, occurs_at, same_ignoring_case, split_crlf, split_lines, take_before, text_of, trim, trimmed,
    utf8_text, word,
};

verus! {

/// How the end of a response body is told.
pub enum BodyMode {
    /// After so many bytes.
    Fixed(usize),
    /// By chunked framing.
    Chunked,
    /// By the end of the stream.
    UntilEof,
}

/// The status code in a response head: the second word of its first line.
pub open spec fn status_code(raw_head: Seq<u8>) -> Result<nat, ErrorView> {
    let text = decode_utf8(raw_head);
    let line = before(text, '\n');
    if !valid_utf8(raw_head) {
        Err(ErrorView::ParseError("invalid utf-8 in status line"@))
    } else if text.len() == 0 {
        Err(ErrorView::ParseError("missing status line"@))
    } else {
        match (word(line, 0), word(line, 1)) {
            (None, _) => Err(ErrorView::ParseError("missing http version"@)),
            (_, None) => Err(ErrorView::ParseError("missing status code"@)),
            (_, Some(code)) => match parsed(code, 10, u16::MAX as nat) {
                Some(n) => Ok(n),
                None => Err(ErrorView::ParseError("invalid status code"@)),
            },
        }
    }
}

/// Parses the status code of a response head.
///
/// # Errors
///
/// Returns [`MzaniError::ParseError`] where the head has no status line of that form.
pub fn parse_status_code(raw_head: &[u8]) -> (r: MzaniResult<u16>)
    ensures
        match status_code(raw_head@) {
            Ok(n) => r matches Ok(got) && got == n,
            Err(e) => r matches Err(got) && got@ == e,
        },
{
    let head: Vec<char> = match utf8_text(raw_head) {
        Some(text) => chars_of(text),
        None => {
            return Err(parse_err("invalid utf-8 in status line"));
        },
    };
    if head.is_empty() {
        return Err(parse_err("missing status line"));
    }
    let status_line: Vec<char> = take_before(head.as_slice(), '\n');
    if nth_word(status_line.as_slice(), 0).is_none() {
        return Err(parse_err("missing http version"));
    }
    match nth_word(status_line.as_slice(), 1) {
        None => Err(parse_err("missing status code")),
        Some(code) => match parse_unsigned(code.as_slice(), 10, u16::MAX as u64) {
            Some(n) => Ok(n as u16),
            None => Err(parse_err("invalid status code")),
        },
    }
}

/// A response with this status has no body.
pub open spec fn bodiless(status: nat) -> bool {
    100 <= status <= 199 || status == 204 || status == 304
}

/// The body framing that status and header fields announce. Chunked framing goes before a
/// declared length.
pub open spec fn framing(headers: Seq<(Seq<char>, Seq<char>)>, status: nat) -> Result<BodyMode, ErrorView> {
    if bodiless(status) {
        Ok(BodyMode::Fixed(0))
    } else if field_value(headers, "transfer-encoding"@) matches Some(coding) && same_ignoring_case(
        coding,
        "chunked"@,
    ) {
        Ok(BodyMode::Chunked)
    } else {
        match field_value(headers, "content-length"@) {
            Some(value) => match parsed(value, 10, usize::MAX as nat) {
                Some(n) => Ok(BodyMode::Fixed(n as usize)),
                None => Err(ErrorView::ParseError("invalid content-length in response"@)),
            },
            None => Ok(BodyMode::UntilEof),
        }
    }
}

/// Determines the body framing of a response.
///
/// # Errors
///
/// Returns [`MzaniError::ParseError`] where the framing is by `Content-Length` and that is no
/// unsigned number that fits.
pub fn body_mode(headers: &[(String, String)], status: u16) -> (r: MzaniResult<BodyMode>)
    ensures
        match framing(fields_view(headers@), status as nat) {
            Ok(mode) => r matches Ok(got) && got == mode,
            Err(e) => r matches Err(got) && got@ == e,
        },
{
    if (100 <= status && status <= 199) || status == 204 || status == 304 {
        return Ok(BodyMode::Fixed(0));
    }
    if let Some(value) = header_field(headers, "transfer-encoding") {
        if eq_ignore_ascii_case(value, "chunked") {
            return Ok(BodyMode::Chunked);
        }
    }
    match header_field(headers, "content-length") {
        Some(value) => match parse_size(chars_of(value).as_slice(), 10) {
            Some(length) => Ok(BodyMode::Fixed(length)),
            None => Err(parse_err("invalid content-length in response")),
        },
        None => Ok(BodyMode::UntilEof),
    }
}

/// The bytes that end a line of chunk metadata.
pub open spec fn line_end() -> Seq<u8> {
    seq![13u8, 10u8]
}

/// The longest line of chunk metadata that may come without its end.
pub const MAX_CHUNK_LINE: usize = 8 * 1024;

/// Where the line of chunk metadata at the front of `input` ends: nothing yet while its end has
/// not come, and an error once more than [`MAX_CHUNK_LINE`] bytes came without it.
pub open spec fn chunk_line(input: Seq<u8>) -> Result<Option<int>, ErrorView> {
    match find(input, line_end()) {
        Some(i) if i < MAX_CHUNK_LINE => Ok(Some(i)),
        _ => if input.len() > MAX_CHUNK_LINE {
            Err(ErrorView::ParseError("chunk metadata line too long"@))
        } else {
            Ok(None)
        },
    }
}

/// Finds the end of the line of chunk metadata at the front of `input`.
///
/// # Errors
///
/// Returns [`MzaniError::ParseError`] where the line is too long.
pub fn read_line(input: &[u8]) -> (r: MzaniResult<Option<usize>>)
    ensures
        match chunk_line(input@) {
            Ok(Some(i)) => r matches Ok(Some(got)) && got == i && i + 2 <= input@.len(),
            Ok(None) => r matches Ok(None),
            Err(e) => r matches Err(got) && got@ == e,
        },
{
    let end: Vec<u8> = vec![13u8, 10u8];
    let n: usize = input.len();
    let window: usize = if n > MAX_CHUNK_LINE + 1 {
        MAX_CHUNK_LINE + 1
    } else {
        n
    };
    proof {
        assert(end@ =~= line_end());
        lemma_find_props(input@, line_end());
        let front = input@.take(window as int);
        assert(input@ =~= front + input@.skip(window as int));
        lemma_find_props(front, line_end());
        if let Some(i) = find(front, line_end()) {
            lemma_find_extend(front, input@.skip(window as int), line_end(), i);
        } else if let Some(i) = find(input@, line_end()) {
            if i + 2 <= window {
                assert(front.subrange(i, i + 2) =~= input@.subrange(i, i + 2));
                assert(occurs_at(front, line_end(), i));
            }
        }
    }
    match find_subslice(vstd::slice::slice_subrange(input, 0, window), end.as_slice()) {
        Some(i) => Ok(Some(i)),
        None => {
            if n > MAX_CHUNK_LINE {
                Err(parse_err("chunk metadata line too long"))
            } else {
                Ok(None)
            }
        },
    }
}

/// The chunk size that a line of chunk metadata writes: a hexadecimal number before any `;`.
pub open spec fn chunk_size(line: Seq<u8>) -> Result<nat, ErrorView> {
    if !valid_utf8(line) {
        Err(ErrorView::ParseError("invalid chunk size line"@))
    } else {
        match parsed(trimmed(before(decode_utf8(line), ';')), 16, usize::MAX as nat) {
            Some(n) => Ok(n),
            None => Err(ErrorView::ParseError("invalid chunk size"@)),
        }
    }
}

/// Parses a chunk size.
///
/// # Errors
///
/// Returns [`MzaniError::ParseError`] where the line writes no chunk size that fits.
pub fn parse_chunk_size(line: &[u8]) -> (r: MzaniResult<usize>)
    ensures
        match chunk_size(line@) {
            Ok(n) => r matches Ok(got) && got == n,
            Err(e) => r matches Err(got) && got@ == e,
        },
{
    let text: Vec<char> = match utf8_text(line) {
        Some(text) => chars_of(text),
        None => {
            return Err(parse_err("invalid chunk size line"));
        },
    };
    let token: Vec<char> = trim(take_before(text.as_slice(), ';').as_slice());
    match parse_size(token.as_slice(), 16) {
        Some(size) => Ok(size),
        None => Err(parse_err("invalid chunk size")),
    }
}

/// One chunk of a chunked body.
pub enum ChunkView {
    /// Data, and how many bytes the chunk takes with its size line and its terminator.
    Data { data: Seq<u8>, used: int },
    /// The empty chunk that ends the body, with the line behind it.
    Last,
}

/// The chunk at the front of `input`, when `have` bytes of the body came before it: nothing yet
/// while it has not come in full, and an error where it is malformed or does not fit in `max`.
pub open spec fn chunk_at(input: Seq<u8>, have: nat, max: nat) -> Result<Option<ChunkView>, ErrorView> {
    match chunk_line(input) {
        Err(e) => Err(e),
        Ok(None) => Ok(None),
        Ok(Some(i)) => match chunk_size(input.take(i)) {
            Err(e) => Err(e),
            Ok(size) => if size == 0 {
                match chunk_line(input.skip(i + 2)) {
                    Err(e) => Err(e),
                    Ok(None) => Ok(None),
                    Ok(Some(_)) => Ok(Some(ChunkView::Last)),
                }
            } else if have + size > max {
                Err(ErrorView::BodyTooLarge)
            } else if input.len() < i + 2 + size + 2 {
                Ok(None)
            } else if input.subrange(i + 2 + size, i + 2 + size + 2) != line_end() {
                Err(ErrorView::ParseError("malformed chunked body"@))
            } else {
                Ok(
                    Some(
                        ChunkView::Data {
                            data: input.subrange(i + 2, i + 2 + size),
                            used: i + 2 + size + 2,
                        },
                    ),
                )
            },
        },
    }
}

/// A chunk takes some of the bytes that are there, and its data fits in what is left of `max`.
pub proof fn lemma_chunk_used(input: Seq<u8>, have: nat, max: nat)
    ensures
        chunk_at(input, have, max) matches Ok(Some(ChunkView::Data { data, used })) ==> 0 < used <= input.len()
            && data.len() > 0 && have + data.len() <= max,
{
    lemma_find_props(input, line_end());
}

/// The body that chunks write, behind the `body` that came before them.
pub open spec fn chunked(input: Seq<u8>, body: Seq<u8>, max: nat) -> Result<Option<Seq<u8>>, ErrorView>
    decreases input.len(),
{
    proof {
        lemma_chunk_used(input, body.len(), max);
    }
    match chunk_at(input, body.len(), max) {
        Err(e) => Err(e),
        Ok(None) => Ok(None),
        Ok(Some(ChunkView::Last)) => Ok(Some(body)),
        Ok(Some(ChunkView::Data { data, used })) => chunked(input.skip(used), body + data, max),
    }
}

/// A line of chunk metadata that has come, or is too long, stays as it is.
proof fn lemma_chunk_line_extend(input: Seq<u8>, more: Seq<u8>)
    requires
        chunk_line(input) != Ok::<Option<int>, ErrorView>(None),
    ensures
        chunk_line(input + more) == chunk_line(input),
{
    let all = input + more;
    lemma_find_props(input, line_end());
    lemma_find_props(all, line_end());
    match find(input, line_end()) {
        Some(i) => {
            lemma_find_extend(input, more, line_end(), i);
        },
        None => {
            if let Some(i) = find(all, line_end()) {
                if i + 2 <= input.len() {
                    assert(input.subrange(i, i + 2) =~= all.subrange(i, i + 2));
                    assert(occurs_at(input, line_end(), i));
                }
            }
        },
    }
}

/// A chunk that has come, or is malformed or too large, stays as it is.
proof fn lemma_chunk_extend(input: Seq<u8>, more: Seq<u8>, have: nat, max: nat)
    requires
        chunk_at(input, have, max) != Ok::<Option<ChunkView>, ErrorView>(None),
    ensures
        chunk_at(input + more, have, max) == chunk_at(input, have, max),
{
    lemma_find_props(input, line_end());
    lemma_chunk_line_extend(input, more);
    if let Ok(Some(i)) = chunk_line(input) {
        let all = input + more;
        assert(all.take(i) =~= input.take(i));
        if let Ok(size) = chunk_size(input.take(i)) {
            if size == 0 {
                assert(all.skip(i + 2) =~= input.skip(i + 2) + more);
                lemma_chunk_line_extend(input.skip(i + 2), more);
            } else if input.len() >= i + 2 + size + 2 {
                assert(all.subrange(i + 2, i + 2 + size) =~= input.subrange(i + 2, i + 2 + size));
                assert(all.subrange(i + 2 + size, i + 2 + size + 2) =~= input.subrange(
                    i + 2 + size,
                    i + 2 + size + 2,
                ));
            }
        }
    }
}

/// Whatever fewer than `missing` bytes come next, the chunk stays incomplete.
spec fn chunk_incomplete_for(input: Seq<u8>, have: nat, max: nat, missing: nat) -> bool {
    forall|more: Seq<u8>| more.len() < missing ==> (#[trigger] chunk_at(input + more, have, max)) == Ok::<
        Option<ChunkView>,
        ErrorView,
    >(None)
}

/// A chunk that was looked for.
enum Chunk {
    /// At least so many bytes are missing.
    More(usize),
    /// Data from and to an offset, and how many bytes the chunk takes.
    Data(usize, usize, usize),
    /// The end of the body.
    Last,
}

fn read_chunk(input: &[u8], have: usize, max: usize) -> (r: MzaniResult<Chunk>)
    requires
        have <= max,
    ensures
        match chunk_at(input@, have as nat, max as nat) {
            Ok(Some(ChunkView::Data { data, used })) => r matches Ok(Chunk::Data(from, to, got)) && from <= to
                <= input@.len() && got == used && input@.subrange(from as int, to as int) == data,
            Ok(Some(ChunkView::Last)) => r matches Ok(Chunk::Last),
            Ok(None) => r matches Ok(Chunk::More(missing)) && missing > 0 && chunk_incomplete_for(
                input@,
                have as nat,
                max as nat,
                missing as nat,
            ),
            Err(e) => r matches Err(got) && got@ == e,
        },
{
    let n: usize = input.len();
    proof {
        assert forall|more: Seq<u8>| more.len() < 1 implies #[trigger] (input@ + more) == input@ by {
            assert(input@ + more =~= input@);
        }
    }
    let i: usize = match read_line(input) {
        Err(e) => {
            return Err(e);
        },
        Ok(None) => {
            return Ok(Chunk::More(1));
        },
        Ok(Some(i)) => i,
    };
    assert(input@.take(i as int) =~= input@.subrange(0, i as int));
    let size: usize = match parse_chunk_size(vstd::slice::slice_subrange(input, 0, i)) {
        Err(e) => {
            return Err(e);
        },
        Ok(size) => size,
    };
    let from: usize = i + 2;
    if size == 0 {
        assert(input@.skip(from as int) =~= input@.subrange(from as int, n as int));
        return match read_line(vstd::slice::slice_subrange(input, from, n)) {
            Err(e) => Err(e),
            Ok(None) => Ok(Chunk::More(1)),
            Ok(Some(_)) => Ok(Chunk::Last),
        };
    }
    if size > max - have {
        return Err(MzaniError::BodyTooLarge);
    }
    let available: usize = n - from;
    if available < size || available - size < 2 {
        let missing: usize = if available < size {
            size - available
        } else {
            2 - (available - size)
        };
        proof {
            assert forall|more: Seq<u8>| more.len() < missing implies (#[trigger] chunk_at(
                input@ + more,
                have as nat,
                max as nat,
            )) == Ok::<Option<ChunkView>, ErrorView>(None) by {
                lemma_chunk_line_extend(input@, more);
                assert((input@ + more).take(i as int) =~= input@.take(i as int));
            }
        }
        return Ok(Chunk::More(missing));
    }
    let to: usize = from + size;
    let ghost tail = input@.subrange(to as int, to + 2);
    if input[to] != 13u8 || input[to + 1] != 10u8 {
        proof {
            assert(tail[0] == input@[to as int]);
            assert(tail[1] == input@[to + 1]);
        }
        return Err(parse_err("malformed chunked body"));
    }
    assert(tail =~= line_end());
    Ok(Chunk::Data(from, to, to + 2))
}

/// Whatever comes next, the two positions in a chunked body lead to the same end.
spec fn same_chunks(a: Seq<u8>, body_a: Seq<u8>, b: Seq<u8>, body_b: Seq<u8>, max: nat) -> bool {
    forall|more: Seq<u8>| #[trigger] chunked(a + more, body_a, max) == chunked(b + more, body_b, max)
}

proof fn lemma_same_chunks_now(a: Seq<u8>, body_a: Seq<u8>, b: Seq<u8>, body_b: Seq<u8>, max: nat)
    requires
        same_chunks(a, body_a, b, body_b, max),
    ensures
        chunked(a, body_a, max) == chunked(b, body_b, max),
{
    let none = Seq::<u8>::empty();
    assert(chunked(a + none, body_a, max) == chunked(b + none, body_b, max));
    assert(a + none =~= a);
    assert(b + none =~= b);
}

/// How far a chunked body has come in.
enum ChunkProgress {
    /// All of it is there.
    Done(Bytes),
    /// The next chunk starts at an offset, behind the body so far; at least so many bytes are
    /// missing.
    More(usize, Bytes, usize),
}

/// Reads chunks from offset `start` on, behind the `body` that came before.
fn read_chunked_body(received: &[u8], start: usize, body: Bytes, max: usize) -> (r: MzaniResult<ChunkProgress>)
    requires
        start <= received@.len(),
        body@.len() <= max,
    ensures
        match chunked(received@.skip(start as int), body@, max as nat) {
            Ok(Some(whole)) => r matches Ok(ChunkProgress::Done(got)) && got@ == whole,
            Ok(None) => r matches Ok(ChunkProgress::More(next, part, missing)) && next <= received@.len()
                && part@.len() <= max && missing > 0 && chunk_incomplete_for(
                received@.skip(next as int),
                part@.len(),
                max as nat,
                missing as nat,
            ) && same_chunks(received@.skip(start as int), body@, received@.skip(next as int), part@, max as nat),
            Err(e) => r matches Err(got) && got@ == e,
        },
{
    let ghost first = received@.skip(start as int);
    let ghost first_body = body@;
    let n: usize = received.len();
    let mut at: usize = start;
    let mut part: Bytes = body;
    loop
        invariant
            n == received@.len(),
            at <= n,
            part@.len() <= max,
            same_chunks(first, first_body, received@.skip(at as int), part@, max as nat),
            first == received@.skip(start as int),
            first_body == body@,
        decreases n - at,
    {
        let ghost here = received@.skip(at as int);
        assert(here =~= received@.subrange(at as int, n as int));
        proof {
            lemma_same_chunks_now(first, first_body, here, part@, max as nat);
            lemma_chunk_used(here, part@.len(), max as nat);
        }
        match read_chunk(vstd::slice::slice_subrange(received, at, n), part.len(), max) {
            Err(e) => {
                return Err(e);
            },
            Ok(Chunk::More(missing)) => {
                return Ok(ChunkProgress::More(at, part, missing));
            },
            Ok(Chunk::Last) => {
                return Ok(ChunkProgress::Done(part));
            },
            Ok(Chunk::Data(from, to, used)) => {
                let ghost old_part = part@;
                let ghost data = here.subrange(from as int, to as int);
                assert(received@.subrange(at + from, at + to) =~= data);
                part.extend_from_slice(vstd::slice::slice_subrange(received, at + from, at + to));
                proof {
                    assert(part@ =~= old_part + data);
                    let there = received@.skip(at + used);
                    assert forall|more: Seq<u8>| #[trigger] chunked(first + more, first_body, max as nat) == chunked(
                        there + more,
                        part@,
                        max as nat,
                    ) by {
                        lemma_chunk_extend(here, more, old_part.len(), max as nat);
                        assert((here + more).skip(used as int) =~= there + more);
                    }
                }
                at = at + used;
            },
        }
    }
}

/// The part of a response that its head announces: the head, what came behind it, and the framing.
pub open spec fn announced(received: Seq<u8>, limits: Limits) -> Result<
    Option<(Seq<u8>, Seq<u8>, BodyMode)>,
    ErrorView,
> {
    match header_block(received, limits.max_header_bytes as nat) {
        Err(e) => Err(e),
        Ok(None) => Ok(None),
        Ok(Some((raw_head, rest))) => match (header_fields(raw_head), status_code(raw_head)) {
            (Err(e), _) => Err(e),
            (_, Err(e)) => Err(e),
            (Ok(headers), Ok(status)) => match framing(headers, status) {
                Err(e) => Err(e),
                Ok(mode) => Ok(Some((raw_head, rest, mode))),
            },
        },
    }
}

/// The body in what came behind the head, decoded: nothing yet while it may go on, and an error
/// where it is malformed or exceeds `max`.
pub open spec fn body_so_far(mode: BodyMode, rest: Seq<u8>, max: nat) -> Result<Option<Seq<u8>>, ErrorView> {
    match mode {
        BodyMode::Fixed(length) => if length > max {
            Err(ErrorView::BodyTooLarge)
        } else if rest.len() < length {
            Ok(None)
        } else {
            Ok(Some(rest.take(length as int)))
        },
        BodyMode::Chunked => chunked(rest, Seq::empty(), max),
        BodyMode::UntilEof => if rest.len() > max {
            Err(ErrorView::BodyTooLarge)
        } else {
            Ok(None)
        },
    }
}

/// A whole response: its head as it came, its decoded body, and whether decoding took place.
pub struct ResponseView {
    pub raw_head: Seq<u8>,
    pub body: Seq<u8>,
    pub decoded: bool,
}

/// The response that was received so far, while the stream is open.
pub open spec fn response(received: Seq<u8>, limits: Limits) -> Result<Option<ResponseView>, ErrorView> {
    match announced(received, limits) {
        Err(e) => Err(e),
        Ok(None) => Ok(None),
        Ok(Some((raw_head, rest, mode))) => match body_so_far(mode, rest, limits.max_response_bytes as nat) {
            Err(e) => Err(e),
            Ok(None) => Ok(None),
            Ok(Some(body)) => Ok(Some(ResponseView { raw_head, body, decoded: mode is Chunked })),
        },
    }
}

/// What it comes to when the stream ends while a response is incomplete.
pub open spec fn response_at_end(received: Seq<u8>, limits: Limits) -> Result<ResponseView, ErrorView> {
    match announced(received, limits) {
        Ok(Some((raw_head, rest, mode))) => match mode {
            BodyMode::Fixed(_) => Err(ErrorView::ParseError("unexpected end of response body"@)),
            BodyMode::Chunked => Err(ErrorView::Io(EARLY_END@)),
            BodyMode::UntilEof => Ok(ResponseView { raw_head, body: rest, decoded: false }),
        },
        _ => Err(ErrorView::EmptyRequest),
    }
}

/// The response in what a backend sent, `ended` telling whether it will send more.
pub open spec fn whole_response(received: Seq<u8>, ended: bool, limits: Limits) -> Result<
    Option<ResponseView>,
    ErrorView,
> {
    match response(received, limits) {
        Ok(None) if ended => match response_at_end(received, limits) {
            Ok(v) => Ok(Some(v)),
            Err(e) => Err(e),
        },
        other => other,
    }
}

/// A complete HTTP/1.x response.
#[derive(Debug, Clone)]
pub struct HttpResponse {
    /// The head as it came, with its terminator.
    pub raw_head: Bytes,
    /// The body, decoded.
    pub body: Bytes,
    /// Whether the body came in chunks.
    pub decoded: bool,
}

impl View for HttpResponse {
    type V = ResponseView;

    open spec fn view(&self) -> ResponseView {
        ResponseView { raw_head: self.raw_head@, body: self.body@, decoded: self.decoded }
    }
}

/// What a reader knows of the response that is coming in.
enum Stage {
    /// The head is not complete.
    Head,
    /// A body of so many bytes is coming.
    Fixed(usize),
    /// Chunks are coming: where the next one starts, the body so far, and how many bytes are
    /// missing at least.
    Chunks(usize, Bytes, usize),
    /// The body goes on until the stream ends.
    UntilEof,
    /// The response is complete, or failed.
    Finished,
}

/// Reads one response as its bytes come in.
///
/// `Content-Length` or chunked framing is used when present, so that the backend need not close
/// the connection.
pub struct ResponseReader {
    limits: Limits,
    received: Bytes,
    head_len: usize,
    stage: Stage,
}

spec fn open_stage(received: Seq<u8>, limits: Limits, head_len: int, stage: Stage) -> bool {
    let max = limits.max_response_bytes as nat;
    let rest = received.skip(head_len);
    match stage {
        Stage::Head => announced(received, limits) == Ok::<Option<(Seq<u8>, Seq<u8>, BodyMode)>, ErrorView>(None),
        Stage::Fixed(length) => announced_is(received, limits, head_len, BodyMode::Fixed(length)) && rest.len() < length
            <= max,
        Stage::Chunks(next, part, missing) => {
            &&& announced_is(received, limits, head_len, BodyMode::Chunked)
            &&& next <= received.len()
            &&& part@.len() <= max
            &&& missing > 0
            &&& chunk_incomplete_for(received.skip(next as int), part@.len(), max, missing as nat)
            &&& same_chunks(rest, Seq::empty(), received.skip(next as int), part@, max)
        },
        Stage::UntilEof => announced_is(received, limits, head_len, BodyMode::UntilEof) && rest.len() <= max,
        Stage::Finished => response(received, limits) != Ok::<Option<ResponseView>, ErrorView>(None),
    }
}

spec fn announced_is(received: Seq<u8>, limits: Limits, head_len: int, mode: BodyMode) -> bool {
    0 <= head_len <= received.len() && announced(received, limits) == Ok::<
        Option<(Seq<u8>, Seq<u8>, BodyMode)>,
        ErrorView,
    >(Some((received.take(head_len), received.skip(head_len), mode)))
}

proof fn lemma_announced_extend(received: Seq<u8>, more: Seq<u8>, limits: Limits, head_len: int, mode: BodyMode)
    requires
        announced_is(received, limits, head_len, mode),
    ensures
        announced_is(received + more, limits, head_len, mode),
        (received + more).skip(head_len) == received.skip(head_len) + more,
{
    lemma_find_props(received, header_end());
    let i = find(received, header_end()).unwrap();
    assert(received.take(i + 4).len() == i + 4);
    assert(received.take(head_len).len() == head_len);
    lemma_find_extend(received, more, header_end(), i);
    assert((received + more).take(i + 4) =~= received.take(i + 4));
    assert((received + more).skip(i + 4) =~= received.skip(i + 4) + more);
}

fn announce(received: &[u8], limits: &Limits) -> (r: MzaniResult<Option<(usize, BodyMode)>>)
    ensures
        match announced(received@, *limits) {
            Ok(Some(_)) => r matches Ok(Some((head_len, mode))) && announced_is(
                received@,
                *limits,
                head_len as int,
                mode,
            ),
            Ok(None) => r matches Ok(None),
            Err(e) => r matches Err(got) && got@ == e,
        },
{
    let raw_head: Bytes = match read_header_block(received, limits.max_header_bytes) {
        Ok(Some((raw_head, _))) => raw_head,
        Ok(None) => {
            return Ok(None);
        },
        Err(e) => {
            return Err(e);
        },
    };
    let headers: Vec<(String, String)> = match parse_header_fields(raw_head.as_slice()) {
        Ok(headers) => headers,
        Err(e) => {
            return Err(e);
        },
    };
    let status: u16 = match parse_status_code(raw_head.as_slice()) {
        Ok(status) => status,
        Err(e) => {
            return Err(e);
        },
    };
    match body_mode(headers.as_slice(), status) {
        Ok(mode) => {
            proof {
                lemma_find_props(received@, header_end());
            }
            Ok(Some((raw_head.len(), mode)))
        },
        Err(e) => Err(e),
    }
}

/// The framing that a stage of the body stands for, and what holds of it before it is settled.
spec fn body_stage(received: Seq<u8>, limits: Limits, head_len: int, stage: Stage) -> bool {
    let max = limits.max_response_bytes as nat;
    match stage {
        Stage::Fixed(length) => announced_is(received, limits, head_len, BodyMode::Fixed(length)),
        Stage::Chunks(next, part, _) => {
            &&& announced_is(received, limits, head_len, BodyMode::Chunked)
            &&& next <= received.len()
            &&& part@.len() <= max
            &&& same_chunks(received.skip(head_len), Seq::empty(), received.skip(next as int), part@, max)
        },
        Stage::UntilEof => announced_is(received, limits, head_len, BodyMode::UntilEof),
        _ => false,
    }
}

/// Brings a stage of the body up to what was received.
fn settle(received: &[u8], limits: &Limits, head_len: usize, stage: Stage) -> (r: (
    Stage,
    MzaniResult<Option<HttpResponse>>,
))
    requires
        body_stage(received@, *limits, head_len as int, stage),
    ensures
        open_stage(received@, *limits, head_len as int, r.0),
        match response(received@, *limits) {
            Ok(Some(v)) => r.1 matches Ok(Some(got)) && got@ == v,
            Ok(None) => r.1 matches Ok(None),
            Err(e) => r.1 matches Err(got) && got@ == e,
        },
{
    let n: usize = received.len();
    let max: usize = limits.max_response_bytes;
    let ghost rest = received@.skip(head_len as int);
    assert(received@.take(head_len as int) =~= received@.subrange(0, head_len as int));
    match stage {
        Stage::Fixed(length) => {
            if length > max {
                (Stage::Finished, Err(MzaniError::BodyTooLarge))
            } else if n - head_len < length {
                (Stage::Fixed(length), Ok(None))
            } else {
                assert(rest.take(length as int) =~= received@.subrange(head_len as int, head_len + length));
                let body: Bytes = vstd::slice::slice_to_vec(
                    vstd::slice::slice_subrange(received, head_len, head_len + length),
                );
                let raw_head: Bytes = vstd::slice::slice_to_vec(
                    vstd::slice::slice_subrange(received, 0, head_len),
                );
                (Stage::Finished, Ok(Some(HttpResponse { raw_head, body, decoded: false })))
            }
        },
        Stage::Chunks(next, part, _) => {
            proof {
                lemma_same_chunks_now(
                    rest,
                    Seq::empty(),
                    received@.skip(next as int),
                    part@,
                    max as nat,
                );
            }
            match read_chunked_body(received, next, part, max) {
                Ok(ChunkProgress::Done(body)) => {
                    let raw_head: Bytes = vstd::slice::slice_to_vec(
                        vstd::slice::slice_subrange(received, 0, head_len),
                    );
                    (Stage::Finished, Ok(Some(HttpResponse { raw_head, body, decoded: true })))
                },
                Ok(ChunkProgress::More(later, whole, missing)) => {
                    assert(same_chunks(rest, Seq::empty(), received@.skip(later as int), whole@, max as nat)) by {
                        assert forall|more: Seq<u8>| #[trigger] chunked(rest + more, Seq::empty(), max as nat)
                            == chunked(received@.skip(later as int) + more, whole@, max as nat) by {
                            assert(chunked(received@.skip(next as int) + more, part@, max as nat) == chunked(
                                received@.skip(later as int) + more,
                                whole@,
                                max as nat,
                            ));
                        }
                    }
                    (Stage::Chunks(later, whole, missing), Ok(None))
                },
                Err(e) => (Stage::Finished, Err(e)),
            }
        },
        Stage::UntilEof => {
            if n - head_len > max {
                (Stage::Finished, Err(MzaniError::BodyTooLarge))
            } else {
                (Stage::UntilEof, Ok(None))
            }
        },
        other => (other, Ok(None)),
    }
}

proof fn lemma_body_stage_extend(received: Seq<u8>, more: Seq<u8>, limits: Limits, head_len: int, stage: Stage)
    requires
        open_stage(received, limits, head_len, stage),
        !(stage is Head),
        !(stage is Finished),
    ensures
        body_stage(received + more, limits, head_len, stage),
        (received + more).skip(head_len) == received.skip(head_len) + more,
{
    let max = limits.max_response_bytes as nat;
    match stage {
        Stage::Fixed(length) => {
            lemma_announced_extend(received, more, limits, head_len, BodyMode::Fixed(length));
        },
        Stage::Chunks(next, part, _) => {
            lemma_announced_extend(received, more, limits, head_len, BodyMode::Chunked);
            let rest = received.skip(head_len);
            let there = received.skip(next as int);
            assert((received + more).skip(next as int) =~= there + more);
            assert forall|later: Seq<u8>| #[trigger] chunked((rest + more) + later, Seq::empty(), max) == chunked(
                (there + more) + later,
                part@,
                max,
            ) by {
                assert((rest + more) + later =~= rest + (more + later));
                assert((there + more) + later =~= there + (more + later));
            }
        },
        _ => {
            lemma_announced_extend(received, more, limits, head_len, BodyMode::UntilEof);
        },
    }
}

/// Fewer than `n` more bytes do not complete the response.
pub open spec fn stays_open(received: Seq<u8>, limits: Limits, n: nat) -> bool {
    forall|more: Seq<u8>|
        more.len() < n ==> !((#[trigger] response(received + more, limits)) matches Ok(Some(_)))
}

impl ResponseReader {
    #[verifier::type_invariant]
    spec fn well_formed(self) -> bool {
        open_stage(self.received@, self.limits, self.head_len as int, self.stage)
    }

    /// All bytes that came in so far.
    pub closed spec fn received(&self) -> Seq<u8> {
        self.received@
    }

    /// The limits that this reader enforces.
    pub closed spec fn limits(&self) -> Limits {
        self.limits
    }

    /// More bytes are to come.
    pub open spec fn pending(&self) -> bool {
        response(self.received(), self.limits()) == Ok::<Option<ResponseView>, ErrorView>(None)
    }

    /// A reader to which nothing has come yet.
    #[must_use]
    pub fn new(limits: Limits) -> (r: ResponseReader)
        ensures
            r.received() == Seq::<u8>::empty(),
            r.limits() == limits,
            r.pending(),
    {
        proof {
            lemma_find_props(Seq::<u8>::empty(), header_end());
        }
        ResponseReader { limits, received: Vec::new(), head_len: 0, stage: Stage::Head }
    }

    /// Takes the bytes that came in next; the response, once it is complete.
    ///
    /// # Errors
    ///
    /// Returns [`MzaniError::ParseError`] on malformed heads or framing, and
    /// [`MzaniError::BodyTooLarge`] when the decoded body exceeds its limit.
    pub fn feed(&mut self, chunk: &[u8]) -> (r: MzaniResult<Option<HttpResponse>>)
        requires
            old(self).pending(),
        ensures
            final(self).received() == old(self).received() + chunk@,
            final(self).limits() == old(self).limits(),
            match response(final(self).received(), final(self).limits()) {
                Ok(Some(v)) => r matches Ok(Some(got)) && got@ == v,
                Ok(None) => r matches Ok(None),
                Err(e) => r matches Err(got) && got@ == e,
            },
    {
        proof {
            use_type_invariant(&*self);
        }
        let limits: Limits = self.limits;
        let mut taken: ResponseReader = ResponseReader::new(limits);
        std::mem::swap(self, &mut taken);
        let ghost before = taken.received@;
        let mut received: Bytes = taken.received;
        received.extend_from_slice(chunk);
        assert(received@ =~= before + chunk@);
        let (head_len, stage): (usize, Stage) = match taken.stage {
            Stage::Head => match announce(received.as_slice(), &limits) {
                Ok(Some((head_len, BodyMode::Fixed(length)))) => (head_len, Stage::Fixed(length)),
                Ok(Some((head_len, BodyMode::UntilEof))) => (head_len, Stage::UntilEof),
                Ok(Some((head_len, BodyMode::Chunked))) => {
                    let part: Bytes = Vec::new();
                    assert(part@ =~= Seq::empty());
                    (head_len, Stage::Chunks(head_len, part, 1))
                },
                Ok(None) => {
                    *self = ResponseReader { limits, received, head_len: 0, stage: Stage::Head };
                    return Ok(None);
                },
                Err(e) => {
                    *self = ResponseReader { limits, received, head_len: 0, stage: Stage::Finished };
                    return Err(e);
                },
            },
            stage => {
                proof {
                    lemma_body_stage_extend(before, chunk@, limits, taken.head_len as int, stage);
                }
                (taken.head_len, stage)
            },
        };
        let (settled, outcome): (Stage, MzaniResult<Option<HttpResponse>>) = settle(
            received.as_slice(),
            &limits,
            head_len,
            stage,
        );
        *self = ResponseReader { limits, received, head_len, stage: settled };
        outcome
    }

    /// How many bytes to read next at most. Once the head is complete and the body is framed, no
    /// fewer bytes than these complete the response: nothing behind its end is read. Of a body with
    /// a declared length, all that is missing is asked for, as far as it fits in one read.
    #[must_use]
    pub fn wanted(&self) -> (r: usize)
        requires
            self.pending(),
        ensures
            0 < r <= READ_CHUNK,
            match announced(self.received(), self.limits()) {
                Ok(Some((_, rest, BodyMode::Fixed(length)))) => r == READ_CHUNK && length - rest.len() >= READ_CHUNK || r
                    == length - rest.len(),
                Ok(Some((_, _, BodyMode::Chunked))) => true,
                _ => r == READ_CHUNK,
            },
            announced(self.received(), self.limits()) matches Ok(Some(_)) ==> stays_open(
                self.received(),
                self.limits(),
                r as nat,
            ),
    {
        proof {
            use_type_invariant(self);
        }
        let needed: usize = match &self.stage {
            Stage::Fixed(length) => *length - (self.received.len() - self.head_len),
            Stage::Chunks(_, _, missing) => *missing,
            _ => READ_CHUNK,
        };
        proof {
            if announced(self.received@, self.limits) matches Ok(Some(_)) {
                assert forall|more: Seq<u8>| more.len() < needed implies !((#[trigger] response(
                    self.received@ + more,
                    self.limits,
                )) matches Ok(Some(_))) by {
                    lemma_body_stage_extend(self.received@, more, self.limits, self.head_len as int, self.stage);
                    if let Stage::Chunks(next, part, missing) = self.stage {
                        let max = self.limits.max_response_bytes as nat;
                        let rest = self.received@.skip(self.head_len as int);
                        assert(chunked(rest + more, Seq::empty(), max) == chunked(
                            self.received@.skip(next as int) + more,
                            part@,
                            max,
                        ));
                    }
                }
            }
        }
        if needed < READ_CHUNK {
            needed
        } else {
            READ_CHUNK
        }
    }

    /// The response, or the error, when the stream ends before the response is complete.
    ///
    /// # Errors
    ///
    /// Returns [`MzaniError::EmptyRequest`] where the head is not complete,
    /// [`MzaniError::ParseError`] where a declared length is not reached, and [`MzaniError::Io`]
    /// inside chunked framing.
    pub fn end(self) -> (r: MzaniResult<HttpResponse>)
        requires
            self.pending(),
        ensures
            match response_at_end(self.received(), self.limits()) {
                Ok(v) => r matches Ok(got) && got@ == v,
                Err(e) => r matches Err(got) && got@ == e,
            },
    {
        proof {
            use_type_invariant(&self);
        }
        match self.stage {
            Stage::UntilEof => {
                let n: usize = self.received.len();
                let raw_head: Bytes = vstd::slice::slice_to_vec(
                    vstd::slice::slice_subrange(self.received.as_slice(), 0, self.head_len),
                );
                let body: Bytes = vstd::slice::slice_to_vec(
                    vstd::slice::slice_subrange(self.received.as_slice(), self.head_len, n),
                );
                assert(raw_head@ =~= self.received@.take(self.head_len as int));
                assert(body@ =~= self.received@.skip(self.head_len as int));
                Ok(HttpResponse { raw_head, body, decoded: false })
            },
            Stage::Fixed(_) => Err(parse_err("unexpected end of response body")),
            Stage::Chunks(_, _, _) => Err(MzaniError::Io(EARLY_END.to_owned())),
            _ => Err(MzaniError::EmptyRequest),
        }
    }
}

impl ResponseView {
    /// The message: the head as it came, then the decoded body.
    pub open spec fn message(self) -> Seq<u8> {
        self.raw_head + self.body
    }

    /// The message as it goes to a client. A head that announces chunks does not describe the
    /// decoded body, so there the framing fields give way to the length of that body.
    pub open spec fn client_message(self) -> Seq<u8> {
        if self.decoded {
            encode_utf8(reframed_head(decode_utf8(self.raw_head), self.body.len())) + self.body
        } else {
            self.message()
        }
    }
}

/// A header line that tells how the body ends.
pub open spec fn is_framing_line(line: Seq<char>) -> bool {
    header_line(line) matches Some((name, _)) && (same_ignoring_case(name, "transfer-encoding"@)
        || same_ignoring_case(name, "content-length"@))
}

/// The header lines up to the first empty one but for those on framing, each with its line end.
pub open spec fn unframed_lines(lines: Seq<Seq<char>>) -> Seq<char>
    decreases lines.len(),
{
    if lines.len() == 0 || lines[0].len() == 0 {
        Seq::empty()
    } else if is_framing_line(lines[0]) {
        unframed_lines(lines.drop_first())
    } else {
        lines[0] + crlf() + unframed_lines(lines.drop_first())
    }
}

/// A message head with its framing replaced by a body length.
pub open spec fn reframed_head(head: Seq<char>, length: nat) -> Seq<char> {
    let lines = split_lines(head);
    lines[0] + crlf() + unframed_lines(lines.drop_first()) + "Content-Length: "@ + decimal(length) + crlf() + crlf()
}

fn append_chars(out: &mut Vec<char>, more: &[char])
    ensures
        final(out)@ == old(out)@ + more@,
{
    out.extend_from_slice(more);
    assert(out@ =~= old(out)@ + more@);
}

fn append_crlf(out: &mut Vec<char>)
    ensures
        final(out)@ == old(out)@ + crlf(),
{
    out.push('\r');
    out.push('\n');
    assert(out@ =~= old(out)@ + crlf());
}

fn reframe(head: &[char], length: usize) -> (r: Vec<char>)
    ensures
        r@ == reframed_head(head@, length as nat),
{
    let lines: Vec<Vec<char>> = split_crlf(head);
    let ghost all = lines_view(lines@);
    proof {
        assert(all.len() >= 1) by {
            reveal(split_lines);
        }
        assert(all[0] == lines@[0]@);
        assert(all.drop_first() =~= all.skip(1));
    }
    let mut out: Vec<char> = Vec::new();
    append_chars(&mut out, lines[0].as_slice());
    append_crlf(&mut out);
    let ghost start = all[0] + crlf();
    let mut i: usize = 1;
    proof {
        assert(out@ =~= start);
        assert(out@ + unframed_lines(all.skip(1)) =~= start + unframed_lines(all.skip(1)));
    }
    while i < lines.len() && !lines[i].is_empty()
        invariant
            1 <= i <= lines@.len(),
            all == lines_view(lines@),
            out@ + unframed_lines(all.skip(i as int)) == start + unframed_lines(all.skip(1)),
        decreases lines@.len() - i,
    {
        let ghost here = all.skip(i as int);
        let ghost before = out@;
        proof {
            assert(here[0] == lines@[i as int]@);
            assert(here.drop_first() =~= all.skip(i + 1));
        }
        let framing: bool = match parse_header_line(lines[i].as_slice()) {
            Some((name, _)) => eq_ignore_ascii_case(name.as_str(), "transfer-encoding") || eq_ignore_ascii_case(
                name.as_str(),
                "content-length",
            ),
            None => false,
        };
        if !framing {
            append_chars(&mut out, lines[i].as_slice());
            append_crlf(&mut out);
            proof {
                let later = unframed_lines(all.skip(i + 1));
                assert(out@ + later =~= before + (here[0] + crlf() + later));
            }
        }
        i = i + 1;
    }
    proof {
        let here = all.skip(i as int);
        if i < lines@.len() {
            assert(here[0] == lines@[i as int]@);
        }
        assert(unframed_lines(here) =~= Seq::empty());
        assert(out@ =~= out@ + unframed_lines(here));
    }
    append_chars(&mut out, chars_of("Content-Length: ").as_slice());
    append_chars(&mut out, chars_of(decimal_text(length as u128).as_str()).as_slice());
    append_crlf(&mut out);
    append_crlf(&mut out);
    out
}

impl HttpResponse {
    /// The message: head and decoded body.
    #[must_use]
    pub fn message(&self) -> (r: Bytes)
        ensures
            r@ == self@.message(),
    {
        let mut out: Bytes = Vec::new();
        out.extend_from_slice(self.raw_head.as_slice());
        out.extend_from_slice(self.body.as_slice());
        assert(out@ =~= self@.message());
        out
    }

    /// The message as it goes to a client.
    #[must_use]
    pub fn client_message(&self) -> (r: Bytes)
        requires
            self.decoded ==> valid_utf8(self.raw_head@),
        ensures
            r@ == self@.client_message(),
    {
        if !self.decoded {
            return self.message();
        }
        match utf8_text(self.raw_head.as_slice()) {
            Some(text) => {
                let head: Vec<char> = reframe(chars_of(text).as_slice(), self.body.len());
                let mut out: Bytes = bytes_of(text_of(head.as_slice()).as_str());
                let ghost front = out@;
                out.extend_from_slice(self.body.as_slice());
                assert(out@ =~= front + self.body@);
                out
            },
            None => self.message(),
        }
    }
}

/// Every response that was read has a head in UTF-8.
pub proof fn lemma_response_head_is_text(received: Seq<u8>, limits: Limits)
    ensures
        response(received, limits) matches Ok(Some(v)) ==> valid_utf8(v.raw_head),
        response_at_end(received, limits) matches Ok(v) ==> valid_utf8(v.raw_head),
{
}

/// Reads a complete HTTP/1.x response (headers and body) from the bytes that a backend sent so
/// far, as it goes to a client; nothing while it is incomplete and the stream has not `ended`.
///
/// # Errors
///
/// Returns [`MzaniError::ParseError`] on malformed heads or framing, [`MzaniError::BodyTooLarge`]
/// when the decoded body exceeds its limit, and the errors of [`ResponseReader::end`] where the
/// stream ended too early.
pub fn read_http_response(received: &[u8], ended: bool, limits: &Limits) -> (r: MzaniResult<Option<Bytes>>)
    ensures
        match whole_response(received@, ended, *limits) {
            Ok(Some(v)) => r matches Ok(Some(got)) && got@ == v.client_message(),
            Ok(None) => r matches Ok(None),
            Err(e) => r matches Err(got) && got@ == e,
        },
{
    let mut reader: ResponseReader = ResponseReader::new(*limits);
    let outcome: MzaniResult<Option<HttpResponse>> = reader.feed(received);
    assert(reader.received() =~= received@);
    proof {
        lemma_response_head_is_text(received@, *limits);
    }
    match outcome {
        Ok(Some(response)) => Ok(Some(response.client_message())),
        Err(e) => Err(e),
        Ok(None) => {
            if !ended {
                return Ok(None);
            }
            match reader.end() {
                Ok(response) => Ok(Some(response.client_message())),
                Err(e) => Err(e),
            }
        },
    }
}

/// No header block of a response exceeds the header limit.
pub proof fn law_response_head_within_limit(received: Seq<u8>, limits: Limits)
    ensures
        response(received, limits) matches Ok(Some(v)) ==> v.raw_head.len() <= limits.max_header_bytes,
        response_at_end(received, limits) matches Ok(v) ==> v.raw_head.len() <= limits.max_header_bytes,
{
    lemma_find_props(received, header_end());
}

/// No response exceeds the response limit, whether it was framed or ended with the stream.
pub proof fn law_response_body_within_limit(received: Seq<u8>, limits: Limits)
    ensures
        response(received, limits) matches Ok(Some(v)) ==> v.body.len() <= limits.max_response_bytes,
        response(received, limits) == Ok::<Option<ResponseView>, ErrorView>(None) ==> (response_at_end(
            received,
            limits,
        ) matches Ok(v) ==> v.body.len() <= limits.max_response_bytes),
{
    if let Ok(Some((_, rest, BodyMode::Chunked))) = announced(received, limits) {
        lemma_chunked_within(rest, Seq::empty(), limits.max_response_bytes as nat);
    }
}

proof fn lemma_chunked_within(input: Seq<u8>, body: Seq<u8>, max: nat)
    requires
        body.len() <= max,
    ensures
        chunked(input, body, max) matches Ok(Some(whole)) ==> whole.len() <= max,
    decreases input.len(),
{
    lemma_chunk_used(input, body.len(), max);
    if let Ok(Some(ChunkView::Data { data, used })) = chunk_at(input, body.len(), max) {
        lemma_chunked_within(input.skip(used), body + data, max);
    }
}

/// A response that is not decoded goes on as the backend sent it: with a declared length up to its
/// end, and otherwise in full once the stream has ended.
pub proof fn law_plain_response_is_unchanged(received: Seq<u8>, limits: Limits)
    ensures
        response(received, limits) matches Ok(Some(v)) ==> !v.decoded ==> v.client_message().is_prefix_of(received),
        response_at_end(received, limits) matches Ok(v) ==> v.client_message() == received,
{
    lemma_find_props(received, header_end());
    if let Some(i) = find(received, header_end()) {
        assert(received.take(i + 4) + received.skip(i + 4) =~= received);
    }
}

/// A response with a declared length or with chunks, once it is complete, is the same whatever
/// the backend sends behind it: its end does not depend on the connection being closed.
pub proof fn law_framed_response_needs_no_close(received: Seq<u8>, more: Seq<u8>, limits: Limits)
    requires
        response(received, limits) matches Ok(Some(_)),
    ensures
        response(received + more, limits) == response(received, limits),
{
    lemma_find_props(received, header_end());
    let (raw_head, rest, mode) = announced(received, limits)->Ok_0.unwrap();
    let max = limits.max_response_bytes as nat;
    assert(announced_is(received, limits, raw_head.len() as int, mode)) by {
        let i = find(received, header_end()).unwrap();
        assert(raw_head.len() == i + 4);
    }
    lemma_announced_extend(received, more, limits, raw_head.len() as int, mode);
    assert((received + more).take(raw_head.len() as int) =~= received.take(raw_head.len() as int));
    match mode {
        BodyMode::Fixed(length) => {
            assert((rest + more).take(length as int) =~= rest.take(length as int));
        },
        BodyMode::Chunked => {
            lemma_chunked_extend(rest, more, Seq::empty(), max);
        },
        BodyMode::UntilEof => {},
    }
}

/// A response that is refused stays refused, with the same error, whatever comes behind it: where
/// the bytes of a response are cut in pieces makes no difference to that.
pub proof fn law_response_refusal_is_final(received: Seq<u8>, more: Seq<u8>, limits: Limits)
    ensures
        response(received, limits) matches Err(e) ==> response(received + more, limits) == Err::<
            Option<ResponseView>,
            ErrorView,
        >(e),
{
    let all = received + more;
    lemma_find_props(received, header_end());
    lemma_find_props(all, header_end());
    match find(received, header_end()) {
        Some(i) => {
            lemma_find_extend(received, more, header_end(), i);
            assert(all.take(i + 4) =~= received.take(i + 4));
            assert(all.skip(i + 4) =~= received.skip(i + 4) + more);
            if let Ok(Some((_, rest, BodyMode::Chunked))) = announced(received, limits) {
                let max = limits.max_response_bytes as nat;
                if chunked(rest, Seq::empty(), max) != Ok::<Option<Seq<u8>>, ErrorView>(None) {
                    lemma_chunked_extend(rest, more, Seq::empty(), max);
                }
            }
        },
        None => {
            if let Some(i) = find(all, header_end()) {
                if i + 4 <= received.len() {
                    assert(received.subrange(i, i + 4) =~= all.subrange(i, i + 4));
                    assert(occurs_at(received, header_end(), i));
                }
            }
        },
    }
}

proof fn lemma_chunked_extend(input: Seq<u8>, more: Seq<u8>, body: Seq<u8>, max: nat)
    requires
        chunked(input, body, max) != Ok::<Option<Seq<u8>>, ErrorView>(None),
    ensures
        chunked(input + more, body, max) == chunked(input, body, max),
    decreases input.len(),
{
    lemma_chunk_used(input, body.len(), max);
    lemma_chunk_extend(input, more, body.len(), max);
    if let Ok(Some(ChunkView::Data { data, used })) = chunk_at(input, body.len(), max) {
        assert((input + more).skip(used) =~= input.skip(used) + more);
        lemma_chunked_extend(input.skip(used), more, body + data, max);
    }
}

} // verus!
