//! Messages that are written by the rules of HTTP/1.x are read as they were meant.

use vstd::prelude::*;
use vstd::utf8::{encode_utf8, encode_utf8_decode_utf8, encode_utf8_valid_utf8};

use crate::config::Limits;
use crate::error::ErrorView;
use crate::number::{decimal, hexadecimal, law_numbers_read_back, law_only_digits_are_numbers, parsed, stands_for};
use crate::readback::{
    lemma_announced_is, lemma_char_at, lemma_fields_read_back, lemma_head_reads_back, lemma_no_return_no_line_end,
};
use crate::reply::{closing_response, too_large_response, unavailable_response};
use crate::request::{
    field_value, header_block, header_end, header_fields, header_line, header_lines, request, request_head,
    HeadView, RequestView,
};
use crate::response::{
    announced, chunk_at, chunk_size, chunked, framing, line_end, reframed_head, response, response_at_end, status_code,
    unframed_lines, BodyMode, ChunkView, ResponseView,
};
use crate::text::{
    all_space, before, crlf, find, first_at, is_space, law_before, law_case_is_ignored, law_trimming, law_words,
    lemma_find_is, lemma_find_none, lemma_find_props, no_space, occurs_at, piece, same_ignoring_case, same_letter,
    split_lines, word,
};
use crate::wire::{is_head_line, lemma_encode_concat, lemma_lines_split, lines_text};

verus! {

/// A word of a start line.
pub open spec fn is_word(s: Seq<char>) -> bool {
    s.len() > 0 && no_space(s)
}

/// The name of a header field.
pub open spec fn is_name(s: Seq<char>) -> bool {
    is_word(s) && !s.contains(':')
}

/// The value of a header field, which may hold white space but does not begin or end with it.
pub open spec fn is_value(s: Seq<char>) -> bool {
    !s.contains('\r') && (s.len() > 0 ==> !is_space(s[0]) && !is_space(s.last()))
}

/// Header fields that can be written down.
pub open spec fn are_fields(fields: Seq<(Seq<char>, Seq<char>)>) -> bool {
    forall|i: int| 0 <= i < fields.len() ==> is_name((#[trigger] fields[i]).0) && is_value(fields[i].1)
}

/// Header fields as they are written: each on a line of its own, with a colon and a space between
/// name and value.
pub open spec fn written_fields(fields: Seq<(Seq<char>, Seq<char>)>) -> Seq<char>
    decreases fields.len(),
{
    if fields.len() == 0 {
        Seq::empty()
    } else {
        fields[0].0 + seq![':', ' '] + fields[0].1 + seq!['\r', '\n'] + written_fields(fields.drop_first())
    }
}

/// A message head as it is written: a start line, header fields and an empty line.
pub open spec fn written_head(start: Seq<char>, fields: Seq<(Seq<char>, Seq<char>)>) -> Seq<u8> {
    encode_utf8(start + seq!['\r', '\n'] + written_fields(fields) + seq!['\r', '\n'])
}

/// A name is another one, in any case.
pub open spec fn is_named(name: Seq<char>, other: Seq<char>) -> bool {
    name.len() == other.len() && forall|i: int| 0 <= i < name.len() ==> same_letter(#[trigger] name[i], other[i])
}

/// No field has this name.
pub open spec fn none_named(fields: Seq<(Seq<char>, Seq<char>)>, name: Seq<char>) -> bool {
    forall|i: int| 0 <= i < fields.len() ==> !is_named((#[trigger] fields[i]).0, name)
}

/// The first field with this name is the `i`-th.
pub open spec fn first_named(fields: Seq<(Seq<char>, Seq<char>)>, name: Seq<char>, i: int) -> bool {
    &&& 0 <= i < fields.len()
    &&& is_named(fields[i].0, name)
    &&& forall|j: int| 0 <= j < i ==> !is_named((#[trigger] fields[j]).0, name)
}

/// A field is looked up by its name in any case, and the first of several counts.
pub proof fn law_first_field_counts(fields: Seq<(Seq<char>, Seq<char>)>, name: Seq<char>, i: int)
    ensures
        none_named(fields, name) ==> field_value(fields, name) is None,
        first_named(fields, name, i) ==> field_value(fields, name) == Some(fields[i].1),
    decreases fields.len(),
{
    if fields.len() > 0 {
        law_case_is_ignored(fields[0].0, name);
        let later = fields.drop_first();
        law_first_field_counts(later, name, i - 1);
        if none_named(fields, name) {
            assert(!is_named(fields[0].0, name));
            assert forall|j: int| 0 <= j < later.len() implies !is_named((#[trigger] later[j]).0, name) by {
                assert(later[j] == fields[j + 1]);
            }
        }
        if first_named(fields, name, i) && i > 0 {
            assert(!is_named(fields[0].0, name));
            assert(later[i - 1] == fields[i]);
            assert forall|j: int| 0 <= j < i - 1 implies !is_named((#[trigger] later[j]).0, name) by {
                assert(later[j] == fields[j + 1]);
            }
        }
    }
}

spec fn field_line(field: (Seq<char>, Seq<char>)) -> Seq<char> {
    field.0 + seq![':', ' '] + field.1
}

spec fn head_lines(start: Seq<char>, fields: Seq<(Seq<char>, Seq<char>)>) -> Seq<Seq<char>> {
    seq![start] + fields.map_values(|f: (Seq<char>, Seq<char>)| field_line(f))
}

proof fn lemma_field_line(field: (Seq<char>, Seq<char>))
    requires
        is_name(field.0),
        is_value(field.1),
    ensures
        is_head_line(field_line(field)),
        header_line(field_line(field)) == Some(field),
{
    let (name, value) = field;
    let line = field_line(field);
    let n = name.len() as int;
    assert forall|i: int| 0 <= i < line.len() implies #[trigger] line[i] != '\r' by {
        if i < n {
            assert(line[i] == name[i]);
            assert(!is_space(name[i]));
        } else if i >= n + 2 {
            assert(line[i] == value[i - n - 2]);
            assert(value.contains(value[i - n - 2]));
        }
    }
    lemma_no_return_no_line_end(line);
    lemma_char_at(line, ':', n);
    assert forall|i: int| 0 <= i < n implies !#[trigger] occurs_at(line, seq![':'], i) by {
        lemma_char_at(line, ':', i);
        assert(line[i] == name[i]);
        assert(name.contains(name[i]));
    }
    assert(first_at(line, seq![':'], n));
    lemma_find_is(line, seq![':'], n);
    let none = Seq::<char>::empty();
    assert(line.take(n) =~= none + name + none);
    assert(!is_space(name[0]) && !is_space(name[n - 1]));
    law_trimming(none, name, none);
    assert(line.skip(n + 1) =~= seq![' '] + value + none);
    assert(name =~= none + name + none);
    law_trimming(seq![' '], value, none);
}

proof fn lemma_written_fields(fields: Seq<(Seq<char>, Seq<char>)>)
    requires
        are_fields(fields),
    ensures
        ({
            let lines = fields.map_values(|f: (Seq<char>, Seq<char>)| field_line(f));
            &&& lines_text(lines) == written_fields(fields)
            &&& header_lines(lines) == Some(fields)
            &&& forall|i: int| 0 <= i < lines.len() ==> is_head_line(#[trigger] lines[i])
        }),
    decreases fields.len(),
{
    let lines = fields.map_values(|f: (Seq<char>, Seq<char>)| field_line(f));
    if fields.len() == 0 {
        assert(lines_text(lines) =~= written_fields(fields));
        assert(fields =~= Seq::empty());
    } else {
        let later = fields.drop_first();
        assert forall|i: int| 0 <= i < later.len() implies is_name((#[trigger] later[i]).0) && is_value(later[i].1) by {
            assert(later[i] == fields[i + 1]);
        }
        lemma_written_fields(later);
        assert(lines.drop_first() =~= later.map_values(|f: (Seq<char>, Seq<char>)| field_line(f)));
        assert(is_name(fields[0].0));
        lemma_field_line(fields[0]);
        assert(lines[0] == field_line(fields[0]));
        assert(lines[0].len() > 0);
        assert(lines_text(lines) =~= written_fields(fields));
        assert(seq![fields[0]] + later =~= fields);
        assert forall|i: int| 0 <= i < lines.len() implies is_head_line(#[trigger] lines[i]) by {
            if i > 0 {
                assert(lines[i] == lines.drop_first()[i - 1]);
            }
        }
    }
}

/// A written head is the header block of its message, splits into its lines and has its fields.
proof fn lemma_written_head(start: Seq<char>, fields: Seq<(Seq<char>, Seq<char>)>, rest: Seq<u8>, max: nat)
    requires
        start.len() > 0,
        !start.contains('\r'),
        are_fields(fields),
        written_head(start, fields).len() <= max,
    ensures
        ({
            let head = written_head(start, fields);
            let text = start + seq!['\r', '\n'] + written_fields(fields) + seq!['\r', '\n'];
            &&& header_block(head + rest, max) == Ok::<Option<(Seq<u8>, Seq<u8>)>, ErrorView>(Some((head, rest)))
            &&& header_fields(head) == Ok::<Seq<(Seq<char>, Seq<char>)>, ErrorView>(fields)
            &&& vstd::utf8::valid_utf8(head)
            &&& vstd::utf8::decode_utf8(head) == text
            &&& split_lines(text)[0] == start
        }),
{
    let lines = head_lines(start, fields);
    let text = start + seq!['\r', '\n'] + written_fields(fields) + seq!['\r', '\n'];
    lemma_written_fields(fields);
    assert forall|i: int| 0 <= i < start.len() implies #[trigger] start[i] != '\r' by {
        assert(start.contains(start[i]));
    }
    lemma_no_return_no_line_end(start);
    let later = fields.map_values(|f: (Seq<char>, Seq<char>)| field_line(f));
    assert(lines.drop_first() =~= later);
    assert forall|i: int| 0 <= i < lines.len() implies is_head_line(#[trigger] lines[i]) by {
        if i > 0 {
            assert(lines[i] == later[i - 1]);
        }
    }
    assert(lines[0] == start);
    assert(lines_text(lines) + crlf() =~= text);
    lemma_head_reads_back(lines, rest, max);
    lemma_fields_read_back(lines, fields);
    lemma_lines_split(lines);
    encode_utf8_valid_utf8(text);
    encode_utf8_decode_utf8(text);
}

/// The start line of a request.
pub open spec fn request_line(method: Seq<char>, path: Seq<char>, version: Seq<char>) -> Seq<char> {
    method + seq![' '] + path + seq![' '] + version
}

/// The fields declare a body of `n` bytes: by a length in decimal, or by none where there is no body.
pub open spec fn declares(fields: Seq<(Seq<char>, Seq<char>)>, n: nat) -> bool {
    ||| none_named(fields, "content-length"@) && n == 0
    ||| exists|i: int| #[trigger] first_named(fields, "content-length"@, i) && fields[i].1 == decimal(n)
}

proof fn lemma_declares(fields: Seq<(Seq<char>, Seq<char>)>, n: nat)
    requires
        declares(fields, n),
    ensures
        field_value(fields, "content-length"@) == Some(decimal(n)) || field_value(fields, "content-length"@) is None
            && n == 0,
{
    law_first_field_counts(fields, "content-length"@, 0);
    if !none_named(fields, "content-length"@) || n != 0 {
        let i = choose|i: int| #[trigger] first_named(fields, "content-length"@, i) && fields[i].1 == decimal(n);
        law_first_field_counts(fields, "content-length"@, i);
    }
}

proof fn lemma_request_line(method: Seq<char>, path: Seq<char>, version: Seq<char>)
    requires
        is_word(method),
        is_word(path),
        is_word(version),
    ensures
        word(request_line(method, path, version), 0) == Some(method),
        word(request_line(method, path, version), 1) == Some(path),
        !request_line(method, path, version).contains('\r'),
{
    let line = request_line(method, path, version);
    let none = Seq::<char>::empty();
    let last = seq![' '] + version;
    let rest = seq![' '] + path + last;
    assert(line =~= none + method + rest);
    law_words(none, method, rest, 0);
    law_words(seq![' '], path, last, 0);
    assert forall|i: int| 0 <= i < line.len() implies #[trigger] line[i] != '\r' by {
        let m = method.len() as int;
        let p = path.len() as int;
        if i < m {
            assert(!is_space(method[i]));
        } else if m < i < m + 1 + p {
            assert(!is_space(path[i - m - 1]));
        } else if m + p + 1 < i {
            assert(!is_space(version[i - m - p - 2]));
        }
    }
}

/// A well-formed request within the limits is read as it was written: method, path, header fields
/// and body. It is complete as soon as the declared body is there and not before, and it is refused
/// exactly where the declared body, or what came of it, exceeds the limit.
pub proof fn law_written_request_is_read(
    method: Seq<char>,
    path: Seq<char>,
    version: Seq<char>,
    fields: Seq<(Seq<char>, Seq<char>)>,
    n: nat,
    body: Seq<u8>,
    limits: Limits,
)
    requires
        is_word(method),
        is_word(path),
        is_word(version),
        are_fields(fields),
        declares(fields, n),
        n <= usize::MAX,
        written_head(request_line(method, path, version), fields).len() <= limits.max_header_bytes,
    ensures
        ({
            let head = written_head(request_line(method, path, version), fields);
            let read = request(head + body, limits);
            if n > limits.max_body_bytes || body.len() > limits.max_body_bytes {
                read == Err::<Option<RequestView>, ErrorView>(ErrorView::BodyTooLarge)
            } else if body.len() < n {
                read == Ok::<Option<RequestView>, ErrorView>(None)
            } else {
                read matches Ok(Some(v)) && {
                    &&& v.method.token() == method
                    &&& v.path == path
                    &&& v.headers == fields
                    &&& v.body == body
                    &&& v.raw_head == head
                }
            }
        }),
{
    let start = request_line(method, path, version);
    lemma_request_line(method, path, version);
    lemma_written_head(start, fields, body, limits.max_header_bytes as nat);
    lemma_declares(fields, n);
    law_numbers_read_back(n, usize::MAX as nat);
    crate::request::law_method_token_round_trip(method);
    assert(request_head(written_head(start, fields)) is Ok);
}

/// The start line of a response.
pub open spec fn status_line(version: Seq<char>, status: nat, reason: Seq<char>) -> Seq<char> {
    version + seq![' '] + decimal(status) + seq![' '] + reason
}

/// A response head that can be written down, and that is within a limit.
pub open spec fn is_response_head(
    version: Seq<char>,
    status: nat,
    reason: Seq<char>,
    fields: Seq<(Seq<char>, Seq<char>)>,
    max: nat,
) -> bool {
    &&& is_word(version)
    &&& status <= 65535
    &&& !reason.contains('\r')
    &&& !reason.contains('\n')
    &&& are_fields(fields)
    &&& written_head(status_line(version, status, reason), fields).len() <= max
}

proof fn lemma_decimal_word(n: nat)
    ensures
        is_word(decimal(n)),
{
    law_numbers_read_back(n, n);
    assert(decimal(n).len() > 0) by {
        if decimal(n).len() == 0 {
            assert(decimal(n) =~= Seq::empty());
            law_only_digits_are_numbers(decimal(n), 0, 10, n);
        }
    }
    assert forall|i: int| 0 <= i < decimal(n).len() implies !is_space(#[trigger] decimal(n)[i]) by {
        crate::text::law_white_space(decimal(n)[i]);
    }
}

/// The status of a written response head.
proof fn lemma_status_of_head(
    version: Seq<char>,
    status: nat,
    reason: Seq<char>,
    fields: Seq<(Seq<char>, Seq<char>)>,
    rest: Seq<u8>,
    limits: Limits,
)
    requires
        is_response_head(version, status, reason, fields, limits.max_header_bytes as nat),
    ensures
        ({
            let head = written_head(status_line(version, status, reason), fields);
            &&& status_code(head) == Ok::<nat, ErrorView>(status)
            &&& header_fields(head) == Ok::<Seq<(Seq<char>, Seq<char>)>, ErrorView>(fields)
            &&& header_block(head + rest, limits.max_header_bytes as nat) == Ok::<
                Option<(Seq<u8>, Seq<u8>)>,
                ErrorView,
            >(Some((head, rest)))
        }),
{
    let start = status_line(version, status, reason);
    let head = written_head(start, fields);
    let code = decimal(status);
    let none = Seq::<char>::empty();
    let v = version.len() as int;
    let d = code.len() as int;
    lemma_decimal_word(status);
    assert forall|i: int| 0 <= i < start.len() implies #[trigger] start[i] != '\r' && start[i] != '\n' by {
        if i < v {
            assert(!is_space(version[i]));
        } else if v < i < v + 1 + d {
            assert(!is_space(code[i - v - 1]));
        } else if v + d + 1 < i {
            assert(reason.contains(reason[i - v - d - 2]));
        }
    }
    lemma_written_head(start, fields, rest, limits.max_header_bytes as nat);
    let text = start + seq!['\r', '\n'] + written_fields(fields) + seq!['\r', '\n'];
    let line = start + seq!['\r'];
    let after = written_fields(fields) + seq!['\r', '\n'];
    assert(text =~= line.push('\n') + after);
    assert forall|i: int| 0 <= i < line.len() implies #[trigger] line[i] != '\n' by {
        if i < start.len() {
            assert(line[i] == start[i]);
        }
    }
    law_before(line, '\n', after);
    let last = seq![' '] + reason + seq!['\r'];
    let behind = seq![' '] + code + last;
    assert(line =~= none + version + behind);
    law_words(none, version, behind, 0);
    law_words(seq![' '], code, last, 0);
    law_numbers_read_back(status, u16::MAX as nat);
    assert(status_code(head) == Ok::<nat, ErrorView>(status));
}

/// What a written response head announces: its status, and how its body is framed.
proof fn lemma_response_head(
    version: Seq<char>,
    status: nat,
    reason: Seq<char>,
    fields: Seq<(Seq<char>, Seq<char>)>,
    rest: Seq<u8>,
    limits: Limits,
)
    requires
        is_response_head(version, status, reason, fields, limits.max_header_bytes as nat),
        framing(fields, status) is Ok,
    ensures
        ({
            let head = written_head(status_line(version, status, reason), fields);
            &&& status_code(head) == Ok::<nat, ErrorView>(status)
            &&& announced(head + rest, limits) == Ok::<Option<(Seq<u8>, Seq<u8>, BodyMode)>, ErrorView>(
                Some((head, rest, framing(fields, status)->Ok_0)),
            )
        }),
{
    let head = written_head(status_line(version, status, reason), fields);
    lemma_status_of_head(version, status, reason, fields, rest, limits);
    lemma_announced_is(head + rest, limits, head, rest, fields, status);
}

/// A response of a status that has no body is complete with its head: an informational one, one
/// that says there is no content, and one that says nothing was modified.
pub proof fn law_bodiless_response_is_read(
    version: Seq<char>,
    status: nat,
    reason: Seq<char>,
    fields: Seq<(Seq<char>, Seq<char>)>,
    rest: Seq<u8>,
    limits: Limits,
)
    requires
        is_response_head(version, status, reason, fields, limits.max_header_bytes as nat),
        100 <= status < 200 || status == 204 || status == 304,
    ensures
        ({
            let head = written_head(status_line(version, status, reason), fields);
            &&& status_code(head) == Ok::<nat, ErrorView>(status)
            &&& response(head + rest, limits) == Ok::<Option<ResponseView>, ErrorView>(
                Some(ResponseView { raw_head: head, body: Seq::empty(), decoded: false }),
            )
        }),
{
    lemma_response_head(version, status, reason, fields, rest, limits);
    assert(rest.take(0) =~= Seq::empty());
}

/// A status that comes with a body.
pub open spec fn has_body(status: nat) -> bool {
    !(100 <= status < 200) && status != 204 && status != 304
}

/// The body comes in chunks: the first transfer coding that is named is that.
pub open spec fn announces_chunks(fields: Seq<(Seq<char>, Seq<char>)>) -> bool {
    exists|i: int|
        #[trigger] first_named(fields, "transfer-encoding"@, i) && is_named(fields[i].1, "chunked"@)
}

/// The body does not come in chunks: no transfer coding is named, or the first one is another.
pub open spec fn announces_no_chunks(fields: Seq<(Seq<char>, Seq<char>)>) -> bool {
    ||| none_named(fields, "transfer-encoding"@)
    ||| exists|i: int|
        #[trigger] first_named(fields, "transfer-encoding"@, i) && !is_named(fields[i].1, "chunked"@)
}

proof fn lemma_codings(fields: Seq<(Seq<char>, Seq<char>)>)
    ensures
        announces_chunks(fields) ==> (field_value(fields, "transfer-encoding"@) matches Some(coding)
            && same_ignoring_case(coding, "chunked"@)),
        announces_no_chunks(fields) ==> !(field_value(fields, "transfer-encoding"@) matches Some(coding)
            && same_ignoring_case(coding, "chunked"@)),
{
    let name = "transfer-encoding"@;
    if announces_chunks(fields) {
        let i = choose|i: int| #[trigger] first_named(fields, name, i) && is_named(fields[i].1, "chunked"@);
        law_first_field_counts(fields, name, i);
        law_case_is_ignored(fields[i].1, "chunked"@);
    }
    if announces_no_chunks(fields) {
        law_first_field_counts(fields, name, 0);
        if !none_named(fields, name) {
            let i = choose|i: int| #[trigger] first_named(fields, name, i) && !is_named(fields[i].1, "chunked"@);
            law_first_field_counts(fields, name, i);
            law_case_is_ignored(fields[i].1, "chunked"@);
        }
    }
}

/// A response with a declared length is complete when so many bytes of its body are there, whatever
/// comes behind them, and not before. It is refused exactly where the length exceeds the limit.
pub proof fn law_response_with_length_is_read(
    version: Seq<char>,
    status: nat,
    reason: Seq<char>,
    fields: Seq<(Seq<char>, Seq<char>)>,
    i: int,
    n: nat,
    rest: Seq<u8>,
    limits: Limits,
)
    requires
        is_response_head(version, status, reason, fields, limits.max_header_bytes as nat),
        has_body(status),
        announces_no_chunks(fields),
        first_named(fields, "content-length"@, i),
        fields[i].1 == decimal(n),
        n <= usize::MAX,
    ensures
        ({
            let head = written_head(status_line(version, status, reason), fields);
            let read = response(head + rest, limits);
            &&& status_code(head) == Ok::<nat, ErrorView>(status)
            &&& if n > limits.max_response_bytes {
                read == Err::<Option<ResponseView>, ErrorView>(ErrorView::BodyTooLarge)
            } else if rest.len() < n {
                &&& read == Ok::<Option<ResponseView>, ErrorView>(None)
                &&& response_at_end(head + rest, limits) == Err::<ResponseView, ErrorView>(
                    ErrorView::ParseError("unexpected end of response body"@),
                )
            } else {
                read == Ok::<Option<ResponseView>, ErrorView>(
                    Some(ResponseView { raw_head: head, body: rest.take(n as int), decoded: false }),
                )
            }
        }),
{
    lemma_codings(fields);
    law_first_field_counts(fields, "content-length"@, i);
    law_numbers_read_back(n, usize::MAX as nat);
    lemma_response_head(version, status, reason, fields, rest, limits);
}

/// A response that says nothing of its length goes on until the stream ends, and is refused exactly
/// where it exceeds the limit.
pub proof fn law_response_until_close_is_read(
    version: Seq<char>,
    status: nat,
    reason: Seq<char>,
    fields: Seq<(Seq<char>, Seq<char>)>,
    rest: Seq<u8>,
    limits: Limits,
)
    requires
        is_response_head(version, status, reason, fields, limits.max_header_bytes as nat),
        has_body(status),
        announces_no_chunks(fields),
        none_named(fields, "content-length"@),
    ensures
        ({
            let head = written_head(status_line(version, status, reason), fields);
            &&& status_code(head) == Ok::<nat, ErrorView>(status)
            &&& if rest.len() > limits.max_response_bytes {
                response(head + rest, limits) == Err::<Option<ResponseView>, ErrorView>(ErrorView::BodyTooLarge)
            } else {
                &&& response(head + rest, limits) == Ok::<Option<ResponseView>, ErrorView>(None)
                &&& response_at_end(head + rest, limits) == Ok::<ResponseView, ErrorView>(
                    ResponseView { raw_head: head, body: rest, decoded: false },
                )
            }
        }),
{
    lemma_codings(fields);
    law_first_field_counts(fields, "content-length"@, 0);
    lemma_response_head(version, status, reason, fields, rest, limits);
}

/// Pieces of a body one after the other.
pub open spec fn joined(pieces: Seq<Seq<u8>>) -> Seq<u8>
    decreases pieces.len(),
{
    if pieces.len() == 0 {
        Seq::empty()
    } else {
        pieces[0] + joined(pieces.drop_first())
    }
}

/// Pieces of a body as chunks: the length of each in hexadecimal on a line, the piece and a line end,
/// and at last a chunk of length zero with an empty line.
pub open spec fn written_chunks(pieces: Seq<Seq<u8>>) -> Seq<u8>
    decreases pieces.len(),
{
    if pieces.len() == 0 {
        seq![48u8, 13u8, 10u8, 13u8, 10u8]
    } else {
        encode_utf8(hexadecimal(pieces[0].len())) + seq![13u8, 10u8] + pieces[0] + seq![13u8, 10u8] + written_chunks(
            pieces.drop_first(),
        )
    }
}

spec fn sixteens(k: nat) -> nat
    decreases k,
{
    if k == 0 {
        1
    } else {
        16 * sixteens((k - 1) as nat)
    }
}

proof fn lemma_hex_length(n: nat, k: nat)
    requires
        n < sixteens(k),
        k >= 1,
    ensures
        1 <= hexadecimal(n).len() <= k,
    decreases k,
{
    reveal_with_fuel(sixteens, 2);
    if n >= 16 {
        assert(k > 1);
        lemma_hex_length(n / 16, (k - 1) as nat);
        assert(hexadecimal(n % 16).len() == 1);
    }
}

proof fn lemma_hex_line(n: nat)
    requires
        n <= usize::MAX,
    ensures
        ({
            let bytes = encode_utf8(hexadecimal(n));
            &&& 1 <= bytes.len() <= 16
            &&& forall|i: int| 0 <= i < bytes.len() ==> #[trigger] bytes[i] != 13
            &&& chunk_size(bytes) == Ok::<nat, ErrorView>(n)
        }),
{
    let hex = hexadecimal(n);
    let bytes = encode_utf8(hex);
    reveal_with_fuel(sixteens, 17);
    assert(sixteens(16) == 0x1_0000_0000_0000_0000);
    lemma_hex_length(n, 16);
    law_numbers_read_back(n, usize::MAX as nat);
    lemma_hex_digits(n);
    assert(vstd::utf8::is_ascii_chars(hex)) by {
        assert forall|i: int| 0 <= i < hex.len() implies '\0' <= #[trigger] hex[i] <= '\u{7f}' by {}
    }
    vstd::utf8::is_ascii_chars_encode_utf8(hex);
    encode_utf8_valid_utf8(hex);
    encode_utf8_decode_utf8(hex);
    assert forall|i: int| 0 <= i < bytes.len() implies #[trigger] bytes[i] != 13 by {
        assert(bytes[i] == hex[i] as u8);
    }
    let none = Seq::<char>::empty();
    law_before(hex, ';', none);
    assert(hex =~= none + hex + none);
    assert forall|i: int| 0 <= i < hex.len() implies !is_space(#[trigger] hex[i]) by {
        crate::text::law_white_space(hex[i]);
    }
    assert(!is_space(hex[0]) && !is_space(hex[hex.len() - 1]));
    law_trimming(none, hex, none);
}

proof fn lemma_hex_digits(n: nat)
    ensures
        forall|i: int| 0 <= i < hexadecimal(n).len() ==> '0' <= #[trigger] hexadecimal(n)[i] <= '9' || 'a'
            <= hexadecimal(n)[i] <= 'f',
    decreases n,
{
    if n >= 16 {
        lemma_hex_digits(n / 16);
        lemma_hex_digits(n % 16);
        let front = hexadecimal(n / 16);
        let last = hexadecimal(n % 16);
        assert forall|i: int| 0 <= i < hexadecimal(n).len() implies '0' <= #[trigger] hexadecimal(n)[i] <= '9' || 'a'
            <= hexadecimal(n)[i] <= 'f' by {
            if i < front.len() {
                assert(hexadecimal(n)[i] == front[i]);
            } else {
                assert(hexadecimal(n)[i] == last[i - front.len()]);
            }
        }
    }
}

/// The line end behind bytes without a carriage return is the first.
proof fn lemma_line_found(line: Seq<u8>, rest: Seq<u8>)
    requires
        forall|i: int| 0 <= i < line.len() ==> #[trigger] line[i] != 13,
    ensures
        find(line + seq![13u8, 10u8] + rest, line_end()) == Some(line.len() as int),
{
    let s = line + seq![13u8, 10u8] + rest;
    let n = line.len() as int;
    assert(s.subrange(n, n + 2) =~= line_end());
    assert forall|j: int| 0 <= j < n implies !#[trigger] occurs_at(s, line_end(), j) by {
        assert(s.subrange(j, j + 2)[0] == line[j]);
    }
    assert(first_at(s, line_end(), n));
    lemma_find_is(s, line_end(), n);
}

/// There is no line end in a line that is cut before its own is complete.
proof fn lemma_line_cut(line: Seq<u8>, rest: Seq<u8>, k: int)
    requires
        forall|i: int| 0 <= i < line.len() ==> #[trigger] line[i] != 13,
        0 <= k < line.len() + 2,
    ensures
        find((line + seq![13u8, 10u8] + rest).take(k), line_end()) is None,
{
    let s = line + seq![13u8, 10u8] + rest;
    let cut = s.take(k);
    assert forall|j: int| 0 <= j <= cut.len() - line_end().len() implies !#[trigger] occurs_at(cut, line_end(), j) by {
        assert(cut.subrange(j, j + 2)[0] == line[j]);
    }
    lemma_find_none(cut, line_end());
}

/// So many bytes of the last chunk are that chunk where they are all there, and incomplete before.
#[verifier::spinoff_prover]
#[verifier::rlimit(60)]
proof fn lemma_last_chunk(k: int, have: nat, max: nat)
    requires
        0 <= k <= 5,
    ensures
        chunk_at(seq![48u8, 13u8, 10u8, 13u8, 10u8].take(k), have, max) == if k == 5 {
            Ok::<Option<ChunkView>, ErrorView>(Some(ChunkView::Last))
        } else {
            Ok(None)
        },
{
    let line = seq![48u8];
    let end = seq![13u8, 10u8];
    let none = Seq::<u8>::empty();
    let all = seq![48u8, 13u8, 10u8, 13u8, 10u8];
    let input = all.take(k);
    assert(all =~= line + end + end);
    assert(chunk_size(line) == Ok::<nat, ErrorView>(0)) by {
        assert(hexadecimal(0) =~= seq!['0']);
        lemma_hex_line(0);
        assert(vstd::utf8::is_ascii_chars(seq!['0']));
        vstd::utf8::is_ascii_chars_encode_utf8(seq!['0']);
        assert(encode_utf8(seq!['0'])[0] == 48u8);
        assert(encode_utf8(hexadecimal(0)) =~= line);
    }
    if k < 3 {
        lemma_line_cut(line, end, k);
    } else {
        let rest = end.take(k - 3);
        assert(input =~= line + end + rest);
        lemma_line_found(line, rest);
        assert(input.take(1) =~= line);
        assert(input.skip(3) =~= rest);
        assert(none + end + none =~= end);
        if k < 5 {
            lemma_line_cut(none, none, k - 3);
        } else {
            lemma_line_found(none, none);
            assert(rest =~= end);
        }
    }
}

/// A chunk whose length is known is incomplete until its data and its line end are there.
proof fn lemma_sized_chunk(line: Seq<u8>, n: nat, part: Seq<u8>, have: nat, max: nat)
    requires
        1 <= line.len() <= 16,
        forall|i: int| 0 <= i < line.len() ==> #[trigger] line[i] != 13,
        chunk_size(line) == Ok::<nat, ErrorView>(n),
        0 < n,
        have + n <= max,
        part.len() >= n + 2 ==> part[n as int] == 13 && part[n as int + 1] == 10,
    ensures
        chunk_at(line + seq![13u8, 10u8] + part, have, max) == if part.len() < n + 2 {
            Ok::<Option<ChunkView>, ErrorView>(None)
        } else {
            Ok(Some(ChunkView::Data { data: part.take(n as int), used: (line.len() + 2 + n + 2) as int }))
        },
{
    let input = line + seq![13u8, 10u8] + part;
    let h = line.len() as int;
    lemma_line_found(line, part);
    assert(input.take(h) =~= line);
    if part.len() >= n + 2 {
        assert(input.subrange(h + 2, h + 2 + n) =~= part.take(n as int));
        assert(input.subrange(h + 2 + n, h + 2 + n + 2) =~= line_end());
    }
}

/// So many bytes of a chunk and of what comes behind it are that chunk where it is all there, and
/// incomplete before.
#[verifier::spinoff_prover]
#[verifier::rlimit(60)]
proof fn lemma_data_chunk(data: Seq<u8>, behind: Seq<u8>, k: int, have: nat, max: nat)
    requires
        data.len() > 0,
        have + data.len() <= max <= usize::MAX,
        0 <= k <= encode_utf8(hexadecimal(data.len())).len() + 4 + data.len() + behind.len(),
    ensures
        ({
            let line = encode_utf8(hexadecimal(data.len()));
            let used = line.len() + 4 + data.len();
            let input = (line + seq![13u8, 10u8] + data + seq![13u8, 10u8] + behind).take(k);
            if k < used {
                chunk_at(input, have, max) == Ok::<Option<ChunkView>, ErrorView>(None)
            } else {
                &&& chunk_at(input, have, max) == Ok::<Option<ChunkView>, ErrorView>(
                    Some(ChunkView::Data { data, used: used as int }),
                )
                &&& input.skip(used as int) == behind.take(k - used)
            }
        }),
{
    let line = encode_utf8(hexadecimal(data.len()));
    let end = seq![13u8, 10u8];
    let h = line.len() as int;
    let used = h + 4 + data.len();
    let rest = data + end + behind;
    let all = line + end + data + end + behind;
    let input = all.take(k);
    assert(all =~= line + end + rest);
    lemma_hex_line(data.len());
    if k < h + 2 {
        assert(chunk_at(input, have, max) == Ok::<Option<ChunkView>, ErrorView>(None)) by {
            lemma_line_cut(line, rest, k);
        }
    } else {
        let part = rest.take(k - h - 2);
        assert(input =~= line + end + part);
        lemma_sized_chunk(line, data.len(), part, have, max);
        if k >= used {
            assert(part.take(data.len() as int) =~= data);
            assert(input.skip(used) =~= behind.take(k - used));
        }
    }
}

/// So many bytes of written chunks are their body where they are all there, and incomplete before.
#[verifier::spinoff_prover]
#[verifier::rlimit(60)]
proof fn lemma_chunks(pieces: Seq<Seq<u8>>, body: Seq<u8>, max: nat, k: int)
    requires
        forall|i: int| 0 <= i < pieces.len() ==> (#[trigger] pieces[i]).len() > 0,
        body.len() + joined(pieces).len() <= max,
        max <= usize::MAX,
        0 <= k <= written_chunks(pieces).len(),
    ensures
        chunked(written_chunks(pieces).take(k), body, max) == if k == written_chunks(pieces).len() {
            Ok::<Option<Seq<u8>>, ErrorView>(Some(body + joined(pieces)))
        } else {
            Ok(None)
        },
    decreases pieces.len(),
{
    if pieces.len() == 0 {
        lemma_last_chunk(k, body.len(), max);
        assert(body + joined(pieces) =~= body);
    } else {
        let data = pieces[0];
        let later = pieces.drop_first();
        let used = encode_utf8(hexadecimal(data.len())).len() + 4 + data.len();
        assert(pieces[0].len() > 0);
        assert(joined(pieces).len() == data.len() + joined(later).len());
        lemma_data_chunk(data, written_chunks(later), k, body.len(), max);
        if k >= used {
            assert forall|i: int| 0 <= i < later.len() implies (#[trigger] later[i]).len() > 0 by {
                assert(pieces[i + 1].len() > 0);
            }
            lemma_chunks(later, body + data, max, k - used);
            assert(body + data + joined(later) =~= body + joined(pieces));
        }
    }
}

/// Decoding undoes encoding: a body that is written as chunks, of whatever pieces, is read back as the
/// pieces one after the other. It is complete with the last byte of the last chunk and not before.
pub proof fn law_chunks_read_back(
    version: Seq<char>,
    status: nat,
    reason: Seq<char>,
    fields: Seq<(Seq<char>, Seq<char>)>,
    pieces: Seq<Seq<u8>>,
    k: int,
    limits: Limits,
)
    requires
        is_response_head(version, status, reason, fields, limits.max_header_bytes as nat),
        has_body(status),
        announces_chunks(fields),
        forall|i: int| 0 <= i < pieces.len() ==> (#[trigger] pieces[i]).len() > 0,
        joined(pieces).len() <= limits.max_response_bytes,
        0 <= k < written_chunks(pieces).len(),
    ensures
        ({
            let head = written_head(status_line(version, status, reason), fields);
            let chunks = written_chunks(pieces);
            &&& status_code(head) == Ok::<nat, ErrorView>(status)
            &&& response(head + chunks, limits) == Ok::<Option<ResponseView>, ErrorView>(
                Some(ResponseView { raw_head: head, body: joined(pieces), decoded: true }),
            )
            &&& response(head + chunks.take(k), limits) == Ok::<Option<ResponseView>, ErrorView>(None)
            &&& response_at_end(head + chunks.take(k), limits) == Err::<ResponseView, ErrorView>(
                ErrorView::Io("failed to fill whole buffer"@),
            )
        }),
{
    let chunks = written_chunks(pieces);
    let none = Seq::<u8>::empty();
    let max = limits.max_response_bytes as nat;
    lemma_codings(fields);
    lemma_response_head(version, status, reason, fields, chunks, limits);
    lemma_response_head(version, status, reason, fields, chunks.take(k), limits);
    lemma_chunks(pieces, none, max, k);
    lemma_chunks(pieces, none, max, chunks.len() as int);
    assert(chunks.take(chunks.len() as int) =~= chunks);
    assert(none + joined(pieces) =~= joined(pieces));
}

/// A chunk that would make a body exceed its limit is refused as soon as its length is known.
pub proof fn law_chunk_beyond_limit_is_refused(
    version: Seq<char>,
    status: nat,
    reason: Seq<char>,
    fields: Seq<(Seq<char>, Seq<char>)>,
    n: nat,
    rest: Seq<u8>,
    limits: Limits,
)
    requires
        is_response_head(version, status, reason, fields, limits.max_header_bytes as nat),
        has_body(status),
        announces_chunks(fields),
        limits.max_response_bytes < n <= usize::MAX,
    ensures
        ({
            let head = written_head(status_line(version, status, reason), fields);
            let line = encode_utf8(hexadecimal(n)) + seq![13u8, 10u8];
            response(head + (line + rest), limits) == Err::<Option<ResponseView>, ErrorView>(ErrorView::BodyTooLarge)
        }),
{
    let line = encode_utf8(hexadecimal(n));
    let input = line + seq![13u8, 10u8] + rest;
    lemma_codings(fields);
    lemma_response_head(version, status, reason, fields, input, limits);
    lemma_hex_line(n);
    lemma_line_found(line, rest);
    assert(input.take(line.len() as int) =~= line);
}

/// The length of a chunk may be padded, and what follows a semicolon does not count.
pub proof fn law_chunk_extensions_are_skipped(
    front: Seq<char>,
    n: nat,
    back: Seq<char>,
    extension: Seq<char>,
)
    requires
        all_space(front),
        all_space(back),
        n <= usize::MAX,
        extension.len() > 0 ==> extension[0] == ';',
    ensures
        chunk_size(encode_utf8(front + hexadecimal(n) + back + extension)) == Ok::<nat, ErrorView>(n),
{
    let hex = hexadecimal(n);
    let shown = front + hex + back;
    let text = shown + extension;
    lemma_hex_digits(n);
    reveal_with_fuel(sixteens, 17);
    assert(sixteens(16) == 0x1_0000_0000_0000_0000);
    lemma_hex_length(n, 16);
    law_numbers_read_back(n, usize::MAX as nat);
    encode_utf8_valid_utf8(text);
    encode_utf8_decode_utf8(text);
    assert forall|i: int| 0 <= i < shown.len() implies #[trigger] shown[i] != ';' by {
        let f = front.len() as int;
        let h = hex.len() as int;
        if i < f {
            assert(is_space(front[i]));
        } else if i < f + h {
            assert(shown[i] == hex[i - f]);
        } else {
            assert(is_space(back[i - f - h]));
        }
    }
    if extension.len() > 0 {
        assert(text =~= shown.push(';') + extension.drop_first());
        law_before(shown, ';', extension.drop_first());
    } else {
        assert(text =~= shown);
        law_before(shown, ';', extension);
    }
    crate::text::law_white_space(hex[0]);
    crate::text::law_white_space(hex[hex.len() - 1]);
    law_trimming(front, hex, back);
}

/// No head ends within the first `n` bytes.
pub open spec fn no_head_end(received: Seq<u8>, n: int) -> bool {
    forall|i: int|
        0 <= i && i + 4 <= n && i + 4 <= received.len() ==> #[trigger] piece(received, i, 4) != seq![
            13u8,
            10u8,
            13u8,
            10u8,
        ]
}

/// A message whose head has not come to its end is waited for up to the header limit, and refused
/// beyond it.
pub proof fn law_heads_are_limited(received: Seq<u8>, limits: Limits)
    requires
        no_head_end(received, limits.max_header_bytes as int),
    ensures
        received.len() > limits.max_header_bytes ==> {
            &&& request(received, limits) == Err::<Option<RequestView>, ErrorView>(
                ErrorView::ParseError("header block exceeds maximum size"@),
            )
            &&& response(received, limits) == Err::<Option<ResponseView>, ErrorView>(
                ErrorView::ParseError("header block exceeds maximum size"@),
            )
        },
        received.len() <= limits.max_header_bytes ==> {
            &&& request(received, limits) == Ok::<Option<RequestView>, ErrorView>(None)
            &&& response(received, limits) == Ok::<Option<ResponseView>, ErrorView>(None)
            &&& response_at_end(received, limits) == Err::<ResponseView, ErrorView>(ErrorView::EmptyRequest)
        },
{
    lemma_find_props(received, header_end());
    if let Some(i) = find(received, header_end()) {
        assert(piece(received, i, 4) =~= header_end());
        if i + 4 <= limits.max_header_bytes {
            assert(piece(received, i, 4) != seq![13u8, 10u8, 13u8, 10u8]);
        }
    }
}

/// A head as it is written, with header lines that need not be fields.
pub open spec fn head_of_lines(start: Seq<char>, lines: Seq<Seq<char>>) -> Seq<u8> {
    encode_utf8(joined_lines(seq![start] + lines) + seq!['\r', '\n'])
}

/// Lines with their line ends.
pub open spec fn joined_lines(lines: Seq<Seq<char>>) -> Seq<char>
    decreases lines.len(),
{
    if lines.len() == 0 {
        Seq::empty()
    } else {
        lines[0] + seq!['\r', '\n'] + joined_lines(lines.drop_first())
    }
}

proof fn lemma_joined_lines(lines: Seq<Seq<char>>)
    ensures
        joined_lines(lines) == lines_text(lines),
    decreases lines.len(),
{
    if lines.len() > 0 {
        lemma_joined_lines(lines.drop_first());
        assert(joined_lines(lines) =~= lines_text(lines));
    } else {
        assert(joined_lines(lines) =~= lines_text(lines));
    }
}

proof fn lemma_no_field(lines: Seq<Seq<char>>, i: int)
    requires
        forall|j: int| 0 <= j < lines.len() ==> (#[trigger] lines[j]).len() > 0,
        0 <= i < lines.len(),
        !lines[i].contains(':'),
    ensures
        header_lines(lines + seq![Seq::<char>::empty(), Seq::<char>::empty()]) is None,
    decreases lines.len(),
{
    let all = lines + seq![Seq::<char>::empty(), Seq::<char>::empty()];
    assert(all[0] == lines[0]);
    assert(lines[0].len() > 0);
    if i == 0 {
        let line = lines[0];
        assert forall|k: int| 0 <= k <= line.len() - 1 implies !#[trigger] occurs_at(line, seq![':'], k) by {
            assert(line.subrange(k, k + 1)[0] == line[k]);
            assert(line.contains(line[k]));
        }
        lemma_find_none(line, seq![':']);
    } else {
        let later = lines.drop_first();
        assert(all.drop_first() =~= later + seq![Seq::<char>::empty(), Seq::<char>::empty()]);
        assert forall|j: int| 0 <= j < later.len() implies (#[trigger] later[j]).len() > 0 by {
            assert(lines[j + 1].len() > 0);
        }
        assert(later[i - 1] == lines[i]);
        lemma_no_field(later, i - 1);
    }
}

/// A header line without a colon makes a message malformed, wherever it stands.
pub proof fn law_header_lines_have_colons(
    start: Seq<char>,
    lines: Seq<Seq<char>>,
    i: int,
    rest: Seq<u8>,
    limits: Limits,
)
    requires
        start.len() > 0,
        !start.contains('\r'),
        forall|j: int| 0 <= j < lines.len() ==> (#[trigger] lines[j]).len() > 0 && !lines[j].contains('\r'),
        0 <= i < lines.len(),
        !lines[i].contains(':'),
        head_of_lines(start, lines).len() <= limits.max_header_bytes,
    ensures
        request(head_of_lines(start, lines) + rest, limits) matches Err(ErrorView::ParseError(_)),
        response(head_of_lines(start, lines) + rest, limits) matches Err(ErrorView::ParseError(_)),
{
    let all = seq![start] + lines;
    let text = joined_lines(all) + seq!['\r', '\n'];
    let ends = seq![Seq::<char>::empty(), Seq::<char>::empty()];
    lemma_joined_lines(all);
    assert forall|j: int| 0 <= j < all.len() implies is_head_line(#[trigger] all[j]) by {
        let line = all[j];
        if j > 0 {
            assert(line == lines[j - 1]);
        }
        assert forall|k: int| 0 <= k < line.len() implies #[trigger] line[k] != '\r' by {
            assert(line.contains(line[k]));
        }
        lemma_no_return_no_line_end(line);
    }
    lemma_head_reads_back(all, rest, limits.max_header_bytes as nat);
    lemma_lines_split(all);
    encode_utf8_valid_utf8(text);
    encode_utf8_decode_utf8(text);
    assert((all + ends).drop_first() =~= lines + ends);
    lemma_no_field(lines, i);
}

/// A value that writes no number that fits is no length: the message is malformed.
pub proof fn law_bad_length_is_refused(
    method: Seq<char>,
    path: Seq<char>,
    version: Seq<char>,
    status: nat,
    reason: Seq<char>,
    fields: Seq<(Seq<char>, Seq<char>)>,
    i: int,
    k: int,
    rest: Seq<u8>,
    limits: Limits,
)
    requires
        is_word(method),
        is_word(path),
        is_response_head(version, status, reason, fields, limits.max_header_bytes as nat),
        has_body(status),
        announces_no_chunks(fields),
        first_named(fields, "content-length"@, i),
        written_head(request_line(method, path, version), fields).len() <= limits.max_header_bytes,
        ({
            ||| fields[i].1.len() == 0
            ||| exists|n: nat| fields[i].1 == #[trigger] decimal(n) && n > usize::MAX
            ||| 0 <= k < fields[i].1.len() && (k > 0 || fields[i].1[0] != '+') && !('0' <= fields[i].1[k] <= '9')
        }),
    ensures
        request(written_head(request_line(method, path, version), fields) + rest, limits) matches Err(
            ErrorView::ParseError(_),
        ),
        response(written_head(status_line(version, status, reason), fields) + rest, limits) matches Err(
            ErrorView::ParseError(_),
        ),
{
    let value = fields[i].1;
    law_first_field_counts(fields, "content-length"@, i);
    assert(parsed(value, 10, usize::MAX as nat) is None) by {
        law_only_digits_are_numbers(value, k, 10, usize::MAX as nat);
        if value.len() == 0 {
            assert(value =~= Seq::empty());
        } else if exists|n: nat| value == #[trigger] decimal(n) && n > usize::MAX {
            let n = choose|n: nat| value == #[trigger] decimal(n) && n > usize::MAX;
            law_numbers_read_back(n, usize::MAX as nat);
        } else {
            assert forall|d: int| 0 <= d < 10 implies !crate::number::stands_for(value[k], d) by {}
        }
    }
    lemma_request_line(method, path, version);
    lemma_written_head(request_line(method, path, version), fields, rest, limits.max_header_bytes as nat);
    lemma_codings(fields);
    lemma_status_of_head(version, status, reason, fields, rest, limits);
}

/// The end of a head is found where there is one.
pub proof fn lemma_head_end_found(received: Seq<u8>)
    ensures
        find(received, header_end()) is None <==> no_head_end(received, received.len() as int),
{
    let end = seq![13u8, 10u8, 13u8, 10u8];
    assert(header_end() =~= end);
    lemma_find_props(received, end);
    match find(received, end) {
        Some(i) => {
            assert(piece(received, i, 4) == end);
        },
        None => {
            assert forall|i: int|
                0 <= i && i + 4 <= received.len() implies #[trigger] piece(received, i, 4) != end by {
                assert(!occurs_at(received, end, i));
            }
        },
    }
}

/// The response to a request that cannot be served, and to one that is too large, closes the
/// connection and has a body of its own.
pub proof fn law_refusals_are_written(message: Seq<char>)
    ensures
        ({
            let body = encode_utf8("service unavailable: "@ + message);
            let fields = seq![
                ("Content-Length"@, decimal(body.len())),
                ("Connection"@, "close"@),
            ];
            unavailable_response(message) == written_head("HTTP/1.1 503 Service Unavailable"@, fields) + body
        }),
        ({
            let body = encode_utf8("payload too large"@);
            let fields = seq![
                ("Content-Length"@, decimal(body.len())),
                ("Connection"@, "close"@),
            ];
            too_large_response() == written_head("HTTP/1.1 413 Payload Too Large"@, fields) + body
        }),
{
    lemma_closing_is_written("HTTP/1.1 503 Service Unavailable"@, "service unavailable: "@ + message);
    lemma_closing_is_written("HTTP/1.1 413 Payload Too Large"@, "payload too large"@);
}

proof fn lemma_closing_is_written(start: Seq<char>, body: Seq<char>)
    ensures
        closing_response(start, body) == written_head(
            start,
            seq![("Content-Length"@, decimal(encode_utf8(body).len())), ("Connection"@, "close"@)],
        ) + encode_utf8(body),
{
    let length = decimal(encode_utf8(body).len());
    let one = seq![("Connection"@, "close"@)];
    let fields = seq![("Content-Length"@, length), ("Connection"@, "close"@)];
    reveal_strlit("\r\nContent-Length: ");
    reveal_strlit("\r\nConnection: close\r\n\r\n");
    reveal_strlit("Content-Length");
    reveal_strlit("Connection");
    reveal_strlit("close");
    reveal_with_fuel(written_fields, 3);
    assert(fields.drop_first() =~= one);
    assert(one.drop_first() =~= Seq::empty());
    let head = start + seq!['\r', '\n'] + written_fields(fields) + seq!['\r', '\n'];
    assert(start + "\r\nContent-Length: "@ + length + "\r\nConnection: close\r\n\r\n"@ =~= head);
    lemma_encode_concat(head, body);
}

/// A header field that tells how the body ends, by its name in any case.
pub open spec fn tells_the_end(field: (Seq<char>, Seq<char>)) -> bool {
    is_named(field.0, "transfer-encoding"@) || is_named(field.0, "content-length"@)
}

/// The fields that do not tell how the body ends, in order.
pub open spec fn other_fields(fields: Seq<(Seq<char>, Seq<char>)>) -> Seq<(Seq<char>, Seq<char>)>
    decreases fields.len(),
{
    if fields.len() == 0 {
        Seq::empty()
    } else if tells_the_end(fields[0]) {
        other_fields(fields.drop_first())
    } else {
        seq![fields[0]] + other_fields(fields.drop_first())
    }
}

proof fn lemma_written_push(fields: Seq<(Seq<char>, Seq<char>)>, field: (Seq<char>, Seq<char>))
    ensures
        written_fields(fields.push(field)) == written_fields(fields) + field.0 + seq![':', ' '] + field.1 + seq![
            '\r',
            '\n',
        ],
    decreases fields.len(),
{
    let more = fields.push(field);
    if fields.len() == 0 {
        assert(more.drop_first() =~= fields);
        assert(written_fields(fields) =~= Seq::empty());
        assert(written_fields(more) =~= field.0 + seq![':', ' '] + field.1 + seq!['\r', '\n']);
    } else {
        let later = fields.drop_first();
        lemma_written_push(later, field);
        assert(more.drop_first() =~= later.push(field));
        assert(written_fields(more) =~= written_fields(fields) + field.0 + seq![':', ' '] + field.1 + seq![
            '\r',
            '\n',
        ]);
    }
}

proof fn lemma_unframed_is_written(fields: Seq<(Seq<char>, Seq<char>)>)
    requires
        are_fields(fields),
    ensures
        unframed_lines(
            fields.map_values(|f: (Seq<char>, Seq<char>)| field_line(f)) + seq![
                Seq::<char>::empty(),
                Seq::<char>::empty(),
            ],
        ) == written_fields(other_fields(fields)),
    decreases fields.len(),
{
    let ends = seq![Seq::<char>::empty(), Seq::<char>::empty()];
    let lines = fields.map_values(|f: (Seq<char>, Seq<char>)| field_line(f)) + ends;
    if fields.len() == 0 {
        assert(lines =~= ends);
        assert(ends[0].len() == 0);
    } else {
        let later = fields.drop_first();
        assert forall|i: int| 0 <= i < later.len() implies is_name((#[trigger] later[i]).0) && is_value(later[i].1) by {
            assert(later[i] == fields[i + 1]);
        }
        lemma_unframed_is_written(later);
        assert(lines.drop_first() =~= later.map_values(|f: (Seq<char>, Seq<char>)| field_line(f)) + ends);
        assert(is_name(fields[0].0));
        lemma_field_line(fields[0]);
        assert(lines[0] == field_line(fields[0]));
        assert(lines[0].len() > 0);
        law_case_is_ignored(fields[0].0, "transfer-encoding"@);
        law_case_is_ignored(fields[0].0, "content-length"@);
        let kept = other_fields(later);
        if !tells_the_end(fields[0]) {
            assert((seq![fields[0]] + kept).drop_first() =~= kept);
            assert(unframed_lines(lines) =~= written_fields(other_fields(fields)));
        }
    }
}

/// A response goes to the client as it came; where its chunks were decoded, the fields that told how
/// its body ends give way to one behind the others that gives its length, and all else stays.
pub proof fn law_response_goes_to_the_client(start: Seq<char>, fields: Seq<(Seq<char>, Seq<char>)>, v: ResponseView)
    requires
        start.len() > 0,
        !start.contains('\r'),
        are_fields(fields),
        v.raw_head == written_head(start, fields),
    ensures
        v.client_message() == if v.decoded {
            written_head(start, other_fields(fields).push(("Content-Length"@, decimal(v.body.len())))) + v.body
        } else {
            v.raw_head + v.body
        },
{
    if v.decoded {
        let n = v.body.len();
        let lines = head_lines(start, fields);
        let text = start + seq!['\r', '\n'] + written_fields(fields) + seq!['\r', '\n'];
        let later = fields.map_values(|f: (Seq<char>, Seq<char>)| field_line(f));
        let ends = seq![Seq::<char>::empty(), Seq::<char>::empty()];
        lemma_written_head(start, fields, Seq::empty(), v.raw_head.len());
        lemma_written_fields(fields);
        assert forall|i: int| 0 <= i < start.len() implies #[trigger] start[i] != '\r' by {
            assert(start.contains(start[i]));
        }
        lemma_no_return_no_line_end(start);
        assert(lines.drop_first() =~= later);
        assert forall|i: int| 0 <= i < lines.len() implies is_head_line(#[trigger] lines[i]) by {
            if i > 0 {
                assert(lines[i] == later[i - 1]);
            }
        }
        assert(lines_text(lines) + crlf() =~= text);
        lemma_lines_split(lines);
        assert(split_lines(text) =~= lines + ends);
        assert(split_lines(text).drop_first() =~= later + ends);
        lemma_unframed_is_written(fields);
        let kept = other_fields(fields);
        lemma_written_push(kept, ("Content-Length"@, decimal(n)));
        reveal_strlit("Content-Length: ");
        reveal_strlit("Content-Length");
        assert("Content-Length: "@ =~= "Content-Length"@ + seq![':', ' ']);
        assert(reframed_head(text, n) =~= start + seq!['\r', '\n'] + written_fields(
            kept.push(("Content-Length"@, decimal(n))),
        ) + seq!['\r', '\n']);
    }
}

/// Pieces of a body as chunks, without the chunk that ends the body.
pub open spec fn data_chunks(pieces: Seq<Seq<u8>>) -> Seq<u8>
    decreases pieces.len(),
{
    if pieces.len() == 0 {
        Seq::empty()
    } else {
        encode_utf8(hexadecimal(pieces[0].len())) + seq![13u8, 10u8] + pieces[0] + seq![13u8, 10u8] + data_chunks(
            pieces.drop_first(),
        )
    }
}

/// What comes behind chunks is read as if their data had come before it.
#[verifier::spinoff_prover]
#[verifier::rlimit(60)]
proof fn lemma_behind_chunks(pieces: Seq<Seq<u8>>, body: Seq<u8>, tail: Seq<u8>, max: nat)
    requires
        forall|i: int| 0 <= i < pieces.len() ==> (#[trigger] pieces[i]).len() > 0,
        body.len() + joined(pieces).len() <= max,
        max <= usize::MAX,
    ensures
        chunked(data_chunks(pieces) + tail, body, max) == chunked(tail, body + joined(pieces), max),
    decreases pieces.len(),
{
    if pieces.len() == 0 {
        assert(data_chunks(pieces) + tail =~= tail);
        assert(body + joined(pieces) =~= body);
    } else {
        let data = pieces[0];
        let later = pieces.drop_first();
        let line = encode_utf8(hexadecimal(data.len()));
        let end = seq![13u8, 10u8];
        let behind = data_chunks(later) + tail;
        let all = line + end + data + end + behind;
        let used = line.len() + 4 + data.len();
        assert(pieces[0].len() > 0);
        assert(joined(pieces).len() == data.len() + joined(later).len());
        assert(data_chunks(pieces) + tail =~= all);
        lemma_data_chunk(data, behind, all.len() as int, body.len(), max);
        assert(all.take(all.len() as int) =~= all);
        assert(behind.take(all.len() - used) =~= behind);
        assert forall|i: int| 0 <= i < later.len() implies (#[trigger] later[i]).len() > 0 by {
            assert(pieces[i + 1].len() > 0);
        }
        lemma_behind_chunks(later, body + data, tail, max);
        assert(body + data + joined(later) =~= body + joined(pieces));
    }
}

/// How a response with chunks goes on behind its first chunks.
proof fn lemma_response_behind_chunks(
    version: Seq<char>,
    status: nat,
    reason: Seq<char>,
    fields: Seq<(Seq<char>, Seq<char>)>,
    pieces: Seq<Seq<u8>>,
    tail: Seq<u8>,
    limits: Limits,
)
    requires
        is_response_head(version, status, reason, fields, limits.max_header_bytes as nat),
        has_body(status),
        announces_chunks(fields),
        forall|i: int| 0 <= i < pieces.len() ==> (#[trigger] pieces[i]).len() > 0,
        joined(pieces).len() <= limits.max_response_bytes,
    ensures
        ({
            let head = written_head(status_line(version, status, reason), fields);
            response(head + (data_chunks(pieces) + tail), limits) == match chunked(
                tail,
                joined(pieces),
                limits.max_response_bytes as nat,
            ) {
                Err(e) => Err::<Option<ResponseView>, ErrorView>(e),
                Ok(None) => Ok(None),
                Ok(Some(body)) => Ok(Some(ResponseView { raw_head: head, body, decoded: true })),
            }
        }),
{
    let none = Seq::<u8>::empty();
    lemma_codings(fields);
    lemma_response_head(version, status, reason, fields, data_chunks(pieces) + tail, limits);
    lemma_behind_chunks(pieces, none, tail, limits.max_response_bytes as nat);
    assert(none + joined(pieces) =~= joined(pieces));
}

/// Behind whatever chunks, one that makes the body exceed its limit is refused as soon as its length
/// is known, and one without a line end behind its data as soon as that is seen.
pub proof fn law_bad_chunks_are_refused(
    version: Seq<char>,
    status: nat,
    reason: Seq<char>,
    fields: Seq<(Seq<char>, Seq<char>)>,
    pieces: Seq<Seq<u8>>,
    n: nat,
    rest: Seq<u8>,
    limits: Limits,
)
    requires
        is_response_head(version, status, reason, fields, limits.max_header_bytes as nat),
        has_body(status),
        announces_chunks(fields),
        forall|i: int| 0 <= i < pieces.len() ==> (#[trigger] pieces[i]).len() > 0,
        joined(pieces).len() <= limits.max_response_bytes,
        0 < n <= usize::MAX,
    ensures
        ({
            let head = written_head(status_line(version, status, reason), fields);
            let tail = encode_utf8(hexadecimal(n)) + seq![13u8, 10u8] + rest;
            let read = response(head + (data_chunks(pieces) + tail), limits);
            &&& joined(pieces).len() + n > limits.max_response_bytes ==> read == Err::<Option<ResponseView>, ErrorView>(
                ErrorView::BodyTooLarge,
            )
            &&& joined(pieces).len() + n <= limits.max_response_bytes && rest.len() >= n + 2 && (rest[n as int] != 13
                || rest[n as int + 1] != 10) ==> read == Err::<Option<ResponseView>, ErrorView>(
                ErrorView::ParseError("malformed chunked body"@),
            )
        }),
{
    let line = encode_utf8(hexadecimal(n));
    let tail = line + seq![13u8, 10u8] + rest;
    let h = line.len() as int;
    lemma_response_behind_chunks(version, status, reason, fields, pieces, tail, limits);
    lemma_hex_line(n);
    lemma_line_found(line, rest);
    assert(tail.take(h) =~= line);
    if rest.len() >= n + 2 {
        let mark = tail.subrange(h + 2 + n, h + 2 + n + 2);
        assert(mark[0] == rest[n as int] && mark[1] == rest[n as int + 1]);
        assert(line_end()[0] == 13 && line_end()[1] == 10);
    }
}

/// Behind whatever chunks, the line that gives the length of the next is refused where it is longer
/// than 8192 bytes or gives no length.
pub proof fn law_bad_chunk_lines_are_refused(
    version: Seq<char>,
    status: nat,
    reason: Seq<char>,
    fields: Seq<(Seq<char>, Seq<char>)>,
    pieces: Seq<Seq<u8>>,
    line: Seq<char>,
    k: int,
    tail: Seq<u8>,
    limits: Limits,
)
    requires
        is_response_head(version, status, reason, fields, limits.max_header_bytes as nat),
        has_body(status),
        announces_chunks(fields),
        forall|i: int| 0 <= i < pieces.len() ==> (#[trigger] pieces[i]).len() > 0,
        joined(pieces).len() <= limits.max_response_bytes,
    ensures
        ({
            let head = written_head(status_line(version, status, reason), fields);
            tail.len() > 8192 && (forall|i: int|
                0 <= i < 8192 && i + 2 <= tail.len() ==> #[trigger] piece(tail, i, 2) != seq![13u8, 10u8]) ==> response(
                head + (data_chunks(pieces) + tail),
                limits,
            ) == Err::<Option<ResponseView>, ErrorView>(ErrorView::ParseError("chunk metadata line too long"@))
        }),
        ({
            let head = written_head(status_line(version, status, reason), fields);
            let next = encode_utf8(line) + seq![13u8, 10u8] + tail;
            no_space(line) && !line.contains(';') && encode_utf8(line).len() < 8192 && (forall|i: int|
                0 <= i < encode_utf8(line).len() ==> #[trigger] encode_utf8(line)[i] != 13) && (line.len() == 0 || 0 <= k
                < line.len() && (k > 0 || line[0] != '+') && (forall|d: int|
                0 <= d < 16 ==> !stands_for(line[k], d))) ==> response(head + (data_chunks(pieces) + next), limits)
                == Err::<Option<ResponseView>, ErrorView>(ErrorView::ParseError("invalid chunk size"@))
        }),
{
    let bytes = encode_utf8(line);
    let next = bytes + seq![13u8, 10u8] + tail;
    lemma_response_behind_chunks(version, status, reason, fields, pieces, tail, limits);
    lemma_response_behind_chunks(version, status, reason, fields, pieces, next, limits);
    assert(line_end() =~= seq![13u8, 10u8]);
    if tail.len() > 8192 && (forall|i: int|
        0 <= i < 8192 && i + 2 <= tail.len() ==> #[trigger] piece(tail, i, 2) != seq![13u8, 10u8]) {
        lemma_find_props(tail, line_end());
        if let Some(i) = find(tail, line_end()) {
            assert(piece(tail, i, 2) == line_end());
        }
    }
    if no_space(line) && !line.contains(';') && bytes.len() < 8192 && (forall|i: int|
        0 <= i < bytes.len() ==> #[trigger] bytes[i] != 13) && (line.len() == 0 || 0 <= k < line.len() && (k > 0
        || line[0] != '+') && (forall|d: int| 0 <= d < 16 ==> !stands_for(line[k], d))) {
        lemma_line_found(bytes, tail);
        assert(next.take(bytes.len() as int) =~= bytes);
        encode_utf8_valid_utf8(line);
        encode_utf8_decode_utf8(line);
        let none = Seq::<char>::empty();
        assert forall|i: int| 0 <= i < line.len() implies #[trigger] line[i] != ';' by {
            assert(line.contains(line[i]));
        }
        law_before(line, ';', none);
        assert(line =~= none + line + none);
        law_trimming(none, line, none);
        law_only_digits_are_numbers(line, k, 16, usize::MAX as nat);
        if line.len() == 0 {
            assert(line =~= none);
        }
    }
}

/// A line may stand where the empty one behind the last chunk is; it does not count.
pub proof fn law_line_behind_last_chunk_is_skipped(
    version: Seq<char>,
    status: nat,
    reason: Seq<char>,
    fields: Seq<(Seq<char>, Seq<char>)>,
    pieces: Seq<Seq<u8>>,
    line: Seq<u8>,
    rest: Seq<u8>,
    limits: Limits,
)
    requires
        is_response_head(version, status, reason, fields, limits.max_header_bytes as nat),
        has_body(status),
        announces_chunks(fields),
        forall|i: int| 0 <= i < pieces.len() ==> (#[trigger] pieces[i]).len() > 0,
        joined(pieces).len() <= limits.max_response_bytes,
        line.len() < 8192,
        forall|i: int| 0 <= i < line.len() ==> #[trigger] line[i] != 13,
    ensures
        ({
            let head = written_head(status_line(version, status, reason), fields);
            let tail = encode_utf8(hexadecimal(0)) + seq![13u8, 10u8] + (line + seq![13u8, 10u8] + rest);
            response(head + (data_chunks(pieces) + tail), limits) == Ok::<Option<ResponseView>, ErrorView>(
                Some(ResponseView { raw_head: head, body: joined(pieces), decoded: true }),
            )
        }),
{
    let zero = encode_utf8(hexadecimal(0));
    let behind = line + seq![13u8, 10u8] + rest;
    let tail = zero + seq![13u8, 10u8] + behind;
    lemma_response_behind_chunks(version, status, reason, fields, pieces, tail, limits);
    lemma_hex_line(0);
    lemma_line_found(zero, behind);
    assert(tail.take(zero.len() as int) =~= zero);
    assert(tail.skip(zero.len() as int + 2) =~= behind);
    lemma_line_found(line, rest);
}

/// A written head gives its fields, and the method and path of a request line; a start line without
/// words has no method, and one with one word no path. What is not text is no head.
pub proof fn law_written_heads_are_parsed(
    method: Seq<char>,
    path: Seq<char>,
    version: Seq<char>,
    blank: Seq<char>,
    fields: Seq<(Seq<char>, Seq<char>)>,
    raw: Seq<u8>,
)
    requires
        is_word(method),
        is_word(path),
        is_word(version),
        blank.len() > 0,
        forall|i: int| 0 <= i < blank.len() ==> #[trigger] blank[i] == ' ',
        are_fields(fields),
    ensures
        ({
            let head = written_head(request_line(method, path, version), fields);
            &&& header_fields(head) == Ok::<Seq<(Seq<char>, Seq<char>)>, ErrorView>(fields)
            &&& request_head(head) matches Ok(h) && h.method.token() == method && h.path == path && h.headers == fields
        }),
        request_head(written_head(blank, fields)) == Err::<HeadView, ErrorView>(
            ErrorView::ParseError("missing method"@),
        ),
        request_head(written_head(blank + method, fields)) == Err::<HeadView, ErrorView>(
            ErrorView::ParseError("missing path"@),
        ),
        !vstd::utf8::valid_utf8(raw) ==> {
            &&& request_head(raw) == Err::<HeadView, ErrorView>(ErrorView::ParseError("invalid utf-8 in headers"@))
            &&& header_fields(raw) == Err::<Seq<(Seq<char>, Seq<char>)>, ErrorView>(
                ErrorView::ParseError("invalid utf-8 in headers"@),
            )
            &&& status_code(raw) == Err::<nat, ErrorView>(ErrorView::ParseError("invalid utf-8 in status line"@))
        },
{
    let none = Seq::<char>::empty();
    let start = request_line(method, path, version);
    lemma_request_line(method, path, version);
    lemma_written_head(start, fields, Seq::empty(), written_head(start, fields).len());
    assert forall|i: int| 0 <= i < blank.len() implies is_space(#[trigger] blank[i]) by {
        crate::text::law_white_space(blank[i]);
    }
    lemma_written_head(blank, fields, Seq::empty(), written_head(blank, fields).len());
    let single = blank + method;
    assert forall|i: int| 0 <= i < single.len() implies #[trigger] single[i] != '\r' by {
        if i >= blank.len() {
            assert(!is_space(method[i - blank.len()]));
        }
    }
    lemma_written_head(single, fields, Seq::empty(), written_head(single, fields).len());
    assert(single =~= blank + method + none);
    law_words(blank, method, none, 0);
    law_words(none, method, none, 0);
}

proof fn lemma_first_line_of_head(start: Seq<char>, fields: Seq<(Seq<char>, Seq<char>)>)
    requires
        start.len() > 0,
        forall|i: int| 0 <= i < start.len() ==> #[trigger] start[i] != '\r' && start[i] != '\n',
        are_fields(fields),
    ensures
        ({
            let head = written_head(start, fields);
            let text = vstd::utf8::decode_utf8(head);
            &&& vstd::utf8::valid_utf8(head)
            &&& text.len() > 0
            &&& before(text, '\n') == start.push('\r')
        }),
{
    let line = start.push('\r');
    let after = written_fields(fields) + seq!['\r', '\n'];
    let text = start + seq!['\r', '\n'] + written_fields(fields) + seq!['\r', '\n'];
    lemma_written_head(start, fields, Seq::empty(), written_head(start, fields).len());
    assert(text =~= line.push('\n') + after);
    law_before(line, '\n', after);
}

/// A response head is refused where its first line is blank, has one word only, or gives as its
/// status anything but a number up to 65535.
pub proof fn law_bad_status_is_refused(
    blank: Seq<char>,
    version: Seq<char>,
    status: Seq<char>,
    k: int,
    n: nat,
    fields: Seq<(Seq<char>, Seq<char>)>,
)
    requires
        blank.len() > 0,
        forall|i: int| 0 <= i < blank.len() ==> #[trigger] blank[i] == ' ',
        is_word(version),
        is_word(status),
        are_fields(fields),
        ({
            ||| n > 65535 && status == decimal(n)
            ||| 0 <= k < status.len() && (k > 0 || status[0] != '+') && (forall|d: int|
                0 <= d < 10 ==> !stands_for(status[k], d))
        }),
    ensures
        status_code(written_head(blank, fields)) == Err::<nat, ErrorView>(
            ErrorView::ParseError("missing http version"@),
        ),
        status_code(written_head(version, fields)) == Err::<nat, ErrorView>(
            ErrorView::ParseError("missing status code"@),
        ),
        status_code(written_head(version + blank + status, fields)) == Err::<nat, ErrorView>(
            ErrorView::ParseError("invalid status code"@),
        ),
{
    let none = Seq::<char>::empty();
    let back = seq!['\r'];
    assert forall|i: int| 0 <= i < blank.len() implies is_space(#[trigger] blank[i]) by {
        crate::text::law_white_space(blank[i]);
    }
    crate::text::law_white_space('\r');
    crate::text::law_white_space('\n');
    assert forall|i: int| 0 <= i < version.len() implies #[trigger] version[i] != '\r' && version[i] != '\n' by {
        assert(!is_space(version[i]));
    }
    let start = version + blank + status;
    assert forall|i: int| 0 <= i < start.len() implies #[trigger] start[i] != '\r' && start[i] != '\n' by {
        let v = version.len() as int;
        let b = blank.len() as int;
        if i < v {
            assert(start[i] == version[i]);
        } else if i < v + b {
            assert(start[i] == blank[i - v]);
        } else {
            assert(!is_space(status[i - v - b]));
        }
    }
    lemma_first_line_of_head(blank, fields);
    lemma_first_line_of_head(version, fields);
    lemma_first_line_of_head(start, fields);
    law_words(blank.push('\r'), version, none, 0);
    assert(version.push('\r') =~= none + version + back);
    law_words(none, version, back, 0);
    law_words(back, version, none, 0);
    let behind = blank + status + back;
    assert(start.push('\r') =~= none + version + behind);
    law_words(none, version, behind, 0);
    law_words(blank, status, back, 0);
    law_numbers_read_back(n, u16::MAX as nat);
    law_only_digits_are_numbers(status, k, 10, u16::MAX as nat);
}

} // verus!
