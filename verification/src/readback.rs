//! What goes to a client reads back: refusals, and responses whose framing was replaced.

use vstd::prelude::*;
use vstd::utf8::{
    decode_utf8, decode_utf8_encode_utf8, encode_utf8, encode_utf8_decode_utf8, encode_utf8_valid_utf8, valid_utf8,
};

use crate::config::Limits;
use crate::error::ErrorView;
use crate::number::{
    all_digits, decimal, digit_value, digits_value, lemma_decimal_digits, lemma_decimal_parses_back, parsed,
};
use crate::reply::{closing_response, too_large_response, unavailable_response};
use crate::request::{field_value, header_block, header_end, header_fields, header_line, header_lines};
use crate::response::{
    announced, bodiless, framing, is_framing_line, reframed_head, response, status_code, unframed_lines,
    whole_response, BodyMode, ResponseView,
};
use crate::text::{
    before, crlf, find, first_at, is_space, lemma_find_extend, lemma_find_is, lemma_find_props, occurs_at, same_ignoring_case,
    split_lines, trimmed, trimmed_end, trimmed_start, word, word_length,
};
use crate::wire::{
    blank_line, is_head_line, lemma_blank_has_crlf, lemma_blank_line_bytes, lemma_crlf_at, lemma_encode_concat,
    lemma_encoded_occurrence, lemma_head_ends, lemma_lines_split, lines_text,
};

verus! {

/// A character occurs where it stands.
pub proof fn lemma_char_at(s: Seq<char>, c: char, i: int)
    requires
        0 <= i < s.len(),
    ensures
        occurs_at(s, seq![c], i) <==> s[i] == c,
{
    let part = s.subrange(i, i + 1);
    if occurs_at(s, seq![c], i) {
        assert(part[0] == c);
    } else if s[i] == c {
        assert(part =~= seq![c]);
    }
}

/// A text without a carriage return holds no line end.
pub proof fn lemma_no_return_no_line_end(line: Seq<char>)
    requires
        forall|i: int| 0 <= i < line.len() ==> #[trigger] line[i] != '\r',
    ensures
        find(line, crlf()) is None,
{
    lemma_find_props(line, crlf());
    if let Some(i) = find(line, crlf()) {
        assert(line.subrange(i, i + 2)[0] == '\r');
        assert(line[i] == '\r');
    }
}

proof fn lemma_trimmed_is(s: Seq<char>)
    requires
        s.len() > 0,
        !is_space(s[0]),
        !is_space(s.last()),
    ensures
        trimmed(s) == s,
{
}

proof fn lemma_decimal_has_no_space(n: nat)
    ensures
        decimal(n).len() > 0,
        forall|i: int|
            0 <= i < decimal(n).len() ==> !is_space(#[trigger] decimal(n)[i]) && decimal(n)[i] != '\r' && decimal(
                n,
            )[i] != ':',
{
    lemma_decimal_digits(n);
    assert forall|i: int| 0 <= i < decimal(n).len() implies !is_space(#[trigger] decimal(n)[i]) && decimal(n)[i]
        != '\r' && decimal(n)[i] != ':' by {
        assert(digit_value(decimal(n)[i], 10) is Some);
    }
}

/// The line that declares a body length.
pub open spec fn length_line(n: nat) -> Seq<char> {
    "Content-Length: "@ + decimal(n)
}

proof fn lemma_length_line(n: nat)
    ensures
        is_head_line(length_line(n)),
        header_line(length_line(n)) matches Some((name, value)) && {
            &&& same_ignoring_case(name, "content-length"@)
            &&& !same_ignoring_case(name, "transfer-encoding"@)
            &&& value == decimal(n)
        },
{
    reveal_strlit("Content-Length: ");
    reveal_strlit("content-length");
    reveal_strlit("transfer-encoding");
    lemma_decimal_has_no_space(n);
    let line = length_line(n);
    let digits = decimal(n);
    assert forall|i: int| 0 <= i < line.len() implies #[trigger] line[i] != '\r' by {
        if i >= 16 {
            assert(line[i] == digits[i - 16]);
        }
    }
    lemma_no_return_no_line_end(line);
    lemma_char_at(line, ':', 14);
    assert forall|i: int| 0 <= i < 14 implies !#[trigger] occurs_at(line, seq![':'], i) by {
        lemma_char_at(line, ':', i);
    }
    assert(first_at(line, seq![':'], 14));
    lemma_find_is(line, seq![':'], 14);
    let name = line.take(14);
    lemma_trimmed_is(name);
    let value = line.skip(15);
    assert(value.drop_first() =~= digits);
    assert(value[0] == ' ');
    assert(digits[0] == decimal(n)[0]);
    assert(trimmed_start(digits) == digits);
    assert(trimmed_start(value) == digits);
    assert(digits.last() == decimal(n)[digits.len() - 1]);
    assert(trimmed_end(digits) == digits);
}

/// Two empty lines behind header lines add no fields.
proof fn lemma_fields_end(lines: Seq<Seq<char>>)
    requires
        forall|i: int| 0 <= i < lines.len() ==> (#[trigger] lines[i]).len() > 0,
    ensures
        header_lines(lines + seq![Seq::<char>::empty(), Seq::<char>::empty()]) == header_lines(lines),
    decreases lines.len(),
{
    let all = lines + seq![Seq::<char>::empty(), Seq::<char>::empty()];
    if lines.len() == 0 {
        assert(all[0] == Seq::<char>::empty());
    } else {
        assert(all[0] == lines[0]);
        assert(lines[0].len() > 0);
        assert(all.drop_first() =~= lines.drop_first() + seq![Seq::<char>::empty(), Seq::<char>::empty()]);
        assert forall|i: int| 0 <= i < lines.drop_first().len() implies (#[trigger] lines.drop_first()[i]).len()
            > 0 by {
            assert(lines[i + 1].len() > 0);
        }
        lemma_fields_end(lines.drop_first());
    }
}

/// The bytes of a message whose head is these lines.
pub open spec fn message_of(lines: Seq<Seq<char>>, body: Seq<u8>) -> Seq<u8> {
    encode_utf8(lines_text(lines) + crlf()) + body
}

/// The header fields of a head that is written line by line are those of its lines.
pub proof fn lemma_fields_read_back(lines: Seq<Seq<char>>, fields: Seq<(Seq<char>, Seq<char>)>)
    requires
        lines.len() > 0,
        forall|i: int| 0 <= i < lines.len() ==> is_head_line(#[trigger] lines[i]),
        header_lines(lines.drop_first()) == Some(fields),
    ensures
        header_fields(encode_utf8(lines_text(lines) + crlf())) == Ok::<Seq<(Seq<char>, Seq<char>)>, ErrorView>(fields),
{
    let text = lines_text(lines) + crlf();
    assert(split_lines(text) == lines + seq![Seq::<char>::empty(), Seq::<char>::empty()]) by {
        lemma_lines_split(lines);
    }
    assert forall|i: int| 0 <= i < lines.len() implies (#[trigger] lines[i]).len() > 0 by {
        assert(is_head_line(lines[i]));
    }
    lemma_fields_of_lines(text, lines, fields);
    lemma_fields_of_text(text, fields);
}

proof fn lemma_fields_of_lines(text: Seq<char>, lines: Seq<Seq<char>>, fields: Seq<(Seq<char>, Seq<char>)>)
    requires
        lines.len() > 0,
        split_lines(text) == lines + seq![Seq::<char>::empty(), Seq::<char>::empty()],
        forall|i: int| 0 <= i < lines.len() ==> (#[trigger] lines[i]).len() > 0,
        header_lines(lines.drop_first()) == Some(fields),
    ensures
        header_lines(split_lines(text).drop_first()) == Some(fields),
{
    let ends = seq![Seq::<char>::empty(), Seq::<char>::empty()];
    assert((lines + ends).drop_first() =~= lines.drop_first() + ends);
    assert forall|i: int| 0 <= i < lines.drop_first().len() implies (#[trigger] lines.drop_first()[i]).len() > 0 by {
        assert(lines[i + 1].len() > 0);
    }
    lemma_fields_end(lines.drop_first());
}

proof fn lemma_fields_of_text(text: Seq<char>, fields: Seq<(Seq<char>, Seq<char>)>)
    requires
        header_lines(split_lines(text).drop_first()) == Some(fields),
    ensures
        header_fields(encode_utf8(text)) == Ok::<Seq<(Seq<char>, Seq<char>)>, ErrorView>(fields),
{
    encode_utf8_valid_utf8(text);
    encode_utf8_decode_utf8(text);
}

/// A head that is written line by line is the header block of its message.
pub proof fn lemma_head_reads_back(lines: Seq<Seq<char>>, body: Seq<u8>, max: nat)
    requires
        lines.len() > 0,
        forall|i: int| 0 <= i < lines.len() ==> is_head_line(#[trigger] lines[i]),
        encode_utf8(lines_text(lines) + crlf()).len() <= max,
    ensures
        header_block(message_of(lines, body), max) == Ok::<Option<(Seq<u8>, Seq<u8>)>, ErrorView>(
            Some((encode_utf8(lines_text(lines) + crlf()), body)),
        ),
{
    let head = encode_utf8(lines_text(lines) + crlf());
    let whole = message_of(lines, body);
    lemma_head_ends(lines, body);
    assert(whole.take(head.len() as int) =~= head);
    assert(whole.skip(head.len() as int) =~= body);
}

/// A declared length is read back.
proof fn lemma_length_frames(fields: Seq<(Seq<char>, Seq<char>)>, status: nat, length: nat)
    requires
        !bodiless(status),
        field_value(fields, "transfer-encoding"@) is None,
        field_value(fields, "content-length"@) == Some(decimal(length)),
        length <= usize::MAX,
    ensures
        framing(fields, status) == Ok::<BodyMode, ErrorView>(BodyMode::Fixed(length as usize)),
{
    lemma_decimal_parses_back(length, usize::MAX as nat);
}

/// A response that is written line by line, with a declared length, reads back.
proof fn lemma_reads_back(
    lines: Seq<Seq<char>>,
    body: Seq<u8>,
    fields: Seq<(Seq<char>, Seq<char>)>,
    status: nat,
    limits: Limits,
)
    requires
        lines.len() > 0,
        forall|i: int| 0 <= i < lines.len() ==> is_head_line(#[trigger] lines[i]),
        header_lines(lines.drop_first()) == Some(fields),
        status_code(encode_utf8(lines_text(lines) + crlf())) == Ok::<nat, ErrorView>(status),
        !bodiless(status),
        field_value(fields, "transfer-encoding"@) is None,
        field_value(fields, "content-length"@) == Some(decimal(body.len())),
        encode_utf8(lines_text(lines) + crlf()).len() <= limits.max_header_bytes,
        body.len() <= limits.max_response_bytes,
    ensures
        response(message_of(lines, body), limits) == Ok::<Option<ResponseView>, ErrorView>(
            Some(
                ResponseView { raw_head: encode_utf8(lines_text(lines) + crlf()), body, decoded: false },
            ),
        ),
{
    let head = encode_utf8(lines_text(lines) + crlf());
    let mode = BodyMode::Fixed(body.len() as usize);
    lemma_head_reads_back(lines, body, limits.max_header_bytes as nat);
    lemma_fields_read_back(lines, fields);
    lemma_length_frames(fields, status, body.len());
    lemma_announced_is(message_of(lines, body), limits, head, body, fields, status);
    lemma_fixed_body(message_of(lines, body), limits, head, body);
}

/// What a response announces is read from its header block, its fields and its status.
pub proof fn lemma_announced_is(
    whole: Seq<u8>,
    limits: Limits,
    head: Seq<u8>,
    rest: Seq<u8>,
    fields: Seq<(Seq<char>, Seq<char>)>,
    status: nat,
)
    requires
        header_block(whole, limits.max_header_bytes as nat) == Ok::<Option<(Seq<u8>, Seq<u8>)>, ErrorView>(
            Some((head, rest)),
        ),
        header_fields(head) == Ok::<Seq<(Seq<char>, Seq<char>)>, ErrorView>(fields),
        status_code(head) == Ok::<nat, ErrorView>(status),
        framing(fields, status) is Ok,
    ensures
        announced(whole, limits) == Ok::<Option<(Seq<u8>, Seq<u8>, BodyMode)>, ErrorView>(
            Some((head, rest, framing(fields, status)->Ok_0)),
        ),
{
}

proof fn lemma_fixed_body(whole: Seq<u8>, limits: Limits, head: Seq<u8>, body: Seq<u8>)
    requires
        announced(whole, limits) == Ok::<Option<(Seq<u8>, Seq<u8>, BodyMode)>, ErrorView>(
            Some((head, body, BodyMode::Fixed(body.len() as usize))),
        ),
        body.len() <= limits.max_response_bytes,
    ensures
        response(whole, limits) == Ok::<Option<ResponseView>, ErrorView>(
            Some(ResponseView { raw_head: head, body, decoded: false }),
        ),
{
    assert(body.take(body.len() as int) =~= body);
}

proof fn lemma_word_length_is(s: Seq<char>, n: int)
    requires
        0 <= n <= s.len(),
        forall|i: int| 0 <= i < n ==> !is_space(#[trigger] s[i]),
        n < s.len() ==> is_space(s[n]),
    ensures
        word_length(s) == n,
    decreases n,
{
    if n > 0 {
        assert forall|i: int| 0 <= i < n - 1 implies !is_space(#[trigger] s.drop_first()[i]) by {
            assert(!is_space(s[i + 1]));
        }
        assert(!is_space(s[0]));
        lemma_word_length_is(s.drop_first(), n - 1);
    }
}

/// A status line: a version of so many characters, a space, three digits and another space.
pub open spec fn is_status_line(line: Seq<char>, version: int, status: nat) -> bool {
    &&& 0 < version
    &&& version + 4 < line.len()
    &&& forall|i: int| 0 <= i < version ==> !is_space(#[trigger] line[i])
    &&& line[version] == ' '
    &&& line[version + 4] == ' '
    &&& parsed(line.subrange(version + 1, version + 4), 10, u16::MAX as nat) == Some(status)
    &&& forall|i: int| version < i < version + 4 ==> !is_space(#[trigger] line[i])
    &&& forall|i: int| 0 <= i < line.len() ==> #[trigger] line[i] != '\r' && line[i] != '\n'
}

proof fn lemma_status_words(line: Seq<char>, more: Seq<char>, version: int, status: nat)
    requires
        is_status_line(line, version, status),
    ensures
        word(line + more, 0) is Some,
        word(line + more, 1) == Some(line.subrange(version + 1, version + 4)),
{
    let s = line + more;
    assert(!is_space(line[0]));
    assert(s[0] == line[0]);
    assert(trimmed_start(s) == s);
    assert forall|i: int| 0 <= i < version implies !is_space(#[trigger] s[i]) by {
        assert(s[i] == line[i]);
    }
    assert(s[version] == ' ');
    lemma_word_length_is(s, version);
    let t = s.skip(version);
    let u = s.skip(version + 1);
    assert(t[0] == ' ');
    assert(t.drop_first() =~= u);
    assert(u[0] == line[version + 1]);
    assert(!is_space(line[version + 1]));
    assert(trimmed_start(u) == u);
    assert(trimmed_start(t) == u);
    assert forall|i: int| 0 <= i < 3 implies !is_space(#[trigger] u[i]) by {
        assert(u[i] == line[version + 1 + i]);
    }
    assert(u[3] == line[version + 4]);
    lemma_word_length_is(u, 3);
    assert(u.take(3) =~= line.subrange(version + 1, version + 4));
    assert(word(t, 0) == Some(u.take(3)));
}

/// The status of a head is that of its first line.
proof fn lemma_status_of(line: Seq<char>, rest: Seq<char>, version: int, status: nat)
    requires
        is_status_line(line, version, status),
    ensures
        status_code(encode_utf8(line + crlf() + rest)) == Ok::<nat, ErrorView>(status),
{
    let text = line + crlf() + rest;
    let n = line.len() as int;
    encode_utf8_valid_utf8(text);
    encode_utf8_decode_utf8(text);
    assert(text[n + 1] == '\n');
    lemma_char_at(text, '\n', n + 1);
    assert forall|i: int| 0 <= i < n + 1 implies !#[trigger] occurs_at(text, seq!['\n'], i) by {
        lemma_char_at(text, '\n', i);
        if i < n {
            assert(text[i] == line[i]);
        }
    }
    assert(first_at(text, seq!['\n'], n + 1));
    lemma_find_is(text, seq!['\n'], n + 1);
    assert(text.take(n + 1) =~= line + seq!['\r']);
    lemma_status_words(line, seq!['\r'], version, status);
}

/// The lines of a response that closes the connection.
pub open spec fn closing_lines(status_line: Seq<char>, length: nat) -> Seq<Seq<char>> {
    seq![status_line, length_line(length), "Connection: close"@]
}

proof fn lemma_connection_line()
    ensures
        is_head_line("Connection: close"@),
        header_line("Connection: close"@) matches Some((name, _)) && {
            &&& !same_ignoring_case(name, "content-length"@)
            &&& !same_ignoring_case(name, "transfer-encoding"@)
        },
{
    reveal_strlit("Connection: close");
    reveal_strlit("content-length");
    reveal_strlit("transfer-encoding");
    let line = "Connection: close"@;
    lemma_no_return_no_line_end(line);
    lemma_char_at(line, ':', 10);
    assert forall|i: int| 0 <= i < 10 implies !#[trigger] occurs_at(line, seq![':'], i) by {
        lemma_char_at(line, ':', i);
    }
    assert(first_at(line, seq![':'], 10));
    lemma_find_is(line, seq![':'], 10);
    lemma_trimmed_is(line.take(10));
}

proof fn lemma_closing_text(status_line: Seq<char>, length: nat)
    ensures
        lines_text(closing_lines(status_line, length)) + crlf() == status_line + "\r\nContent-Length: "@ + decimal(
            length,
        ) + "\r\nConnection: close\r\n\r\n"@,
{
    reveal_strlit("\r\nContent-Length: ");
    reveal_strlit("Content-Length: ");
    reveal_strlit("\r\nConnection: close\r\n\r\n");
    reveal_strlit("Connection: close");
    let lines = closing_lines(status_line, length);
    let close = "Connection: close"@;
    assert(lines.drop_first() =~= seq![length_line(length), close]);
    assert(lines.drop_first().drop_first() =~= seq![close]);
    assert(seq![close].drop_first() =~= Seq::<Seq<char>>::empty());
    assert(lines_text(Seq::<Seq<char>>::empty()) =~= Seq::<char>::empty());
    assert(lines_text(seq![close]) =~= close + crlf());
    assert(lines_text(lines.drop_first()) =~= length_line(length) + crlf() + (close + crlf()));
    assert(lines_text(lines) =~= status_line + crlf() + (length_line(length) + crlf() + (close + crlf())));
    assert("\r\nContent-Length: "@ =~= crlf() + "Content-Length: "@);
    assert("\r\nConnection: close\r\n\r\n"@ =~= crlf() + close + crlf() + crlf());
    assert(lines_text(lines) + crlf() =~= status_line + "\r\nContent-Length: "@ + decimal(length)
        + "\r\nConnection: close\r\n\r\n"@);
}

proof fn lemma_closing_fields(status_line: Seq<char>, length: nat)
    ensures
        header_lines(closing_lines(status_line, length).drop_first()) matches Some(fields) && {
            &&& field_value(fields, "transfer-encoding"@) is None
            &&& field_value(fields, "content-length"@) == Some(decimal(length))
        },
{
    let lines = closing_lines(status_line, length).drop_first();
    let close = "Connection: close"@;
    lemma_length_line(length);
    lemma_connection_line();
    assert(lines =~= seq![length_line(length), close]);
    assert(lines.drop_first() =~= seq![close]);
    assert(seq![close].drop_first() =~= Seq::<Seq<char>>::empty());
    assert(header_lines(Seq::<Seq<char>>::empty()) == Some(Seq::<(Seq<char>, Seq<char>)>::empty()));
    let first = header_line(length_line(length)).unwrap();
    let second = header_line(close).unwrap();
    assert(seq![close][0] == close);
    assert(header_lines(seq![close]) == Some(seq![second] + Seq::<(Seq<char>, Seq<char>)>::empty()));
    let later = seq![second] + Seq::<(Seq<char>, Seq<char>)>::empty();
    assert(lines[0] == length_line(length));
    assert(header_lines(lines) == Some(seq![first] + later));
    let fields = seq![first] + later;
    assert(fields[0] == first);
    assert(fields.drop_first() =~= later);
    assert(later[0] == second);
    assert(later.drop_first() =~= Seq::<(Seq<char>, Seq<char>)>::empty());
    assert(field_value(later.drop_first(), "transfer-encoding"@) is None);
    assert(field_value(later, "transfer-encoding"@) is None);
}

proof fn lemma_closing_reads_back(
    status_line: Seq<char>,
    version: int,
    status: nat,
    body: Seq<char>,
    limits: Limits,
)
    requires
        is_status_line(status_line, version, status),
        !bodiless(status),
        closing_response(status_line, body).len() - encode_utf8(body).len() <= limits.max_header_bytes,
        encode_utf8(body).len() <= limits.max_response_bytes,
    ensures
        response(closing_response(status_line, body), limits) matches Ok(Some(v)) && {
            &&& v.body == encode_utf8(body)
            &&& !v.decoded
            &&& v.message() == closing_response(status_line, body)
            &&& status_code(v.raw_head) == Ok::<nat, ErrorView>(status)
        },
{
    let bytes = encode_utf8(body);
    let lines = closing_lines(status_line, bytes.len());
    let text = lines_text(lines) + crlf();
    lemma_closing_text(status_line, bytes.len());
    lemma_encode_concat(text, body);
    assert(closing_response(status_line, body) == message_of(lines, bytes));
    lemma_no_return_no_line_end(status_line);
    lemma_length_line(bytes.len());
    lemma_connection_line();
    assert forall|i: int| 0 <= i < lines.len() implies is_head_line(#[trigger] lines[i]) by {
        assert(i == 0 || i == 1 || i == 2);
    }
    lemma_closing_fields(status_line, bytes.len());
    let fields = header_lines(lines.drop_first()).unwrap();
    assert(text =~= status_line + crlf() + (lines_text(lines.drop_first()) + crlf()));
    lemma_status_of(status_line, lines_text(lines.drop_first()) + crlf(), version, status);
    lemma_reads_back(lines, bytes, fields, status, limits);
}

proof fn lemma_three_digits(a: char, b: char, c: char)
    requires
        '0' <= a <= '9',
        '0' <= b <= '9',
        '0' <= c <= '9',
    ensures
        parsed(seq![a, b, c], 10, u16::MAX as nat) == Some(
            ((a as u32 - 48) * 100 + (b as u32 - 48) * 10 + (c as u32 - 48)) as nat,
        ),
{
    let s = seq![a, b, c];
    assert(s.drop_last() =~= seq![a, b]);
    assert(seq![a, b].drop_last() =~= seq![a]);
    assert(seq![a].drop_last() =~= Seq::<char>::empty());
    reveal_with_fuel(digits_value, 4);
    assert(all_digits(s, 10));
}

/// The client that is told that no service is available reads a complete response with status 503
/// that gives the reason.
pub proof fn law_unavailable_reads_back(message: Seq<char>, limits: Limits)
    requires
        ({
            let body = encode_utf8("service unavailable: "@ + message);
            &&& unavailable_response(message).len() - body.len() <= limits.max_header_bytes
            &&& body.len() <= limits.max_response_bytes
        }),
    ensures
        response(unavailable_response(message), limits) matches Ok(Some(v)) && {
            &&& v.body == encode_utf8("service unavailable: "@ + message)
            &&& !v.decoded
            &&& v.message() == unavailable_response(message)
            &&& status_code(v.raw_head) == Ok::<nat, ErrorView>(503)
        },
{
    reveal_strlit("HTTP/1.1 503 Service Unavailable");
    let line = "HTTP/1.1 503 Service Unavailable"@;
    lemma_three_digits('5', '0', '3');
    assert(line.subrange(9, 12) =~= seq!['5', '0', '3']);
    lemma_closing_reads_back(line, 8, 503, "service unavailable: "@ + message, limits);
}

/// The client whose message is too large reads a complete response with status 413.
pub proof fn law_too_large_reads_back(limits: Limits)
    requires
        too_large_response().len() - 17 <= limits.max_header_bytes,
        limits.max_response_bytes >= 17,
    ensures
        response(too_large_response(), limits) matches Ok(Some(v)) && {
            &&& v.body == encode_utf8("payload too large"@)
            &&& !v.decoded
            &&& v.message() == too_large_response()
            &&& status_code(v.raw_head) == Ok::<nat, ErrorView>(413)
        },
{
    reveal_strlit("HTTP/1.1 413 Payload Too Large");
    reveal_strlit("payload too large");
    let line = "HTTP/1.1 413 Payload Too Large"@;
    lemma_three_digits('4', '1', '3');
    assert(line.subrange(9, 12) =~= seq!['4', '1', '3']);
    vstd::utf8::is_ascii_chars_encode_utf8("payload too large"@);
    lemma_closing_reads_back(line, 8, 413, "payload too large"@, limits);
}

/// A header field that tells how the body ends.
pub open spec fn is_framing_field(field: (Seq<char>, Seq<char>)) -> bool {
    same_ignoring_case(field.0, "transfer-encoding"@) || same_ignoring_case(field.0, "content-length"@)
}

/// The header fields but for those on framing.
pub open spec fn unframed_fields(fields: Seq<(Seq<char>, Seq<char>)>) -> Seq<(Seq<char>, Seq<char>)>
    decreases fields.len(),
{
    if fields.len() == 0 {
        Seq::empty()
    } else if is_framing_field(fields[0]) {
        unframed_fields(fields.drop_first())
    } else {
        seq![fields[0]] + unframed_fields(fields.drop_first())
    }
}

/// The field that declares a body length.
pub open spec fn length_field(n: nat) -> (Seq<char>, Seq<char>) {
    header_line(length_line(n)).unwrap()
}

/// The header lines up to the first empty one but for those on framing.
spec fn kept_lines(lines: Seq<Seq<char>>) -> Seq<Seq<char>>
    decreases lines.len(),
{
    if lines.len() == 0 || lines[0].len() == 0 {
        Seq::empty()
    } else if is_framing_line(lines[0]) {
        kept_lines(lines.drop_first())
    } else {
        seq![lines[0]] + kept_lines(lines.drop_first())
    }
}

proof fn lemma_kept_text(lines: Seq<Seq<char>>)
    ensures
        lines_text(kept_lines(lines)) == unframed_lines(lines),
    decreases lines.len(),
{
    if lines.len() == 0 || lines[0].len() == 0 {
    } else {
        lemma_kept_text(lines.drop_first());
        let later = kept_lines(lines.drop_first());
        if !is_framing_line(lines[0]) {
            assert((seq![lines[0]] + later)[0] == lines[0]);
            assert((seq![lines[0]] + later).drop_first() =~= later);
        }
    }
}

proof fn lemma_kept_are_head_lines(lines: Seq<Seq<char>>)
    requires
        forall|i: int| 0 <= i < lines.len() ==> find(#[trigger] lines[i], crlf()) is None,
    ensures
        forall|i: int| 0 <= i < kept_lines(lines).len() ==> is_head_line(#[trigger] kept_lines(lines)[i]),
    decreases lines.len(),
{
    if lines.len() == 0 || lines[0].len() == 0 {
    } else {
        let later = lines.drop_first();
        assert forall|i: int| 0 <= i < later.len() implies find(#[trigger] later[i], crlf()) is None by {
            assert(find(lines[i + 1], crlf()) is None);
        }
        lemma_kept_are_head_lines(later);
        if !is_framing_line(lines[0]) {
            let all = kept_lines(lines);
            assert forall|i: int| 0 <= i < all.len() implies is_head_line(#[trigger] all[i]) by {
                if i > 0 {
                    assert(all[i] == kept_lines(later)[i - 1]);
                } else {
                    assert(find(lines[0], crlf()) is None);
                }
            }
        }
    }
}

proof fn lemma_lines_text_push(lines: Seq<Seq<char>>, line: Seq<char>)
    ensures
        lines_text(lines.push(line)) == lines_text(lines) + (line + crlf()),
    decreases lines.len(),
{
    let all = lines.push(line);
    if lines.len() == 0 {
        let none = Seq::<Seq<char>>::empty();
        assert(all[0] == line);
        assert(all.drop_first() =~= none);
        assert(lines_text(none) =~= Seq::<char>::empty());
        assert(lines_text(all) =~= lines_text(lines) + (line + crlf()));
    } else {
        assert(all[0] == lines[0]);
        assert(all.drop_first() =~= lines.drop_first().push(line));
        lemma_lines_text_push(lines.drop_first(), line);
        assert(lines_text(all) =~= lines_text(lines) + (line + crlf()));
    }
}

/// The fields of the lines that are kept, with a length behind them.
proof fn lemma_kept_fields(lines: Seq<Seq<char>>, fields: Seq<(Seq<char>, Seq<char>)>, n: nat)
    requires
        header_lines(lines) == Some(fields),
    ensures
        header_lines(kept_lines(lines).push(length_line(n))) == Some(unframed_fields(fields).push(length_field(n))),
    decreases lines.len(),
{
    lemma_length_line(n);
    let kept = kept_lines(lines).push(length_line(n));
    if lines.len() == 0 || lines[0].len() == 0 {
        let none = Seq::<Seq<char>>::empty();
        assert(kept =~= seq![length_line(n)]);
        assert(kept[0] == length_line(n));
        assert(kept.drop_first() =~= none);
        assert(header_lines(none) == Some(Seq::<(Seq<char>, Seq<char>)>::empty()));
        assert(seq![length_field(n)] + Seq::<(Seq<char>, Seq<char>)>::empty() =~= unframed_fields(fields).push(
            length_field(n),
        ));
    } else {
        let field = header_line(lines[0]).unwrap();
        let later = header_lines(lines.drop_first()).unwrap();
        assert(fields == seq![field] + later);
        assert(fields[0] == field);
        assert(fields.drop_first() =~= later);
        lemma_kept_fields(lines.drop_first(), later, n);
        if !is_framing_line(lines[0]) {
            let rest = kept_lines(lines.drop_first()).push(length_line(n));
            assert(kept[0] == lines[0]);
            assert(kept.drop_first() =~= rest);
            assert(seq![field] + unframed_fields(later).push(length_field(n)) =~= unframed_fields(fields).push(
                length_field(n),
            ));
        }
    }
}

proof fn lemma_unframed_values(fields: Seq<(Seq<char>, Seq<char>)>, n: nat)
    ensures
        field_value(unframed_fields(fields).push(length_field(n)), "transfer-encoding"@) is None,
        field_value(unframed_fields(fields).push(length_field(n)), "content-length"@) == Some(decimal(n)),
    decreases fields.len(),
{
    lemma_length_line(n);
    let all = unframed_fields(fields).push(length_field(n));
    if fields.len() == 0 {
        let none = Seq::<(Seq<char>, Seq<char>)>::empty();
        assert(all[0] == length_field(n));
        assert(all.drop_first() =~= none);
        assert(field_value(none, "transfer-encoding"@) is None);
    } else {
        lemma_unframed_values(fields.drop_first(), n);
        if !is_framing_field(fields[0]) {
            assert(all[0] == fields[0]);
            assert(all.drop_first() =~= unframed_fields(fields.drop_first()).push(length_field(n)));
        }
    }
}

/// No piece between line ends holds a line end.
proof fn lemma_split_pieces(s: Seq<char>)
    ensures
        split_lines(s).len() > 0,
        forall|k: int| 0 <= k < split_lines(s).len() ==> find(#[trigger] split_lines(s)[k], crlf()) is None,
    decreases s.len(),
{
    reveal(split_lines);
    lemma_find_props(s, crlf());
    let all = split_lines(s);
    if let Some(i) = find(s, crlf()) {
        let piece = s.take(i);
        lemma_find_props(piece, crlf());
        if let Some(j) = find(piece, crlf()) {
            assert(s.subrange(j, j + 2) =~= piece.subrange(j, j + 2));
            assert(!occurs_at(s, crlf(), j));
        }
        lemma_split_pieces(s.skip(i + 2));
        assert forall|k: int| 0 <= k < all.len() implies find(#[trigger] all[k], crlf()) is None by {
            if k > 0 {
                assert(all[k] == split_lines(s.skip(i + 2))[k - 1]);
            }
        }
    }
}

/// The first line of a message head, and what comes behind it.
proof fn lemma_first_line(received: Seq<u8>, raw_head: Seq<u8>, rest: Seq<u8>, max: nat) -> (after: Seq<char>)
    requires
        header_block(received, max) == Ok::<Option<(Seq<u8>, Seq<u8>)>, ErrorView>(Some((raw_head, rest))),
        valid_utf8(raw_head),
    ensures
        decode_utf8(raw_head) == split_lines(decode_utf8(raw_head))[0] + crlf() + after,
{
    let text = decode_utf8(raw_head);
    lemma_find_props(received, header_end());
    let i = find(received, header_end()).unwrap();
    assert(raw_head.subrange(i, i + 4) =~= received.subrange(i, i + 4));
    lemma_blank_line_bytes();
    decode_utf8_encode_utf8(raw_head);
    let q = lemma_encoded_occurrence(text, blank_line(), i);
    lemma_blank_has_crlf(text, q);
    lemma_find_props(text, crlf());
    let k = find(text, crlf()).unwrap();
    lemma_crlf_at(text, k);
    let after = text.skip(k + 2);
    assert(split_lines(text)[0] == text.take(k)) by {
        reveal(split_lines);
    }
    assert(text =~= text.take(k) + crlf() + after);
    after
}

/// The status depends on the first line alone, and a head with a status has one.
proof fn lemma_status_from_first_line(line: Seq<char>, after: Seq<char>, other: Seq<char>, status: nat)
    requires
        status_code(encode_utf8(line + crlf() + after)) == Ok::<nat, ErrorView>(status),
    ensures
        line.len() > 0,
        status_code(encode_utf8(line + crlf() + other)) == Ok::<nat, ErrorView>(status),
{
    let text = line + crlf() + after;
    let new = line + crlf() + other;
    let front = line + crlf();
    encode_utf8_valid_utf8(text);
    encode_utf8_decode_utf8(text);
    encode_utf8_valid_utf8(new);
    encode_utf8_decode_utf8(new);
    let n = line.len() as int;
    lemma_char_at(front, '\n', n + 1);
    lemma_find_props(front, seq!['\n']);
    let i = find(front, seq!['\n']).unwrap();
    lemma_find_extend(front, after, seq!['\n'], i);
    lemma_find_extend(front, other, seq!['\n'], i);
    assert(text.take(i) =~= front.take(i));
    assert(new.take(i) =~= front.take(i));
    assert(before(text, '\n') == before(new, '\n'));
    if n == 0 {
        lemma_char_at(front, '\n', 0);
        lemma_char_at(front, '\n', i);
        assert(i == 1);
        let shown = front.take(1);
        assert(shown[0] == '\r');
        assert(shown.drop_first() =~= Seq::<char>::empty());
        assert(trimmed_start(shown.drop_first()) =~= Seq::<char>::empty());
        assert(trimmed_start(shown).len() == 0);
        assert(word(shown, 0) is None);
    }
}

/// A response whose chunks were decoded goes to the client as a complete response that reads back,
/// under limits that admit it, with the same status and body, and with the same header fields but for those on framing: its
/// length is declared instead.
pub proof fn law_decoded_response_reads_back(received: Seq<u8>, limits: Limits, v: ResponseView, client: Limits)
    requires
        response(received, limits) == Ok::<Option<ResponseView>, ErrorView>(Some(v)),
        v.decoded,
        v.client_message().len() - v.body.len() <= client.max_header_bytes,
        v.body.len() <= client.max_response_bytes,
    ensures
        ({
            let head = encode_utf8(reframed_head(decode_utf8(v.raw_head), v.body.len()));
            &&& response(v.client_message(), client) == Ok::<Option<ResponseView>, ErrorView>(
                Some(ResponseView { raw_head: head, body: v.body, decoded: false }),
            )
            &&& status_code(head) == status_code(v.raw_head)
            &&& header_fields(v.raw_head) matches Ok(fields) && header_fields(head) == Ok::<
                Seq<(Seq<char>, Seq<char>)>,
                ErrorView,
            >(unframed_fields(fields).push(length_field(v.body.len())))
        }),
{
    let (raw_head, rest, mode) = announced(received, limits)->Ok_0.unwrap();
    let fields = header_fields(raw_head)->Ok_0;
    let status = status_code(raw_head)->Ok_0;
    assert(raw_head == v.raw_head);
    assert(valid_utf8(raw_head));
    let text = decode_utf8(raw_head);
    let lines = split_lines(text);
    let n = v.body.len();
    let after = lemma_first_line(received, raw_head, rest, limits.max_header_bytes as nat);
    decode_utf8_encode_utf8(raw_head);
    lemma_law_of_head(text, after, fields, status, n);
    let kept = kept_lines(lines.drop_first()).push(length_line(n));
    let new = seq![lines[0]] + kept;
    assert(new.drop_first() =~= kept);
    lemma_unframed_values(fields, n);
    lemma_reads_back(new, v.body, unframed_fields(fields).push(length_field(n)), status, client);
    lemma_fields_read_back(new, unframed_fields(fields).push(length_field(n)));
}

/// A head whose framing is replaced is written line by line.
#[verifier::spinoff_prover]
#[verifier::rlimit(60)]
proof fn lemma_law_of_head(
    text: Seq<char>,
    after: Seq<char>,
    fields: Seq<(Seq<char>, Seq<char>)>,
    status: nat,
    n: nat,
)
    requires
        text == split_lines(text)[0] + crlf() + after,
        header_lines(split_lines(text).drop_first()) == Some(fields),
        status_code(encode_utf8(text)) == Ok::<nat, ErrorView>(status),
    ensures
        ({
            let lines = split_lines(text);
            let new = seq![lines[0]] + kept_lines(lines.drop_first()).push(length_line(n));
            &&& lines_text(new) + crlf() == reframed_head(text, n)
            &&& forall|i: int| 0 <= i < new.len() ==> is_head_line(#[trigger] new[i])
            &&& header_lines(new.drop_first()) == Some(unframed_fields(fields).push(length_field(n)))
            &&& status_code(encode_utf8(lines_text(new) + crlf())) == Ok::<nat, ErrorView>(status)
        }),
{
    let lines = split_lines(text);
    let later = lines.drop_first();
    let kept = kept_lines(later);
    let new = seq![lines[0]] + kept.push(length_line(n));
    assert(new.drop_first() =~= kept.push(length_line(n)));
    assert(new[0] == lines[0]);
    lemma_split_pieces(text);
    assert forall|i: int| 0 <= i < later.len() implies find(#[trigger] later[i], crlf()) is None by {
        assert(find(lines[i + 1], crlf()) is None);
    }
    lemma_kept_are_head_lines(later);
    lemma_kept_text(later);
    lemma_lines_text_push(kept, length_line(n));
    lemma_kept_fields(later, fields, n);
    lemma_length_line(n);
    let other = lines_text(kept.push(length_line(n))) + crlf();
    assert(lines_text(new) + crlf() =~= lines[0] + crlf() + other);
    assert(lines_text(new) + crlf() =~= reframed_head(text, n));
    lemma_status_from_first_line(lines[0], after, other, status);
    assert(find(lines[0], crlf()) is None);
    assert forall|i: int| 0 <= i < new.len() implies is_head_line(#[trigger] new[i]) by {
        if 0 < i && i < new.len() - 1 {
            assert(new[i] == kept[i - 1]);
        }
    }
}

/// The terminator of a header block is its first.
proof fn lemma_block_ends_itself(
    received: Seq<u8>,
    raw_head: Seq<u8>,
    rest: Seq<u8>,
    body: Seq<u8>,
    max: nat,
    other_max: nat,
)
    requires
        header_block(received, max) == Ok::<Option<(Seq<u8>, Seq<u8>)>, ErrorView>(Some((raw_head, rest))),
        raw_head.len() <= other_max,
    ensures
        header_block(raw_head + body, other_max) == Ok::<Option<(Seq<u8>, Seq<u8>)>, ErrorView>(
            Some((raw_head, body)),
        ),
{
    lemma_find_props(received, header_end());
    let i = find(received, header_end()).unwrap();
    let whole = raw_head + body;
    assert(whole.subrange(i, i + 4) =~= received.subrange(i, i + 4));
    assert forall|j: int| 0 <= j < i implies !#[trigger] occurs_at(whole, header_end(), j) by {
        assert(!occurs_at(received, header_end(), j));
        assert(whole.subrange(j, j + 4) =~= received.subrange(j, j + 4));
    }
    assert(first_at(whole, header_end(), i));
    lemma_find_is(whole, header_end(), i);
    assert(whole.take(i + 4) =~= raw_head);
    assert(whole.skip(i + 4) =~= body);
}

/// Every response goes to the client as a message that reads back, under limits that admit it, as
/// that very message, with the same status and body. Where a response needed no end of the stream,
/// neither does reading it back.
pub proof fn law_response_reads_back(
    received: Seq<u8>,
    ended: bool,
    limits: Limits,
    v: ResponseView,
    client: Limits,
)
    requires
        whole_response(received, ended, limits) == Ok::<Option<ResponseView>, ErrorView>(Some(v)),
        v.client_message().len() - v.body.len() <= client.max_header_bytes,
        v.body.len() <= client.max_response_bytes,
    ensures
        whole_response(v.client_message(), ended, client) matches Ok(Some(again)) && {
            &&& again.body == v.body
            &&& status_code(again.raw_head) == status_code(v.raw_head)
            &&& !again.decoded
            &&& again.client_message() == v.client_message()
        },
{
    if v.decoded {
        law_decoded_response_reads_back(received, limits, v, client);
    } else {
        let (raw_head, rest, mode) = announced(received, limits)->Ok_0.unwrap();
        lemma_block_ends_itself(
            received,
            raw_head,
            rest,
            v.body,
            limits.max_header_bytes as nat,
            client.max_header_bytes as nat,
        );
        let fields = header_fields(raw_head)->Ok_0;
        let status = status_code(raw_head)->Ok_0;
        lemma_announced_is(v.client_message(), client, raw_head, v.body, fields, status);
        if !(mode is UntilEof) {
            assert(mode == BodyMode::Fixed(v.body.len() as usize));
            lemma_fixed_body(v.client_message(), client, raw_head, v.body);
        }
    }
}

} // verus!
