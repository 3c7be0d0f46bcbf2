//! Message heads on the wire: a head that is written line by line reads back.

use vstd::prelude::*;
use vstd::utf8::{
    decode_first_scalar, decode_utf8, decode_utf8_split, encode_utf8, encode_utf8_decode_utf8,
    encode_utf8_valid_utf8, is_ascii_chars, is_ascii_chars_encode_utf8, is_char_boundary,
    is_char_boundary_iff_not_is_continuation_byte, leading_bits_width_1, pop_first_scalar, valid_utf8,
    valid_utf8_split,
};

use crate::request::header_end;
use crate::text::{crlf, find, first_at, lemma_find_is, lemma_find_none, lemma_find_props, occurs_at, split_lines};

verus! {

/// Encoding texts one after the other is encoding them together.
pub proof fn lemma_encode_concat(a: Seq<char>, b: Seq<char>)
    ensures
        encode_utf8(a + b) == encode_utf8(a) + encode_utf8(b),
    decreases a.len(),
{
    if a.len() == 0 {
        assert(a + b =~= b);
        assert(encode_utf8(a) + encode_utf8(b) =~= encode_utf8(b));
    } else {
        assert((a + b).drop_first() =~= a.drop_first() + b);
        lemma_encode_concat(a.drop_first(), b);
        let first = vstd::utf8::encode_scalar(a[0] as u32);
        assert(encode_utf8(a + b) == first + (encode_utf8(a.drop_first()) + encode_utf8(b)));
        assert(first + (encode_utf8(a.drop_first()) + encode_utf8(b)) =~= first + encode_utf8(a.drop_first())
            + encode_utf8(b));
    }
}

proof fn lemma_ascii_front_decodes(bytes: Seq<u8>, needle: Seq<char>)
    requires
        valid_utf8(bytes),
        is_ascii_chars(needle),
        needle.len() <= bytes.len(),
        forall|i: int| 0 <= i < needle.len() ==> bytes[i] == #[trigger] needle[i] as u8,
    ensures
        needle.len() <= decode_utf8(bytes).len(),
        decode_utf8(bytes).take(needle.len() as int) == needle,
    decreases needle.len(),
{
    if needle.len() == 0 {
        assert(decode_utf8(bytes).take(0) =~= needle);
    } else {
        let c = needle[0];
        let b = bytes[0];
        assert(b == c as u8);
        assert(b <= 0x7f);
        assert(b & 0x7f == b) by (bit_vector)
            requires
                b <= 0x7f,
        ;
        assert(leading_bits_width_1(b) == b as u32);
        assert(decode_first_scalar(bytes) == b as u32);
        let rest = pop_first_scalar(bytes);
        assert(rest =~= bytes.drop_first());
        assert forall|i: int| 0 <= i < needle.drop_first().len() implies rest[i] == #[trigger] needle.drop_first()[i]
            as u8 by {
            assert(needle[i + 1] as u8 == bytes[i + 1]);
        }
        lemma_ascii_front_decodes(rest, needle.drop_first());
        let text = decode_utf8(bytes);
        assert(text.drop_first() =~= decode_utf8(rest));
        assert(text[0] == c);
        assert forall|i: int| 0 <= i < needle.len() implies text[i] == needle[i] by {
            if i > 0 {
                assert(text.drop_first().take(needle.len() - 1)[i - 1] == needle.drop_first()[i - 1]);
            }
        }
        assert(text.take(needle.len() as int) =~= needle);
    }
}

/// Where the bytes of an ASCII text stand in an encoded text, the text itself stands.
pub proof fn lemma_encoded_occurrence(text: Seq<char>, needle: Seq<char>, p: int) -> (q: int)
    requires
        is_ascii_chars(needle),
        needle.len() > 0,
        occurs_at(encode_utf8(text), encode_utf8(needle), p),
    ensures
        occurs_at(text, needle, q),
        encode_utf8(text.take(q)).len() == p,
{
    let bytes = encode_utf8(text);
    let n = bytes.len() as int;
    is_ascii_chars_encode_utf8(needle);
    encode_utf8_valid_utf8(text);
    encode_utf8_decode_utf8(text);
    let found = bytes.subrange(p, p + needle.len());
    assert(found == encode_utf8(needle));
    assert forall|i: int| 0 <= i < needle.len() implies bytes[p + i] == #[trigger] needle[i] as u8 by {
        assert(found[i] == bytes[p + i]);
        assert(encode_utf8(needle)[i] == needle[i] as u8);
    }
    assert(needle[0] as u8 <= 0x7f);
    assert(bytes[p] == needle[0] as u8);
    is_char_boundary_iff_not_is_continuation_byte(bytes, p);
    assert(is_char_boundary(bytes, p));
    let front = bytes.subrange(0, p);
    let back = bytes.subrange(p, n);
    valid_utf8_split(bytes, p);
    decode_utf8_split(bytes, p);
    assert forall|i: int| 0 <= i < needle.len() implies back[i] == #[trigger] needle[i] as u8 by {
        assert(bytes[p + i] == needle[i] as u8);
    }
    lemma_ascii_front_decodes(back, needle);
    let q = decode_utf8(front).len() as int;
    assert(text == decode_utf8(front) + decode_utf8(back));
    assert(text.take(q) =~= decode_utf8(front));
    vstd::utf8::decode_utf8_encode_utf8(front);
    assert(text.subrange(q, q + needle.len()) =~= decode_utf8(back).take(needle.len() as int));
    q
}

/// Lines one after the other, each with its line end.
pub open spec fn lines_text(lines: Seq<Seq<char>>) -> Seq<char>
    decreases lines.len(),
{
    if lines.len() == 0 {
        Seq::empty()
    } else {
        lines[0] + crlf() + lines_text(lines.drop_first())
    }
}

/// A line that can stand in a message head: it is not empty and holds no line end.
pub open spec fn is_head_line(line: Seq<char>) -> bool {
    line.len() > 0 && find(line, crlf()) is None
}

/// A line end stands where its two characters stand.
pub proof fn lemma_crlf_at(s: Seq<char>, i: int)
    requires
        0 <= i,
        i + 2 <= s.len(),
    ensures
        occurs_at(s, crlf(), i) <==> s[i] == '\r' && s[i + 1] == '\n',
{
    let part = s.subrange(i, i + 2);
    if occurs_at(s, crlf(), i) {
        assert(part[0] == '\r');
        assert(part[1] == '\n');
    } else if s[i] == '\r' && s[i + 1] == '\n' {
        assert(part =~= crlf());
    }
}

/// No line end stands before that of a line without one, nor right behind its first character.
proof fn lemma_no_earlier_end(line: Seq<char>, rest: Seq<char>, j: int)
    requires
        find(line, crlf()) is None,
        0 <= j < line.len() || j == line.len() + 1,
    ensures
        !occurs_at(line + crlf() + rest, crlf(), j),
{
    let s = line + crlf() + rest;
    let n = line.len() as int;
    lemma_find_props(line, crlf());
    if j + 2 <= s.len() {
        lemma_crlf_at(s, j);
        if j + 2 <= n {
            lemma_crlf_at(line, j);
            assert(!occurs_at(line, crlf(), j));
        } else if j == n - 1 {
            assert(s[n] == '\r');
        } else {
            assert(s[n + 1] == '\n');
        }
    }
}

/// The first line end behind a line without one is its own.
proof fn lemma_line_ends(line: Seq<char>, rest: Seq<char>)
    requires
        find(line, crlf()) is None,
    ensures
        find(line + crlf() + rest, crlf()) == Some(line.len() as int),
{
    let s = line + crlf() + rest;
    let n = line.len() as int;
    lemma_crlf_at(s, n);
    assert forall|j: int| 0 <= j < n implies !#[trigger] occurs_at(s, crlf(), j) by {
        lemma_no_earlier_end(line, rest, j);
    }
    assert(first_at(s, crlf(), n));
    lemma_find_is(s, crlf(), n);
}

/// A line and what comes behind it split into that line and the lines behind it.
proof fn lemma_first_line_splits(line: Seq<char>, rest: Seq<char>)
    requires
        find(line, crlf()) is None,
    ensures
        split_lines(line + crlf() + rest) == seq![line] + split_lines(rest),
{
    let s = line + crlf() + rest;
    reveal(split_lines);
    lemma_line_ends(line, rest);
    assert(s.take(line.len() as int) =~= line);
    assert(s.skip(line.len() as int + 2) =~= rest);
}

proof fn lemma_line_end_splits()
    ensures
        split_lines(crlf()) == seq![Seq::<char>::empty(), Seq::<char>::empty()],
{
    let none = Seq::<char>::empty();
    assert(find(none, crlf()) is None) by {
        lemma_find_none(none, crlf());
    }
    assert(split_lines(none) == seq![none]) by {
        reveal(split_lines);
    }
    assert(split_lines(crlf()) == seq![none] + seq![none]) by {
        lemma_first_line_splits(none, none);
        assert(crlf() =~= none + crlf() + none);
    }
    assert(seq![none] + seq![none] =~= seq![none, none]);
}

/// A head that is written line by line splits into these lines.
pub proof fn lemma_lines_split(lines: Seq<Seq<char>>)
    requires
        forall|i: int| 0 <= i < lines.len() ==> is_head_line(#[trigger] lines[i]),
    ensures
        split_lines(lines_text(lines) + crlf()) == lines + seq![Seq::<char>::empty(), Seq::<char>::empty()],
    decreases lines.len(),
{
    let ends = seq![Seq::<char>::empty(), Seq::<char>::empty()];
    if lines.len() == 0 {
        lemma_line_end_splits();
        assert(lines_text(lines) + crlf() =~= crlf());
        assert(lines + ends =~= ends);
    } else {
        let later = lines.drop_first();
        let rest = lines_text(later) + crlf();
        assert(is_head_line(lines[0]));
        assert(lines_text(lines) + crlf() =~= lines[0] + crlf() + rest);
        assert forall|i: int| 0 <= i < later.len() implies is_head_line(#[trigger] later[i]) by {
            assert(is_head_line(lines[i + 1]));
        }
        lemma_lines_split(later);
        lemma_first_line_splits(lines[0], rest);
        assert(seq![lines[0]] + (later + ends) =~= lines + ends);
    }
}

/// The line end and the empty line that end a head.
pub open spec fn blank_line() -> Seq<char> {
    seq!['\r', '\n', '\r', '\n']
}

/// An empty line has two line ends.
pub proof fn lemma_blank_has_crlf(s: Seq<char>, j: int)
    requires
        occurs_at(s, blank_line(), j),
    ensures
        occurs_at(s, crlf(), j),
        occurs_at(s, crlf(), j + 2),
{
    let part = s.subrange(j, j + 4);
    assert(part[0] == '\r' && part[1] == '\n' && part[2] == '\r' && part[3] == '\n');
    lemma_crlf_at(s, j);
    lemma_crlf_at(s, j + 2);
}

/// An empty line behind a line is at the front of what follows, or further back.
proof fn lemma_blank_behind(line: Seq<char>, rest: Seq<char>, j: int)
    requires
        find(line, crlf()) is None,
        occurs_at(line + crlf() + rest, blank_line(), j),
    ensures
        j == line.len() && occurs_at(rest, crlf(), 0) || j >= line.len() + 2 && occurs_at(
            rest,
            blank_line(),
            j - line.len() - 2,
        ),
{
    let s = line + crlf() + rest;
    let n = line.len() as int;
    lemma_blank_has_crlf(s, j);
    if j < n || j == n + 1 {
        lemma_no_earlier_end(line, rest, j);
    } else if j == n {
        lemma_crlf_at(s, n + 2);
        assert(s[n + 2] == rest[0] && s[n + 3] == rest[1]);
        lemma_crlf_at(rest, 0);
    } else {
        assert(rest.subrange(j - n - 2, j - n - 2 + 4) =~= s.subrange(j, j + 4));
    }
}

/// The first empty line of a head that is written line by line is its last.
proof fn lemma_blank_is_last(lines: Seq<Seq<char>>)
    requires
        lines.len() > 0,
        forall|i: int| 0 <= i < lines.len() ==> is_head_line(#[trigger] lines[i]),
    ensures
        lines_text(lines).len() >= 3,
        first_at(lines_text(lines) + crlf(), blank_line(), lines_text(lines).len() - 2),
    decreases lines.len(),
{
    let line = lines[0];
    let n = line.len() as int;
    let later = lines.drop_first();
    let rest = lines_text(later) + crlf();
    let s = lines_text(lines) + crlf();
    assert(is_head_line(line));
    assert(s =~= line + crlf() + rest);
    let last = lines_text(lines).len() - 2;
    if lines.len() == 1 {
        assert(lines_text(later) =~= Seq::empty());
        assert(rest =~= crlf());
        assert(last == n);
        assert(s.subrange(n, n + 4) =~= blank_line());
        assert forall|j: int| 0 <= j < last implies !#[trigger] occurs_at(s, blank_line(), j) by {
            if occurs_at(s, blank_line(), j) {
                lemma_blank_behind(line, rest, j);
            }
        }
    } else {
        assert forall|i: int| 0 <= i < later.len() implies is_head_line(#[trigger] later[i]) by {
            assert(is_head_line(lines[i + 1]));
        }
        lemma_blank_is_last(later);
        let k = lines_text(later).len() - 2;
        assert(last == n + 2 + k);
        assert(s.subrange(last, last + 4) =~= rest.subrange(k, k + 4));
        assert(occurs_at(s, blank_line(), last));
        lemma_no_crlf_in_front(later);
        assert forall|j: int| 0 <= j < last implies !#[trigger] occurs_at(s, blank_line(), j) by {
            if occurs_at(s, blank_line(), j) {
                lemma_blank_behind(line, rest, j);
                assert(!occurs_at(rest, blank_line(), j - n - 2));
            }
        }
    }
}

proof fn lemma_no_crlf_in_front(lines: Seq<Seq<char>>)
    requires
        lines.len() > 0,
        is_head_line(lines[0]),
    ensures
        !occurs_at(lines_text(lines) + crlf(), crlf(), 0),
{
    let after = lines_text(lines.drop_first()) + crlf();
    assert(lines_text(lines) + crlf() =~= lines[0] + crlf() + after);
    lemma_line_ends(lines[0], after);
    lemma_find_props(lines_text(lines) + crlf(), crlf());
}

/// The bytes of an empty line end a header block.
pub proof fn lemma_blank_line_bytes()
    ensures
        is_ascii_chars(blank_line()),
        encode_utf8(blank_line()) == header_end(),
{
    assert(is_ascii_chars(blank_line()));
    is_ascii_chars_encode_utf8(blank_line());
    let e = encode_utf8(blank_line());
    assert(blank_line()[0] as u8 == e[0]);
    assert(blank_line()[1] as u8 == e[1]);
    assert(blank_line()[2] as u8 == e[2]);
    assert(blank_line()[3] as u8 == e[3]);
    assert(e =~= header_end());
}

/// A head that is written line by line ends, among the bytes of a message, where it was ended.
pub proof fn lemma_head_ends(lines: Seq<Seq<char>>, body: Seq<u8>)
    requires
        lines.len() > 0,
        forall|i: int| 0 <= i < lines.len() ==> is_head_line(#[trigger] lines[i]),
    ensures
        ({
            let head = encode_utf8(lines_text(lines) + crlf());
            &&& head.len() >= 4
            &&& find(head + body, header_end()) == Some(head.len() - 4)
        }),
{
    let text = lines_text(lines) + crlf();
    let front = text.take(text.len() - 4);
    let head = encode_utf8(text);
    let whole = head + body;
    lemma_blank_is_last(lines);
    assert(text.subrange(text.len() - 4, text.len() as int) =~= blank_line());
    assert(text =~= front + blank_line());
    lemma_encode_concat(front, blank_line());
    lemma_blank_line_bytes();
    let n = head.len() - 4;
    assert(whole.subrange(n, n + 4) =~= header_end());
    assert forall|p: int| 0 <= p < n implies !#[trigger] occurs_at(whole, header_end(), p) by {
        if occurs_at(whole, header_end(), p) {
            assert(head.subrange(p, p + 4) =~= whole.subrange(p, p + 4));
            assert(occurs_at(head, encode_utf8(blank_line()), p));
            let q = lemma_encoded_occurrence(text, blank_line(), p);
            if q < text.len() - 4 {
                assert(!occurs_at(text, blank_line(), q));
            }
            assert(q == text.len() - 4);
            assert(text.take(q) =~= front);
        }
    }
    assert(first_at(whole, header_end(), n));
    lemma_find_is(whole, header_end(), n);
}

} // verus!
