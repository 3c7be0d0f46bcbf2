//! Text primitives: words, trimming, searching and numbers, over character sequences.

use vstd::prelude::*;
use vstd::utf8::{decode_utf8, encode_utf8, valid_utf8};

verus! {

/// `needle` stands in `s` at offset `i`.
pub open spec fn occurs_at<A>(s: Seq<A>, needle: Seq<A>, i: int) -> bool {
    0 <= i && i + needle.len() <= s.len() && s.subrange(i, i + needle.len()) =~= needle
}

/// `needle` stands in `s` at offset `i` and at no smaller offset.
pub open spec fn first_at<A>(s: Seq<A>, needle: Seq<A>, i: int) -> bool {
    occurs_at(s, needle, i) && forall|j: int| 0 <= j < i ==> !#[trigger] occurs_at(s, needle, j)
}

/// The smallest offset at which `needle` stands in `s`, if it stands there at all.
pub open spec fn find<A>(s: Seq<A>, needle: Seq<A>) -> Option<int> {
    if exists|i: int| first_at(s, needle, i) {
        Some(choose|i: int| first_at(s, needle, i))
    } else {
        None
    }
}

/// An offset that is a first occurrence is what `find` names.
pub proof fn lemma_find_is<A>(s: Seq<A>, needle: Seq<A>, i: int)
    requires
        first_at(s, needle, i),
    ensures
        find(s, needle) == Some(i),
{
    let k = choose|k: int| first_at(s, needle, k);
    if k < i {
        assert(!occurs_at(s, needle, k));
    } else if i < k {
        assert(!occurs_at(s, needle, i));
    }
}

/// Where the needle occurs nowhere, `find` names nothing.
pub proof fn lemma_find_none<A>(s: Seq<A>, needle: Seq<A>)
    requires
        forall|i: int| 0 <= i <= s.len() - needle.len() ==> !#[trigger] occurs_at(s, needle, i),
    ensures
        find(s, needle) is None,
{
}

/// What `find` names is a first occurrence, and where it names nothing there is none.
pub proof fn lemma_find_props<A>(s: Seq<A>, needle: Seq<A>)
    ensures
        find(s, needle) matches Some(i) ==> first_at(s, needle, i),
        find(s, needle) is None ==> forall|i: int| !#[trigger] occurs_at(s, needle, i),
{
    if find(s, needle) is None {
        assert forall|i: int| !#[trigger] occurs_at(s, needle, i) by {
            lemma_no_first_no_occurrence(s, needle, i);
        }
    }
}

proof fn lemma_no_first_no_occurrence<A>(s: Seq<A>, needle: Seq<A>, i: int)
    requires
        find(s, needle) is None,
    ensures
        !occurs_at(s, needle, i),
    decreases i,
{
    if i >= 0 && occurs_at(s, needle, i) {
        assert forall|j: int| 0 <= j < i implies !#[trigger] occurs_at(s, needle, j) by {
            lemma_no_first_no_occurrence(s, needle, j);
        }
        assert(first_at(s, needle, i));
    }
}

/// Appending bytes behind a first occurrence leaves it where it is.
pub proof fn lemma_find_extend<A>(s: Seq<A>, more: Seq<A>, needle: Seq<A>, i: int)
    requires
        find(s, needle) == Some(i),
    ensures
        find(s + more, needle) == Some(i),
{
    lemma_find_props(s, needle);
    let t = s + more;
    assert(t.subrange(i, i + needle.len()) =~= s.subrange(i, i + needle.len()));
    assert forall|j: int| 0 <= j < i implies !#[trigger] occurs_at(t, needle, j) by {
        assert(!occurs_at(s, needle, j));
        assert(t.subrange(j, j + needle.len()) =~= s.subrange(j, j + needle.len()));
    }
    lemma_find_is(t, needle, i);
}

/// Returns the offset of the first `needle` in `haystack`.
pub fn find_subslice(haystack: &[u8], needle: &[u8]) -> (r: Option<usize>)
    requires
        needle@.len() > 0,
    ensures
        match r {
            Some(i) => find(haystack@, needle@) == Some(i as int),
            None => find(haystack@, needle@) is None,
        },
{
    let n: usize = haystack.len();
    let m: usize = needle.len();
    if n < m {
        return None;
    }
    let mut i: usize = 0;
    while i <= n - m
        invariant
            n == haystack@.len(),
            m == needle@.len(),
            0 < m <= n,
            i <= n - m + 1,
            forall|j: int| 0 <= j < i ==> !#[trigger] occurs_at(haystack@, needle@, j),
        decreases n - i,
    {
        let mut k: usize = 0;
        while k < m && haystack[i + k] == needle[k]
            invariant
                n == haystack@.len(),
                m == needle@.len(),
                m <= n,
                i <= n - m,
                k <= m,
                forall|j: int| 0 <= j < k ==> haystack@[i + j] == needle@[j],
            decreases m - k,
        {
            k = k + 1;
        }
        if k == m {
            proof {
                assert(haystack@.subrange(i as int, i + m) =~= needle@);
                lemma_find_is(haystack@, needle@, i as int);
            }
            return Some(i);
        }
        proof {
            assert(haystack@.subrange(i as int, i + m)[k as int] == haystack@[i + k]);
            assert(!occurs_at(haystack@, needle@, i as int));
        }
        i = i + 1;
    }
    proof {
        lemma_find_none(haystack@, needle@);
    }
    None
}

/// `String::push`: appends one character.
pub assume_specification[ String::push ](s: &mut String, c: char)
    ensures
        final(s)@ == old(s)@.push(c),
;

/// `str::from_utf8`: the text that `bytes` encode, or nothing where they are not UTF-8.
#[verifier::external_body]
pub(crate) fn utf8_text(bytes: &[u8]) -> (r: Option<&str>)
    ensures
        r is Some <==> valid_utf8(bytes@),
        r matches Some(s) ==> s@ == decode_utf8(bytes@),
{
    std::str::from_utf8(bytes).ok()
}

/// The characters of `s`.
pub fn chars_of(s: &str) -> (r: Vec<char>)
    ensures
        r@ == s@,
{
    let mut out: Vec<char> = Vec::new();
    for c in it: s.chars()
        invariant
            out@ == s@.take(it.index() as int),
            it.seq() == s@,
    {
        out.push(c);
    }
    out
}

/// The text made of `chars`.
pub fn text_of(chars: &[char]) -> (r: String)
    ensures
        r@ == chars@,
{
    let mut out: String = String::new();
    let mut i: usize = 0;
    while i < chars.len()
        invariant
            i <= chars@.len(),
            out@ == chars@.take(i as int),
        decreases chars@.len() - i,
    {
        out.push(chars[i]);
        i = i + 1;
        assert(chars@.take(i as int) =~= chars@.take(i - 1).push(chars@[i - 1]));
    }
    assert(chars@.take(i as int) =~= chars@);
    out
}

/// The UTF-8 bytes of `s`.
pub fn bytes_of(s: &str) -> (r: Vec<u8>)
    ensures
        r@ == encode_utf8(s@),
{
    vstd::slice::slice_to_vec(s.as_bytes())
}

/// The characters with the Unicode property `White_Space`.
pub open spec fn is_space(c: char) -> bool {
    let n = c as u32;
    ||| 0x09 <= n <= 0x0d
    ||| n == 0x20
    ||| n == 0x85
    ||| n == 0xa0
    ||| n == 0x1680
    ||| 0x2000 <= n <= 0x200a
    ||| n == 0x2028
    ||| n == 0x2029
    ||| n == 0x202f
    ||| n == 0x205f
    ||| n == 0x3000
}

/// Whether `c` is white space.
pub fn is_whitespace(c: char) -> (r: bool)
    ensures
        r == is_space(c),
{
    let n: u32 = c as u32;
    (0x09 <= n && n <= 0x0d) || n == 0x20 || n == 0x85 || n == 0xa0 || n == 0x1680 || (0x2000 <= n
        && n <= 0x200a) || n == 0x2028 || n == 0x2029 || n == 0x202f || n == 0x205f || n == 0x3000
}

/// `s` without the white space at its front.
pub open spec fn trimmed_start(s: Seq<char>) -> Seq<char>
    decreases s.len(),
{
    if s.len() > 0 && is_space(s[0]) {
        trimmed_start(s.drop_first())
    } else {
        s
    }
}

/// `s` without the white space at its back.
pub open spec fn trimmed_end(s: Seq<char>) -> Seq<char>
    decreases s.len(),
{
    if s.len() > 0 && is_space(s.last()) {
        trimmed_end(s.drop_last())
    } else {
        s
    }
}

/// `s` without the white space at its two ends.
pub open spec fn trimmed(s: Seq<char>) -> Seq<char> {
    trimmed_end(trimmed_start(s))
}

/// Removes white space from both ends of `s`.
pub fn trim(s: &[char]) -> (r: Vec<char>)
    ensures
        r@ == trimmed(s@),
{
    let n: usize = s.len();
    let mut i: usize = 0;
    assert(s@.skip(0) =~= s@);
    while i < n && is_whitespace(s[i])
        invariant
            n == s@.len(),
            i <= n,
            trimmed_start(s@) == trimmed_start(s@.skip(i as int)),
        decreases n - i,
    {
        assert(s@.skip(i as int).drop_first() =~= s@.skip(i + 1));
        i = i + 1;
    }
    let ghost t = s@.skip(i as int);
    assert(trimmed_start(s@) == t);
    let mut j: usize = n;
    assert(s@.subrange(i as int, n as int) =~= t);
    while j > i && is_whitespace(s[j - 1])
        invariant
            n == s@.len(),
            i <= j <= n,
            trimmed_end(t) == trimmed_end(s@.subrange(i as int, j as int)),
        decreases j,
    {
        assert(s@.subrange(i as int, j as int).drop_last() =~= s@.subrange(i as int, j - 1));
        j = j - 1;
    }
    vstd::slice::slice_to_vec(vstd::slice::slice_subrange(s, i, j))
}

/// How many characters at the front of `s` are not white space.
pub open spec fn word_length(s: Seq<char>) -> nat
    decreases s.len(),
{
    if s.len() > 0 && !is_space(s[0]) {
        1 + word_length(s.drop_first())
    } else {
        0
    }
}

/// A word is no longer than what it stands in.
pub proof fn lemma_word_length_bound(s: Seq<char>)
    ensures
        word_length(s) <= s.len(),
    decreases s.len(),
{
    if s.len() > 0 && !is_space(s[0]) {
        lemma_word_length_bound(s.drop_first());
    }
}

/// The `k`-th of the words of `s`, counted from zero: the runs of characters between white space.
pub open spec fn word(s: Seq<char>, k: nat) -> Option<Seq<char>>
    decreases k,
{
    let t = trimmed_start(s);
    let n = word_length(t) as int;
    if t.len() == 0 {
        None
    } else if k == 0 {
        Some(t.take(n))
    } else {
        word(t.skip(n), (k - 1) as nat)
    }
}

/// Returns the `k`-th word of `s`, counted from zero.
pub fn nth_word(s: &[char], k: usize) -> (r: Option<Vec<char>>)
    ensures
        match r {
            Some(w) => word(s@, k as nat) == Some(w@),
            None => word(s@, k as nat) is None,
        },
{
    let n: usize = s.len();
    let mut i: usize = 0;
    let mut left: usize = k;
    assert(s@.skip(0) =~= s@);
    loop
        invariant
            n == s@.len(),
            i <= n,
            left <= k,
            word(s@, k as nat) == word(s@.skip(i as int), left as nat),
        decreases left,
    {
        let ghost start = i;
        while i < n && is_whitespace(s[i])
            invariant
                n == s@.len(),
                start <= i <= n,
                trimmed_start(s@.skip(start as int)) == trimmed_start(s@.skip(i as int)),
            decreases n - i,
        {
            assert(s@.skip(i as int).drop_first() =~= s@.skip(i + 1));
            i = i + 1;
        }
        let ghost t = s@.skip(i as int);
        if i == n {
            return None;
        }
        let begin: usize = i;
        while i < n && !is_whitespace(s[i])
            invariant
                n == s@.len(),
                begin <= i <= n,
                word_length(s@.skip(begin as int)) == (i - begin) + word_length(s@.skip(i as int)),
            decreases n - i,
        {
            assert(s@.skip(i as int).drop_first() =~= s@.skip(i + 1));
            i = i + 1;
        }
        assert(word_length(t) == i - begin);
        if left == 0 {
            assert(t.take(i - begin) =~= s@.subrange(begin as int, i as int));
            return Some(vstd::slice::slice_to_vec(vstd::slice::slice_subrange(s, begin, i)));
        }
        assert(t.skip(i - begin) =~= s@.skip(i as int));
        left = left - 1;
    }
}

/// Returns the offset of the first `wanted` in `s`.
pub fn find_char(s: &[char], wanted: char) -> (r: Option<usize>)
    ensures
        match r {
            Some(i) => find(s@, seq![wanted]) == Some(i as int),
            None => find(s@, seq![wanted]) is None,
        },
{
    let mut i: usize = 0;
    while i < s.len()
        invariant
            i <= s@.len(),
            forall|j: int| 0 <= j < i ==> !#[trigger] occurs_at(s@, seq![wanted], j),
        decreases s@.len() - i,
    {
        if s[i] == wanted {
            proof {
                assert(s@.subrange(i as int, i + 1) =~= seq![wanted]);
                lemma_find_is(s@, seq![wanted], i as int);
            }
            return Some(i);
        }
        assert(s@.subrange(i as int, i + 1)[0] == s@[i as int]);
        i = i + 1;
    }
    proof {
        lemma_find_none(s@, seq![wanted]);
    }
    None
}

/// `s` up to the first `mark`, or all of it where there is none.
pub open spec fn before(s: Seq<char>, mark: char) -> Seq<char> {
    match find(s, seq![mark]) {
        Some(i) => s.take(i),
        None => s,
    }
}

/// Returns `s` up to the first `mark`.
pub fn take_before(s: &[char], mark: char) -> (r: Vec<char>)
    ensures
        r@ == before(s@, mark),
{
    match find_char(s, mark) {
        Some(i) => {
            proof {
                lemma_find_props(s@, seq![mark]);
            }
            vstd::slice::slice_to_vec(vstd::slice::slice_subrange(s, 0, i))
        },
        None => vstd::slice::slice_to_vec(s),
    }
}

/// The lower case of an ASCII letter; any other character as it is.
pub open spec fn ascii_lower(c: char) -> char {
    if 'A' <= c <= 'Z' {
        ((c as u8) + 32) as char
    } else {
        c
    }
}

/// `c` in ASCII lower case.
pub fn to_ascii_lower(c: char) -> (r: char)
    ensures
        r == ascii_lower(c),
{
    if 'A' <= c && c <= 'Z' {
        ((c as u8) + 32) as char
    } else {
        c
    }
}

/// `a` and `b` are the same but for the case of ASCII letters.
pub open spec fn same_ignoring_case(a: Seq<char>, b: Seq<char>) -> bool {
    a.len() == b.len() && forall|i: int| 0 <= i < a.len() ==> ascii_lower(#[trigger] a[i]) == ascii_lower(b[i])
}

/// Whether `a` and `b` are the same but for the case of ASCII letters.
pub fn eq_ignore_ascii_case(a: &str, b: &str) -> (r: bool)
    ensures
        r == same_ignoring_case(a@, b@),
{
    let x: Vec<char> = chars_of(a);
    let y: Vec<char> = chars_of(b);
    if x.len() != y.len() {
        return false;
    }
    let mut i: usize = 0;
    while i < x.len()
        invariant
            i <= x@.len(),
            x@ == a@,
            y@ == b@,
            x@.len() == y@.len(),
            forall|j: int| 0 <= j < i ==> ascii_lower(#[trigger] a@[j]) == ascii_lower(b@[j]),
        decreases x@.len() - i,
    {
        if to_ascii_lower(x[i]) != to_ascii_lower(y[i]) {
            assert(ascii_lower(a@[i as int]) != ascii_lower(b@[i as int]));
            return false;
        }
        i = i + 1;
    }
    true
}

/// Whether `a` and `b` are the same text.
pub fn same_text(a: &str, b: &str) -> (r: bool)
    ensures
        r == (a@ == b@),
{
    let x: Vec<char> = chars_of(a);
    let y: Vec<char> = chars_of(b);
    if x.len() != y.len() {
        return false;
    }
    let mut i: usize = 0;
    while i < x.len()
        invariant
            i <= x@.len(),
            x@ == a@,
            y@ == b@,
            x@.len() == y@.len(),
            forall|j: int| 0 <= j < i ==> x@[j] == y@[j],
        decreases x@.len() - i,
    {
        if x[i] != y[i] {
            return false;
        }
        i = i + 1;
    }
    assert(x@ =~= y@);
    true
}

/// The line separator of HTTP.
pub open spec fn crlf() -> Seq<char> {
    seq!['\r', '\n']
}

/// The pieces of `s` between line separators.
#[verifier::opaque]
pub open spec fn split_lines(s: Seq<char>) -> Seq<Seq<char>>
    decreases s.len(),
{
    proof {
        lemma_find_props(s, crlf());
    }
    match find(s, crlf()) {
        Some(i) => seq![s.take(i)] + split_lines(s.skip(i + 2)),
        None => seq![s],
    }
}

/// The contents of a list of character lists.
pub open spec fn lines_view(v: Seq<Vec<char>>) -> Seq<Seq<char>> {
    v.map_values(|line: Vec<char>| line@)
}

/// Splits `s` at each line separator.
pub fn split_crlf(s: &[char]) -> (r: Vec<Vec<char>>)
    ensures
        lines_view(r@) == split_lines(s@),
{
    let n: usize = s.len();
    let mut out: Vec<Vec<char>> = Vec::new();
    let mut start: usize = 0;
    let mut i: usize = 0;
    proof {
        assert(s@.skip(0) =~= s@);
        assert(lines_view(out@) + split_lines(s@) =~= split_lines(s@));
    }
    while i < n
        invariant
            n == s@.len(),
            start <= i <= n,
            lines_view(out@) + split_lines(s@.skip(start as int)) == split_lines(s@),
            forall|j: int| 0 <= j < i - start ==> !#[trigger] occurs_at(s@.skip(start as int), crlf(), j),
        decreases n - i,
    {
        let ghost rest = s@.skip(start as int);
        let ghost k = i - start;
        if i + 1 < n && s[i] == '\r' && s[i + 1] == '\n' {
            proof {
                reveal(split_lines);
                assert(rest.subrange(k, k + 2) =~= crlf());
                lemma_find_is(rest, crlf(), k);
                assert(rest.skip(k + 2) =~= s@.skip(i + 2));
                assert(rest.take(k) =~= s@.subrange(start as int, i as int));
            }
            let ghost before = out@;
            out.push(vstd::slice::slice_to_vec(vstd::slice::slice_subrange(s, start, i)));
            proof {
                assert(lines_view(out@) =~= lines_view(before).push(rest.take(k)));
                assert(lines_view(out@) + split_lines(s@.skip(i + 2)) =~= lines_view(before) + (seq![
                    rest.take(k),
                ] + split_lines(s@.skip(i + 2))));
            }
            i = i + 2;
            start = i;
        } else {
            proof {
                if occurs_at(rest, crlf(), k) {
                    assert(rest.subrange(k, k + 2)[0] == '\r');
                    assert(rest.subrange(k, k + 2)[1] == '\n');
                    assert(rest[k] == s@[i as int]);
                    assert(rest[k + 1] == s@[i + 1]);
                }
            }
            i = i + 1;
        }
    }
    let ghost rest = s@.skip(start as int);
    proof {
        reveal(split_lines);
        lemma_find_none(rest, crlf());
        assert(rest =~= s@.subrange(start as int, n as int));
    }
    let ghost before = out@;
    out.push(vstd::slice::slice_to_vec(vstd::slice::slice_subrange(s, start, n)));
    proof {
        assert(lines_view(out@) =~= lines_view(before) + seq![rest]);
    }
    out
}

/// White space is what Unicode calls so.
pub proof fn law_white_space(c: char)
    ensures
        is_space(c) == ({
            ||| c == ' ' || c == '\t' || c == '\n' || c == '\r'
            ||| c as u32 == 0x0b || c as u32 == 0x0c || c as u32 == 0x85 || c as u32 == 0xa0 || c as u32 == 0x1680
            ||| 0x2000 <= c as u32 <= 0x200a
            ||| c as u32 == 0x2028 || c as u32 == 0x2029 || c as u32 == 0x202f || c as u32 == 0x205f
            ||| c as u32 == 0x3000
        }),
{
}

/// Nothing but white space.
pub open spec fn all_space(s: Seq<char>) -> bool {
    forall|i: int| 0 <= i < s.len() ==> is_space(#[trigger] s[i])
}

/// No white space at all.
pub open spec fn no_space(s: Seq<char>) -> bool {
    forall|i: int| 0 <= i < s.len() ==> !is_space(#[trigger] s[i])
}

proof fn lemma_trimmed_front(pad: Seq<char>, s: Seq<char>)
    requires
        all_space(pad),
    ensures
        trimmed_start(pad + s) == trimmed_start(s),
    decreases pad.len(),
{
    if pad.len() == 0 {
        assert(pad + s =~= s);
    } else {
        assert(is_space(pad[0]));
        assert((pad + s)[0] == pad[0]);
        assert((pad + s).drop_first() =~= pad.drop_first() + s);
        assert forall|i: int| 0 <= i < pad.drop_first().len() implies is_space(#[trigger] pad.drop_first()[i]) by {
            assert(is_space(pad[i + 1]));
        }
        lemma_trimmed_front(pad.drop_first(), s);
    }
}

proof fn lemma_trimmed_back(s: Seq<char>, pad: Seq<char>)
    requires
        all_space(pad),
    ensures
        trimmed_end(s + pad) == trimmed_end(s),
    decreases pad.len(),
{
    if pad.len() == 0 {
        assert(s + pad =~= s);
    } else {
        assert(is_space(pad[pad.len() - 1]));
        assert((s + pad).last() == pad.last());
        assert((s + pad).drop_last() =~= s + pad.drop_last());
        assert forall|i: int| 0 <= i < pad.drop_last().len() implies is_space(#[trigger] pad.drop_last()[i]) by {
            assert(is_space(pad[i]));
        }
        lemma_trimmed_back(s, pad.drop_last());
    }
}

/// Trimming takes away the white space at both ends and nothing else.
pub proof fn law_trimming(front: Seq<char>, core: Seq<char>, back: Seq<char>)
    requires
        all_space(front),
        all_space(back),
        core.len() > 0 ==> !is_space(core[0]) && !is_space(core.last()),
    ensures
        trimmed(front + core + back) == core,
{
    assert(front + core + back =~= front + (core + back));
    lemma_trimmed_front(front, core + back);
    if core.len() == 0 {
        assert(core + back =~= back);
        lemma_trimmed_front(back, core);
        assert(back + core =~= back);
    } else {
        assert((core + back)[0] == core[0]);
        lemma_trimmed_back(core, back);
    }
}

proof fn lemma_word_length(w: Seq<char>, rest: Seq<char>)
    requires
        no_space(w),
        rest.len() > 0 ==> is_space(rest[0]),
    ensures
        word_length(w + rest) == w.len(),
    decreases w.len(),
{
    if w.len() == 0 {
        assert(w + rest =~= rest);
    } else {
        assert(!is_space(w[0]));
        assert((w + rest)[0] == w[0]);
        assert((w + rest).drop_first() =~= w.drop_first() + rest);
        assert forall|i: int| 0 <= i < w.drop_first().len() implies !is_space(#[trigger] w.drop_first()[i]) by {
            assert(!is_space(w[i + 1]));
        }
        lemma_word_length(w.drop_first(), rest);
    }
}

/// The words of a text are what stands between white space, in order.
pub proof fn law_words(front: Seq<char>, w: Seq<char>, rest: Seq<char>, k: nat)
    requires
        all_space(front),
        no_space(w),
        w.len() > 0,
        rest.len() > 0 ==> is_space(rest[0]),
    ensures
        word(front, k) is None,
        word(front + w + rest, 0) == Some(w),
        word(front + w + rest, k + 1) == word(rest, k),
{
    lemma_trimmed_front(front, Seq::empty());
    assert(front + Seq::<char>::empty() =~= front);
    assert(front + w + rest =~= front + (w + rest));
    lemma_trimmed_front(front, w + rest);
    assert(!is_space(w[0]));
    assert((w + rest)[0] == w[0]);
    lemma_word_length(w, rest);
    assert((w + rest).take(w.len() as int) =~= w);
    assert((w + rest).skip(w.len() as int) =~= rest);
}

/// Two characters are the same letter, in either case, or the same character.
pub open spec fn same_letter(a: char, b: char) -> bool {
    ||| a == b
    ||| 'A' <= a <= 'Z' && b as int == a as int + 32
    ||| 'A' <= b <= 'Z' && a as int == b as int + 32
}

/// Names are compared letter by letter, in either case.
pub proof fn law_case_is_ignored(a: Seq<char>, b: Seq<char>)
    ensures
        same_ignoring_case(a, b) <==> a.len() == b.len() && forall|i: int|
            0 <= i < a.len() ==> same_letter(#[trigger] a[i], b[i]),
{
    assert forall|x: char, y: char| same_letter(x, y) == (#[trigger] ascii_lower(x) == #[trigger] ascii_lower(y)) by {
        lemma_lower(x);
        lemma_lower(y);
    }
    if same_ignoring_case(a, b) {
        assert forall|i: int| 0 <= i < a.len() implies same_letter(#[trigger] a[i], b[i]) by {
            assert(ascii_lower(a[i]) == ascii_lower(b[i]));
        }
    }
    if a.len() == b.len() && forall|i: int| 0 <= i < a.len() ==> same_letter(#[trigger] a[i], b[i]) {
        assert forall|i: int| 0 <= i < a.len() implies ascii_lower(#[trigger] a[i]) == ascii_lower(b[i]) by {
            assert(same_letter(a[i], b[i]));
        }
    }
}

proof fn lemma_lower(c: char)
    ensures
        'A' <= c <= 'Z' ==> ascii_lower(c) as int == c as int + 32,
        !('A' <= c <= 'Z') ==> ascii_lower(c) == c,
{
}

/// As many elements as `n` from an offset on.
pub open spec fn piece<A>(s: Seq<A>, i: int, n: nat) -> Seq<A> {
    s.subrange(i, i + n)
}

/// What is found is the first place where the needle stands, and it is found where it stands at all.
pub proof fn law_search<A>(s: Seq<A>, needle: Seq<A>, i: int)
    requires
        0 <= i <= s.len() - needle.len(),
    ensures
        find(s, needle) == Some(i) <==> piece(s, i, needle.len()) == needle && forall|j: int|
            0 <= j < i ==> #[trigger] piece(s, j, needle.len()) != needle,
        piece(s, i, needle.len()) == needle ==> find(s, needle) is Some && find(s, needle).unwrap() <= i,
        find(s, needle) matches Some(k) ==> 0 <= k <= s.len() - needle.len(),
{
    lemma_find_props(s, needle);
    if piece(s, i, needle.len()) == needle {
        assert(occurs_at(s, needle, i));
        if forall|j: int| 0 <= j < i ==> #[trigger] piece(s, j, needle.len()) != needle {
            assert forall|j: int| 0 <= j < i implies !#[trigger] occurs_at(s, needle, j) by {
                assert(piece(s, j, needle.len()) != needle);
            }
            assert(first_at(s, needle, i));
            lemma_find_is(s, needle, i);
        }
    }
    if find(s, needle) == Some(i) {
        assert forall|j: int| 0 <= j < i implies #[trigger] piece(s, j, needle.len()) != needle by {
            assert(!occurs_at(s, needle, j));
        }
    }
}

/// What stands before a mark is all up to the first one.
pub proof fn law_before(front: Seq<char>, mark: char, rest: Seq<char>)
    requires
        !front.contains(mark),
    ensures
        before(front, mark) == front,
        before(front.push(mark) + rest, mark) == front,
{
    let s = front.push(mark) + rest;
    let n = front.len() as int;
    assert forall|i: int| 0 <= i < n implies !#[trigger] occurs_at(front, seq![mark], i) by {
        assert(front.subrange(i, i + 1)[0] == front[i]);
        assert(front.contains(front[i]));
    }
    lemma_find_none(front, seq![mark]);
    assert(s.subrange(n, n + 1) =~= seq![mark]);
    assert forall|i: int| 0 <= i < n implies !#[trigger] occurs_at(s, seq![mark], i) by {
        assert(s.subrange(i, i + 1)[0] == front[i]);
        assert(front.contains(front[i]));
    }
    assert(first_at(s, seq![mark], n));
    lemma_find_is(s, seq![mark], n);
    assert(s.take(n) =~= front);
}

/// Lines are seen one by one.
pub proof fn law_lines_are_seen(v: Seq<Vec<char>>, i: int)
    ensures
        lines_view(v).len() == v.len(),
        0 <= i < v.len() ==> lines_view(v)[i] == v[i]@,
{
}

} // verus!
