//! Settings of the binary.

use vstd::prelude::*;

use crate::addr::SocketAddr;
use crate::error::{ErrorView, MzaniError, MzaniResult};
use crate::text::{
    all_space, chars_of, find, find_char, first_at, is_space, law_trimming, lemma_find_is, lemma_find_none,
    lemma_find_props, occurs_at, text_of, trim, trimmed,
};

verus! {

/// Where the binary listens unless `MZANI_LISTEN` is set.
pub const DEFAULT_LISTEN: &'static str = "127.0.0.1:8080";

/// The backends of the binary unless `MZANI_BACKENDS` is set.
pub const DEFAULT_BACKENDS: &'static str = "127.0.0.1:3333,127.0.0.1:3334";

/// A setting, or its default.
pub open spec fn setting_or(value: Option<&str>, default: Seq<char>) -> Seq<char> {
    match value {
        Some(text) => text@,
        None => default,
    }
}

/// The listen address as it is set.
#[must_use]
pub fn listen_setting(value: Option<&str>) -> (r: String)
    ensures
        r@ == setting_or(value, DEFAULT_LISTEN@),
{
    match value {
        Some(text) => text.to_owned(),
        None => DEFAULT_LISTEN.to_owned(),
    }
}

/// A name without the white space around it, unless nothing is left.
pub open spec fn kept_name(part: Seq<char>) -> Seq<Seq<char>> {
    if trimmed(part).len() == 0 {
        Seq::empty()
    } else {
        seq![trimmed(part)]
    }
}

/// The names in a list with commas: those parts in which something is left without the white space
/// around it.
pub open spec fn listed_names(list: Seq<char>) -> Seq<Seq<char>>
    decreases list.len(),
{
    match find(list, seq![',']) {
        Some(i) => if 0 <= i < list.len() {
            kept_name(list.take(i)) + listed_names(list.skip(i + 1))
        } else {
            Seq::empty()
        },
        None => kept_name(list),
    }
}

/// What texts are.
pub open spec fn texts_view(texts: Seq<String>) -> Seq<Seq<char>> {
    texts.map_values(|t: String| t@)
}

fn keep_name(names: &mut Vec<String>, part: &[char])
    ensures
        texts_view(final(names)@) == texts_view(old(names)@) + kept_name(part@),
{
    let name: Vec<char> = trim(part);
    if !name.is_empty() {
        names.push(text_of(name.as_slice()));
    }
    assert(texts_view(names@) =~= texts_view(old(names)@) + kept_name(part@));
}

/// The backends as they are set.
#[must_use]
pub fn backend_settings(value: Option<&str>) -> (r: Vec<String>)
    ensures
        texts_view(r@) == listed_names(setting_or(value, DEFAULT_BACKENDS@)),
{
    let list: Vec<char> = match value {
        Some(text) => chars_of(text),
        None => chars_of(DEFAULT_BACKENDS),
    };
    let n: usize = list.len();
    let mut names: Vec<String> = Vec::new();
    let mut start: usize = 0;
    proof {
        assert(list@.skip(0) =~= list@);
        assert(texts_view(names@) + listed_names(list@.skip(0)) =~= listed_names(list@));
    }
    loop
        invariant_except_break
            n == list@.len(),
            start <= n,
            texts_view(names@) + listed_names(list@.skip(start as int)) == listed_names(list@),
        ensures
            texts_view(names@) == listed_names(list@),
        decreases n - start,
    {
        let rest: &[char] = vstd::slice::slice_subrange(list.as_slice(), start, n);
        let ghost before = texts_view(names@);
        assert(rest@ =~= list@.skip(start as int));
        proof {
            lemma_find_props(rest@, seq![',']);
        }
        match find_char(rest, ',') {
            Some(i) => {
                keep_name(&mut names, vstd::slice::slice_subrange(rest, 0, i));
                proof {
                    assert(rest@.subrange(0, i as int) =~= rest@.take(i as int));
                    assert(rest@.skip(i + 1) =~= list@.skip(start + i + 1));
                    assert(texts_view(names@) + listed_names(list@.skip(start + i + 1)) =~= before + listed_names(
                        rest@,
                    ));
                }
                start = start + i + 1;
            },
            None => {
                keep_name(&mut names, rest);
                break ;
            },
        }
    }
    names
}

/// The error of a listen address that cannot be parsed.
#[must_use]
pub fn invalid_listen(reason: &str) -> (r: MzaniError)
    ensures
        r@ == ErrorView::ParseError("invalid MZANI_LISTEN: "@ + reason@),
{
    let mut message: String = "invalid MZANI_LISTEN: ".to_owned();
    message.append(reason);
    MzaniError::ParseError(message)
}

/// The error of a backend that cannot be parsed.
pub open spec fn bad_backend(name: Seq<char>, reason: Seq<char>) -> ErrorView {
    ErrorView::ParseError("invalid backend "@ + name + ": "@ + reason)
}

/// A backend as it is set, with its address or the reason why it has none.
#[derive(Debug)]
pub struct ParsedBackend {
    pub name: String,
    pub addr: Result<SocketAddr, String>,
}

/// The first backend without an address is this one.
pub open spec fn first_bad(parsed: Seq<ParsedBackend>, i: int) -> bool {
    &&& 0 <= i < parsed.len()
    &&& parsed[i].addr is Err
    &&& forall|j: int| 0 <= j < i ==> (#[trigger] parsed[j]).addr is Ok
}

/// All backend addresses.
///
/// # Errors
///
/// Returns [`MzaniError::ParseError`] for the first backend without an address and
/// [`MzaniError::EmptyServerList`] where there is no backend.
pub fn collect_backends(parsed: &[ParsedBackend]) -> (r: MzaniResult<Vec<SocketAddr>>)
    ensures
        match r {
            Ok(addrs) => {
                &&& parsed@.len() > 0
                &&& addrs@.len() == parsed@.len()
                &&& forall|i: int|
                    0 <= i < parsed@.len() ==> (#[trigger] parsed@[i]).addr == Ok::<SocketAddr, String>(addrs@[i])
            },
            Err(e) => if parsed@.len() == 0 {
                e@ == ErrorView::EmptyServerList
            } else {
                exists|i: int| #[trigger]
                    first_bad(parsed@, i) && e@ == bad_backend(parsed@[i].name@, parsed@[i].addr->Err_0@)
            },
        },
{
    let mut addrs: Vec<SocketAddr> = Vec::new();
    let mut i: usize = 0;
    while i < parsed.len()
        invariant
            i <= parsed@.len(),
            addrs@.len() == i,
            forall|j: int| 0 <= j < i ==> (#[trigger] parsed@[j]).addr == Ok::<SocketAddr, String>(addrs@[j]),
        decreases parsed@.len() - i,
    {
        match &parsed[i].addr {
            Ok(addr) => {
                addrs.push(*addr);
            },
            Err(reason) => {
                let mut message: String = "invalid backend ".to_owned();
                message.append(parsed[i].name.as_str());
                message.append(": ");
                message.append(reason.as_str());
                assert(first_bad(parsed@, i as int));
                return Err(MzaniError::ParseError(message));
            },
        }
        i = i + 1;
    }
    if addrs.is_empty() {
        return Err(MzaniError::EmptyServerList);
    }
    Ok(addrs)
}

/// A setting is taken as it is, and its default only where it is not set.
pub proof fn law_settings_override_defaults(text: &str, default: Seq<char>)
    ensures
        setting_or(Some(text), default) == text@,
        setting_or(None, default) == default,
{
}

/// A list of names is read name by name: commas separate them, white space around them does not
/// count, and nothing between two commas is no name.
pub proof fn law_names_are_listed(front: Seq<char>, name: Seq<char>, back: Seq<char>, rest: Seq<char>)
    requires
        all_space(front),
        all_space(back),
        !name.contains(','),
        name.len() > 0 ==> !is_space(name[0]) && !is_space(name.last()),
    ensures
        ({
            let listed = if name.len() == 0 {
                Seq::<Seq<char>>::empty()
            } else {
                seq![name]
            };
            &&& listed_names(front + name + back) == listed
            &&& listed_names(front + name + back + seq![','] + rest) == listed + listed_names(rest)
        }),
{
    let part = front + name + back;
    let n = part.len() as int;
    law_trimming(front, name, back);
    assert forall|i: int| 0 <= i < n implies #[trigger] part[i] != ',' by {
        let f = front.len() as int;
        let m = name.len() as int;
        if i < f {
            assert(is_space(front[i]));
        } else if i < f + m {
            assert(part[i] == name[i - f]);
            assert(name.contains(name[i - f]));
        } else {
            assert(is_space(back[i - f - m]));
        }
    }
    assert forall|i: int| 0 <= i <= n - 1 implies !#[trigger] occurs_at(part, seq![','], i) by {
        assert(part.subrange(i, i + 1)[0] == part[i]);
    }
    lemma_find_none(part, seq![',']);
    let all = part + seq![','] + rest;
    assert(all.subrange(n, n + 1) =~= seq![',']);
    assert forall|i: int| 0 <= i < n implies !#[trigger] occurs_at(all, seq![','], i) by {
        assert(all.subrange(i, i + 1)[0] == part[i]);
    }
    assert(first_at(all, seq![','], n));
    lemma_find_is(all, seq![','], n);
    assert(all.take(n) =~= part);
    assert(all.skip(n + 1) =~= rest);
}

/// Texts are what their characters are, in order.
pub proof fn law_texts(texts: Seq<String>, i: int)
    requires
        0 <= i < texts.len(),
    ensures
        texts_view(texts).len() == texts.len(),
        texts_view(texts)[i] == texts[i]@,
{
}

/// The backend that is complained about is the first that has no address, by its name and the reason.
pub proof fn law_bad_backend_is_named(parsed: Seq<ParsedBackend>, i: int, name: Seq<char>, reason: Seq<char>)
    ensures
        first_bad(parsed, i) <==> 0 <= i < parsed.len() && parsed[i].addr is Err && forall|j: int|
            0 <= j < i ==> !((#[trigger] parsed[j]).addr is Err),
        bad_backend(name, reason) == ErrorView::ParseError("invalid backend "@ + name + ": "@ + reason),
{
}

} // verus!
