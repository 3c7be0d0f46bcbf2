//! Numbers in text: decimal rendering, and parsing in a given radix.

use vstd::prelude::*;

use crate::text::text_of;

verus! {

/// The value of `c` as a digit of a radix up to sixteen.
pub open spec fn digit_value(c: char, radix: nat) -> Option<nat> {
    let n = c as u32;
    let v: int = if '0' <= c <= '9' {
        n - 48
    } else if 'a' <= c <= 'f' {
        n - 87
    } else if 'A' <= c <= 'F' {
        n - 55
    } else {
        -1
    };
    if 0 <= v < radix {
        Some(v as nat)
    } else {
        None
    }
}

/// `s` is a non-empty run of digits.
pub open spec fn all_digits(s: Seq<char>, radix: nat) -> bool {
    s.len() > 0 && forall|i: int| 0 <= i < s.len() ==> digit_value(#[trigger] s[i], radix) is Some
}

/// The number that the digits of `s` write.
pub open spec fn digits_value(s: Seq<char>, radix: nat) -> nat
    decreases s.len(),
{
    if s.len() == 0 {
        0
    } else {
        digits_value(s.drop_last(), radix) * radix + digit_value(s.last(), radix).unwrap_or(0)
    }
}

/// The digits of an unsigned number: what follows an optional `+`.
pub open spec fn unsigned_digits(s: Seq<char>) -> Seq<char> {
    if s.len() > 0 && s[0] == '+' {
        s.drop_first()
    } else {
        s
    }
}

/// The unsigned number, no greater than `max`, that `s` writes.
pub open spec fn parsed(s: Seq<char>, radix: nat, max: nat) -> Option<nat> {
    let d = unsigned_digits(s);
    if all_digits(d, radix) && digits_value(d, radix) <= max {
        Some(digits_value(d, radix))
    } else {
        None
    }
}

proof fn lemma_prefix_value_bound(s: Seq<char>, k: int, radix: nat)
    requires
        0 <= k <= s.len(),
        radix >= 1,
    ensures
        digits_value(s.take(k), radix) <= digits_value(s, radix),
    decreases s.len() - k,
{
    if k == s.len() {
        assert(s.take(k) =~= s);
    } else {
        lemma_prefix_value_bound(s, k + 1, radix);
        assert(s.take(k + 1).drop_last() =~= s.take(k));
        let v = digits_value(s.take(k), radix);
        assert(v <= v * radix) by (nonlinear_arith)
            requires
                radix >= 1,
                v >= 0,
        ;
    }
}

fn digit_of(c: char, radix: u32) -> (r: Option<u32>)
    requires
        2 <= radix <= 16,
    ensures
        match r {
            Some(v) => digit_value(c, radix as nat) == Some(v as nat) && v < radix,
            None => digit_value(c, radix as nat) is None,
        },
{
    let n: u32 = c as u32;
    let v: u32 = if '0' <= c && c <= '9' {
        n - 48
    } else if 'a' <= c && c <= 'f' {
        n - 87
    } else if 'A' <= c && c <= 'F' {
        n - 55
    } else {
        return None;
    };
    if v < radix {
        Some(v)
    } else {
        None
    }
}

/// Parses an unsigned number no greater than `max`: an optional `+`, then digits only.
pub fn parse_unsigned(s: &[char], radix: u32, max: u64) -> (r: Option<u64>)
    requires
        2 <= radix <= 16,
    ensures
        match r {
            Some(v) => parsed(s@, radix as nat, max as nat) == Some(v as nat),
            None => parsed(s@, radix as nat, max as nat) is None,
        },
{
    let n: usize = s.len();
    let from: usize = if n > 0 && s[0] == '+' {
        1
    } else {
        0
    };
    let ghost d = unsigned_digits(s@);
    assert(d =~= s@.skip(from as int));
    if from == n {
        return None;
    }
    let mut i: usize = from;
    let mut acc: u64 = 0;
    assert(d.take(0) =~= Seq::<char>::empty());
    while i < n
        invariant
            n == s@.len(),
            2 <= radix <= 16,
            from <= i <= n,
            from < n,
            d == unsigned_digits(s@),
            d == s@.skip(from as int),
            acc <= max,
            acc as nat == digits_value(d.take(i - from), radix as nat),
            forall|j: int| 0 <= j < i - from ==> digit_value(#[trigger] d[j], radix as nat) is Some,
        decreases n - i,
    {
        assert(d[i - from] == s@[i as int]);
        match digit_of(s[i], radix) {
            None => {
                return None;
            },
            Some(v) => {
                assert(0 <= acc * radix <= 0xffff_ffff_ffff_ffff * 16) by (nonlinear_arith)
                    requires
                        0 <= acc <= 0xffff_ffff_ffff_ffff,
                        2 <= radix <= 16,
                ;
                let next: u128 = (acc as u128) * (radix as u128) + (v as u128);
                proof {
                    assert(d.take(i - from + 1).drop_last() =~= d.take(i - from));
                    lemma_prefix_value_bound(d, i - from + 1, radix as nat);
                }
                if next > max as u128 {
                    return None;
                }
                acc = next as u64;
            },
        }
        i = i + 1;
    }
    assert(d.take(n - from) =~= d);
    Some(acc)
}

/// The decimal digit that stands for `d`.
pub open spec fn digit_char(d: nat) -> char {
    (48 + d) as char
}

/// `n` in decimal, without leading zeros.
pub open spec fn decimal(n: nat) -> Seq<char>
    decreases n,
{
    if n < 10 {
        seq![digit_char(n)]
    } else {
        decimal(n / 10).push(digit_char(n % 10))
    }
}

fn decimal_chars(n: u128) -> (r: Vec<char>)
    ensures
        r@ == decimal(n as nat),
    decreases n,
{
    if n < 10 {
        let mut one: Vec<char> = Vec::new();
        one.push((48 + n as u8) as char);
        one
    } else {
        let mut front: Vec<char> = decimal_chars(n / 10);
        front.push((48 + (n % 10) as u8) as char);
        front
    }
}

/// Renders `n` in decimal.
pub fn decimal_text(n: u128) -> (r: String)
    ensures
        r@ == decimal(n as nat),
{
    text_of(decimal_chars(n).as_slice())
}

/// Every character of a decimal rendering is a digit, and the first of several is not a zero.
pub proof fn lemma_decimal_digits(n: nat)
    ensures
        all_digits(decimal(n), 10),
        decimal(n).len() > 1 ==> decimal(n)[0] != '0',
    decreases n,
{
    if n >= 10 {
        lemma_decimal_digits(n / 10);
        if decimal(n / 10).len() == 1 {
            assert(n / 10 < 10) by {
                if n / 10 >= 10 {
                    lemma_decimal_digits(n / 10 / 10);
                }
            }
        }
    }
}

/// Parsing what was rendered gives the number back.
pub proof fn lemma_decimal_parses_back(n: nat, max: nat)
    requires
        n <= max,
    ensures
        parsed(decimal(n), 10, max) == Some(n),
{
    lemma_decimal_digits(n);
    lemma_decimal_value(n);
}

proof fn lemma_decimal_value(n: nat)
    ensures
        digits_value(decimal(n), 10) == n,
    decreases n,
{
    if n < 10 {
        assert(decimal(n).drop_last() =~= Seq::<char>::empty());
        assert(digits_value(decimal(n).drop_last(), 10) == 0);
    } else {
        lemma_decimal_value(n / 10);
        assert(decimal(n).drop_last() =~= decimal(n / 10));
    }
}

/// `n` in hexadecimal, without leading zeros, with its letters in lower case.
pub open spec fn hexadecimal(n: nat) -> Seq<char>
    decreases n,
{
    if n < 10 {
        seq![(48 + n) as char]
    } else if n < 16 {
        seq![(87 + n) as char]
    } else {
        hexadecimal(n / 16) + hexadecimal(n % 16)
    }
}

proof fn lemma_hexadecimal(n: nat)
    ensures
        all_digits(hexadecimal(n), 16),
        digits_value(hexadecimal(n), 16) == n,
        n < 16 ==> hexadecimal(n).len() == 1,
    decreases n,
{
    let s = hexadecimal(n);
    if n < 16 {
        assert(s.drop_last() =~= Seq::<char>::empty());
        assert(digits_value(s.drop_last(), 16) == 0);
    } else {
        lemma_hexadecimal(n / 16);
        lemma_hexadecimal(n % 16);
        let last = hexadecimal(n % 16);
        assert(s.drop_last() =~= hexadecimal(n / 16));
        assert(last.drop_last() =~= Seq::<char>::empty());
        assert(digits_value(last.drop_last(), 16) == 0);
        assert(s.last() == last[0]);
        assert(last.last() == last[0]);
        assert forall|i: int| 0 <= i < s.len() implies digit_value(#[trigger] s[i], 16) is Some by {
            if i < s.len() - 1 {
                assert(s[i] == hexadecimal(n / 16)[i]);
            } else {
                assert(s[i] == last[0]);
            }
        }
    }
}

/// Every number that is not too great is read back from its decimal and from its hexadecimal
/// notation, and no greater one is read as anything. A decimal notation has no leading zeros.
pub proof fn law_numbers_read_back(n: nat, max: nat)
    ensures
        forall|i: int| 0 <= i < decimal(n).len() ==> '0' <= #[trigger] decimal(n)[i] <= '9',
        decimal(n).len() > 1 ==> decimal(n)[0] != '0',
        parsed(decimal(n), 10, max) == if n <= max {
            Some(n)
        } else {
            None
        },
        parsed(hexadecimal(n), 16, max) == if n <= max {
            Some(n)
        } else {
            None
        },
{
    lemma_decimal_digits(n);
    lemma_decimal_value(n);
    lemma_hexadecimal(n);
    assert forall|i: int| 0 <= i < decimal(n).len() implies '0' <= #[trigger] decimal(n)[i] <= '9' by {
        assert(digit_value(decimal(n)[i], 10) is Some);
    }
    assert(digit_value(decimal(n)[0], 10) is Some);
    assert(digit_value(hexadecimal(n)[0], 16) is Some);
}

/// A character is a digit with a value: the ten digits, and beyond them letters in either case.
pub open spec fn stands_for(c: char, d: int) -> bool {
    ||| '0' <= c <= '9' && d == c as int - '0' as int
    ||| 'a' <= c <= 'f' && d == c as int - 'a' as int + 10
    ||| 'A' <= c <= 'F' && d == c as int - 'A' as int + 10
}

/// Digits are positional: one more of them multiplies what the others write and adds its own value.
/// A sign in front changes nothing.
pub proof fn law_digits_are_positional(s: Seq<char>, c: char, d: int, radix: nat, max: nat)
    requires
        2 <= radix <= 16,
        stands_for(c, d),
        d < radix,
    ensures
        d <= max ==> parsed(seq![c], radix, max) == Some(d as nat),
        parsed(s, radix, max) matches Some(n) ==> parsed(s.push(c), radix, max) == if n * radix + d <= max {
            Some((n * radix + d) as nat)
        } else {
            None
        },
        s.len() > 0 && s[0] != '+' ==> parsed(seq!['+'] + s, radix, max) == parsed(s, radix, max),
{
    assert(digit_value(c, radix) == Some(d as nat));
    let one = seq![c];
    assert(one.drop_last() =~= Seq::<char>::empty());
    assert(digits_value(one.drop_last(), radix) == 0);
    assert(unsigned_digits(one) == one);
    assert(all_digits(one, radix));
    assert(digits_value(one, radix) == 0 * radix + d);
    if let Some(n) = parsed(s, radix, max) {
        let t = unsigned_digits(s);
        assert(unsigned_digits(s.push(c)) =~= t.push(c));
        assert(t.push(c).drop_last() =~= t);
        assert forall|i: int| 0 <= i < t.push(c).len() implies digit_value(#[trigger] t.push(c)[i], radix) is Some by {
            if i < t.len() {
                assert(t.push(c)[i] == t[i]);
            }
        }
    }
    assert((seq!['+'] + s).drop_first() =~= s);
}

/// A text that holds anything but digits behind its sign, or no digit at all, is no number.
pub proof fn law_only_digits_are_numbers(s: Seq<char>, i: int, radix: nat, max: nat)
    requires
        2 <= radix <= 16,
    ensures
        parsed(Seq::empty(), radix, max) is None,
        parsed(seq!['+'], radix, max) is None,
        0 <= i < s.len() && (i > 0 || s[0] != '+') && (forall|d: int| 0 <= d < radix ==> !stands_for(s[i], d))
            ==> parsed(s, radix, max) is None,
{
    assert(seq!['+'].drop_first() =~= Seq::<char>::empty());
    if 0 <= i < s.len() && (i > 0 || s[0] != '+') && (forall|d: int| 0 <= d < radix ==> !stands_for(s[i], d)) {
        if let Some(d) = digit_value(s[i], radix) {
            assert(stands_for(s[i], d as int));
        }
        let t = unsigned_digits(s);
        if s[0] == '+' {
            assert(t[i - 1] == s[i]);
        } else {
            assert(t[i] == s[i]);
        }
    }
}

} // verus!
