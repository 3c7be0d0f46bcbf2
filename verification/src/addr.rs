//! Socket addresses and their text form.

use vstd::prelude::*;

use crate::number::{decimal, decimal_text, hexadecimal};

verus! {

/// An IP address and port, with addresses as numbers in network order.
#[derive(Debug, Clone, Copy, PartialEq, Eq, Structural)]
pub enum SocketAddr {
    /// An IPv4 endpoint.
    V4 { ip: u32, port: u16 },
    /// An IPv6 endpoint.
    V6 { ip6: u128, port: u16, flowinfo: u32, scope_id: u32 },
}

/// `127.0.0.1` as a number.
pub const LOCALHOST: u32 = 0x7f00_0001;

impl SocketAddr {
    /// The endpoint with the given IPv4 address and port.
    #[must_use]
    pub fn v4(a: u8, b: u8, c: u8, d: u8, port: u16) -> (r: SocketAddr)
        ensures
            r == (SocketAddr::V4 {
                ip: (a * 0x100_0000 + b * 0x1_0000 + c * 0x100 + d) as u32,
                port,
            }),
    {
        SocketAddr::V4 {
            ip: a as u32 * 0x100_0000 + b as u32 * 0x1_0000 + c as u32 * 0x100 + d as u32,
            port,
        }
    }

    /// The endpoint on the local host with the given port.
    #[must_use]
    pub fn localhost(port: u16) -> (r: SocketAddr)
        ensures
            r == (SocketAddr::V4 { ip: LOCALHOST, port }),
    {
        SocketAddr::V4 { ip: LOCALHOST, port }
    }
}

/// An IPv4 address in dotted decimal.
pub open spec fn dotted(ip: nat) -> Seq<char> {
    decimal(ip / 0x100_0000 % 0x100) + "."@ + decimal(ip / 0x1_0000 % 0x100) + "."@ + decimal(
        ip / 0x100 % 0x100,
    ) + "."@ + decimal(ip % 0x100)
}

fn dotted_text(ip: u32) -> (r: String)
    ensures
        r@ == dotted(ip as nat),
{
    let mut out: String = decimal_text((ip / 0x100_0000 % 0x100) as u128);
    out.append(".");
    out.append(decimal_text((ip / 0x1_0000 % 0x100) as u128).as_str());
    out.append(".");
    out.append(decimal_text((ip / 0x100 % 0x100) as u128).as_str());
    out.append(".");
    out.append(decimal_text((ip % 0x100) as u128).as_str());
    out
}

/// The lower-case hexadecimal digit that stands for `d`.
pub open spec fn hex_char(d: nat) -> char {
    if d < 10 {
        (48 + d) as char
    } else {
        (87 + d) as char
    }
}

/// `n` in lower-case hexadecimal, without leading zeros.
pub open spec fn hex(n: nat) -> Seq<char>
    decreases n,
{
    if n < 16 {
        seq![hex_char(n)]
    } else {
        hex(n / 16).push(hex_char(n % 16))
    }
}

fn hex_text(n: u16) -> (r: String)
    ensures
        r@ == hex(n as nat),
    decreases n,
{
    let d: u8 = (n % 16) as u8;
    let c: char = if d < 10 {
        (48 + d) as char
    } else {
        (87 + d) as char
    };
    let mut out: String = if n < 16 {
        String::new()
    } else {
        hex_text(n / 16)
    };
    out.push(c);
    assert(n < 16 ==> out@ =~= hex(n as nat));
    out
}

/// Two to the sixteenth, `k` times multiplied.
pub open spec fn segment_unit(k: nat) -> nat
    decreases k,
{
    if k == 0 {
        1
    } else {
        0x1_0000 * segment_unit((k - 1) as nat)
    }
}

/// The eight sixteen-bit segments of an IPv6 address, the most significant first.
pub open spec fn segments(ip: nat) -> Seq<u16> {
    Seq::new(8, |i: int| (ip / segment_unit((7 - i) as nat) % 0x1_0000) as u16)
}

fn segments_of(ip: u128) -> (r: Vec<u16>)
    ensures
        r@ == segments(ip as nat),
{
    let mut out: Vec<u16> = Vec::new();
    out.push((ip / 0x1_0000_0000_0000_0000_0000_0000_0000 % 0x1_0000) as u16);
    out.push((ip / 0x1_0000_0000_0000_0000_0000_0000 % 0x1_0000) as u16);
    out.push((ip / 0x1_0000_0000_0000_0000_0000 % 0x1_0000) as u16);
    out.push((ip / 0x1_0000_0000_0000_0000 % 0x1_0000) as u16);
    out.push((ip / 0x1_0000_0000_0000 % 0x1_0000) as u16);
    out.push((ip / 0x1_0000_0000 % 0x1_0000) as u16);
    out.push((ip / 0x1_0000 % 0x1_0000) as u16);
    out.push((ip % 0x1_0000) as u16);
    proof {
        assert(segment_unit(0) == 1);
        assert(segment_unit(1) == 0x1_0000);
        assert(segment_unit(2) == 0x1_0000_0000);
        assert(segment_unit(3) == 0x1_0000_0000_0000);
        assert(segment_unit(4) == 0x1_0000_0000_0000_0000);
        assert(segment_unit(5) == 0x1_0000_0000_0000_0000_0000);
        assert(segment_unit(6) == 0x1_0000_0000_0000_0000_0000_0000);
        assert(segment_unit(7) == 0x1_0000_0000_0000_0000_0000_0000_0000);
        let segs = segments(ip as nat);
        assert(segs[0] == out@[0]);
        assert(segs[1] == out@[1]);
        assert(segs[2] == out@[2]);
        assert(segs[3] == out@[3]);
        assert(segs[4] == out@[4]);
        assert(segs[5] == out@[5]);
        assert(segs[6] == out@[6]);
        assert(ip as nat / segment_unit(0) == ip as nat);
        assert(segs[7] == out@[7]);
        assert(out@ =~= segs);
    }
    out
}

/// How many segments from `i` on are zero.
pub open spec fn zero_run(segs: Seq<u16>, i: int) -> nat
    decreases segs.len() - i,
{
    if 0 <= i < segs.len() && segs[i] == 0 {
        1 + zero_run(segs, i + 1)
    } else {
        0
    }
}

/// The longest run of zero segments starts at `i`, and no earlier run is as long.
pub open spec fn longest_run_at(segs: Seq<u16>, i: int) -> bool {
    &&& 0 <= i < segs.len()
    &&& forall|j: int| 0 <= j < segs.len() ==> #[trigger] zero_run(segs, j) <= zero_run(segs, i)
    &&& forall|j: int| 0 <= j < i ==> #[trigger] zero_run(segs, j) < zero_run(segs, i)
}

/// Segments in hexadecimal, with colons between them.
pub open spec fn colon_joined(segs: Seq<u16>) -> Seq<char>
    decreases segs.len(),
{
    if segs.len() == 0 {
        Seq::empty()
    } else if segs.len() == 1 {
        hex(segs[0] as nat)
    } else {
        colon_joined(segs.drop_last()) + ":"@ + hex(segs.last() as nat)
    }
}

/// The text of an IPv6 address: IPv4-mapped addresses end in dotted decimal; of any other, the
/// first of the longest runs of two or more zero segments is written as two colons.
pub open spec fn ipv6_text(ip: nat) -> Seq<char> {
    let segs = segments(ip);
    let start = choose|i: int| longest_run_at(segs, i);
    let run = zero_run(segs, start) as int;
    if ip / 0x1_0000_0000 == 0xffff {
        "::ffff:"@ + dotted(ip % 0x1_0000_0000)
    } else if run > 1 {
        colon_joined(segs.take(start)) + "::"@ + colon_joined(segs.skip(start + run))
    } else {
        colon_joined(segs)
    }
}

fn joined_text(segs: &[u16]) -> (r: String)
    ensures
        r@ == colon_joined(segs@),
{
    let mut out: String = String::new();
    let mut i: usize = 0;
    while i < segs.len()
        invariant
            i <= segs@.len(),
            out@ == colon_joined(segs@.take(i as int)),
        decreases segs@.len() - i,
    {
        if i > 0 {
            out.append(":");
        }
        out.append(hex_text(segs[i]).as_str());
        proof {
            assert(segs@.take(i + 1).drop_last() =~= segs@.take(i as int));
            if i == 0 {
                assert(out@ =~= hex(segs@[0] as nat));
            }
        }
        i = i + 1;
    }
    assert(segs@.take(i as int) =~= segs@);
    out
}

fn longest_run(segs: &[u16]) -> (r: (usize, usize))
    requires
        segs@.len() == 8,
    ensures
        longest_run_at(segs@, r.0 as int),
        r.1 == zero_run(segs@, r.0 as int),
        r.0 + r.1 <= 8,
{
    let mut i: usize = 8;
    let mut current: usize = 0;
    let mut start: usize = 8;
    let mut longest: usize = 0;
    while i > 0
        invariant
            segs@.len() == 8,
            i <= 8,
            i <= start <= 8,
            start < 8 || i == 8,
            current == zero_run(segs@, i as int),
            i + current <= 8,
            longest == zero_run(segs@, start as int),
            start + longest <= 8,
            forall|j: int| i <= j < 8 ==> #[trigger] zero_run(segs@, j) <= longest,
            forall|j: int| i <= j < start ==> #[trigger] zero_run(segs@, j) < longest,
        decreases i,
    {
        i = i - 1;
        if segs[i] == 0 {
            current = current + 1;
        } else {
            current = 0;
        }
        if current >= longest {
            start = i;
            longest = current;
        }
    }
    (start, longest)
}

proof fn lemma_longest_run_unique(segs: Seq<u16>, i: int, j: int)
    requires
        longest_run_at(segs, i),
        longest_run_at(segs, j),
    ensures
        i == j,
{
    if i < j {
        assert(zero_run(segs, i) < zero_run(segs, j));
    } else if j < i {
        assert(zero_run(segs, j) < zero_run(segs, i));
    }
}

fn ipv6_string(ip: u128) -> (r: String)
    ensures
        r@ == ipv6_text(ip as nat),
{
    if ip / 0x1_0000_0000 == 0xffff {
        let mut out: String = "::ffff:".to_owned();
        out.append(dotted_text((ip % 0x1_0000_0000) as u32).as_str());
        return out;
    }
    let segs: Vec<u16> = segments_of(ip);
    let run: (usize, usize) = longest_run(segs.as_slice());
    proof {
        let chosen = choose|i: int| longest_run_at(segs@, i);
        lemma_longest_run_unique(segs@, chosen, run.0 as int);
    }
    if run.1 > 1 {
        let mut out: String = joined_text(vstd::slice::slice_subrange(segs.as_slice(), 0, run.0));
        out.append("::");
        out.append(
            joined_text(vstd::slice::slice_subrange(segs.as_slice(), run.0 + run.1, 8)).as_str(),
        );
        out
    } else {
        joined_text(segs.as_slice())
    }
}

/// The text of a socket address.
pub open spec fn addr_text(addr: SocketAddr) -> Seq<char> {
    match addr {
        SocketAddr::V4 { ip, port } => dotted(ip as nat) + ":"@ + decimal(port as nat),
        SocketAddr::V6 { ip6, port, flowinfo: _, scope_id } => if scope_id == 0 {
            "["@ + ipv6_text(ip6 as nat) + "]:"@ + decimal(port as nat)
        } else {
            "["@ + ipv6_text(ip6 as nat) + "%"@ + decimal(scope_id as nat) + "]:"@ + decimal(port as nat)
        },
    }
}

/// Formats a socket address for log fields.
#[must_use]
pub fn format_addr(addr: SocketAddr) -> (r: String)
    ensures
        r@ == addr_text(addr),
{
    match addr {
        SocketAddr::V4 { ip, port } => {
            let mut out: String = dotted_text(ip);
            out.append(":");
            out.append(decimal_text(port as u128).as_str());
            out
        },
        SocketAddr::V6 { ip6, port, flowinfo: _, scope_id } => {
            let mut out: String = "[".to_owned();
            out.append(ipv6_string(ip6).as_str());
            if scope_id != 0 {
                out.append("%");
                out.append(decimal_text(scope_id as u128).as_str());
            }
            out.append("]:");
            out.append(decimal_text(port as u128).as_str());
            out
        },
    }
}

/// An IPv4 endpoint is written as its four bytes in decimal, with dots between them, and its port.
pub proof fn law_v4_text(a: u8, b: u8, c: u8, d: u8, port: u16)
    ensures
        addr_text(
            SocketAddr::V4 { ip: (a * 0x100_0000 + b * 0x1_0000 + c * 0x100 + d) as u32, port },
        ) == decimal(a as nat) + seq!['.'] + decimal(b as nat) + seq!['.'] + decimal(c as nat) + seq!['.'] + decimal(
            d as nat,
        ) + seq![':'] + decimal(port as nat),
{
    reveal_strlit(".");
    reveal_strlit(":");
    assert("."@ =~= seq!['.']);
    assert(":"@ =~= seq![':']);
    let ip: nat = (a * 0x100_0000 + b * 0x1_0000 + c * 0x100 + d) as nat;
    assert(ip / 0x100_0000 % 0x100 == a);
    assert(ip / 0x1_0000 % 0x100 == b);
    assert(ip / 0x100 % 0x100 == c);
    assert(ip % 0x100 == d);
}

/// Segments are written in hexadecimal.
pub proof fn law_segments_are_hexadecimal(n: nat)
    ensures
        hex(n) == hexadecimal(n),
    decreases n,
{
    if n < 16 {
        assert(hex(n) =~= hexadecimal(n));
    } else {
        law_segments_are_hexadecimal(n / 16);
        law_segments_are_hexadecimal(n % 16);
        assert(hex(n) =~= hexadecimal(n));
    }
}

/// Segments are joined by colons.
pub proof fn law_segments_are_joined(segs: Seq<u16>, last: u16)
    ensures
        colon_joined(Seq::empty()) == Seq::<char>::empty(),
        colon_joined(seq![last]) == hexadecimal(last as nat),
        segs.len() > 0 ==> colon_joined(segs.push(last)) == colon_joined(segs) + seq![':'] + hexadecimal(last as nat),
{
    reveal_strlit(":");
    assert(":"@ =~= seq![':']);
    law_segments_are_hexadecimal(last as nat);
    assert(segs.push(last).drop_last() =~= segs);
}

/// The eight segments of an address, of which it is made up.
pub open spec fn made_of(ip: nat, s: Seq<u16>) -> bool {
    &&& s.len() == 8
    &&& ip == (((((((s[0] * 0x1_0000 + s[1]) * 0x1_0000 + s[2]) * 0x1_0000 + s[3]) * 0x1_0000 + s[4]) * 0x1_0000
        + s[5]) * 0x1_0000 + s[6]) * 0x1_0000 + s[7])
}

proof fn lemma_halves(n: nat, m: nat, low: nat)
    requires
        n == m * 0x1_0000 + low,
        low < 0x1_0000,
    ensures
        n / 0x1_0000 == m,
        n % 0x1_0000 == low,
{
}

proof fn lemma_divide_twice(ip: nat, unit: nat)
    requires
        unit > 0,
    ensures
        ip / (0x1_0000 * unit) == (ip / 0x1_0000) / unit,
{
    vstd::arithmetic::div_mod::lemma_div_denominator(ip as int, 0x1_0000, unit as int);
}

proof fn lemma_segment_step(ip: nat, k: nat)
    requires
        k > 0,
    ensures
        segment_unit(k) > 0,
        ip / segment_unit(k) == (ip / 0x1_0000) / segment_unit((k - 1) as nat),
    decreases k,
{
    if k > 1 {
        lemma_segment_step(ip, (k - 1) as nat);
    } else {
        assert(segment_unit(0) == 1);
    }
    lemma_divide_twice(ip, segment_unit((k - 1) as nat));
}

proof fn lemma_segments(ip: nat, s: Seq<u16>)
    requires
        made_of(ip, s),
    ensures
        segments(ip) == s,
{
    let p0 = s[0] as nat;
    let p1 = p0 * 0x1_0000 + s[1] as nat;
    let p2 = p1 * 0x1_0000 + s[2] as nat;
    let p3 = p2 * 0x1_0000 + s[3] as nat;
    let p4 = p3 * 0x1_0000 + s[4] as nat;
    let p5 = p4 * 0x1_0000 + s[5] as nat;
    let p6 = p5 * 0x1_0000 + s[6] as nat;
    assert(ip == p6 * 0x1_0000 + s[7] as nat);
    lemma_halves(ip, p6, s[7] as nat);
    lemma_halves(p6, p5, s[6] as nat);
    lemma_halves(p5, p4, s[5] as nat);
    lemma_halves(p4, p3, s[4] as nat);
    lemma_halves(p3, p2, s[3] as nat);
    lemma_halves(p2, p1, s[2] as nat);
    lemma_halves(p1, p0, s[1] as nat);
    assert(segment_unit(0) == 1);
    assert(ip / 1 == ip);
    lemma_segment_step(ip, 1);
    lemma_segment_step(ip, 2);
    lemma_segment_step(p6, 1);
    lemma_segment_step(ip, 3);
    lemma_segment_step(p6, 2);
    lemma_segment_step(p5, 1);
    lemma_segment_step(ip, 4);
    lemma_segment_step(p6, 3);
    lemma_segment_step(p5, 2);
    lemma_segment_step(p4, 1);
    lemma_segment_step(ip, 5);
    lemma_segment_step(p6, 4);
    lemma_segment_step(p5, 3);
    lemma_segment_step(p4, 2);
    lemma_segment_step(p3, 1);
    lemma_segment_step(ip, 6);
    lemma_segment_step(p6, 5);
    lemma_segment_step(p5, 4);
    lemma_segment_step(p4, 3);
    lemma_segment_step(p3, 2);
    lemma_segment_step(p2, 1);
    lemma_segment_step(ip, 7);
    lemma_segment_step(p6, 6);
    lemma_segment_step(p5, 5);
    lemma_segment_step(p4, 4);
    lemma_segment_step(p3, 3);
    lemma_segment_step(p2, 2);
    lemma_segment_step(p1, 1);
    let segs = segments(ip);
    assert(segs[7] == s[7]);
    assert(segs[6] == s[6]);
    assert(segs[5] == s[5]);
    assert(segs[4] == s[4]);
    assert(segs[3] == s[3]);
    assert(segs[2] == s[2]);
    assert(segs[1] == s[1]);
    assert(p0 / 1 == p0);
    assert(segs[0] == s[0]);
    assert(segs =~= s);
}

/// From `i` on exactly `n` segments are zero.
pub open spec fn zeros_at(s: Seq<u16>, i: int, n: int) -> bool {
    &&& 0 <= i && 0 <= n && i + n <= s.len()
    &&& forall|j: int| i <= j < i + n ==> #[trigger] s[j] == 0
    &&& i + n < s.len() ==> s[i + n] != 0
}

proof fn lemma_zero_run(s: Seq<u16>, i: int, n: int)
    requires
        zeros_at(s, i, n),
    ensures
        zero_run(s, i) == n,
    decreases n,
{
    if n > 0 {
        assert(s[i] == 0);
        lemma_zero_run(s, i + 1, n - 1);
    } else if i < s.len() {
        assert(s[i] != 0);
    }
}

proof fn lemma_some_zeros(s: Seq<u16>, i: int) -> (n: int)
    requires
        0 <= i <= s.len(),
    ensures
        zeros_at(s, i, n),
    decreases s.len() - i,
{
    if i < s.len() && s[i] == 0 {
        lemma_some_zeros(s, i + 1) + 1
    } else {
        0
    }
}

/// An IPv6 endpoint is written as its eight segments with colons between them, in brackets, with its
/// scope where it has one, and its port. The first of the longest runs of two or more zero segments is
/// written as two colons; an address that stands for an IPv4 one ends like that.
pub proof fn law_v6_text(ip6: u128, s: Seq<u16>, port: u16, flowinfo: u32, scope_id: u32, i: int, n: int)
    requires
        made_of(ip6 as nat, s),
        zeros_at(s, i, n),
        i < 8,
        forall|j: int, m: int| #[trigger] zeros_at(s, j, m) && 0 <= j < 8 ==> m <= n,
        forall|j: int, m: int| #[trigger] zeros_at(s, j, m) && 0 <= j < i ==> m < n,
    ensures
        ({
            let shown = if ip6 / 0x1_0000_0000 == 0xffff {
                "::ffff:"@ + dotted((ip6 % 0x1_0000_0000) as nat)
            } else if n > 1 {
                colon_joined(s.take(i)) + seq![':', ':'] + colon_joined(s.skip(i + n))
            } else {
                colon_joined(s)
            };
            let scope = if scope_id == 0 {
                Seq::<char>::empty()
            } else {
                seq!['%'] + decimal(scope_id as nat)
            };
            addr_text(SocketAddr::V6 { ip6, port, flowinfo, scope_id }) == seq!['['] + shown + scope + seq![
                ']',
                ':',
            ] + decimal(port as nat)
        }),
{
    reveal_strlit("[");
    reveal_strlit("]:");
    reveal_strlit("%");
    reveal_strlit("::");
    assert("["@ =~= seq!['[']);
    assert("]:"@ =~= seq![']', ':']);
    assert("%"@ =~= seq!['%']);
    assert("::"@ =~= seq![':', ':']);
    lemma_segments(ip6 as nat, s);
    lemma_zero_run(s, i, n);
    assert(longest_run_at(s, i)) by {
        assert forall|j: int| 0 <= j < s.len() implies #[trigger] zero_run(s, j) <= zero_run(s, i) by {
            let m = lemma_some_zeros(s, j);
            lemma_zero_run(s, j, m);
        }
        assert forall|j: int| 0 <= j < i implies #[trigger] zero_run(s, j) < zero_run(s, i) by {
            let m = lemma_some_zeros(s, j);
            lemma_zero_run(s, j, m);
        }
    }
    let chosen = choose|k: int| longest_run_at(s, k);
    lemma_longest_run_unique(s, chosen, i);
    let text = ipv6_text(ip6 as nat);
    let none = Seq::<char>::empty();
    if scope_id == 0 {
        assert(seq!['['] + text + none + seq![']', ':'] + decimal(port as nat) =~= seq!['['] + text + seq![
            ']',
            ':',
        ] + decimal(port as nat));
    } else {
        assert(seq!['['] + text + (seq!['%'] + decimal(scope_id as nat)) + seq![']', ':'] + decimal(port as nat)
            =~= seq!['['] + text + seq!['%'] + decimal(scope_id as nat) + seq![']', ':'] + decimal(port as nat));
    }
}

} // verus!
