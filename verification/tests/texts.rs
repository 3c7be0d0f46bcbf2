//! Text, numbers, addresses and spans of time.

use mzani::addr::format_addr;
use mzani::clock::{now, utc_timestamp_ms, whole_millis, whole_seconds};
use mzani::number::{decimal_text, parse_unsigned};
use mzani::text::{
    bytes_of, chars_of, eq_ignore_ascii_case, find_char, find_subslice, is_whitespace, nth_word, same_text, split_crlf,
    take_before, text_of, to_ascii_lower, trim,
};
use mzani::{Duration, MzaniError, MzaniResult, SocketAddr};

fn chars(text: &str) -> Vec<char> {
    text.chars().collect()
}

#[test]
fn white_space_is_that_of_the_standard_library() {
    for code in 0..=0x10_ffffu32 {
        if let Some(c) = char::from_u32(code) {
            assert_eq!(is_whitespace(c), c.is_whitespace(), "{code:x}");
            assert_eq!(to_ascii_lower(c), c.to_ascii_lowercase(), "{code:x}");
        }
    }
}

#[test]
fn trimming_and_words_are_those_of_the_standard_library() {
    for text in ["", " ", "a", " a", "a ", "\t a b \n", "\u{3000}wide\u{2003}words \u{85}", "  one  two   three "] {
        let all = chars(text);
        assert_eq!(text_of(&trim(&all)), text.trim());
        for k in 0..5 {
            let word = nth_word(&all, k).map(|word| text_of(&word));
            assert_eq!(word.as_deref(), text.split_whitespace().nth(k));
        }
    }
}

#[test]
fn lines_end_with_carriage_return_and_line_feed() {
    for text in ["", "a", "a\r\nb", "\r\n", "a\r\n\r\nb\r\n", "a\nb\r", "\r\r\n\n"] {
        let lines: Vec<String> = split_crlf(&chars(text)).iter().map(|line| text_of(line)).collect();
        let expected: Vec<&str> = text.split("\r\n").collect();
        assert_eq!(lines, expected);
    }
}

#[test]
fn searching_finds_the_first_occurrence() {
    assert_eq!(find_subslice(b"aXbXc", b"X"), Some(1));
    assert_eq!(find_subslice(b"aab", b"ab"), Some(1));
    assert_eq!(find_subslice(b"abc", b"abcd"), None);
    assert_eq!(find_subslice(b"", b"a"), None);
    assert_eq!(find_char(&chars("a:b:c"), ':'), Some(1));
    assert_eq!(find_char(&chars("abc"), ':'), None);
    assert_eq!(text_of(&take_before(&chars("a?b?c"), '?')), "a");
    assert_eq!(text_of(&take_before(&chars("abc"), '?')), "abc");
}

#[test]
fn comparing_ignores_ascii_case_only() {
    assert!(eq_ignore_ascii_case("Content-LENGTH", "content-length"));
    assert!(!eq_ignore_ascii_case("content-length", "content-lengths"));
    assert!(!eq_ignore_ascii_case("\u{c4}", "\u{e4}"));
    assert!(same_text("a", "a"));
    assert!(!same_text("a", "A"));
}

#[test]
fn texts_become_characters_and_bytes() {
    let text = "h\u{e9}llo \u{1f600}";
    assert_eq!(chars_of(text), chars(text));
    assert_eq!(text_of(&chars(text)), text);
    assert_eq!(bytes_of(text), text.as_bytes().to_vec());
}

#[test]
fn numbers_are_read_as_the_standard_library_reads_them() {
    for text in [
        "", "0", "00", "+5", "+", "-1", "65535", "65536", "18446744073709551615", "18446744073709551616", "1 ", "1a",
        "++1", "\u{661}",
    ] {
        assert_eq!(parse_unsigned(&chars(text), 10, u16::MAX as u64), text.parse::<u16>().ok().map(u64::from), "{text}");
        assert_eq!(parse_unsigned(&chars(text), 10, u64::MAX), text.parse::<u64>().ok(), "{text}");
    }
    for text in ["ff", "FF", "fg", "+a", "ffffffffffffffff", "10000000000000000"] {
        assert_eq!(parse_unsigned(&chars(text), 16, u64::MAX), u64::from_str_radix(text, 16).ok(), "{text}");
    }
}

#[test]
fn numbers_are_shown_in_decimal() {
    for n in [0, 7, 10, 99, 100, 4096, u64::MAX as u128, u128::MAX] {
        assert_eq!(decimal_text(n), format!("{n}"));
    }
}

#[test]
fn addresses_are_shown_as_usual() {
    assert_eq!(format_addr(SocketAddr::v4(10, 0, 200, 255, 8080)), "10.0.200.255:8080");
    assert_eq!(format_addr(SocketAddr::localhost(0)), "127.0.0.1:0");
    let six = |ip6: u128, scope_id: u32| format_addr(SocketAddr::V6 { ip6, port: 80, flowinfo: 0, scope_id });
    assert_eq!(six(0, 0), "[::]:80");
    assert_eq!(six(1, 0), "[::1]:80");
    assert_eq!(six(1, 4), "[::1%4]:80");
    assert_eq!(six(0x2001_0db8_0000_0000_0001_0000_0000_0001, 0), "[2001:db8::1:0:0:1]:80");
    assert_eq!(six(0x2001_0db8_0000_0001_0001_0001_0001_0001, 0), "[2001:db8:0:1:1:1:1:1]:80");
    assert_eq!(six(0xfe80_0000_0000_0000_0000_0000_0000_0000, 0), "[fe80::]:80");
    assert_eq!(six(0x0000_0000_0000_0000_0000_ffff_c0a8_0001, 0), "[::ffff:192.168.0.1]:80");
}

#[test]
fn spans_add_up_and_stop_at_zero() {
    let span = Duration::new(3, 250_000_000);
    assert_eq!(span.as_secs(), 3);
    assert_eq!(span.subsec_nanos(), 250_000_000);
    assert_eq!(span.as_millis(), 3250);
    assert_eq!(span.checked_add(Duration::from_millis(750)), Some(Duration::from_secs(4)));
    assert_eq!(span.saturating_sub(Duration::from_secs(4)), Duration::zero());
    assert_eq!(span.saturating_sub(Duration::from_secs(3)), Duration::from_millis(250));
    assert_eq!(span.divided(13), Duration::from_millis(250));
    assert!(span.at_least(span));
    assert!(!span.at_least(Duration::from_secs(4)));
    assert!(Duration::zero().is_zero());
    assert!(!span.is_zero());
    let longest = Duration::new(u64::MAX, 999_999_999);
    assert_eq!(longest.checked_add(Duration::new(0, 1)), None);
    assert_eq!(longest.checked_add(Duration::zero()), Some(longest));
}

#[test]
fn the_clock_counts_from_the_epoch() -> MzaniResult<()> {
    assert_eq!(whole_seconds(Some((12, 999_999_999))), Ok(12));
    assert_eq!(whole_seconds(None), Err(MzaniError::InvalidTimestamp));
    assert_eq!(whole_millis(Some((12, 345_678_901))), Ok(12_345));
    assert_eq!(whole_millis(None), Err(MzaniError::InvalidTimestamp));
    let seconds = now()?;
    let millis = utc_timestamp_ms()?;
    assert!(seconds > 1_600_000_000);
    assert!(millis >= u128::from(seconds) * 1000);
    assert!(millis < u128::from(seconds) * 1000 + 60_000);
    Ok(())
}
