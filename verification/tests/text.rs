//! Text and numbers.

use notetaker::digits::{decimal_i64, decimal_u64, parse_u32, to_hex};
use notetaker::order::{stable_sort, text_precedes};
use notetaker::text::{
    code_point, concat2, concat3, contains, eq_ignore_ascii_case, is_whitespace, join, same,
    split_on, starts_with,
    string_of, strip_suffix, trim,
};
use notetaker::time::{add_times, centiseconds, clamp_time, sample_at};

#[test]
fn white_space_is_that_of_the_standard_library() {
    for n in 0..=0x10ffffu32 {
        if let Some(c) = char::from_u32(n) {
            assert_eq!(is_whitespace(c), c.is_whitespace(), "{n:x}");
            assert_eq!(code_point(c), n);
        }
    }
}

#[test]
fn trimming_agrees_with_the_standard_library() {
    for s in ["", " ", "a", " a ", "\t\u{a0}x y\u{3000}\n", "\u{2028}\u{205f}", "é ", "\u{85}z"] {
        assert_eq!(trim(s), s.trim());
    }
}

#[test]
fn splitting_agrees_with_the_standard_library() {
    for s in ["", ",", "a", "a,b", ",a,,b,", "é,ü"] {
        let expected: Vec<String> = s.split(',').map(|p| p.to_string()).collect();
        assert_eq!(split_on(s, ','), expected);
    }
}

#[test]
fn searching_agrees_with_the_standard_library() {
    for (s, p) in [("", ""), ("abc", ""), ("abc", "bc"), ("abc", "cb"), ("aab", "ab"), ("a", "ab")] {
        assert_eq!(contains(s, p), s.contains(p));
        assert_eq!(starts_with(s, p), s.starts_with(p));
        assert_eq!(strip_suffix(s, p), s.strip_suffix(p).map(|r| r.to_string()));
    }
}

#[test]
fn texts_are_put_together() {
    assert_eq!(concat2("ab", "c"), "abc");
    assert_eq!(concat3("a", "", "b"), "ab");
    assert_eq!(join(&vec!["a".to_string(), "b".to_string(), "".to_string()], ", "), "a, b, ");
    assert_eq!(join(&vec![], ", "), "");
    assert_eq!(string_of(&vec!['x', 'y', 'z'], 1, 3), "yz");
    assert!(same("a", "a") && !same("a", "b"));
}

#[test]
fn texts_are_ordered_as_strings_are() {
    let words = ["", "A", "B", "a", "ab", "b", "é", "z", "\u{10000}"];
    for a in words {
        for b in words {
            assert_eq!(text_precedes(a, b), a < b, "{a} {b}");
        }
    }
    let mut v: Vec<String> = ["b", "a", "", "ab"].iter().map(|s| s.to_string()).collect();
    stable_sort(&mut v);
    assert_eq!(v, ["", "a", "ab", "b"]);
}

#[test]
fn numbers_are_written_in_decimal() {
    for n in [0, 1, 9, 10, 99, 100, 4096, u64::MAX] {
        assert_eq!(decimal_u64(n), n.to_string());
    }
    for n in [0, -1, 7, -10, i64::MAX, i64::MIN] {
        assert_eq!(decimal_i64(n), n.to_string());
    }
}

#[test]
fn numbers_are_read_as_the_standard_library_reads_them() {
    for s in [
        "", "+", "-", "0", "-0", "+7", "++7", "007", "4294967295", "4294967296",
        "99999999999999999999", " 1", "1 ", "1a", "８",
    ] {
        assert_eq!(parse_u32(s), s.parse::<u32>().ok(), "{s}");
    }
}

#[test]
fn bytes_are_written_in_hexadecimal() {
    assert_eq!(to_hex(&vec![]), "");
    assert_eq!(to_hex(&vec![0, 9, 10, 15, 16, 255]), "00090a0f10ff");
}

#[test]
fn the_case_of_ascii_letters_can_be_ignored() {
    for (a, b) in [("aBc", "AbC"), ("é", "É"), ("a", "ab"), ("@[", "`{"), ("k", "\u{212a}")] {
        assert_eq!(eq_ignore_ascii_case(a, b), a.eq_ignore_ascii_case(b));
    }
}

#[test]
fn times_stay_in_their_range() {
    assert_eq!(centiseconds(123), 1_230_000_000);
    assert_eq!(centiseconds(i64::MAX), i64::MAX);
    assert_eq!(centiseconds(i64::MIN), i64::MIN);
    assert_eq!(add_times(2, -3), -1);
    assert_eq!(add_times(i64::MAX, 1), i64::MAX);
    assert_eq!(clamp_time(i128::MIN), i64::MIN);
}

#[test]
fn times_fall_on_samples() {
    assert_eq!(sample_at(0), 0);
    assert_eq!(sample_at(-1), 0);
    assert_eq!(sample_at(1_000_000_000), 16_000);
    assert_eq!(sample_at(62_499), 0);
    assert_eq!(sample_at(62_500), 1);
    assert_eq!(sample_at(1_230_000_000), 19_680);
}
