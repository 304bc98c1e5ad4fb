use inference_bench::text::{
    chars_of, comes_before, contains, decimal_string, is_white_space, join, parse_count, trim,
};

#[test]
fn white_space_is_that_of_unicode() {
    for u in 0..=0x10ffffu32 {
        if let Some(c) = char::from_u32(u) {
            assert_eq!(is_white_space(c), c.is_whitespace(), "{u:x}");
        }
    }
}

#[test]
fn strings_order_like_rust_strings() {
    let all = ["", "a", "ab", "b", "B", "t9", "t10", "é", "\u{d7ff}", "\u{e000}", "\u{10ffff}"];
    for a in all {
        for b in all {
            assert_eq!(comes_before(a, b), a < b, "{a} {b}");
        }
    }
}

#[test]
fn decimals_are_written_like_rust_integers() {
    for n in [0u64, 7, 10, 99, 100, 1_700_000_000, u64::MAX] {
        assert_eq!(decimal_string(n), n.to_string());
    }
}

#[test]
fn counts_parse_like_rust_integers() {
    for s in [
        "", "+", "-", "0", "+0", "007", "12", "+12", "-1", " 3", "3 ", "3.0", "1e3", "++1", "1+",
        "18446744073709551615", "18446744073709551616", "99999999999999999999999", "٣",
    ] {
        assert_eq!(parse_count(s), s.parse::<usize>().ok(), "{s}");
    }
}

#[test]
fn trimming_matches_rust() {
    for s in ["", " ", " a ", "\t a b\u{3000}\n", "x", "\u{a0}x\u{85}", "\r\n"] {
        assert_eq!(trim(s), s.trim());
    }
}

#[test]
fn searching_matches_rust() {
    let all = ["", "a", "aab", "AC Power", "Now drawing from 'AC Power'", "AC Powe", "ac power"];
    for s in all {
        for p in ["", "a", "ab", "AC Power"] {
            assert_eq!(contains(s, p), s.contains(p), "{s} {p}");
        }
    }
}

#[test]
fn joining_matches_rust() {
    let none: Vec<String> = Vec::new();
    assert_eq!(join(&none, " vs "), "");
    let one = vec!["x".to_string()];
    assert_eq!(join(&one, " vs "), "x");
    let three = vec!["a".to_string(), "".to_string(), "c".to_string()];
    assert_eq!(join(&three, " vs "), "a vs  vs c");
}

#[test]
fn characters_survive() {
    assert_eq!(chars_of("aé\u{1f600}"), vec!['a', 'é', '\u{1f600}']);
}
