use lynx_monitor::text::{decimal_string, parse_u32, split_whitespace, str_starts_with};

#[test]
fn split_whitespace_uses_unicode_white_space() {
    let t = split_whitespace("  a\tb \u{a0}c\r\n\u{3000}d ");
    assert_eq!(t, vec!["a", "b", "c", "d"]);
    assert!(split_whitespace("").is_empty());
    assert!(split_whitespace(" \t\n").is_empty());
}

#[test]
fn split_whitespace_keeps_other_characters() {
    let t = split_whitespace("x\u{1c}y é");
    assert_eq!(t, vec!["x\u{1c}y", "é"]);
}

#[test]
fn parse_u32_reads_as_str_parse() {
    assert_eq!(parse_u32("42"), Some(42));
    assert_eq!(parse_u32("+42"), Some(42));
    assert_eq!(parse_u32("007"), Some(7));
    assert_eq!(parse_u32("4294967295"), Some(u32::MAX));
    assert_eq!(parse_u32("4294967296"), None);
    assert_eq!(parse_u32("-1"), None);
    assert_eq!(parse_u32("-0"), None);
    assert_eq!(parse_u32(""), None);
    assert_eq!(parse_u32("+"), None);
    assert_eq!(parse_u32("++1"), None);
    assert_eq!(parse_u32(" 1"), None);
    assert_eq!(parse_u32("1a"), None);
    for s in ["0", "12", "+3", "99999999999", "x", "3 "] {
        assert_eq!(parse_u32(s), s.parse::<u32>().ok());
    }
}

#[test]
fn starts_with_matches_str_starts_with() {
    assert!(str_starts_with("thermal_zone0", "thermal_zone"));
    assert!(!str_starts_with("cooling_device0", "thermal_zone"));
    assert!(str_starts_with("abc", ""));
    assert!(!str_starts_with("ab", "abc"));
}

#[test]
fn decimal_string_writes_base_ten() {
    assert_eq!(decimal_string(0), "0");
    assert_eq!(decimal_string(7), "7");
    assert_eq!(decimal_string(1000), "1000");
    assert_eq!(decimal_string(u64::MAX), u64::MAX.to_string());
}
