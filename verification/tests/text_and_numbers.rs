use phos::{
    chars_of, compare_str, decimal_string, parse_duration, parse_size, parse_u32, read_duration,
    split_str, trim_str, DurationReading, Order,
};

#[test]
fn trim_removes_unicode_white_space_at_both_ends() {
    assert_eq!(trim_str("  a b \t\n"), "a b");
    assert_eq!(trim_str("\u{3000}x\u{2009}"), "x");
    assert_eq!(trim_str(""), "");
    assert_eq!(trim_str("   "), "");
}

#[test]
fn units_are_read_whatever_their_case() {
    assert_eq!(parse_size("3 kib"), Some(3072));
    assert_eq!(parse_size("2mB"), Some(2 * 1024 * 1024));
    assert_eq!(parse_size("7 straße"), Some(7));
    assert_eq!(parse_duration("2H"), Some(7200));
    assert_eq!(parse_duration("3 Days"), Some(3 * 86400));
}

#[test]
fn strings_compare_lexicographically_by_scalar_value() {
    assert_eq!(compare_str("a", "b"), Order::Less);
    assert_eq!(compare_str("b", "a"), Order::Greater);
    assert_eq!(compare_str("ab", "ab"), Order::Equal);
    assert_eq!(compare_str("ab", "abc"), Order::Less);
    assert_eq!(compare_str("Z", "a"), Order::Less);
    assert_eq!(compare_str("é", "z"), Order::Greater);
    assert_eq!(chars_of("héllo"), vec!['h', 'é', 'l', 'l', 'o']);
}

#[test]
fn decimal_text_matches_display() {
    for n in [0u64, 7, 10, 99, 100, 12345, u64::MAX] {
        assert_eq!(decimal_string(n), n.to_string());
    }
}

#[test]
fn split_keeps_empty_pieces() {
    assert_eq!(split_str("root:x:0:0::/root:/bin/sh", ':'), vec!["root", "x", "0", "0", "", "/root", "/bin/sh"]);
    assert_eq!(split_str("", ':'), vec![""]);
    assert_eq!(split_str(":", ':'), vec!["", ""]);
}

#[test]
fn u32_parsing_follows_from_str() {
    for s in ["0", "42", "+7", "4294967295", "4294967296", "", "+", "-1", "12a", " 1", "007"] {
        assert_eq!(parse_u32(s), s.parse::<u32>().ok(), "input {:?}", s);
    }
}

#[test]
fn durations_in_seconds() {
    assert_eq!(parse_duration("30s"), Some(30));
    assert_eq!(parse_duration("5 min"), Some(300));
    assert_eq!(parse_duration(" 2h "), Some(7200));
    assert_eq!(parse_duration("1d"), Some(86400));
    assert_eq!(parse_duration("3Weeks"), Some(3 * 604800));
    assert_eq!(parse_duration("10 SECONDS"), Some(10));
    assert_eq!(parse_duration("1minute"), Some(60));
    assert_eq!(parse_duration("4 hours"), Some(14400));
    assert_eq!(parse_duration("2 days"), Some(172800));
    assert_eq!(parse_duration("1 week"), Some(604800));
}

#[test]
fn durations_that_do_not_parse() {
    assert_eq!(parse_duration(""), None);
    assert_eq!(parse_duration("   "), None);
    assert_eq!(parse_duration("h"), None);
    assert_eq!(parse_duration("10"), None);
    assert_eq!(parse_duration("10 fortnights"), None);
    assert_eq!(parse_duration("1.5h"), None);
    assert_eq!(parse_duration("99999999999999999999s"), None);
}

#[test]
fn durations_beyond_time_delta_are_told_apart() {
    assert!(matches!(read_duration("9223372036854775s"), DurationReading::Seconds(9223372036854775)));
    assert!(matches!(read_duration("9223372036854776s"), DurationReading::OutOfRange));
    assert!(matches!(read_duration("153722867280913m"), DurationReading::OutOfRange));
    assert!(matches!(read_duration("153722867280912m"), DurationReading::Seconds(9223372036854720)));
    assert!(matches!(read_duration("15250284452w"), DurationReading::Seconds(9223372036569600)));
    assert!(matches!(read_duration("15250284453w"), DurationReading::OutOfRange));
    assert!(matches!(read_duration("x"), DurationReading::Invalid));
    assert!(!phos::duration_in_range("9223372036854776 sec"));
    assert!(phos::duration_in_range("nonsense"));
}

#[test]
fn duration_bounds_agree_with_chrono() {
    assert!(chrono::TimeDelta::try_seconds(9223372036854775).is_some());
    assert!(chrono::TimeDelta::try_seconds(9223372036854776).is_none());
    assert!(chrono::TimeDelta::try_weeks(15250284452).is_some());
    assert!(chrono::TimeDelta::try_weeks(15250284453).is_none());
    let min = chrono::NaiveDateTime::MIN.and_utc();
    assert_eq!(min.timestamp(), -8_334_601_228_800);
    let max = chrono::NaiveDateTime::MAX.and_utc();
    assert_eq!(max.timestamp(), 8_210_266_876_799);
    assert_eq!(max.timestamp_subsec_nanos(), 999_999_999);
}
