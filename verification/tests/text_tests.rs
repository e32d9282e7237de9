use butter_patcher::errors::PatchError;
use butter_patcher::events::{LogPayload, PatcherEvent, State};
use butter_patcher::numbers::{i64_to_string, parse_i32, parse_u8, u32_to_string, u64_to_string};
use butter_patcher::text::{contains_crlf, split_lines, str_eq, trim};

#[test]
fn trim_strips_ascii_whitespace_on_both_sides() {
    assert_eq!(trim("  hello \t\r\n"), "hello");
    assert_eq!(trim("no-ws"), "no-ws");
    assert_eq!(trim(" \t "), "");
    assert_eq!(trim(""), "");
    assert_eq!(trim(" inner space kept "), "inner space kept");
}

#[test]
fn split_lines_matches_rusts_lines_semantics() {
    assert_eq!(split_lines("a\nb\n"), vec!["a".to_string(), "b".to_string()]);
    assert_eq!(split_lines("a\r\nb"), vec!["a".to_string(), "b".to_string()]);
    assert_eq!(split_lines("a\n\nb"), vec!["a".to_string(), "".to_string(), "b".to_string()]);
    assert_eq!(split_lines(""), Vec::<String>::new());
    assert_eq!(split_lines("one"), vec!["one".to_string()]);
}

#[test]
fn crlf_detection() {
    assert!(contains_crlf("a\r\nb"));
    assert!(!contains_crlf("a\nb"));
    assert!(!contains_crlf("a\rb"));
    assert!(!contains_crlf(""));
}

#[test]
fn str_eq_is_exact() {
    assert!(str_eq("abc", "abc"));
    assert!(!str_eq("abc", "abd"));
    assert!(!str_eq("abc", "ab"));
    assert!(str_eq("", ""));
}

#[test]
fn decimal_rendering() {
    assert_eq!(u32_to_string(0), "0");
    assert_eq!(u32_to_string(1280), "1280");
    assert_eq!(u64_to_string(18446744073709551615), "18446744073709551615");
    assert_eq!(i64_to_string(-5), "-5");
    assert_eq!(i64_to_string(720), "720");
    assert_eq!(i64_to_string(i64::MIN), "-9223372036854775808");
}

#[test]
fn integer_parsing_matches_std() {
    assert_eq!(parse_i32("123"), Some(123));
    assert_eq!(parse_i32("+7"), Some(7));
    assert_eq!(parse_i32("-42"), Some(-42));
    assert_eq!(parse_i32("-2147483648"), Some(i32::MIN));
    assert_eq!(parse_i32("2147483647"), Some(i32::MAX));
    assert_eq!(parse_i32("2147483648"), None);
    assert_eq!(parse_i32(""), None);
    assert_eq!(parse_i32("+"), None);
    assert_eq!(parse_i32("12a"), None);
    assert_eq!(parse_i32(" 5"), None);

    assert_eq!(parse_u8("0"), Some(0));
    assert_eq!(parse_u8("255"), Some(255));
    assert_eq!(parse_u8("256"), None);
    assert_eq!(parse_u8("-1"), None);
    assert_eq!(parse_u8("+9"), Some(9));
}

#[test]
fn event_payloads_carry_their_fields() {
    let e = PatcherEvent::new(10, 3, State::Downloading);
    assert_eq!(e.total, 10);
    assert_eq!(e.current, 3);
    assert_eq!(e.state, State::Downloading);

    let err = LogPayload::error(PatchError::Network.code());
    assert_eq!(err.level, "error");
    assert_eq!(err.message, "patcher-network-error");
    let warn = LogPayload::warning("be careful");
    assert_eq!(warn.level, "warning");
    assert_eq!(warn.message, "be careful");
}
