use othello_gui::has_unique_elements;
use othello_gui::text::{i64_string, trim_str, u64_string, usize_string};

#[test]
fn decimal_rendering() {
    assert_eq!(u64_string(0), "0");
    assert_eq!(u64_string(7), "7");
    assert_eq!(u64_string(10), "10");
    assert_eq!(u64_string(1234), "1234");
    assert_eq!(u64_string(u64::MAX), "18446744073709551615");
    assert_eq!(usize_string(42), "42");
}

#[test]
fn signed_decimal_rendering() {
    assert_eq!(i64_string(0), "0");
    assert_eq!(i64_string(15), "15");
    assert_eq!(i64_string(-5), "-5");
    assert_eq!(i64_string(i64::MIN), "-9223372036854775808");
}

#[test]
fn trimming() {
    assert_eq!(trim_str("  d3  "), "d3");
    assert_eq!(trim_str("\n\td3\r\n"), "d3");
    assert_eq!(trim_str(""), "");
    assert_eq!(trim_str(" \t\r\n"), "");
    assert_eq!(trim_str("a b"), "a b");
}

#[test]
fn uniqueness_check() {
    let unique = vec!["a".to_string(), "b".to_string(), "c".to_string()];
    assert!(has_unique_elements(&unique));
    let dup = vec!["a".to_string(), "b".to_string(), "a".to_string()];
    assert!(!has_unique_elements(&dup));
    let empty: Vec<String> = Vec::new();
    assert!(has_unique_elements(&empty));
}
