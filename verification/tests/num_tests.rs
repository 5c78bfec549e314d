use memstore::num::format_i64;
use memstore::num::format_u128;
use memstore::num::parse_i64;
use memstore::num::parse_u128;
use memstore::num::parse_usize;

fn chars(s: &str) -> Vec<char> {
    s.chars().collect()
}

fn string_of(v: Vec<char>) -> String {
    v.into_iter().collect()
}

#[test]
fn parse_u128_matches_std() {
    let cases = [
        "", "0", "1", "42", "+42", "007", "-1", "+", "x", "4 2", " 42", "42 ",
        "340282366920938463463374607431768211455",
        "340282366920938463463374607431768211456",
        "999999999999999999999999999999999999999999",
    ];
    for s in cases {
        assert_eq!(parse_u128(&chars(s)), s.parse::<u128>().ok(), "mismatch for {s:?}");
    }
}

#[test]
fn parse_i64_matches_std() {
    let cases = [
        "", "0", "1", "-1", "+1", "-0", "9223372036854775807", "9223372036854775808",
        "-9223372036854775808", "-9223372036854775809", "--5", "+-5", "5-", "abc",
    ];
    for s in cases {
        assert_eq!(parse_i64(&chars(s)), s.parse::<i64>().ok(), "mismatch for {s:?}");
    }
}

#[test]
fn parse_usize_matches_std() {
    let cases = ["", "0", "256", "+256", "18446744073709551615", "18446744073709551616", "-1"];
    for s in cases {
        assert_eq!(parse_usize(&chars(s)), s.parse::<usize>().ok(), "mismatch for {s:?}");
    }
}

#[test]
fn format_u128_matches_std() {
    for n in [0u128, 1, 9, 10, 255, 256, 1000, u128::MAX] {
        assert_eq!(string_of(format_u128(n)), n.to_string());
    }
}

#[test]
fn format_i64_matches_std() {
    for n in [0i64, 1, -1, 9, -10, 1234567, -7654321, i64::MAX, i64::MIN] {
        assert_eq!(string_of(format_i64(n)), n.to_string());
    }
}

#[test]
fn format_then_parse_is_identity() {
    for n in [0u128, 5, 123456789012345678901234567890u128, u128::MAX] {
        assert_eq!(parse_u128(&format_u128(n)), Some(n));
    }
    for n in [0i64, 77, -77, i64::MAX, i64::MIN] {
        assert_eq!(parse_i64(&format_i64(n)), Some(n));
    }
}
