use redis_lite::decimal::{parse_i64, push_decimal, push_digits};

#[test]
fn push_digits_writes_the_digits() {
    for n in [0u64, 1, 9, 10, 11, 99, 100, 101, 12345, 1000000, u64::MAX] {
        let mut out = String::new();
        push_digits(&mut out, n);
        assert_eq!(out, n.to_string());
    }
    let mut out = String::from("n=");
    push_digits(&mut out, 18446744073709551615);
    assert_eq!(out, "n=18446744073709551615");
}

#[test]
fn push_decimal_writes_the_numeral() {
    for n in [0i64, 1, -1, 9, -9, 10, -10, 255, -256, 1000, i64::MAX, i64::MIN, i64::MIN + 1] {
        let mut out = String::new();
        push_decimal(&mut out, n);
        assert_eq!(out, n.to_string());
    }
    let mut out = String::from(":");
    push_decimal(&mut out, -9223372036854775808);
    assert_eq!(out, ":-9223372036854775808");
}

#[test]
fn parse_i64_reads_numerals() {
    assert_eq!(parse_i64(b"0"), Some(0));
    assert_eq!(parse_i64(b"7"), Some(7));
    assert_eq!(parse_i64(b"42"), Some(42));
    assert_eq!(parse_i64(b"-42"), Some(-42));
    assert_eq!(parse_i64(b"+42"), Some(42));
    assert_eq!(parse_i64(b"-0"), Some(0));
    assert_eq!(parse_i64(b"007"), Some(7));
    assert_eq!(parse_i64(b"00000000000000000000000000000000001"), Some(1));
    assert_eq!(parse_i64(b"9223372036854775807"), Some(i64::MAX));
    assert_eq!(parse_i64(b"-9223372036854775808"), Some(i64::MIN));
    assert_eq!(parse_i64(b"-9223372036854775807"), Some(i64::MIN + 1));
}

#[test]
fn parse_i64_refuses_what_is_no_numeral() {
    let refused: [&[u8]; 14] = [
        b"", b"-", b"+", b"a", b"1a", b"a1", b" 1", b"1 ", b"--1", b"+-1", b"1-", b"1.0", b"0x10",
        "\u{661}".as_bytes(),
    ];
    for text in refused {
        assert_eq!(parse_i64(text), None);
    }
}

#[test]
fn parse_i64_refuses_what_does_not_fit() {
    assert_eq!(parse_i64(b"9223372036854775808"), None);
    assert_eq!(parse_i64(b"-9223372036854775809"), None);
    assert_eq!(parse_i64(b"18446744073709551616"), None);
    assert_eq!(parse_i64(b"99999999999999999999999999"), None);
    assert_eq!(parse_i64(b"-99999999999999999999999999"), None);
}

#[test]
fn parse_i64_reads_what_push_decimal_writes() {
    for n in [0i64, 5, -5, 1234567890123, -1234567890123, i64::MAX, i64::MIN] {
        let mut out = String::new();
        push_decimal(&mut out, n);
        assert_eq!(parse_i64(out.as_bytes()), Some(n));
    }
}

#[test]
fn parse_i64_agrees_with_std() {
    let texts = ["12", "-12", "+12", "", "-", "1_000", "9223372036854775808", "٣"];
    for text in texts {
        assert_eq!(parse_i64(text.as_bytes()), text.parse::<i64>().ok());
    }
}
