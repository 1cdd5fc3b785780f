use sag_parser::{Address, SagError};

fn absolute(text: &str) -> u64 {
    match Address::parse(text) {
        Ok(Address::Absolute(value)) => value,
        other => panic!("{:?} gave {:?}", text, other),
    }
}

fn relative(text: &str) -> i64 {
    match Address::parse(text) {
        Ok(Address::Relative(value)) => value,
        other => panic!("{:?} gave {:?}", text, other),
    }
}

fn invalid(text: &str) -> String {
    match Address::parse(text) {
        Err(SagError::InvalidAddress(shown)) => shown,
        other => panic!("{:?} gave {:?}", text, other),
    }
}

/// The number that digits alone write, by std's number parsing.
fn numeral(digits: &str, radix: u32) -> Option<u128> {
    if digits.is_empty() || !digits.chars().all(|c| c.is_digit(radix)) {
        return None;
    }
    u128::from_str_radix(digits, radix).ok()
}

/// The address that a text writes: a sign and decimal digits, `0x` and
/// hexadecimal digits, or decimal digits, each within its range.
fn expected(text: &str) -> Option<Address> {
    let s = text.trim();
    if let Some(digits) = s.strip_prefix('+') {
        let n = numeral(digits, 10)?;
        i64::try_from(n).ok().map(Address::Relative)
    } else if let Some(digits) = s.strip_prefix('-') {
        let n = numeral(digits, 10)?;
        i64::try_from(-(i128::try_from(n).ok()?)).ok().map(Address::Relative)
    } else if s.starts_with("0x") || s.starts_with("0X") {
        let n = numeral(&s[2..], 16)?;
        u64::try_from(n).ok().map(Address::Absolute)
    } else {
        let n = numeral(s, 10)?;
        u64::try_from(n).ok().map(Address::Absolute)
    }
}

#[test]
fn decimal_is_absolute() {
    assert_eq!(absolute("0"), 0);
    assert_eq!(absolute("42"), 42);
    assert_eq!(absolute("007"), 7);
    assert_eq!(absolute("18446744073709551615"), u64::MAX);
    assert_eq!(absolute("2147483648"), 0x8000_0000);
}

#[test]
fn hex_is_absolute() {
    assert_eq!(absolute("0x0"), 0);
    assert_eq!(absolute("0x80000000"), 0x8000_0000);
    assert_eq!(absolute("0X9ff00000"), 0x9FF0_0000);
    assert_eq!(absolute("0xDeadBeef"), 0xDEAD_BEEF);
    assert_eq!(absolute("0xffffffffffffffff"), u64::MAX);
    assert_eq!(absolute("0x000000000000000000001F"), 0x1F);
}

#[test]
fn signed_is_relative() {
    assert_eq!(relative("+0"), 0);
    assert_eq!(relative("+256"), 256);
    assert_eq!(relative("-4096"), -4096);
    assert_eq!(relative("-0"), 0);
    assert_eq!(relative("+9223372036854775807"), i64::MAX);
    assert_eq!(relative("-9223372036854775808"), i64::MIN);
    assert_eq!(relative("+0016"), 16);
    assert_eq!(relative("-0016"), -16);
}

#[test]
fn surrounding_white_space_is_ignored() {
    assert_eq!(absolute("  0x10\t"), 16);
    assert_eq!(absolute("\u{3000}12\u{a0}"), 12);
    assert_eq!(relative(" +8 \r\n"), 8);
}

#[test]
fn malformed_text_is_an_invalid_address() {
    assert_eq!(invalid(""), "");
    assert_eq!(invalid("   "), "");
    assert_eq!(invalid("+"), "+");
    assert_eq!(invalid("-"), "-");
    assert_eq!(invalid("- 5"), "- 5");
    assert_eq!(invalid("0x"), "0x");
    assert_eq!(invalid("0xG1"), "0xG1");
    assert_eq!(invalid("  abc  "), "abc");
    assert_eq!(invalid("12a"), "12a");
    assert_eq!(invalid("1 2"), "1 2");
    assert_eq!(invalid("0x-1"), "0x-1");
    assert_eq!(invalid("0x+F"), "0x+F");
    assert_eq!(invalid("0x F"), "0x F");
    assert_eq!(invalid("+-5"), "+-5");
    assert_eq!(invalid("++5"), "++5");
    assert_eq!(invalid("+ 5"), "+ 5");
    assert_eq!(invalid("-+5"), "-+5");
    assert_eq!(invalid("--5"), "--5");
    assert_eq!(invalid(" + 5 "), "+ 5");
    assert_eq!(invalid("+0x10"), "+0x10");
    assert_eq!(invalid("18446744073709551616"), "18446744073709551616");
    assert_eq!(invalid("0x10000000000000000"), "0x10000000000000000");
    assert_eq!(invalid("+9223372036854775808"), "+9223372036854775808");
    assert_eq!(invalid("-9223372036854775809"), "-9223372036854775809");
    assert_eq!(invalid("\u{663}"), "\u{663}");
}

#[test]
fn parse_takes_the_four_forms_and_no_other() {
    let samples = [
        "", " ", "0", "1", "10", "0010", "+", "-", "+1", "-1", "+-1", "-+1", "--1", "++1", "+ 1",
        "- 1", "0x", "0X", "0x0", "0xa", "0XA", "0xg", "0x 1", "0x+a", "0x-a", "0x++a", "x10",
        "0b1", "1e3", "1_000", "١٢", "0xＡ", " 12 ", "\t0x1f\n", "18446744073709551615",
        "18446744073709551616", "99999999999999999999999", "0xffffffffffffffff",
        "0x1ffffffffffffffff", "0x00000000000000000001", "+9223372036854775807",
        "+9223372036854775808", "-9223372036854775808", "-9223372036854775809", "+0x10", "-0x10",
        "12.5", "0x12.5", "+12 3", "zz", "Z", "9z", "+\t1", "-0", "+0", "0x+0", "0X+a", "+٣",
        "-00000000000000000009223372036854775808", "+18446744073709551616",
        "340282366920938463463374607431768211456",
    ];
    for text in samples {
        match (Address::parse(text), expected(text)) {
            (Ok(Address::Absolute(a)), Some(Address::Absolute(b))) => assert_eq!(a, b, "{:?}", text),
            (Ok(Address::Relative(a)), Some(Address::Relative(b))) => assert_eq!(a, b, "{:?}", text),
            (Err(SagError::InvalidAddress(shown)), None) => assert_eq!(shown, text.trim()),
            (got, want) => panic!("{:?}: got {:?}, expected {:?}", text, got, want),
        }
    }
}

#[test]
fn absolute_resolves_to_itself() {
    assert_eq!(Address::Absolute(0x8000_0000).resolve(0), 0x8000_0000);
    assert_eq!(Address::Absolute(0x8000_0000).resolve(0x1234), 0x8000_0000);
    assert_eq!(Address::Absolute(0).resolve(u64::MAX), 0);
}

#[test]
fn relative_resolves_to_base_plus_offset() {
    assert_eq!(Address::Relative(0).resolve(0x1000), 0x1000);
    assert_eq!(Address::Relative(256).resolve(0x1000), 0x1100);
    assert_eq!(Address::Relative(-16).resolve(0x1000), 0xFF0);
    assert_eq!(Address::Relative(i64::MAX).resolve(1), 0x8000_0000_0000_0000);
}

#[test]
fn relative_wraps_modulo_two_to_the_64() {
    assert_eq!(Address::Relative(-1).resolve(0), u64::MAX);
    assert_eq!(Address::Relative(1).resolve(u64::MAX), 0);
    assert_eq!(Address::Relative(i64::MIN).resolve(0), 0x8000_0000_0000_0000);
    assert_eq!(Address::Relative(16).resolve(0xFFFF_FFFF_FFFF_FFF8), 8);
}
