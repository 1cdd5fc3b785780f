use sag_parser::lines::on_single_line;
use sag_parser::number::{
    decimal_digits, digit_to_char, format_size, hex_digits, parse_unsigned, read_numeral, to_digit,
};
use sag_parser::text::{
    clean, eq_ignore_ascii_case, equals, find, is_space, rfind, split, split_lines,
    split_whitespace, starts_with, strip_prefix, to_chars, to_string, trim,
};

fn chars(s: &str) -> Vec<char> {
    s.chars().collect()
}

fn text(s: &[char]) -> String {
    s.iter().collect()
}

#[test]
fn white_space_is_what_std_calls_white_space() {
    for code in 0..=0x10FFFFu32 {
        if let Some(c) = char::from_u32(code) {
            assert_eq!(is_space(c), c.is_whitespace(), "U+{:04X}", code);
        }
    }
}

#[test]
fn white_space_characters_are_the_listed_ones() {
    let mut found = Vec::new();
    for code in 0..=0x10FFFFu32 {
        if let Some(c) = char::from_u32(code) {
            if is_space(c) {
                found.push(code);
            }
        }
    }
    assert_eq!(
        found,
        vec![
            0x09, 0x0A, 0x0B, 0x0C, 0x0D, 0x20, 0x85, 0xA0, 0x1680, 0x2000, 0x2001, 0x2002, 0x2003,
            0x2004, 0x2005, 0x2006, 0x2007, 0x2008, 0x2009, 0x200A, 0x2028, 0x2029, 0x202F, 0x205F,
            0x3000
        ]
    );
}

const SAMPLES: [&str; 16] = [
    "",
    " ",
    "a",
    "  a  ",
    "\t a b \r\n",
    "a  b\tc",
    "\u{2003}wide\u{3000}",
    " ; only a comment",
    "HEAD 0x0 ALIGN 4 ; comment ; more",
    "x;y",
    ";",
    "a,b,,c,",
    "line one\nline two\r\nline three",
    "\n\n",
    "ends with newline\n",
    "\u{feff}bom",
];

#[test]
fn trim_agrees_with_std() {
    for s in SAMPLES {
        assert_eq!(text(trim(&chars(s))), s.trim(), "{:?}", s);
    }
    assert_eq!(text(trim(&chars("  a b  "))), "a b");
    assert_eq!(text(trim(&chars("\u{a0}\u{a0}"))), "");
}

#[test]
fn split_whitespace_agrees_with_std() {
    for s in SAMPLES {
        let source = chars(s);
        let got: Vec<String> = split_whitespace(&source).into_iter().map(text).collect();
        let want: Vec<String> = s.split_whitespace().map(String::from).collect();
        assert_eq!(got, want, "{:?}", s);
    }
    let source = chars("  HEAD\t0x0   ALIGN 16 ");
    let got: Vec<String> = split_whitespace(&source).into_iter().map(text).collect();
    assert_eq!(got, vec!["HEAD", "0x0", "ALIGN", "16"]);
}

#[test]
fn split_agrees_with_std() {
    for s in SAMPLES {
        for sep in [',', ';', ' '] {
            let source = chars(s);
            let got: Vec<String> = split(&source, sep).into_iter().map(text).collect();
            let want: Vec<String> = s.split(sep).map(String::from).collect();
            assert_eq!(got, want, "{:?} at {:?}", s, sep);
        }
    }
    let source = chars("a,b,,c,");
    let got: Vec<String> = split(&source, ',').into_iter().map(text).collect();
    assert_eq!(got, vec!["a", "b", "", "c", ""]);
}

#[test]
fn split_lines_cuts_at_line_feeds() {
    let cut = |s: &str| -> Vec<String> { split_lines(&chars(s)).iter().map(|l| text(l)).collect() };
    assert_eq!(cut(""), Vec::<String>::new());
    assert_eq!(cut("a"), vec!["a"]);
    assert_eq!(cut("a\n"), vec!["a"]);
    assert_eq!(cut("a\nb"), vec!["a", "b"]);
    assert_eq!(cut("\n"), vec![""]);
    assert_eq!(cut("\n\na\n\n"), vec!["", "", "a", ""]);
    assert_eq!(cut("a\r\nb\r"), vec!["a\r", "b\r"]);
}

#[test]
fn split_lines_agrees_with_std_once_trimmed() {
    for s in SAMPLES {
        let got: Vec<String> =
            split_lines(&chars(s)).iter().map(|l| text(trim(l))).collect();
        let want: Vec<String> = s.lines().map(|l| l.trim().to_string()).collect();
        assert_eq!(got, want, "{:?}", s);
    }
}

#[test]
fn clean_removes_comment_and_trims() {
    assert_eq!(text(clean(&chars("  ADDR x ; the start"))), "ADDR x");
    assert_eq!(text(clean(&chars("; nothing"))), "");
    assert_eq!(text(clean(&chars("   "))), "");
    assert_eq!(text(clean(&chars("a;b;c"))), "a");
    assert_eq!(text(clean(&chars("{\r"))), "{");
    for s in SAMPLES {
        let want = s.split(';').next().unwrap_or("").trim();
        assert_eq!(text(clean(&chars(s))), want, "{:?}", s);
    }
}

#[test]
fn find_and_rfind_give_first_and_last() {
    let s = chars("a(b)(c)d");
    assert_eq!(find(&s, '('), Some(1));
    assert_eq!(rfind(&s, ')'), Some(6));
    assert_eq!(find(&s, 'x'), None);
    assert_eq!(rfind(&s, 'x'), None);
    assert_eq!(find(&chars(""), '('), None);
    assert_eq!(rfind(&chars(")"), ')'), Some(0));
}

#[test]
fn prefixes_and_equality() {
    let s = chars("LOADADDR NEXT x");
    assert!(starts_with(&s, "LOADADDR"));
    assert!(starts_with(&s, ""));
    assert!(!starts_with(&s, "ADDR"));
    assert!(!starts_with(&chars("LOAD"), "LOADADDR"));
    assert_eq!(strip_prefix(&s, "LOADADDR").map(text), Some(" NEXT x".to_string()));
    assert_eq!(strip_prefix(&s, "STACK").map(text), None);
    assert!(equals(&chars("ADDR"), "ADDR"));
    assert!(!equals(&chars("ADDRX"), "ADDR"));
    assert!(!equals(&chars("ADD"), "ADDR"));
}

#[test]
fn comparison_ignoring_ascii_case() {
    for s in ["ALIGN", "align", "Align", "aLiGn"] {
        assert!(eq_ignore_ascii_case(&chars(s), "ALIGN"), "{:?}", s);
    }
    for s in ["ALIGNED", "ALIG", "", "ALIGM", "ALİGN", "AL1GN"] {
        assert_eq!(eq_ignore_ascii_case(&chars(s), "ALIGN"), s.eq_ignore_ascii_case("ALIGN"));
        assert!(!eq_ignore_ascii_case(&chars(s), "ALIGN"), "{:?}", s);
    }
    // the Kelvin sign lower-cases to `k` in Unicode, not in ASCII
    assert!(!eq_ignore_ascii_case(&chars("\u{212a}"), "k"));
    assert!(eq_ignore_ascii_case(&chars("[@`{"), "[@`{"));
    assert!(!eq_ignore_ascii_case(&chars("@"), "`"));
    assert!(!eq_ignore_ascii_case(&chars("["), "{"));
}

#[test]
fn strings_and_characters_convert_both_ways() {
    for s in SAMPLES {
        assert_eq!(to_chars(s), chars(s));
        assert_eq!(to_string(&chars(s)), s);
    }
}

#[test]
fn digits_have_their_values() {
    assert_eq!(to_digit('0', 10), Some(0));
    assert_eq!(to_digit('9', 10), Some(9));
    assert_eq!(to_digit('a', 10), None);
    assert_eq!(to_digit('a', 16), Some(10));
    assert_eq!(to_digit('F', 16), Some(15));
    assert_eq!(to_digit('g', 16), None);
    assert_eq!(to_digit('z', 36), Some(35));
    for radix in [2u64, 10, 16, 36] {
        for code in 0..0x300u32 {
            let c = char::from_u32(code).unwrap();
            assert_eq!(to_digit(c, radix), c.to_digit(radix as u32).map(u64::from));
        }
    }
    for d in 0..36u8 {
        let want = char::from_digit(d as u32, 36).unwrap().to_ascii_uppercase();
        assert_eq!(digit_to_char(d), want);
    }
}

#[test]
fn unsigned_parsing_agrees_with_std() {
    let samples = [
        "", "+", "-", "0", "+0", "-0", "12", "+12", "++12", "1a", "ff", "FF", "fg", "0x1",
        "18446744073709551615", "18446744073709551616", "ffffffffffffffff", "10000000000000000",
        " 1", "1 ", "٣",
    ];
    for s in samples {
        assert_eq!(parse_unsigned(&chars(s), 10), s.parse::<u64>().ok(), "{:?}", s);
        assert_eq!(parse_unsigned(&chars(s), 16), u64::from_str_radix(s, 16).ok(), "{:?}", s);
    }
    assert_eq!(parse_unsigned(&chars("4096"), 10), Some(4096));
    assert_eq!(parse_unsigned(&chars("9Ff00000"), 16), Some(0x9FF0_0000));
}

#[test]
fn numerals_are_digits_and_nothing_else() {
    let samples = [
        "", "+", "-", "0", "+0", "-0", "12", "+12", "-12", "0012", "1a", "ff", "FF", "fg", " 1",
        "1 ", "٣", "18446744073709551615", "18446744073709551616", "ffffffffffffffff",
        "10000000000000000",
    ];
    for s in samples {
        for radix in [10u32, 16] {
            let want = if !s.is_empty() && s.chars().all(|c| c.is_digit(radix)) {
                u64::from_str_radix(s, radix).ok()
            } else {
                None
            };
            assert_eq!(read_numeral(&chars(s), radix as u64), want, "{:?}", s);
        }
    }
    assert_eq!(read_numeral(&chars("4096"), 10), Some(4096));
    assert_eq!(read_numeral(&chars("+4096"), 10), None);
    assert_eq!(read_numeral(&chars("9Ff00000"), 16), Some(0x9FF0_0000));
    assert_eq!(read_numeral(&chars(""), 16), None);
}

#[test]
fn numbers_are_written_as_std_writes_them() {
    let values = [
        0u64, 1, 9, 10, 15, 16, 255, 256, 4095, 0x1234_5678, 0x8000_0000, 0xFFFF_FFFF,
        0x1_0000_0000, 0xABCD_EF01_2345, u64::MAX,
    ];
    for v in values {
        assert_eq!(text(&decimal_digits(v)), format!("{}", v));
        assert_eq!(text(&hex_digits(v)), format!("{:08X}", v));
        assert_eq!(format!("0x{}", text(&hex_digits(v))), format!("{:#010X}", v));
    }
    assert_eq!(text(&hex_digits(0)), "00000000");
    assert_eq!(text(&hex_digits(0x9FF0_0000)), "9FF00000");
    assert_eq!(text(&hex_digits(0x1_0000_0000)), "100000000");
    assert_eq!(text(&decimal_digits(1_000_000)), "1000000");
}

#[test]
fn sizes_take_the_largest_unit_that_divides_them() {
    assert_eq!(format_size(0), "0");
    assert_eq!(format_size(1), "1");
    assert_eq!(format_size(1023), "1023");
    assert_eq!(format_size(1024), "1K");
    assert_eq!(format_size(1025), "1025");
    assert_eq!(format_size(1536), "1536");
    assert_eq!(format_size(2048), "2K");
    assert_eq!(format_size(1024 * 1024), "1M");
    assert_eq!(format_size(2 * 1024 * 1024), "2M");
    assert_eq!(format_size(1024 * 1024 + 1024), "1025K");
    assert_eq!(format_size(128 * 1024 * 1024), "128M");
    assert_eq!(format_size(256 * 1024 * 1024), "256M");
    assert_eq!(format_size(1024 * 1024 * 1024), "1G");
    assert_eq!(format_size(1024 * 1024 * 1024 + 1024 * 1024), "1025M");
    assert_eq!(format_size(3 * 1024 * 1024 * 1024), "3G");
    assert_eq!(format_size(u64::MAX), "18446744073709551615");
    assert_eq!(format_size(1 << 63), "8589934592G");
}

#[test]
fn line_feeds_are_found_in_strings() {
    assert!(on_single_line(""));
    assert!(on_single_line("one line\r"));
    assert!(!on_single_line("\n"));
    assert!(!on_single_line("two\nlines"));
    assert!(!on_single_line("ends with it\n"));
}
