//! Numbers as text: reading decimal and hexadecimal numerals, and writing
//! numbers the way a linker script shows them.

use vstd::prelude::*;
use vstd::slice::slice_subrange;
use vstd::string::StringExecFns;
use crate::text::append_chars;

verus! {

/// The value of `c` as a digit in the given radix: `0`-`9`, then the letters of
/// either case from 10 on.
pub open spec fn digit_value(c: char, radix: nat) -> Option<nat> {
    let v: int = if '0' <= c <= '9' {
        c as u32 - '0' as u32
    } else if 'a' <= c <= 'z' {
        c as u32 - 'a' as u32 + 10
    } else if 'A' <= c <= 'Z' {
        c as u32 - 'A' as u32 + 10
    } else {
        radix as int
    };
    if v < radix {
        Some(v as nat)
    } else {
        None
    }
}

/// The number that the digits of `s` write in the given radix, the first digit
/// counting most; `None` where a character is no digit.
pub open spec fn digits_value(s: Seq<char>, radix: nat) -> Option<nat>
    decreases s.len(),
{
    if s.len() == 0 {
        Some(0)
    } else {
        match (digits_value(s.drop_last(), radix), digit_value(s.last(), radix)) {
            (Some(high), Some(d)) => Some(high * radix + d),
            _ => None,
        }
    }
}

/// What follows an optional `+` at the start of `s`.
pub open spec fn after_plus(s: Seq<char>) -> Seq<char> {
    if s.len() > 0 && s[0] == '+' {
        s.skip(1)
    } else {
        s
    }
}

/// The unsigned 64-bit number that `s` writes: an optional `+`, then at least
/// one digit, the value within range.
pub open spec fn unsigned_of(s: Seq<char>, radix: nat) -> Option<u64> {
    let body = after_plus(s);
    match digits_value(body, radix) {
        Some(v) if body.len() > 0 && v <= u64::MAX => Some(v as u64),
        _ => None,
    }
}

/// The number that a numeral writes: at least one digit and nothing but
/// digits; no sign and no white space.
pub open spec fn numeral_value(s: Seq<char>, radix: nat) -> Option<nat> {
    if s.len() > 0 {
        digits_value(s, radix)
    } else {
        None
    }
}

/// Where the digits of a text have a value, so have those of each prefix, and
/// the prefix's value is no larger.
pub proof fn lemma_digits_prefix(s: Seq<char>, radix: nat, k: int)
    requires
        0 <= k <= s.len(),
        radix >= 1,
        digits_value(s, radix) is Some,
    ensures
        digits_value(s.take(k), radix) is Some,
        digits_value(s.take(k), radix)->0 <= digits_value(s, radix)->0,
    decreases s.len(),
{
    if k == s.len() {
        assert(s.take(k) =~= s);
    } else {
        let high = digits_value(s.drop_last(), radix)->0;
        lemma_digits_prefix(s.drop_last(), radix, k);
        assert(s.drop_last().take(k) =~= s.take(k));
        assert(high <= high * radix) by (nonlinear_arith)
            requires
                radix >= 1,
        ;
    }
}

/// Where the digits of a text have a value, every character is a digit.
pub proof fn lemma_digits_are_digits(s: Seq<char>, radix: nat)
    requires
        digits_value(s, radix) is Some,
    ensures
        forall|i: int| 0 <= i < s.len() ==> digit_value(#[trigger] s[i], radix) is Some,
    decreases s.len(),
{
    if s.len() > 0 {
        lemma_digits_are_digits(s.drop_last(), radix);
        assert forall|i: int| 0 <= i < s.len() implies digit_value(
            #[trigger] s[i],
            radix,
        ) is Some by {
            if i < s.len() - 1 {
                assert(s[i] == s.drop_last()[i]);
            }
        }
    }
}

/// The value of `c` as a digit in the given radix.
pub fn to_digit(c: char, radix: u64) -> (r: Option<u64>)
    requires
        2 <= radix <= 36,
    ensures
        match r {
            Some(d) => digit_value(c, radix as nat) == Some(d as nat),
            None => digit_value(c, radix as nat) is None,
        },
{
    let v: u64 = if c >= '0' && c <= '9' {
        (c as u32 - '0' as u32) as u64
    } else if c >= 'a' && c <= 'z' {
        (c as u32 - 'a' as u32 + 10) as u64
    } else if c >= 'A' && c <= 'Z' {
        (c as u32 - 'A' as u32 + 10) as u64
    } else {
        radix
    };
    if v < radix {
        Some(v)
    } else {
        None
    }
}

/// The number that the digits of `s` write, where every character is a digit
/// and the number fits.
pub fn read_digits(s: &[char], radix: u64) -> (r: Option<u64>)
    requires
        2 <= radix <= 36,
    ensures
        r == match digits_value(s@, radix as nat) {
            Some(v) if v <= u64::MAX => Some(v as u64),
            _ => None,
        },
{
    let n = s.len();
    let mut acc: u64 = 0;
    let mut i: usize = 0;
    assert(s@.take(0) =~= Seq::<char>::empty());
    while i < n
        invariant
            n == s@.len(),
            0 <= i <= n,
            2 <= radix <= 36,
            digits_value(s@.take(i as int), radix as nat) == Some(acc as nat),
        decreases n - i,
    {
        proof {
            assert(s@.take(i + 1).drop_last() =~= s@.take(i as int));
            if digits_value(s@, radix as nat) is Some {
                lemma_digits_prefix(s@, radix as nat, i + 1);
            }
        }
        let d = match to_digit(s[i], radix) {
            Some(d) => d,
            None => {
                return None;
            },
        };
        let shifted = match acc.checked_mul(radix) {
            Some(x) => x,
            None => {
                return None;
            },
        };
        acc = match shifted.checked_add(d) {
            Some(x) => x,
            None => {
                return None;
            },
        };
        i += 1;
    }
    assert(s@.take(n as int) =~= s@);
    Some(acc)
}

/// Reads an unsigned 64-bit number: an optional `+`, then digits.
pub fn parse_unsigned(s: &[char], radix: u64) -> (r: Option<u64>)
    requires
        2 <= radix <= 36,
    ensures
        r == unsigned_of(s@, radix as nat),
{
    let n = s.len();
    let start: usize = if n > 0 && s[0] == '+' {
        1
    } else {
        0
    };
    if start == n {
        return None;
    }
    let body = slice_subrange(s, start, n);
    assert(body@ =~= after_plus(s@));
    read_digits(body, radix)
}

/// Reads a numeral: at least one digit and nothing but digits, the number
/// within 64 bits.
pub fn read_numeral(s: &[char], radix: u64) -> (r: Option<u64>)
    requires
        2 <= radix <= 36,
    ensures
        r == match numeral_value(s@, radix as nat) {
            Some(v) if v <= u64::MAX => Some(v as u64),
            _ => None,
        },
{
    if s.len() == 0 {
        None
    } else {
        read_digits(s, radix)
    }
}

/// The character that writes the digit `d`, letters in upper case.
pub open spec fn digit_char(d: nat) -> char {
    if d < 10 {
        (48 + d) as char
    } else {
        (55 + d) as char
    }
}

/// `v` in decimal, without leading zeros.
pub open spec fn decimal(v: nat) -> Seq<char>
    decreases v,
{
    if v < 10 {
        seq![digit_char(v)]
    } else {
        decimal(v / 10).push(digit_char(v % 10))
    }
}

/// `v` in hexadecimal with upper-case letters, padded with zeros on the left
/// to at least `min_digits` digits.
pub open spec fn upper_hex(v: nat, min_digits: nat) -> Seq<char>
    decreases v, min_digits,
{
    if v < 16 && min_digits <= 1 {
        seq![digit_char(v)]
    } else {
        let fewer = if min_digits > 0 {
            (min_digits - 1) as nat
        } else {
            0
        };
        upper_hex(v / 16, fewer).push(digit_char(v % 16))
    }
}

/// An address as the script shows it: `0x`, then at least eight hexadecimal
/// digits in upper case.
pub open spec fn hex_text(v: u64) -> Seq<char> {
    "0x"@ + upper_hex(v as nat, 8)
}

pub const KIB: u64 = 1024;

pub const MIB: u64 = 1024 * 1024;

pub const GIB: u64 = 1024 * 1024 * 1024;

/// A length in bytes with the largest of the units G, M and K that divides it
/// evenly; the plain number of bytes where none does.
pub open spec fn size_text(bytes: u64) -> Seq<char> {
    if bytes >= GIB && bytes % GIB == 0 {
        decimal((bytes / GIB) as nat) + "G"@
    } else if bytes >= MIB && bytes % MIB == 0 {
        decimal((bytes / MIB) as nat) + "M"@
    } else if bytes >= KIB && bytes % KIB == 0 {
        decimal((bytes / KIB) as nat) + "K"@
    } else {
        decimal(bytes as nat)
    }
}

/// Whether `c` writes a digit, letters in upper case.
pub open spec fn is_digit_char(c: char) -> bool {
    '0' <= c <= '9' || 'A' <= c <= 'Z'
}

/// Whether every character of `s` writes a digit.
pub open spec fn all_digit_chars(s: Seq<char>) -> bool {
    forall|i: int| 0 <= i < s.len() ==> is_digit_char(#[trigger] s[i])
}

/// A number in hexadecimal is made of digits, at least one, and read back it
/// is the number.
pub proof fn lemma_upper_hex_reads_back(v: nat, min_digits: nat)
    ensures
        upper_hex(v, min_digits).len() > 0,
        all_digit_chars(upper_hex(v, min_digits)),
        digits_value(upper_hex(v, min_digits), 16) == Some(v),
    decreases v, min_digits,
{
    let last = digit_char(v % 16);
    assert(digit_value(last, 16) == Some(v % 16));
    if v < 16 && min_digits <= 1 {
        let s = seq![digit_char(v)];
        assert(s.drop_last() =~= Seq::<char>::empty());
        assert(digits_value(Seq::<char>::empty(), 16) == Some(0nat));
    } else {
        let fewer = if min_digits > 0 {
            (min_digits - 1) as nat
        } else {
            0
        };
        let high = upper_hex(v / 16, fewer);
        lemma_upper_hex_reads_back(v / 16, fewer);
        assert(high.push(last).drop_last() =~= high);
        assert(high.push(last).last() == last);
    }
}

/// A number in decimal is made of digits, at least one.
pub proof fn lemma_decimal_is_digits(v: nat)
    ensures
        decimal(v).len() > 0,
        all_digit_chars(decimal(v)),
    decreases v,
{
    if v >= 10 {
        lemma_decimal_is_digits(v / 10);
    }
}

/// Two addresses are shown alike only where they are the same.
pub proof fn lemma_hex_text_tells_apart(a: u64, b: u64)
    requires
        hex_text(a) == hex_text(b),
    ensures
        a == b,
{
    lemma_upper_hex_reads_back(a as nat, 8);
    lemma_upper_hex_reads_back(b as nat, 8);
    let prefix = "0x"@;
    assert((prefix + upper_hex(a as nat, 8)).skip(prefix.len() as int) =~= upper_hex(a as nat, 8));
    assert((prefix + upper_hex(b as nat, 8)).skip(prefix.len() as int) =~= upper_hex(b as nat, 8));
}

/// The character that writes the digit `d`, letters in upper case.
pub fn digit_to_char(d: u8) -> (c: char)
    requires
        d < 36,
    ensures
        c == digit_char(d as nat),
{
    if d < 10 {
        (48 + d) as char
    } else {
        (55 + d) as char
    }
}

/// The characters of `digits` from the last to the first.
fn reversed(digits: &Vec<char>) -> (r: Vec<char>)
    ensures
        r@ == digits@.reverse(),
{
    let n = digits.len();
    let mut r: Vec<char> = Vec::new();
    let mut j: usize = n;
    while j > 0
        invariant
            n == digits@.len(),
            0 <= j <= n,
            r@.len() == n - j,
            forall|k: int| 0 <= k < r@.len() ==> r@[k] == digits@[n - 1 - k],
        decreases j,
    {
        j -= 1;
        r.push(digits[j]);
    }
    assert(r@ =~= digits@.reverse());
    r
}

/// The digits of `v` in decimal.
pub fn decimal_digits(v: u64) -> (r: Vec<char>)
    ensures
        r@ == decimal(v as nat),
{
    let mut low: Vec<char> = Vec::new();
    let mut x: u64 = v;
    assert(decimal(x as nat) + low@.reverse() =~= decimal(v as nat));
    while x >= 10
        invariant
            decimal(v as nat) == decimal(x as nat) + low@.reverse(),
        decreases x,
    {
        let c = digit_to_char((x % 10) as u8);
        proof {
            assert(low@.push(c).reverse() =~= seq![c] + low@.reverse());
            assert(decimal((x / 10) as nat).push(c) + low@.reverse() =~= decimal((x / 10) as nat) + (
            seq![c] + low@.reverse()));
        }
        low.push(c);
        x = x / 10;
    }
    let c = digit_to_char(x as u8);
    proof {
        assert(low@.push(c).reverse() =~= seq![c] + low@.reverse());
    }
    low.push(c);
    reversed(&low)
}

/// The digits of `v` in hexadecimal, upper case, at least eight of them.
pub fn hex_digits(v: u64) -> (r: Vec<char>)
    ensures
        r@ == upper_hex(v as nat, 8),
{
    let mut low: Vec<char> = Vec::new();
    let mut x: u64 = v;
    let mut width: u8 = 8;
    assert(upper_hex(x as nat, 8) + low@.reverse() =~= upper_hex(v as nat, 8));
    while x >= 16 || width > 1
        invariant
            upper_hex(v as nat, 8) == upper_hex(x as nat, width as nat) + low@.reverse(),
        decreases x, width,
    {
        let c = digit_to_char((x % 16) as u8);
        let ghost next_width: nat = if width > 0 {
            (width - 1) as nat
        } else {
            0
        };
        proof {
            assert(low@.push(c).reverse() =~= seq![c] + low@.reverse());
            assert(upper_hex((x / 16) as nat, next_width).push(c) + low@.reverse() =~= upper_hex(
                (x / 16) as nat,
                next_width,
            ) + (seq![c] + low@.reverse()));
        }
        low.push(c);
        x = x / 16;
        if width > 0 {
            width -= 1;
        }
    }
    let c = digit_to_char(x as u8);
    proof {
        assert(low@.push(c).reverse() =~= seq![c] + low@.reverse());
    }
    low.push(c);
    reversed(&low)
}

/// Appends `v` in decimal.
pub fn append_decimal(out: &mut String, v: u64)
    ensures
        final(out)@ == old(out)@ + decimal(v as nat),
{
    let digits = decimal_digits(v);
    append_chars(out, digits.as_slice());
}

/// Appends `v` as an address: `0x` and at least eight hexadecimal digits.
pub fn append_hex(out: &mut String, v: u64)
    ensures
        final(out)@ == old(out)@ + hex_text(v),
{
    let digits = hex_digits(v);
    out.append("0x");
    append_chars(out, digits.as_slice());
    assert(old(out)@ + "0x"@ + digits@ =~= old(out)@ + ("0x"@ + digits@));
}

/// A length in bytes with the largest of the units G, M and K that divides it
/// evenly; the plain number of bytes where none does.
pub fn format_size(bytes: u64) -> (r: String)
    ensures
        r@ == size_text(bytes),
{
    let mut r = String::new();
    if bytes >= GIB && bytes % GIB == 0 {
        append_decimal(&mut r, bytes / GIB);
        r.append("G");
    } else if bytes >= MIB && bytes % MIB == 0 {
        append_decimal(&mut r, bytes / MIB);
        r.append("M");
    } else if bytes >= KIB && bytes % KIB == 0 {
        append_decimal(&mut r, bytes / KIB);
        r.append("K");
    } else {
        append_decimal(&mut r, bytes);
    }
    assert(r@ =~= size_text(bytes));
    r
}

} // verus!
