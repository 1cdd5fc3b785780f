//! Addresses as a SAG description writes them: absolute, or relative to a base
//! that is known only later.

use vstd::prelude::*;
use vstd::slice::slice_subrange;
use crate::error::{Failure, SagError};
use crate::number::{
    digit_value, digits_value, lemma_digits_are_digits, numeral_value, read_numeral,
};
use crate::text::{lemma_trimmed_fixed, starts_with, to_chars, to_string, trim, trimmed};

verus! {

/// An address that is absolute or relative.
#[derive(Debug, Clone, Copy)]
pub enum Address {
    /// Absolute address (e.g., `0x80000000`)
    Absolute(u64),
    /// Relative to a base (e.g., `+0`)
    Relative(i64),
}

/// The address that a text writes, if it writes one. White space around the
/// text is ignored; inside it nothing but the forms below counts.
/// - `+` and a decimal numeral: relative by that number, which must fit in a
///   signed 64-bit integer.
/// - `-` and a decimal numeral: relative by the negative of that number, which
///   must fit likewise.
/// - `0x` or `0X` and a hexadecimal numeral: absolute, within 64 bits.
/// - A decimal numeral: absolute, within 64 bits.
///
/// A numeral is one digit or more; no second sign and no white space stand
/// between the sign or the prefix and the digits.
pub open spec fn address_of(text: Seq<char>) -> Option<Address> {
    let s = trimmed(text);
    if s.len() > 0 && s[0] == '+' {
        match numeral_value(s.skip(1), 10) {
            Some(n) if n <= i64::MAX => Some(Address::Relative(n as i64)),
            _ => None,
        }
    } else if s.len() > 0 && s[0] == '-' {
        match numeral_value(s.skip(1), 10) {
            Some(n) if n <= 0x8000_0000_0000_0000 => Some(
                Address::Relative((-(n as int)) as i64),
            ),
            _ => None,
        }
    } else if "0x"@.is_prefix_of(s) || "0X"@.is_prefix_of(s) {
        match numeral_value(s.skip(2), 16) {
            Some(n) if n <= u64::MAX => Some(Address::Absolute(n as u64)),
            _ => None,
        }
    } else {
        match numeral_value(s, 10) {
            Some(n) if n <= u64::MAX => Some(Address::Absolute(n as u64)),
            _ => None,
        }
    }
}

/// A text of decimal digits whose number fits in 64 bits is the absolute
/// address of that number.
pub proof fn law_decimal_is_absolute(digits: Seq<char>)
    requires
        digits.len() > 0,
        digits_value(digits, 10) is Some,
        digits_value(digits, 10)->0 <= u64::MAX,
    ensures
        address_of(digits) == Some(Address::Absolute(digits_value(digits, 10)->0 as u64)),
{
    reveal_strlit("0x");
    reveal_strlit("0X");
    lemma_digits_are_digits(digits, 10);
    assert(digit_value(digits[0], 10) is Some);
    assert(digit_value(digits.last(), 10) is Some);
    lemma_trimmed_fixed(digits);
    if digits.len() >= 2 {
        assert(digit_value(digits[1], 10) is Some);
        assert("0x"@[1] == 'x' && "0X"@[1] == 'X');
        assert("0x"@.is_prefix_of(digits) ==> digits.subrange(0, 2)[1] == 'x');
        assert("0X"@.is_prefix_of(digits) ==> digits.subrange(0, 2)[1] == 'X');
    }
}

/// `0x` or `0X` and hexadecimal digits of either case, whose number fits in 64
/// bits, are the absolute address of that number.
pub proof fn law_hex_is_absolute(digits: Seq<char>)
    requires
        digits.len() > 0,
        digits_value(digits, 16) is Some,
        digits_value(digits, 16)->0 <= u64::MAX,
    ensures
        address_of("0x"@ + digits) == Some(
            Address::Absolute(digits_value(digits, 16)->0 as u64),
        ),
        address_of("0X"@ + digits) == Some(
            Address::Absolute(digits_value(digits, 16)->0 as u64),
        ),
{
    reveal_strlit("0x");
    reveal_strlit("0X");
    lemma_digits_are_digits(digits, 16);
    assert(digit_value(digits[0], 16) is Some);
    assert(digit_value(digits.last(), 16) is Some);
    let lower = "0x"@ + digits;
    let upper = "0X"@ + digits;
    assert(lower[0] == '0' && lower.last() == digits.last());
    assert(upper[0] == '0' && upper.last() == digits.last());
    lemma_trimmed_fixed(lower);
    lemma_trimmed_fixed(upper);
    assert(lower.skip(2) =~= digits);
    assert(upper.skip(2) =~= digits);
    assert(lower.subrange(0, 2) =~= "0x"@);
    assert(upper.subrange(0, 2) =~= "0X"@);
}

/// `+` and decimal digits whose number fits in a signed 64-bit integer are
/// the address relative by that number.
pub proof fn law_plus_is_relative(digits: Seq<char>)
    requires
        digits.len() > 0,
        digits_value(digits, 10) is Some,
        digits_value(digits, 10)->0 <= i64::MAX,
    ensures
        address_of(seq!['+'] + digits) == Some(
            Address::Relative(digits_value(digits, 10)->0 as i64),
        ),
{
    lemma_digits_are_digits(digits, 10);
    assert(digit_value(digits[0], 10) is Some);
    assert(digit_value(digits.last(), 10) is Some);
    let s = seq!['+'] + digits;
    assert(s[0] == '+' && s.last() == digits.last());
    lemma_trimmed_fixed(s);
    assert(s.skip(1) =~= digits);
}

/// `-` and decimal digits whose number is at most 2^63 are the address
/// relative by the negative of that number.
pub proof fn law_minus_is_relative(digits: Seq<char>)
    requires
        digits.len() > 0,
        digits_value(digits, 10) is Some,
        digits_value(digits, 10)->0 <= 0x8000_0000_0000_0000,
    ensures
        address_of(seq!['-'] + digits) == Some(
            Address::Relative((-(digits_value(digits, 10)->0 as int)) as i64),
        ),
{
    lemma_digits_are_digits(digits, 10);
    assert(digit_value(digits.last(), 10) is Some);
    let s = seq!['-'] + digits;
    assert(s[0] == '-' && s.last() == digits.last());
    lemma_trimmed_fixed(s);
    assert(s.skip(1) =~= digits);
}

/// An absolute address resolves to itself against every base; a relative one
/// resolves to base plus offset modulo 2^64, which is base plus offset itself
/// where that is a 64-bit number.
pub proof fn law_resolve(addr: u64, offset: i64, base: u64, other_base: u64)
    ensures
        Address::Absolute(addr).resolved(base) == addr,
        Address::Absolute(addr).resolved(base) == Address::Absolute(addr).resolved(other_base),
        Address::Relative(offset).resolved(base) == (base + offset) % 0x1_0000_0000_0000_0000,
        0 <= base + offset <= u64::MAX ==> Address::Relative(offset).resolved(base) == base
            + offset,
{
}

impl Address {
    /// The absolute address that this one stands for, given the base: an
    /// absolute address is itself; a relative one is base plus offset, modulo
    /// 2^64.
    pub open spec fn resolved(self, base: u64) -> u64 {
        match self {
            Address::Absolute(addr) => addr,
            Address::Relative(offset) => ((base as int + offset as int)
                % 0x1_0000_0000_0000_0000) as u64,
        }
    }

    /// Reads an address; the error holds the text as it was read, trimmed.
    pub fn from_chars(text: &[char]) -> (r: Result<Address, SagError>)
        ensures
            match address_of(text@) {
                Some(a) => r is Ok && r->Ok_0 == a,
                None => r is Err && r->Err_0@ == Failure::InvalidAddress(trimmed(text@)),
            },
    {
        let s = trim(text);
        proof {
            reveal_strlit("0x");
            reveal_strlit("0X");
        }
        let parsed = if s.len() > 0 && s[0] == '+' {
            match read_numeral(slice_subrange(s, 1, s.len()), 10) {
                Some(n) if n <= 0x7fff_ffff_ffff_ffff => Some(Address::Relative(n as i64)),
                _ => None,
            }
        } else if s.len() > 0 && s[0] == '-' {
            match read_numeral(slice_subrange(s, 1, s.len()), 10) {
                Some(n) if n < 0x8000_0000_0000_0000 => Some(Address::Relative(-(n as i64))),
                Some(n) if n == 0x8000_0000_0000_0000 => Some(Address::Relative(i64::MIN)),
                _ => None,
            }
        } else if starts_with(s, "0x") || starts_with(s, "0X") {
            match read_numeral(slice_subrange(s, 2, s.len()), 16) {
                Some(n) => Some(Address::Absolute(n)),
                None => None,
            }
        } else {
            match read_numeral(s, 10) {
                Some(n) => Some(Address::Absolute(n)),
                None => None,
            }
        };
        match parsed {
            Some(a) => Ok(a),
            None => Err(SagError::InvalidAddress(to_string(s))),
        }
    }

    /// Reads an address; the error holds the text as it was read, trimmed.
    pub fn parse(s: &str) -> (r: Result<Address, SagError>)
        ensures
            match address_of(s@) {
                Some(a) => r is Ok && r->Ok_0 == a,
                None => r is Err && r->Err_0@ == Failure::InvalidAddress(trimmed(s@)),
            },
    {
        let chars = to_chars(s);
        Address::from_chars(chars.as_slice())
    }

    /// Resolve to absolute address given a base
    pub fn resolve(&self, base: u64) -> (r: u64)
        ensures
            r == self.resolved(base),
    {
        match self {
            Address::Absolute(addr) => *addr,
            Address::Relative(offset) => base.wrapping_add_signed(*offset),
        }
    }
}

} // verus!
