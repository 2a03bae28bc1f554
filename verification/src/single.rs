//! IEEE-754 single-precision numbers, held as their 32-bit patterns.
//!
//! Ordering and equality are decided here on the bit patterns themselves.
//! Rounding arithmetic and the reading of decimal literals are delegated to
//! the `rustc_apfloat` software implementation.

use crate::text::characters;
use rustc_apfloat::Float;
use rustc_apfloat::ieee::Single;
use vstd::prelude::*;

verus! {

/// The bit that carries the sign.
pub const SIGN_BIT: u32 = 0x8000_0000;

/// The pattern of positive infinity: every larger magnitude is a NaN.
pub const INFINITY_BITS: u32 = 0x7f80_0000;

/// The pattern without its sign bit.
pub open spec fn magnitude(bits: u32) -> int {
    if bits >= SIGN_BIT {
        bits - SIGN_BIT
    } else {
        bits as int
    }
}

/// Whether the pattern encodes a zero, of either sign.
pub open spec fn is_zero(bits: u32) -> bool {
    magnitude(bits) == 0
}

/// Whether the pattern encodes a number: neither an infinity nor a NaN.
pub open spec fn is_finite(bits: u32) -> bool {
    magnitude(bits) < INFINITY_BITS
}

/// Whether the pattern encodes a NaN.
pub open spec fn is_nan(bits: u32) -> bool {
    magnitude(bits) > INFINITY_BITS
}

/// The position of a non-NaN pattern on the number line: patterns of larger
/// numbers have larger ranks, and both zeros have rank 0.
pub open spec fn rank(bits: u32) -> int {
    if bits >= SIGN_BIT {
        -magnitude(bits)
    } else {
        magnitude(bits)
    }
}

/// IEEE `<`: false as soon as one side is a NaN.
pub open spec fn less(a: u32, b: u32) -> bool {
    !is_nan(a) && !is_nan(b) && rank(a) < rank(b)
}

/// IEEE `<=`: false as soon as one side is a NaN.
pub open spec fn less_or_equal(a: u32, b: u32) -> bool {
    !is_nan(a) && !is_nan(b) && rank(a) <= rank(b)
}

/// IEEE `==`: a NaN equals nothing, and the two zeros are equal.
pub open spec fn equal(a: u32, b: u32) -> bool {
    !is_nan(a) && !is_nan(b) && rank(a) == rank(b)
}

/// A decimal literal: one or more digits, optionally followed by a point and
/// one or more digits.
pub open spec fn is_decimal_literal(text: Seq<char>) -> bool {
    exists|whole: int| #[trigger] splits_as_decimal(text, whole)
}

/// Whether the first `whole` characters are the digits before the point, or
/// all of the literal where it has no point.
pub open spec fn splits_as_decimal(text: Seq<char>, whole: int) -> bool {
    &&& 0 < whole <= text.len()
    &&& forall|i: int| 0 <= i < whole ==> is_digit(#[trigger] text[i])
    &&& whole < text.len() ==> {
        &&& text[whole] == '.'
        &&& whole + 1 < text.len()
        &&& forall|i: int| whole < i < text.len() ==> is_digit(#[trigger] text[i])
    }
}

/// Whether a character is one of `0` to `9`.
pub open spec fn is_digit(c: char) -> bool {
    '0' <= c <= '9'
}

/// The sum of two numbers, rounded to nearest with ties to even.
pub uninterp spec fn sum(a: u32, b: u32) -> u32;

/// The difference of two numbers, rounded to nearest with ties to even.
pub uninterp spec fn difference(a: u32, b: u32) -> u32;

/// The product of two numbers, rounded to nearest with ties to even.
pub uninterp spec fn product(a: u32, b: u32) -> u32;

/// The quotient of two numbers, rounded to nearest with ties to even.
pub uninterp spec fn quotient(a: u32, b: u32) -> u32;

/// The number that a text denotes, where it denotes one.
pub uninterp spec fn parsed(text: Seq<char>) -> Option<u32>;

/// `rustc_apfloat`'s `+` on `ieee::Single`, which rounds to nearest, ties to
/// even. Not proved: that the result is a function of the two operands alone.
/// Which number it is is not stated anywhere.
#[verifier::external_body]
pub(crate) fn rounded_sum(a: u32, b: u32) -> (r: u32)
    ensures
        r == sum(a, b),
{
    (Single::from_bits(a as u128) + Single::from_bits(b as u128)).value.to_bits() as u32
}

/// `rustc_apfloat`'s `-` on `ieee::Single`, which rounds to nearest, ties to
/// even. Not proved: that the result is a function of the two operands alone.
/// Which number it is is not stated anywhere.
#[verifier::external_body]
pub(crate) fn rounded_difference(a: u32, b: u32) -> (r: u32)
    ensures
        r == difference(a, b),
{
    (Single::from_bits(a as u128) - Single::from_bits(b as u128)).value.to_bits() as u32
}

/// `rustc_apfloat`'s `*` on `ieee::Single`, which rounds to nearest, ties to
/// even. Not proved: that the result is a function of the two operands alone.
/// Which number it is is not stated anywhere.
#[verifier::external_body]
pub(crate) fn rounded_product(a: u32, b: u32) -> (r: u32)
    ensures
        r == product(a, b),
{
    (Single::from_bits(a as u128) * Single::from_bits(b as u128)).value.to_bits() as u32
}

/// `rustc_apfloat`'s `/` on `ieee::Single`, which rounds to nearest, ties to
/// even, and gives an infinity or a NaN where the divisor is zero. Not
/// proved: that the result is a function of the two operands alone. Which
/// number it is is not stated anywhere.
#[verifier::external_body]
pub(crate) fn rounded_quotient(a: u32, b: u32) -> (r: u32)
    ensures
        r == quotient(a, b),
        is_zero(b) ==> !is_finite(r),
{
    (Single::from_bits(a as u128) / Single::from_bits(b as u128)).value.to_bits() as u32
}

/// `rustc_apfloat`'s `FromStr` for `ieee::Single`, which rounds to nearest,
/// ties to even. Not proved: that the result is a function of the text
/// alone, and that a decimal literal is always read. Which number it is read
/// as is not stated anywhere.
#[verifier::external_body]
pub(crate) fn read_decimal(text: &str) -> (r: Option<u32>)
    ensures
        r == parsed(text@),
        is_decimal_literal(text@) ==> r is Some,
{
    match text.parse::<Single>() {
        Ok(value) => Some(value.to_bits() as u32),
        Err(_) => None,
    }
}

/// Decides whether a text is a decimal literal.
pub fn decimal_literal(text: &str) -> (ok: bool)
    ensures
        ok == is_decimal_literal(text@),
{
    let chars = characters(text);
    let length: usize = chars.len();
    let mut whole: usize = 0;
    while whole < length && digit(chars[whole])
        invariant
            whole <= length == chars@.len(),
            forall|i: int| 0 <= i < whole ==> is_digit(#[trigger] chars@[i]),
        decreases length - whole,
    {
        whole += 1;
    }
    proof {
        // The digits before the point can only be the longest run of digits.
        assert forall|other: int| #[trigger] splits_as_decimal(chars@, other) implies other
            == whole by {
            if other < whole {
                assert(is_digit(chars@[other]));
            }
            if other > whole {
                assert(is_digit(chars@[whole as int]));
            }
        }
    }
    if whole == 0 {
        return false;
    }
    if whole == length {
        assert(splits_as_decimal(chars@, whole as int));
        return true;
    }
    if chars[whole] != '.' {
        return false;
    }
    let mut end: usize = whole + 1;
    while end < length && digit(chars[end])
        invariant
            whole < end <= length == chars@.len(),
            forall|i: int| whole < i < end ==> is_digit(#[trigger] chars@[i]),
        decreases length - end,
    {
        end += 1;
    }
    if end == length && whole + 1 < length {
        assert(splits_as_decimal(chars@, whole as int));
        true
    } else {
        proof {
            if splits_as_decimal(chars@, whole as int) {
                assert(is_digit(chars@[end as int]));
            }
        }
        false
    }
}

/// Decides whether a character is one of `0` to `9`.
fn digit(c: char) -> (r: bool)
    ensures
        r == is_digit(c),
{
    '0' <= c && c <= '9'
}

/// Decides IEEE `<` on two bit patterns.
pub fn is_less(a: u32, b: u32) -> (r: bool)
    ensures
        r == less(a, b),
{
    !nan(a) && !nan(b) && position(a) < position(b)
}

/// Decides IEEE `<=` on two bit patterns.
pub fn is_less_or_equal(a: u32, b: u32) -> (r: bool)
    ensures
        r == less_or_equal(a, b),
{
    !nan(a) && !nan(b) && position(a) <= position(b)
}

/// Decides IEEE `==` on two bit patterns.
pub fn is_equal(a: u32, b: u32) -> (r: bool)
    ensures
        r == equal(a, b),
{
    !nan(a) && !nan(b) && position(a) == position(b)
}

/// Decides whether a bit pattern encodes a NaN.
pub fn nan(bits: u32) -> (r: bool)
    ensures
        r == is_nan(bits),
{
    let unsigned: u32 = if bits >= SIGN_BIT {
        bits - SIGN_BIT
    } else {
        bits
    };
    unsigned > INFINITY_BITS
}

/// Computes the position of a pattern on the number line.
fn position(bits: u32) -> (r: i64)
    ensures
        r == rank(bits),
{
    if bits >= SIGN_BIT {
        let unsigned: u32 = bits - SIGN_BIT;
        -(unsigned as i64)
    } else {
        bits as i64
    }
}

} // verus!
