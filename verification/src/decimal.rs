//! The boundary to `rust_decimal`.
//!
//! A decimal number crosses this boundary as its two parts: a signed mantissa
//! and a scale, standing for `mantissa / 10^scale`. Each of the three
//! functions at the end makes a single call into `rust_decimal`; their
//! contracts are not proved but taken from its source.

use rust_decimal::Decimal;
use rust_decimal::RoundingStrategy;
use vstd::prelude::*;

verus! {

/// The largest magnitude a decimal's mantissa can have: `2^96 - 1`.
pub const MAX_MANTISSA: i128 = 0xFFFF_FFFF_FFFF_FFFF_FFFF_FFFF;

/// The largest scale a decimal can have.
pub const MAX_SCALE: u32 = 28;

/// Whether `mantissa` and `scale` are the parts of a decimal that
/// `rust_decimal` can hold.
pub open spec fn valid_parts(mantissa: int, scale: nat) -> bool {
    -MAX_MANTISSA <= mantissa <= MAX_MANTISSA && scale <= MAX_SCALE
}

/// Ten to the power `e`.
pub open spec fn pow10(e: nat) -> nat
    decreases e,
{
    if e == 0 {
        1
    } else {
        10 * pow10((e - 1) as nat)
    }
}

/// `mantissa / 10^scale` rounded to `dp` decimal places, a tie going away
/// from zero. A number that has no more than `dp` places is left as it is,
/// scale included.
pub open spec fn rounded_half_away(mantissa: int, scale: nat, dp: nat) -> (int, nat) {
    if scale <= dp {
        (mantissa, scale)
    } else {
        let unit = pow10((scale - dp) as nat);
        let magnitude = if mantissa < 0 {
            -mantissa
        } else {
            mantissa
        };
        let kept = magnitude / (unit as int) + if 2 * (magnitude % (unit as int)) >= unit {
            1int
        } else {
            0int
        };
        (
            if mantissa < 0 {
                -kept
            } else {
                kept
            },
            dp,
        )
    }
}

/// The character of the decimal digit `d`.
pub open spec fn digit_char(d: nat) -> char
    recommends
        d < 10,
{
    (48 + d) as char
}

/// The decimal digits of `n`, most significant first, without leading zeros;
/// `"0"` for zero.
pub open spec fn digits(n: nat) -> Seq<char>
    decreases n,
{
    if n < 10 {
        seq![digit_char(n)]
    } else {
        digits(n / 10).push(digit_char(n % 10))
    }
}

/// The lowest `places` decimal digits of `n`, most significant first.
pub open spec fn low_digits(n: nat, places: nat) -> Seq<char>
    decreases places,
{
    if places == 0 {
        Seq::empty()
    } else {
        low_digits(n / 10, (places - 1) as nat).push(digit_char(n % 10))
    }
}

/// How the non-negative decimal `mantissa / 10^scale` is written: the whole
/// part, and, where the scale is not zero, a point and exactly `scale`
/// digits.
pub open spec fn decimal_text(mantissa: nat, scale: nat) -> Seq<char> {
    if scale == 0 {
        digits(mantissa)
    } else {
        digits(mantissa / pow10(scale)) + seq!['.'] + low_digits(mantissa, scale)
    }
}

/// The quotient that `rust_decimal` computes for
/// `(num / 10^num_scale) / (den / 10^den_scale)`, as mantissa and scale;
/// `None` where it reports a division by zero or an overflow.
pub uninterp spec fn decimal_quotient(num: i128, num_scale: u32, den: i128, den_scale: u32) -> Option<
    (i128, u32),
>;

/// Calls `Decimal::checked_div`.
///
/// Trusted: the quotient depends on the two operands alone, and there is
/// none where the divisor is zero. Nothing else is claimed about it.
#[verifier::external_body]
pub(crate) fn checked_div(num: i128, num_scale: u32, den: i128, den_scale: u32) -> (r: Option<
    (i128, u32),
>)
    requires
        valid_parts(num as int, num_scale as nat),
        valid_parts(den as int, den_scale as nat),
    ensures
        r == decimal_quotient(num, num_scale, den, den_scale),
        den == 0 ==> r is None,
{
    let a = Decimal::from_i128_with_scale(num, num_scale);
    let b = Decimal::from_i128_with_scale(den, den_scale);
    match a.checked_div(b) {
        Some(q) => Some((q.mantissa(), q.scale())),
        None => None,
    }
}

/// Calls `Decimal::round_dp_with_strategy` with the strategy
/// `MidpointAwayFromZero`.
///
/// Trusted: the result has at most `dp` decimal places; digits beyond them
/// are cut off and the last kept digit is raised by one where the cut part is
/// half a unit or more; a number with no more than `dp` places comes back
/// unchanged.
#[verifier::external_body]
pub(crate) fn round_dp_half_away(mantissa: i128, scale: u32, dp: u32) -> (r: (i128, u32))
    requires
        valid_parts(mantissa as int, scale as nat),
    ensures
        (r.0 as int, r.1 as nat) == rounded_half_away(mantissa as int, scale as nat, dp as nat),
{
    let d = Decimal::from_i128_with_scale(mantissa, scale);
    let rounded = d.round_dp_with_strategy(dp, RoundingStrategy::MidpointAwayFromZero);
    (rounded.mantissa(), rounded.scale())
}

/// Calls `to_string` on a `Decimal`, which goes to its `Display`.
///
/// Trusted: a non-negative decimal is written as the digits of its whole
/// part, then, where its scale is not zero, a point and `scale` digits.
#[verifier::external_body]
pub(crate) fn to_text(mantissa: i128, scale: u32) -> (r: String)
    requires
        0 <= mantissa,
        valid_parts(mantissa as int, scale as nat),
    ensures
        r@ == decimal_text(mantissa as nat, scale as nat),
{
    Decimal::from_i128_with_scale(mantissa, scale).to_string()
}

} // verus!
