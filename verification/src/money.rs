//! Money as a whole number of cents, and the arithmetic on it.

use crate::decimal::checked_div;
use crate::decimal::decimal_quotient;
use crate::decimal::decimal_text;
use crate::decimal::round_dp_half_away;
use crate::decimal::rounded_half_away;
use crate::decimal::to_text;
use crate::decimal::valid_parts;
use crate::decimal::MAX_MANTISSA;
use crate::decimal::MAX_SCALE;
use crate::error::SplitError;
use vstd::prelude::*;

verus! {

/// A decimal number as it is entered, standing for `mantissa / 10^scale`. It
/// may be negative and may have any number of decimal places.
#[derive(Clone, Copy, Debug, PartialEq, Eq, Structural)]
pub struct Amount {
    pub mantissa: i128,
    pub scale: u32,
}

/// A non-negative amount of money with two decimal places, held in cents.
#[derive(Clone, Copy, Debug, PartialEq, Eq, Structural)]
pub struct Money {
    pub cents: u64,
}

impl View for Money {
    type V = nat;

    open spec fn view(&self) -> nat {
        self.cents as nat
    }
}

/// The cents that the decimal `mantissa / 10^scale` comes to, where it has
/// at most two decimal places.
pub open spec fn in_cents(mantissa: int, scale: nat) -> int {
    if scale == 0 {
        mantissa * 100
    } else if scale == 1 {
        mantissa * 10
    } else {
        mantissa
    }
}

/// The decimal `mantissa / 10^scale` in cents, after rounding it to two
/// decimal places with a tie going away from zero.
pub open spec fn rounded_cents(mantissa: int, scale: nat) -> int {
    let r = rounded_half_away(mantissa, scale, 2);
    in_cents(r.0, r.1)
}

/// Whether `n` cents can be held in a `Money`.
pub open spec fn fits(n: int) -> bool {
    0 <= n <= u64::MAX
}

/// The `Money` that holds `cents`, where there are any cents and they fit.
pub open spec fn held(cents: Option<nat>) -> Option<Money> {
    match cents {
        Some(c) => if fits(c as int) {
            Some(Money { cents: c as u64 })
        } else {
            None
        },
        None => None,
    }
}

/// What one of `count` participants owes of `cents`: the quotient that
/// `rust_decimal` computes, taken for an entered amount and so rounded to the
/// cent with a tie going up. `None` where there is no quotient, or it is
/// negative or cannot be held in a `Money`.
pub open spec fn even_share(cents: nat, count: nat) -> Option<nat> {
    match decimal_quotient(cents as i128, 2, count as i128, 0) {
        Some(q) => match (Amount { mantissa: q.0, scale: q.1 }).as_money() {
            Ok(share) => Some(share@),
            Err(_) => None,
        },
        None => None,
    }
}

/// The cents that a decimal with at most two decimal places comes to:
/// `None` where they are negative or too many.
fn cents_from_parts(mantissa: i128, scale: u32) -> (r: Option<u64>)
    requires
        scale <= 2,
    ensures
        r == if fits(in_cents(mantissa as int, scale as nat)) {
            Some(in_cents(mantissa as int, scale as nat) as u64)
        } else {
            None
        },
{
    if mantissa < 0 || mantissa > u64::MAX as i128 {
        return None;
    }
    let factor: i128 = if scale == 0 {
        100
    } else if scale == 1 {
        10
    } else {
        1
    };
    let scaled: i128 = mantissa * factor;
    if scaled > u64::MAX as i128 {
        None
    } else {
        Some(scaled as u64)
    }
}

impl Amount {
    /// What `Money::from_amount` makes of this amount.
    pub open spec fn as_money(self) -> Result<Money, SplitError> {
        if self.mantissa < 0 {
            Err(SplitError::NegativeAmount)
        } else if !valid_parts(self.mantissa as int, self.scale as nat) || !fits(
            rounded_cents(self.mantissa as int, self.scale as nat),
        ) {
            Err(SplitError::AmountOutOfRange)
        } else {
            Ok(Money { cents: rounded_cents(self.mantissa as int, self.scale as nat) as u64 })
        }
    }
}

impl Money {
    /// No money.
    pub fn zero() -> (r: Money)
        ensures
            r@ == 0,
    {
        Money { cents: 0 }
    }

    /// The amount of `cents` cents.
    pub fn from_cents(cents: u64) -> (r: Money)
        ensures
            r@ == cents,
    {
        Money { cents }
    }

    /// Rounds an entered amount to the cent, a tie going up. A negative
    /// amount is turned down, and so is one that `rust_decimal` or `Money`
    /// cannot hold.
    pub fn from_amount(amount: Amount) -> (r: Result<Money, SplitError>)
        ensures
            r == amount.as_money(),
    {
        if amount.mantissa < 0 {
            return Err(SplitError::NegativeAmount);
        }
        if amount.mantissa > MAX_MANTISSA || amount.scale > MAX_SCALE {
            return Err(SplitError::AmountOutOfRange);
        }
        let rounded = round_dp_half_away(amount.mantissa, amount.scale, 2);
        match cents_from_parts(rounded.0, rounded.1) {
            Some(cents) => Ok(Money { cents }),
            None => Err(SplitError::AmountOutOfRange),
        }
    }

    /// The sum of two amounts, or `None` where it is beyond what `Money` can
    /// hold.
    pub fn checked_add(self, other: Money) -> (r: Option<Money>)
        ensures
            r == if fits((self@ + other@) as int) {
                Some(Money { cents: (self@ + other@) as u64 })
            } else {
                None
            },
    {
        match self.cents.checked_add(other.cents) {
            Some(cents) => Some(Money { cents }),
            None => None,
        }
    }

    /// What each of `count` participants owes of this amount when it is
    /// shared evenly: the quotient rounded to the cent, a tie going up.
    /// `None` where nobody shares it, or the share cannot be held.
    pub fn split_evenly(self, count: u64) -> (r: Option<Money>)
        ensures
            r == held(even_share(self@, count as nat)),
            count == 0 ==> r is None,
    {
        match checked_div(self.cents as i128, 2, count as i128, 0) {
            Some(q) => match Money::from_amount(Amount { mantissa: q.0, scale: q.1 }) {
                Ok(share) => Some(share),
                Err(_) => None,
            },
            None => None,
        }
    }

    /// This amount as text: the whole part, a point and two digits.
    pub fn to_text(&self) -> (r: String)
        ensures
            r@ == decimal_text(self@, 2),
    {
        to_text(self.cents as i128, 2)
    }
}

} // verus!
