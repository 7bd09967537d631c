//! Exact decimal money arithmetic.
//!
//! An amount is a count of ten-thousandths (four decimal places), held in a
//! 128-bit integer, so sums, percentages and rounded averages are computed
//! exactly, with no binary floating point anywhere.

use vstd::prelude::*;

verus! {

/// Units per whole currency unit: amounts carry four decimal places.
pub const MONEY_SCALE: i128 = 10_000;

/// Largest magnitude a single transaction amount may have, in units.
pub const MAX_AMOUNT_UNITS: i128 = 100_000_000_000_000_000_000;

/// Largest magnitude a sum of amounts may have, in units: enough for the
/// largest allowed row count of full-sized amounts.
pub const MAX_TOTAL_UNITS: i128 = 10_000_000_000_000_000_000_000_000_000;

/// An exact decimal amount: `units` counts ten-thousandths.
#[derive(Clone, Copy, Debug, PartialEq, Eq, Structural, Hash)]
pub struct Money {
    pub units: i128,
}

impl Money {
    /// The zero amount.
    pub fn zero() -> (r: Money)
        ensures
            r.units == 0,
    {
        Money { units: 0 }
    }

    /// An amount of `units` ten-thousandths.
    pub fn from_units(units: i128) -> (r: Money)
        ensures
            r.units == units,
    {
        Money { units }
    }

    /// A transaction amount the aggregator accepts: non-negative and bounded.
    pub open spec fn in_amount_range(self) -> bool {
        0 <= self.units <= MAX_AMOUNT_UNITS
    }

    /// The absolute value of the amount.
    pub fn abs(self) -> (r: Money)
        requires
            self.units > i128::MIN,
        ensures
            r.units == if self.units >= 0 {
                self.units as int
            } else {
                -(self.units as int)
            },
    {
        if self.units >= 0 {
            self
        } else {
            Money { units: -self.units }
        }
    }
}

/// `n / d` rounded to the nearest integer, halves up, for `n >= 0` and
/// `d > 0`.
pub open spec fn round_half_up(n: int, d: int) -> int {
    (2 * n + d) / (2 * d)
}

/// `n / d` rounded to the nearest integer, halves up, as executable code.
fn round_half_up_div(n: i128, d: i128) -> (r: i128)
    requires
        0 <= n,
        0 < d,
        2 * n + d < i128::MAX,
    ensures
        r == round_half_up(n as int, d as int),
        0 <= r,
{
    let nn: u128 = n as u128;
    let dd: u128 = d as u128;
    ((2 * nn + dd) / (2 * dd)) as i128
}

/// The integer percentage `amount` makes of `total`, rounded half up; zero
/// whenever the total is zero.
pub open spec fn spec_percentage(amount: int, total: int) -> int {
    if total > 0 {
        round_half_up(100 * amount, total)
    } else {
        0
    }
}

/// Computes the percentage one category's amount makes of a group total.
pub fn percentage_of(amount: Money, total: Money) -> (r: i32)
    requires
        0 <= amount.units <= total.units,
        total.units <= MAX_TOTAL_UNITS,
    ensures
        r == spec_percentage(amount.units as int, total.units as int),
        0 <= r <= 100,
{
    if total.units > 0 {
        let p = round_half_up_div(100 * amount.units, total.units);
        proof {
            lemma_percentage_bounded(amount.units as int, total.units as int);
        }
        p as i32
    } else {
        0
    }
}

/// A percentage of a part against a whole never exceeds one hundred.
proof fn lemma_percentage_bounded(amount: int, total: int)
    requires
        0 <= amount <= total,
        0 < total,
    ensures
        0 <= round_half_up(100 * amount, total) <= 100,
{
    assert(2 * 100 * amount + total <= 201 * total) by (nonlinear_arith)
        requires
            0 <= amount <= total,
            0 < total,
    ;
    assert((201 * total) / (2 * total) == 100) by (nonlinear_arith)
        requires
            0 < total,
    ;
    assert((2 * (100 * amount) + total) / (2 * total) <= (201 * total) / (2 * total))
        by (nonlinear_arith)
        requires
            0 < total,
            0 <= 2 * (100 * amount) + total <= 201 * total,
    ;
    assert(round_half_up(100 * amount, total) >= 0) by (nonlinear_arith)
        requires
            0 <= amount,
            0 < total,
    ;
}

/// The average spent per day over a range of `days` days (at least one is
/// counted), rounded half up to two decimal places.
pub open spec fn spec_average_2dp(total: int, days: int) -> int {
    let d = if days < 1 {
        1
    } else {
        days
    };
    round_half_up(total, d * 100) * 100
}

/// Computes the average daily amount of `total` over `days` days, rounded
/// half up to two decimal places.
pub fn average_daily(total: Money, days: i64) -> (r: Money)
    requires
        0 <= total.units <= MAX_TOTAL_UNITS,
    ensures
        r.units == spec_average_2dp(total.units as int, days as int),
        0 <= r.units,
{
    let d: i128 = if days < 1 {
        1
    } else {
        days as i128
    };
    let q = round_half_up_div(total.units, d * 100);
    proof {
        lemma_average_bounded(total.units as int, d as int);
    }
    Money { units: q * 100 }
}

/// An average over whole days stays near the total: enough to multiply the
/// rounded quotient back to money units without overflow.
proof fn lemma_average_bounded(total: int, d: int)
    requires
        0 <= total,
        1 <= d,
    ensures
        0 <= round_half_up(total, d * 100),
        round_half_up(total, d * 100) * 100 <= total + 100,
{
    assert(0 <= round_half_up(total, d * 100) && round_half_up(total, d * 100) * 100 <= total
        + 100) by (nonlinear_arith)
        requires
            0 <= total,
            1 <= d,
    ;
}

} // verus!
