//! Calendar dates of the proleptic Gregorian calendar, with verified
//! month-length, ordering and day-arithmetic facts.

use vstd::prelude::*;

verus! {

/// Smallest year a `Date` may hold.
pub const MIN_YEAR: i32 = 1;
/// Largest year a `Date` may hold.
pub const MAX_YEAR: i32 = 9999;

/// A calendar date: year, month (1-12) and day of month (1-31).
#[derive(Clone, Copy, Debug, PartialEq, Eq, Structural, Hash)]
pub struct Date {
    pub year: i32,
    pub month: u8,
    pub day: u8,
}

/// Whether `y` is a leap year of the Gregorian calendar.
pub open spec fn is_leap_year(y: int) -> bool {
    (y % 4 == 0 && y % 100 != 0) || y % 400 == 0
}

/// Number of days of month `m` of year `y`.
pub open spec fn days_in_month(y: int, m: int) -> int {
    if m == 2 {
        if is_leap_year(y) {
            29
        } else {
            28
        }
    } else if m == 4 || m == 6 || m == 9 || m == 11 {
        30
    } else {
        31
    }
}

impl Date {
    /// A well-formed date: the year is in range and the day exists in the month.
    pub open spec fn valid(self) -> bool {
        &&& MIN_YEAR <= self.year <= MAX_YEAR
        &&& 1 <= self.month <= 12
        &&& 1 <= self.day <= days_in_month(self.year as int, self.month as int)
    }

    /// Months since the calendar's origin; orders (year, month) pairs.
    pub open spec fn month_index(self) -> int {
        self.year * 12 + self.month
    }

    /// Strict chronological order on dates.
    pub open spec fn spec_lt(self, other: Date) -> bool {
        self.month_index() < other.month_index() || (self.month_index() == other.month_index()
            && self.day < other.day)
    }

    /// Chronological order on dates, allowing equality.
    pub open spec fn spec_le(self, other: Date) -> bool {
        self.spec_lt(other) || self == other
    }
}

/// The month before (`y`, `m`), rolling over a year boundary.
pub open spec fn prev_month(y: int, m: int) -> (int, int) {
    if m == 1 {
        (y - 1, 12)
    } else {
        (y, m - 1)
    }
}

/// The month after (`y`, `m`), rolling over a year boundary.
pub open spec fn next_month(y: int, m: int) -> (int, int) {
    if m == 12 {
        (y + 1, 1)
    } else {
        (y, m + 1)
    }
}

/// The calendar day after `d`.
pub open spec fn succ_date(d: Date) -> Date {
    if d.day < days_in_month(d.year as int, d.month as int) {
        Date { year: d.year, month: d.month, day: (d.day + 1) as u8 }
    } else if d.month < 12 {
        Date { year: d.year, month: (d.month + 1) as u8, day: 1 }
    } else {
        Date { year: (d.year + 1) as i32, month: 1, day: 1 }
    }
}

/// The calendar day before `d`.
pub open spec fn pred_date(d: Date) -> Date {
    if d.day > 1 {
        Date { year: d.year, month: d.month, day: (d.day - 1) as u8 }
    } else if d.month > 1 {
        Date {
            year: d.year,
            month: (d.month - 1) as u8,
            day: days_in_month(d.year as int, d.month - 1) as u8,
        }
    } else {
        Date { year: (d.year - 1) as i32, month: 12, day: 31 }
    }
}

/// Days in all months of year `y` before month `m`.
pub open spec fn days_before_month(y: int, m: int) -> int {
    let base: int = if m == 1 {
        0
    } else if m == 2 {
        31
    } else if m == 3 {
        59
    } else if m == 4 {
        90
    } else if m == 5 {
        120
    } else if m == 6 {
        151
    } else if m == 7 {
        181
    } else if m == 8 {
        212
    } else if m == 9 {
        243
    } else if m == 10 {
        273
    } else if m == 11 {
        304
    } else {
        334
    };
    if m >= 3 && is_leap_year(y) {
        base + 1
    } else {
        base
    }
}

/// Number of days in year `y`.
pub open spec fn days_in_year(y: int) -> int {
    if is_leap_year(y) {
        366
    } else {
        365
    }
}

/// Days in all years of the calendar before year `y` (for `y >= 1`).
pub open spec fn days_before_year(y: int) -> int {
    365 * (y - 1) + (y - 1) / 4 - (y - 1) / 100 + (y - 1) / 400
}

/// The ordinal number of a day in the calendar: the first representable day,
/// January 1 of year 1, is day 1.  Consecutive dates have consecutive numbers.
pub open spec fn day_number(d: Date) -> int {
    days_before_year(d.year as int) + days_before_month(d.year as int, d.month as int) + d.day
}

/// Number of days of month `m` of year `y`, as executable code.
pub fn days_in_month_of(year: i32, month: u8) -> (n: u8)
    requires
        1 <= month <= 12,
    ensures
        n == days_in_month(year as int, month as int),
{
    if month == 2 {
        let leap: bool = (year % 4 == 0 && year % 100 != 0) || year % 400 == 0;
        if leap {
            29
        } else {
            28
        }
    } else if month == 4 || month == 6 || month == 9 || month == 11 {
        30
    } else {
        31
    }
}

impl Date {
    /// Builds a date after checking that it is well formed.
    pub fn new(year: i32, month: u8, day: u8) -> (r: Option<Date>)
        ensures
            match r {
                Some(d) => d == (Date { year, month, day }) && d.valid(),
                None => !(Date { year, month, day }).valid(),
            },
    {
        if MIN_YEAR <= year && year <= MAX_YEAR && 1 <= month && month <= 12 && 1 <= day
            && day <= days_in_month_of(year, month) {
            Some(Date { year, month, day })
        } else {
            None
        }
    }

    /// Whether `self` is strictly before `other`.
    pub fn before(self, other: Date) -> (r: bool)
        requires
            self.valid(),
            other.valid(),
        ensures
            r == self.spec_lt(other),
    {
        if self.year != other.year {
            self.year < other.year
        } else if self.month != other.month {
            self.month < other.month
        } else {
            self.day < other.day
        }
    }

    /// Whether `self` is on or before `other`.
    pub fn on_or_before(self, other: Date) -> (r: bool)
        requires
            self.valid(),
            other.valid(),
        ensures
            r == self.spec_le(other),
    {
        !other.before(self)
    }

    /// The day after `self`.
    pub fn next_day(self) -> (r: Date)
        requires
            self.valid(),
            succ_date(self).valid(),
        ensures
            r == succ_date(self),
    {
        let dim = days_in_month_of(self.year, self.month);
        if self.day < dim {
            Date { year: self.year, month: self.month, day: self.day + 1 }
        } else if self.month < 12 {
            Date { year: self.year, month: self.month + 1, day: 1 }
        } else {
            Date { year: self.year + 1, month: 1, day: 1 }
        }
    }

    /// The day before `self`.
    pub fn prev_day(self) -> (r: Date)
        requires
            self.valid(),
            pred_date(self).valid(),
        ensures
            r == pred_date(self),
    {
        if self.day > 1 {
            Date { year: self.year, month: self.month, day: self.day - 1 }
        } else if self.month > 1 {
            let m = self.month - 1;
            Date { year: self.year, month: m, day: days_in_month_of(self.year, m) }
        } else {
            Date { year: self.year - 1, month: 12, day: 31 }
        }
    }

    /// The ordinal day number of `self`, as executable code.
    pub fn day_number_of(self) -> (n: i64)
        requires
            self.valid(),
        ensures
            n == day_number(self),
            0 < n < 4_000_000,
    {
        let yy: u64 = (self.year - 1) as u64;
        let from_years: u64 = 365 * yy + yy / 4 - yy / 100 + yy / 400;
        let from_months: u64 = days_before_month_of(self.year, self.month) as u64;
        (from_years + from_months + self.day as u64) as i64
    }
}

/// Days in all months of year `y` before month `m`, as executable code.
pub fn days_before_month_of(year: i32, month: u8) -> (n: u16)
    requires
        1 <= month <= 12,
    ensures
        n == days_before_month(year as int, month as int),
{
    let base: u16 = match month {
        1 => 0,
        2 => 31,
        3 => 59,
        4 => 90,
        5 => 120,
        6 => 151,
        7 => 181,
        8 => 212,
        9 => 243,
        10 => 273,
        11 => 304,
        _ => 334,
    };
    let leap: bool = (year % 4 == 0 && year % 100 != 0) || year % 400 == 0;
    if month >= 3 && leap {
        base + 1
    } else {
        base
    }
}

/// A valid date and its predecessor are adjacent in chronological order.
pub proof fn lemma_pred_lt(d: Date)
    requires
        d.valid(),
    ensures
        pred_date(d).spec_lt(d),
        succ_date(pred_date(d)) == d,
{
}

/// Distinct valid dates with equal (year, month) indices cannot exist:
/// the month index determines year and month.
pub proof fn lemma_month_index_injective(a: Date, b: Date)
    requires
        1 <= a.month <= 12,
        1 <= b.month <= 12,
        a.month_index() == b.month_index(),
    ensures
        a.year == b.year && a.month == b.month,
{
}

/// There is no valid date strictly between `pred_date(b)` and `b`:
/// any valid date strictly before `b` is on or before `b`'s predecessor.
pub proof fn lemma_no_date_between(a: Date, b: Date)
    requires
        a.valid(),
        b.valid(),
        a.spec_lt(b),
    ensures
        a.spec_le(pred_date(b)),
{
    if b.day > 1 {
        if a.month_index() == b.month_index() {
            lemma_month_index_injective(a, b);
        }
    } else {
        let p = pred_date(b);
        assert(a.month_index() < b.month_index());
        assert(p.month_index() + 1 == b.month_index());
        if a.month_index() == p.month_index() {
            lemma_month_index_injective(a, p);
        }
    }
}

/// Total order: two valid dates are equal or one is strictly before the other.
pub proof fn lemma_date_order_total(a: Date, b: Date)
    requires
        a.valid(),
        b.valid(),
    ensures
        a.spec_lt(b) || b.spec_lt(a) || a == b,
{
    if a.month_index() == b.month_index() {
        lemma_month_index_injective(a, b);
    }
}

/// Adding one month's length to the days before it gives the days before the
/// next month (or the year's length, after December).
proof fn lemma_days_before_month_step(y: int, m: int)
    requires
        1 <= m <= 12,
    ensures
        days_before_month(y, m) + days_in_month(y, m) == if m < 12 {
            days_before_month(y, m + 1)
        } else {
            days_in_year(y)
        },
{
}

/// Every day of a month falls within its year's length.
proof fn lemma_days_before_month_bound(y: int, m: int, d: int)
    requires
        1 <= m <= 12,
        1 <= d <= days_in_month(y, m),
    ensures
        0 < days_before_month(y, m) + d <= days_in_year(y),
{
}

/// Extending the year count by one adds exactly that year's length.
proof fn lemma_days_before_year_step(y: int)
    requires
        y >= 1,
    ensures
        days_before_year(y + 1) == days_before_year(y) + days_in_year(y),
{
    assert(y / 4 - (y - 1) / 4 == if y % 4 == 0 { 1int } else { 0int });
    assert(y / 100 - (y - 1) / 100 == if y % 100 == 0 { 1int } else { 0int });
    assert(y / 400 - (y - 1) / 400 == if y % 400 == 0 { 1int } else { 0int });
}

/// Day counts of earlier years are smaller, by at least 365 days a year.
proof fn lemma_days_before_year_monotone(a: int, b: int)
    requires
        1 <= a <= b,
    ensures
        days_before_year(a) + 365 * (b - a) <= days_before_year(b),
    decreases b - a,
{
    if a < b {
        lemma_days_before_year_monotone(a, b - 1);
        lemma_days_before_year_step(b - 1);
    }
}

/// Consecutive dates have consecutive day numbers.
pub proof fn lemma_day_number_succ(d: Date)
    requires
        d.valid(),
        succ_date(d).valid(),
    ensures
        day_number(succ_date(d)) == day_number(d) + 1,
{
    let y = d.year as int;
    let m = d.month as int;
    if d.day < days_in_month(y, m) {
    } else if d.month < 12 {
        lemma_days_before_month_step(y, m);
    } else {
        lemma_days_before_month_step(y, 12);
        lemma_days_before_year_step(y);
    }
}

/// Day numbers order dates exactly as the calendar does.
pub proof fn lemma_day_number_order(a: Date, b: Date)
    requires
        a.valid(),
        b.valid(),
    ensures
        a.spec_lt(b) <==> day_number(a) < day_number(b),
        a == b <==> day_number(a) == day_number(b),
{
    if a.spec_lt(b) {
        lemma_day_number_strict(a, b);
    }
    if b.spec_lt(a) {
        lemma_day_number_strict(b, a);
    }
    lemma_date_order_total(a, b);
}

/// A strictly earlier valid date has a strictly smaller day number.
proof fn lemma_day_number_strict(a: Date, b: Date)
    requires
        a.valid(),
        b.valid(),
        a.spec_lt(b),
    ensures
        day_number(a) < day_number(b),
{
    let ya = a.year as int;
    let yb = b.year as int;
    if ya == yb {
        if a.month == b.month {
        } else {
            lemma_days_before_month_bound(ya, a.month as int, a.day as int);
            lemma_days_before_month_step(ya, a.month as int);
            lemma_days_before_month_monotone(ya, a.month + 1, b.month as int);
            assert(days_before_month(ya, a.month as int) + a.day <= days_before_month(
                ya,
                b.month as int,
            ));
        }
    } else {
        lemma_days_before_month_bound(ya, a.month as int, a.day as int);
        lemma_days_before_year_step(ya);
        lemma_days_before_year_monotone(ya + 1, yb);
        assert(days_before_month(yb, b.month as int) >= 0);
    }
}

/// Day counts of earlier months of one year are smaller.
proof fn lemma_days_before_month_monotone(y: int, m1: int, m2: int)
    requires
        1 <= m1 <= m2 <= 12,
    ensures
        days_before_month(y, m1) <= days_before_month(y, m2),
{
}

} // verus!
