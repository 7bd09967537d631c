//! Billing cycles: resolving a date to the cycle that contains it, and
//! labelling dates with the cycle they belong to.
//!
//! A ledger's cycle nominally starts on a configured day of each month.  In a
//! month with fewer days the start is clamped to the month's last day.  A date
//! before its month's (clamped) start day belongs to the cycle begun in the
//! previous month; the cycle ends the day before the next month's (clamped)
//! start.

use vstd::prelude::*;
use crate::date::{
    Date, MIN_YEAR, MAX_YEAR, days_in_month, days_in_month_of, prev_month, next_month, pred_date,
    succ_date, day_number, lemma_no_date_between, lemma_month_index_injective, lemma_pred_lt,
    lemma_day_number_succ,
};
use crate::error::{DomainError, check_start_day};

verus! {

/// Dates whose cycle is representable: the surrounding months must not leave
/// the calendar's year range.
pub open spec fn cycle_safe(d: Date) -> bool {
    d.valid() && MIN_YEAR < d.year < MAX_YEAR
}

/// The day a cycle starts on in month (`y`, `m`): the configured day `sd`,
/// clamped to the month's length.
pub open spec fn clamped_day(y: int, m: int, sd: int) -> int {
    if sd <= days_in_month(y, m) {
        sd
    } else {
        days_in_month(y, m)
    }
}

/// The cycle start date lying in month (`y`, `m`).
pub open spec fn clamped_start(y: int, m: int, sd: int) -> Date {
    Date { year: y as i32, month: m as u8, day: clamped_day(y, m, sd) as u8 }
}

/// The month whose (clamped) start day begins the cycle containing `d`:
/// `d`'s own month if `d` is not before that month's start, else the month
/// before.
pub open spec fn anchor_month(d: Date, sd: int) -> (int, int) {
    if d.day >= clamped_day(d.year as int, d.month as int, sd) {
        (d.year as int, d.month as int)
    } else {
        prev_month(d.year as int, d.month as int)
    }
}

/// First day of the cycle containing `d`.
pub open spec fn spec_cycle_start(d: Date, sd: int) -> Date {
    clamped_start(anchor_month(d, sd).0, anchor_month(d, sd).1, sd)
}

/// First day of the cycle after the one containing `d`.
pub open spec fn spec_next_cycle_start(d: Date, sd: int) -> Date {
    let nm = next_month(anchor_month(d, sd).0, anchor_month(d, sd).1);
    clamped_start(nm.0, nm.1, sd)
}

/// Last day of the cycle containing `d`: the day before the next cycle starts.
pub open spec fn spec_cycle_end(d: Date, sd: int) -> Date {
    pred_date(spec_next_cycle_start(d, sd))
}

/// An inclusive range of dates forming one billing cycle.
#[derive(Clone, Copy, Debug, PartialEq, Eq, Structural)]
pub struct CycleRange {
    pub start: Date,
    pub end: Date,
}

/// Identifies one billing cycle: the year and month its start day lies in,
/// paired with the configured start day for display.  Keys order
/// chronologically by (year, month).
#[derive(Clone, Copy, Debug, PartialEq, Eq, Structural, Hash)]
pub struct PeriodKey {
    pub year: i32,
    pub month: u8,
    pub start_day: u8,
}

impl PeriodKey {
    /// A well-formed key: month and start day in their calendar ranges.
    pub open spec fn valid(self) -> bool {
        1 <= self.month <= 12 && 1 <= self.start_day <= 31
    }

    /// Chronological order of period keys: by year, then month.
    pub open spec fn spec_lt(self, other: PeriodKey) -> bool {
        self.year * 12 + self.month < other.year * 12 + other.month
    }

    /// Whether `self` labels an earlier cycle than `other`.
    pub fn before(self, other: PeriodKey) -> (r: bool)
        requires
            self.valid(),
            other.valid(),
        ensures
            r == self.spec_lt(other),
    {
        if self.year != other.year {
            self.year < other.year
        } else {
            self.month < other.month
        }
    }
}

/// The period key of the cycle containing `d`.
pub open spec fn spec_label(d: Date, sd: int) -> PeriodKey {
    PeriodKey {
        year: spec_cycle_start(d, sd).year,
        month: spec_cycle_start(d, sd).month,
        start_day: sd as u8,
    }
}

/// The cycle start date lying in month (`year`, `month`), as executable code.
fn clamped_start_of(year: i32, month: u8, sd: u8) -> (r: Date)
    requires
        MIN_YEAR <= year <= MAX_YEAR,
        1 <= month <= 12,
        1 <= sd <= 31,
    ensures
        r == clamped_start(year as int, month as int, sd as int),
        r.valid(),
{
    let dim = days_in_month_of(year, month);
    if sd <= dim {
        Date { year, month, day: sd }
    } else {
        Date { year, month, day: dim }
    }
}

/// Resolves the cycle containing `reference`, for a checked start day.
fn resolve_cycle_checked(reference: Date, sd: u8) -> (r: CycleRange)
    requires
        cycle_safe(reference),
        1 <= sd <= 31,
    ensures
        r.start == spec_cycle_start(reference, sd as int),
        r.end == spec_cycle_end(reference, sd as int),
        r.start.valid(),
        r.end.valid(),
{
    let candidate = clamped_start_of(reference.year, reference.month, sd);
    if reference.before(candidate) {
        // The reference date precedes its month's start day: the cycle began
        // in the previous month and ends the day before `candidate`.
        let (py, pm): (i32, u8) = if reference.month == 1 {
            (reference.year - 1, 12)
        } else {
            (reference.year, reference.month - 1)
        };
        let start = clamped_start_of(py, pm, sd);
        let end = candidate.prev_day();
        CycleRange { start, end }
    } else {
        let (ny, nm): (i32, u8) = if reference.month == 12 {
            (reference.year + 1, 1)
        } else {
            (reference.year, reference.month + 1)
        };
        let next_start = clamped_start_of(ny, nm, sd);
        let end = next_start.prev_day();
        CycleRange { start: candidate, end }
    }
}

/// Computes the inclusive date range [cycle start, cycle end] of the billing
/// cycle containing `reference`, for a configured start day of 1 through 31.
/// A start day the month does not reach is clamped to the month's last day.
pub fn resolve_cycle(reference: Date, start_day: i32) -> (r: Result<CycleRange, DomainError>)
    requires
        cycle_safe(reference),
    ensures
        match r {
            Ok(c) => {
                &&& 1 <= start_day <= 31
                &&& c.start == spec_cycle_start(reference, start_day as int)
                &&& c.end == spec_cycle_end(reference, start_day as int)
                &&& c.start.valid()
                &&& c.end.valid()
            },
            Err(e) => !(1 <= start_day <= 31) && e == (DomainError::InvalidConfiguration {
                start_day,
            }),
        },
{
    let sd = check_start_day(start_day)?;
    Ok(resolve_cycle_checked(reference, sd))
}

/// Assigns `date` the key of the billing cycle it belongs to: the (year,
/// month) of the cycle's start date, paired with the start day.
pub fn label_period(date: Date, start_day: i32) -> (r: Result<PeriodKey, DomainError>)
    requires
        cycle_safe(date),
    ensures
        match r {
            Ok(k) => 1 <= start_day <= 31 && k == spec_label(date, start_day as int),
            Err(e) => !(1 <= start_day <= 31) && e == (DomainError::InvalidConfiguration {
                start_day,
            }),
        },
{
    let sd = check_start_day(start_day)?;
    let c = resolve_cycle_checked(date, sd);
    Ok(PeriodKey { year: c.start.year, month: c.start.month, start_day: sd })
}

/// The period key of the cycle containing `date`, for a checked start day.
pub(crate) fn label_of(date: Date, sd: u8) -> (k: PeriodKey)
    requires
        cycle_safe(date),
        1 <= sd <= 31,
    ensures
        k == spec_label(date, sd as int),
        k.valid(),
{
    let c = resolve_cycle_checked(date, sd);
    PeriodKey { year: c.start.year, month: c.start.month, start_day: sd }
}

/// A well-formed key is determined by its (year, month) index and start day.
pub proof fn lemma_key_index_injective(a: PeriodKey, b: PeriodKey)
    requires
        a.valid(),
        b.valid(),
        a.year * 12 + a.month == b.year * 12 + b.month,
        a.start_day == b.start_day,
    ensures
        a == b,
{
}

/// Relies on chrono's `Utc::now` and `Datelike` accessors: the current UTC
/// date is a valid proleptic Gregorian calendar date, so its month is 1-12
/// and its day of month exists in that month.  Nothing else can be promised
/// of a clock reading.
#[verifier::external_body]
fn today_ymd() -> (r: (i64, u8, u8))
    ensures
        1 <= r.1 <= 12,
        1 <= r.2 <= days_in_month(r.0 as int, r.1 as int),
{
    let d = chrono::Utc::now().date_naive();
    let y: i64 = chrono::Datelike::year(&d) as i64;
    let m: u8 = chrono::Datelike::month(&d) as u8;
    let day: u8 = chrono::Datelike::day(&d) as u8;
    (y, m, day)
}

/// A calendar day pulled into the range this library's cycles can represent:
/// kept as it is when its year allows resolving a cycle around it, otherwise
/// moved to the nearest end of the representable calendar.
pub open spec fn spec_clamp_reference(y: int, m: int, day: int) -> Date {
    if y <= MIN_YEAR {
        Date { year: (MIN_YEAR + 1) as i32, month: 1, day: 1 }
    } else if y >= MAX_YEAR {
        Date { year: (MAX_YEAR - 1) as i32, month: 12, day: 31 }
    } else {
        Date { year: y as i32, month: m as u8, day: day as u8 }
    }
}

fn clamp_reference(y: i64, m: u8, day: u8) -> (r: Date)
    requires
        1 <= m <= 12,
        1 <= day <= days_in_month(y as int, m as int),
    ensures
        r == spec_clamp_reference(y as int, m as int, day as int),
        cycle_safe(r),
{
    if y <= MIN_YEAR as i64 {
        Date { year: MIN_YEAR + 1, month: 1, day: 1 }
    } else if y >= MAX_YEAR as i64 {
        Date { year: MAX_YEAR - 1, month: 12, day: 31 }
    } else {
        Date { year: y as i32, month: m, day }
    }
}

/// Derives the current billing cycle from today's date (UTC): the range of
/// the cycle containing today, for a configured start day of 1 through 31.
pub fn current_cycle(start_day: i32) -> (r: Result<CycleRange, DomainError>)
    ensures
        match r {
            Ok(c) => {
                &&& 1 <= start_day <= 31
                &&& exists|t: Date|
                    cycle_safe(t) && c.start == spec_cycle_start(t, start_day as int) && c.end
                        == spec_cycle_end(t, start_day as int)
                &&& c.start.valid()
                &&& c.end.valid()
                &&& c.start.spec_le(c.end)
            },
            Err(e) => !(1 <= start_day <= 31) && e == (DomainError::InvalidConfiguration {
                start_day,
            }),
        },
{
    let sd = check_start_day(start_day)?;
    let (y, m, day) = today_ymd();
    let today = clamp_reference(y, m, day);
    let c = resolve_cycle_checked(today, sd);
    proof {
        assert(cycle_safe(today) && c.start == spec_cycle_start(today, sd as int) && c.end
            == spec_cycle_end(today, sd as int));
        lemma_cycle_contains_reference(today, sd as int);
    }
    Ok(c)
}

/// Every cycle contains its reference date: resolving a date yields a range
/// with `start <= date <= end`.
pub proof fn lemma_cycle_contains_reference(d: Date, sd: int)
    requires
        cycle_safe(d),
        1 <= sd <= 31,
    ensures
        spec_cycle_start(d, sd).spec_le(d),
        d.spec_le(spec_cycle_end(d, sd)),
{
    let a = anchor_month(d, sd);
    let ns = spec_next_cycle_start(d, sd);
    if d.day >= clamped_day(d.year as int, d.month as int, sd) {
        assert(d.spec_lt(ns));
        lemma_no_date_between(d, ns);
    } else {
        let cand = clamped_start(d.year as int, d.month as int, sd);
        assert(next_month(a.0, a.1) == (d.year as int, d.month as int));
        assert(ns == cand);
        assert(d.spec_lt(cand));
        lemma_no_date_between(d, cand);
    }
}

/// Cycle membership is well defined: every date inside a resolved range
/// resolves to that same range.  Distinct cycles therefore never overlap.
pub proof fn lemma_cycle_well_defined(d: Date, x: Date, sd: int)
    requires
        cycle_safe(d),
        cycle_safe(x),
        1 <= sd <= 31,
        spec_cycle_start(d, sd).spec_le(x),
        x.spec_le(spec_cycle_end(d, sd)),
    ensures
        spec_cycle_start(x, sd) == spec_cycle_start(d, sd),
        spec_cycle_end(x, sd) == spec_cycle_end(d, sd),
        spec_label(x, sd) == spec_label(d, sd),
{
    let a = anchor_month(d, sd);
    let s = spec_cycle_start(d, sd);
    let ns = spec_next_cycle_start(d, sd);
    let ai = a.0 * 12 + a.1;
    assert(s.month_index() == ai);
    assert(ns.month_index() == ai + 1);
    if x.month_index() == ai {
        lemma_month_index_injective(x, s);
        assert(x.day >= s.day);
        assert(anchor_month(x, sd) == a);
    } else {
        assert(x.month_index() == ai + 1);
        lemma_month_index_injective(x, ns);
        assert(x.spec_lt(ns));
        assert(x.day < ns.day);
        assert(anchor_month(x, sd) == a);
    }
}

/// Consecutive cycles tile the calendar: the day after a cycle's end is
/// exactly the next cycle's start (one day later by day number), and that
/// day's own cycle starts there.
pub proof fn lemma_cycles_tile(d: Date, sd: int)
    requires
        cycle_safe(d),
        1 <= sd <= 31,
    ensures
        succ_date(spec_cycle_end(d, sd)) == spec_next_cycle_start(d, sd),
        day_number(succ_date(spec_cycle_end(d, sd))) == day_number(spec_cycle_end(d, sd)) + 1,
        cycle_safe(spec_next_cycle_start(d, sd)) ==> spec_cycle_start(
            spec_next_cycle_start(d, sd),
            sd,
        ) == spec_next_cycle_start(d, sd),
{
    let ns = spec_next_cycle_start(d, sd);
    let e = spec_cycle_end(d, sd);
    lemma_pred_lt(ns);
    lemma_day_number_succ(e);
    if cycle_safe(ns) {
        assert(ns.day == clamped_day(ns.year as int, ns.month as int, sd));
        assert(anchor_month(ns, sd) == (ns.year as int, ns.month as int));
    }
}

/// Labelling is monotonic: of two dates in different cycles, the earlier date
/// gets the chronologically smaller period key.
pub proof fn lemma_label_monotonic(d1: Date, d2: Date, sd: int)
    requires
        cycle_safe(d1),
        cycle_safe(d2),
        1 <= sd <= 31,
        d1.spec_lt(d2),
        spec_label(d1, sd) != spec_label(d2, sd),
    ensures
        spec_label(d1, sd).spec_lt(spec_label(d2, sd)),
{
    let a1 = anchor_month(d1, sd);
    let a2 = anchor_month(d2, sd);
    let ai1 = a1.0 * 12 + a1.1;
    let ai2 = a2.0 * 12 + a2.1;
    assert(ai1 <= d1.month_index());
    assert(ai2 >= d2.month_index() - 1);
    if d1.month_index() == d2.month_index() {
        lemma_month_index_injective(d1, d2);
        assert(d1.day < d2.day);
    }
    assert(ai1 <= ai2);
    assert(spec_label(d1, sd).year * 12 + spec_label(d1, sd).month == ai1);
    assert(spec_label(d2, sd).year * 12 + spec_label(d2, sd).month == ai2);
    if ai1 == ai2 {
        assert(spec_cycle_start(d1, sd) == spec_cycle_start(d2, sd));
        assert(false);
    }
}

} // verus!
