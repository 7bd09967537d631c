use accounting_system::cycle::{current_cycle, label_period, resolve_cycle, PeriodKey};
use accounting_system::date::Date;
use accounting_system::error::DomainError;

fn d(year: i32, month: u8, day: u8) -> Date {
    Date::new(year, month, day).unwrap()
}

#[test]
fn resolve_plain_month_start() {
    // Start day 1: the cycle is the calendar month.
    let c = resolve_cycle(d(2023, 5, 10), 1).unwrap();
    assert_eq!(c.start, d(2023, 5, 1));
    assert_eq!(c.end, d(2023, 5, 31));
}

#[test]
fn resolve_before_start_day_belongs_to_previous_cycle() {
    let c = resolve_cycle(d(2023, 5, 10), 15).unwrap();
    assert_eq!(c.start, d(2023, 4, 15));
    assert_eq!(c.end, d(2023, 5, 14));
}

#[test]
fn resolve_on_start_day_opens_new_cycle() {
    let c = resolve_cycle(d(2023, 5, 15), 15).unwrap();
    assert_eq!(c.start, d(2023, 5, 15));
    assert_eq!(c.end, d(2023, 6, 14));
}

#[test]
fn resolve_clamps_to_short_month() {
    // February 2023 has 28 days; a start day of 31 clamps to each month's
    // last day.
    let c = resolve_cycle(d(2023, 2, 15), 31).unwrap();
    assert_eq!(c.start, d(2023, 1, 31));
    assert_eq!(c.end, d(2023, 2, 27));
}

#[test]
fn resolve_clamped_cycle_end_in_leap_february() {
    let c = resolve_cycle(d(2024, 2, 15), 31).unwrap();
    assert_eq!(c.start, d(2024, 1, 31));
    assert_eq!(c.end, d(2024, 2, 28));
}

#[test]
fn resolve_rolls_over_december() {
    let c = resolve_cycle(d(2023, 12, 20), 15).unwrap();
    assert_eq!(c.start, d(2023, 12, 15));
    assert_eq!(c.end, d(2024, 1, 14));
    // A January date before the start day falls in the same cycle.
    let c2 = resolve_cycle(d(2024, 1, 5), 15).unwrap();
    assert_eq!(c2.start, c.start);
    assert_eq!(c2.end, c.end);
}

#[test]
fn resolve_rejects_bad_start_day() {
    assert_eq!(
        resolve_cycle(d(2023, 5, 10), 0),
        Err(DomainError::InvalidConfiguration { start_day: 0 })
    );
    assert_eq!(
        resolve_cycle(d(2023, 5, 10), 32),
        Err(DomainError::InvalidConfiguration { start_day: 32 })
    );
    assert!(resolve_cycle(d(2023, 5, 10), -3).is_err());
}

#[test]
fn cycles_tile_the_calendar() {
    // The day after each cycle's end starts the next cycle, for several
    // start days and dates.
    for &sd in &[1, 2, 15, 28, 29, 30, 31] {
        for &date in &[
            d(2023, 1, 1),
            d(2023, 2, 15),
            d(2023, 12, 31),
            d(2024, 2, 29),
            d(2024, 3, 1),
        ] {
            let c = resolve_cycle(date, sd).unwrap();
            assert!(c.start.on_or_before(date) && date.on_or_before(c.end));
            let after = c.end.next_day();
            let next = resolve_cycle(after, sd).unwrap();
            assert_eq!(next.start, after);
        }
    }
}

#[test]
fn label_matches_cycle_start() {
    let k = label_period(d(2023, 2, 15), 31).unwrap();
    assert_eq!(
        k,
        PeriodKey {
            year: 2023,
            month: 1,
            start_day: 31
        }
    );
}

#[test]
fn labels_order_chronologically() {
    let k1 = label_period(d(2023, 12, 20), 15).unwrap();
    let k2 = label_period(d(2024, 1, 20), 15).unwrap();
    assert!(k1.before(k2));
    assert!(!k2.before(k1));
    // Same cycle across a year boundary: equal labels.
    let k3 = label_period(d(2024, 1, 5), 15).unwrap();
    assert_eq!(k1, k3);
}

#[test]
fn current_cycle_contains_a_day() {
    let c = current_cycle(15).unwrap();
    assert!(c.start.on_or_before(c.end));
    assert!(current_cycle(0).is_err());
}
