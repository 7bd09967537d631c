use accounting_system::date::{days_in_month_of, Date};

fn d(year: i32, month: u8, day: u8) -> Date {
    Date::new(year, month, day).unwrap()
}

#[test]
fn month_lengths() {
    assert_eq!(days_in_month_of(2023, 1), 31);
    assert_eq!(days_in_month_of(2023, 2), 28);
    assert_eq!(days_in_month_of(2024, 2), 29);
    assert_eq!(days_in_month_of(2000, 2), 29);
    assert_eq!(days_in_month_of(1900, 2), 28);
    assert_eq!(days_in_month_of(2023, 4), 30);
    assert_eq!(days_in_month_of(2023, 12), 31);
}

#[test]
fn rejects_days_that_do_not_exist() {
    assert!(Date::new(2023, 2, 29).is_none());
    assert!(Date::new(2024, 2, 29).is_some());
    assert!(Date::new(2023, 4, 31).is_none());
    assert!(Date::new(2023, 13, 1).is_none());
    assert!(Date::new(2023, 0, 1).is_none());
    assert!(Date::new(2023, 1, 0).is_none());
}

#[test]
fn successor_and_predecessor_step_one_day() {
    assert_eq!(d(2023, 2, 28).next_day(), d(2023, 3, 1));
    assert_eq!(d(2024, 2, 28).next_day(), d(2024, 2, 29));
    assert_eq!(d(2023, 12, 31).next_day(), d(2024, 1, 1));
    assert_eq!(d(2024, 1, 1).prev_day(), d(2023, 12, 31));
    assert_eq!(d(2023, 3, 1).prev_day(), d(2023, 2, 28));
}

#[test]
fn day_numbers_count_days() {
    assert_eq!(d(2023, 3, 1).day_number_of() - d(2023, 2, 28).day_number_of(), 1);
    assert_eq!(d(2024, 3, 1).day_number_of() - d(2024, 2, 28).day_number_of(), 2);
    assert_eq!(d(2024, 1, 1).day_number_of() - d(2023, 1, 1).day_number_of(), 365);
    assert_eq!(d(2025, 1, 1).day_number_of() - d(2024, 1, 1).day_number_of(), 366);
}

#[test]
fn day_numbers_agree_with_chrono() {
    let pairs = [
        ((2023, 1, 1), (2023, 12, 31)),
        ((2000, 2, 28), (2000, 3, 1)),
        ((1999, 12, 31), (2000, 1, 1)),
        ((1970, 1, 1), (2023, 6, 15)),
    ];
    for &((y1, m1, d1), (y2, m2, d2)) in &pairs {
        let a = d(y1, m1 as u8, d1 as u8);
        let b = d(y2, m2 as u8, d2 as u8);
        let ca = chrono::NaiveDate::from_ymd_opt(y1, m1, d1).unwrap();
        let cb = chrono::NaiveDate::from_ymd_opt(y2, m2, d2).unwrap();
        assert_eq!(
            b.day_number_of() - a.day_number_of(),
            (cb - ca).num_days()
        );
    }
}

#[test]
fn ordering_is_chronological() {
    assert!(d(2023, 12, 31).before(d(2024, 1, 1)));
    assert!(d(2023, 5, 10).before(d(2023, 5, 11)));
    assert!(!d(2023, 5, 10).before(d(2023, 5, 10)));
    assert!(d(2023, 5, 10).on_or_before(d(2023, 5, 10)));
}
