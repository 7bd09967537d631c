use accounting_system::date::Date;
use accounting_system::error::DomainError;
use accounting_system::money::Money;
use accounting_system::report::{
    build_report, category_stats, daily_expenses, details_by_period, summarize, trends_by_period,
    CategoryRef, TxKind, TxRow,
};

fn d(year: i32, month: u8, day: u8) -> Date {
    Date::new(year, month, day).unwrap()
}

/// `whole` currency units, exactly: the library counts ten-thousandths.
fn amount(whole: i64) -> Money {
    Money::from_units(whole as i128 * 10_000)
}

fn row(date: Date, kind: TxKind, units: i128) -> TxRow {
    TxRow {
        date,
        kind,
        amount: Money::from_units(units),
        category: None,
    }
}

fn cat_row(date: Date, kind: TxKind, units: i128, id: i64, name: &str, color: Option<&str>) -> TxRow {
    TxRow {
        date,
        kind,
        amount: Money::from_units(units),
        category: Some(CategoryRef {
            id,
            name: name.to_string(),
            color: color.map(|c| c.to_string()),
        }),
    }
}

#[test]
fn category_percentages_split_75_25() {
    let rows = vec![
        cat_row(d(2023, 5, 2), TxKind::Expense, 3_000_000, 1, "Groceries", Some("#112233")),
        cat_row(d(2023, 5, 3), TxKind::Expense, 1_000_000, 2, "Transport", None),
    ];
    let stats = category_stats(&rows, TxKind::Expense);
    assert_eq!(stats.len(), 2);
    assert_eq!(stats[0].name, "Groceries");
    assert_eq!(stats[0].amount, amount(300));
    assert_eq!(stats[0].percentage, 75);
    assert_eq!(stats[0].color, "#112233");
    assert_eq!(stats[0].transaction_count, 1);
    assert_eq!(stats[1].name, "Transport");
    assert_eq!(stats[1].amount, amount(100));
    assert_eq!(stats[1].percentage, 25);
    assert_eq!(stats[1].color, "#007bff");
    assert_eq!(stats[1].transaction_count, 1);
}

#[test]
fn category_percentages_all_zero_when_total_is_zero() {
    let rows = vec![
        cat_row(d(2023, 5, 2), TxKind::Expense, 0, 1, "A", None),
        cat_row(d(2023, 5, 3), TxKind::Expense, 0, 2, "B", None),
    ];
    let stats = category_stats(&rows, TxKind::Expense);
    assert_eq!(stats.len(), 2);
    assert_eq!(stats[0].percentage, 0);
    assert_eq!(stats[1].percentage, 0);
    // Equal amounts keep first-appearance order.
    assert_eq!(stats[0].name, "A");
    assert_eq!(stats[1].name, "B");
}

#[test]
fn category_percentage_rounds_half_up() {
    let rows = vec![
        cat_row(d(2023, 5, 2), TxKind::Expense, 875, 1, "Big", None),
        cat_row(d(2023, 5, 3), TxKind::Expense, 125, 2, "Small", None),
    ];
    let stats = category_stats(&rows, TxKind::Expense);
    assert_eq!(stats[0].percentage, 88); // 87.5 rounds up
    assert_eq!(stats[1].percentage, 13); // 12.5 rounds up
}

#[test]
fn category_stats_group_sum_and_sort() {
    let rows = vec![
        cat_row(d(2023, 5, 1), TxKind::Expense, 100, 1, "A", None),
        cat_row(d(2023, 5, 2), TxKind::Expense, 500, 2, "B", None),
        cat_row(d(2023, 5, 3), TxKind::Expense, 450, 1, "A", None),
        cat_row(d(2023, 5, 4), TxKind::Income, 9_999, 3, "Salary", None),
        row(d(2023, 5, 5), TxKind::Expense, 777),
    ];
    let stats = category_stats(&rows, TxKind::Expense);
    // The income row and the category-less row count for no expense category.
    assert_eq!(stats.len(), 2);
    assert_eq!(stats[0].name, "A");
    assert_eq!(stats[0].amount, Money::from_units(550));
    assert_eq!(stats[0].transaction_count, 2);
    assert_eq!(stats[1].name, "B");
    let income = category_stats(&rows, TxKind::Income);
    assert_eq!(income.len(), 1);
    assert_eq!(income[0].name, "Salary");
    assert_eq!(income[0].percentage, 100);
}

#[test]
fn category_stats_keep_top_ten() {
    let mut rows = Vec::new();
    for i in 0..12i64 {
        rows.push(cat_row(
            d(2023, 5, (i + 1) as u8),
            TxKind::Expense,
            (100 - i as i128) * 10_000,
            i,
            &format!("cat{}", i),
            None,
        ));
    }
    let stats = category_stats(&rows, TxKind::Expense);
    assert_eq!(stats.len(), 10);
    assert_eq!(stats[0].name, "cat0");
    assert_eq!(stats[9].name, "cat9");
    for w in stats.windows(2) {
        assert!(w[0].amount.units >= w[1].amount.units);
    }
}

#[test]
fn average_daily_expense_rounds_half_up_to_two_decimals() {
    // A ten-day inclusive range with 55.555 spent averages 5.56 a day.
    let rows = vec![row(d(2023, 3, 5), TxKind::Expense, 555_550)];
    let s = summarize(&rows, d(2023, 3, 1), d(2023, 3, 10));
    assert_eq!(s.total_expense, Money::from_units(555_550));
    assert_eq!(s.average_daily_expense, Money::from_units(55_600));
}

#[test]
fn average_over_a_single_day_range() {
    let rows = vec![row(d(2023, 3, 1), TxKind::Expense, 12_500)];
    // Start and end on the same day: one day is counted, and the average is
    // rounded half up to two decimals (1.25 stays 1.25).
    let s = summarize(&rows, d(2023, 3, 1), d(2023, 3, 1));
    assert_eq!(s.average_daily_expense, Money::from_units(12_500));
    // 0.125 over one day rounds to 0.13.
    let rows2 = vec![row(d(2023, 3, 1), TxKind::Expense, 1_250)];
    let s2 = summarize(&rows2, d(2023, 3, 1), d(2023, 3, 1));
    assert_eq!(s2.average_daily_expense, Money::from_units(1_300));
}

#[test]
fn net_balance_and_sign() {
    let rows = vec![
        row(d(2023, 3, 2), TxKind::Income, 1_000_000),
        row(d(2023, 3, 3), TxKind::Expense, 1_500_000),
    ];
    let s = summarize(&rows, d(2023, 3, 1), d(2023, 3, 31));
    assert_eq!(s.total_income, amount(100));
    assert_eq!(s.total_expense, amount(150));
    assert_eq!(s.net_balance, Money::from_units(-500_000));
    assert_eq!(s.net_balance_abs, amount(50));
    assert!(!s.is_positive_balance);
}

#[test]
fn empty_rows_give_all_zero_summary() {
    let rows: Vec<TxRow> = Vec::new();
    let report = build_report(&rows, 15, d(2023, 1, 1), d(2023, 12, 31)).unwrap();
    assert_eq!(report.summary.total_income, Money::from_units(0));
    assert_eq!(report.summary.total_expense, Money::from_units(0));
    assert_eq!(report.summary.net_balance, Money::from_units(0));
    assert_eq!(report.summary.net_balance_abs, Money::from_units(0));
    assert!(report.summary.is_positive_balance);
    assert_eq!(report.summary.average_daily_expense, Money::from_units(0));
    assert!(report.monthly_trends.is_empty());
    assert!(report.monthly_details.is_empty());
    assert!(report.daily_expenses.is_empty());
    assert!(report.expense_categories.is_empty());
    assert!(report.income_categories.is_empty());
}

#[test]
fn report_rejects_bad_inputs() {
    let rows: Vec<TxRow> = Vec::new();
    assert_eq!(
        build_report(&rows, 0, d(2023, 1, 1), d(2023, 1, 31)).err(),
        Some(DomainError::InvalidConfiguration { start_day: 0 })
    );
    assert_eq!(
        build_report(&rows, 15, d(2023, 2, 1), d(2023, 1, 31)).err(),
        Some(DomainError::InvalidDateRange {
            start: d(2023, 2, 1),
            end: d(2023, 1, 31)
        })
    );
}

#[test]
fn trends_group_by_cycle_in_order() {
    // Start day 15: January 20 and February 10 share a cycle; February 20
    // opens the next one.
    let rows = vec![
        row(d(2023, 2, 20), TxKind::Expense, 70_000),
        row(d(2023, 1, 20), TxKind::Income, 100_000),
        row(d(2023, 2, 10), TxKind::Expense, 30_000),
    ];
    let trends = trends_by_period(&rows, 15);
    assert_eq!(trends.len(), 2);
    assert_eq!((trends[0].month.year, trends[0].month.month), (2023, 1));
    assert_eq!(trends[0].income, Money::from_units(100_000));
    assert_eq!(trends[0].expense, Money::from_units(30_000));
    assert_eq!((trends[1].month.year, trends[1].month.month), (2023, 2));
    assert_eq!(trends[1].income, Money::from_units(0));
    assert_eq!(trends[1].expense, Money::from_units(70_000));
}

#[test]
fn details_carry_balance_sign_and_count() {
    let rows = vec![
        row(d(2023, 1, 20), TxKind::Income, 100_000),
        row(d(2023, 2, 10), TxKind::Expense, 30_000),
        row(d(2023, 2, 20), TxKind::Expense, 70_000),
    ];
    let details = details_by_period(&rows, 15);
    assert_eq!(details.len(), 2);
    assert_eq!(details[0].balance, Money::from_units(70_000));
    assert!(details[0].is_positive_balance);
    assert_eq!(details[0].transaction_count, 2);
    assert_eq!(details[1].balance, Money::from_units(-70_000));
    assert!(!details[1].is_positive_balance);
    assert_eq!(details[1].transaction_count, 1);
}

#[test]
fn daily_expenses_sum_per_date_ascending() {
    let rows = vec![
        row(d(2023, 5, 20), TxKind::Expense, 10_000),
        row(d(2023, 5, 10), TxKind::Expense, 20_000),
        row(d(2023, 5, 20), TxKind::Expense, 5_000),
        row(d(2023, 5, 15), TxKind::Income, 999_999),
    ];
    let daily = daily_expenses(&rows);
    assert_eq!(daily.len(), 2);
    assert_eq!(daily[0].date, d(2023, 5, 10));
    assert_eq!(daily[0].amount, Money::from_units(20_000));
    assert_eq!(daily[1].date, d(2023, 5, 20));
    assert_eq!(daily[1].amount, Money::from_units(15_000));
}
