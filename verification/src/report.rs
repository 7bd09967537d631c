//! The aggregator: folds transaction rows into per-cycle, per-category and
//! per-day totals and an overall summary, all with exact decimal arithmetic.
//!
//! Rows are handed in already fetched and already scoped to one ledger and
//! one inclusive date range; aggregation itself is a pure computation.

use vstd::prelude::*;
use crate::cycle::{cycle_safe, spec_label, PeriodKey};
use crate::date::{Date, day_number};
use crate::money::{Money, MAX_AMOUNT_UNITS, MAX_TOTAL_UNITS, spec_average_2dp};
use crate::error::DomainError;

verus! {

/// Largest number of rows one aggregation accepts; keeps every sum within
/// [`MAX_TOTAL_UNITS`].
pub const MAX_ROWS: usize = 100_000_000;

/// Whether a transaction moves money in or out.
#[derive(Clone, Copy, Debug, PartialEq, Eq, Structural, Hash)]
pub enum TxKind {
    Income,
    Expense,
}

/// The category a transaction row was joined with.
#[derive(Debug)]
pub struct CategoryRef {
    pub id: i64,
    pub name: String,
    pub color: Option<String>,
}

/// One transaction row, as the data-access collaborator returns it: the
/// category join fields are present only when they were requested.
#[derive(Debug)]
pub struct TxRow {
    pub date: Date,
    pub kind: TxKind,
    pub amount: Money,
    pub category: Option<CategoryRef>,
}

/// A row the aggregator accepts: its date can be resolved to a cycle and its
/// amount is non-negative and bounded.
pub open spec fn row_ok(r: TxRow) -> bool {
    cycle_safe(r.date) && r.amount.in_amount_range()
}

/// All rows of a sequence are acceptable.
pub open spec fn rows_ok(rows: Seq<TxRow>) -> bool {
    forall|i: int| 0 <= i < rows.len() ==> row_ok(#[trigger] rows[i])
}

/// The row subsets the aggregations sum over.
pub enum RowFilter {
    /// Rows of one kind.
    Kind(TxKind),
    /// Rows of one kind falling in the cycle with this key, for a start day.
    PeriodKind(PeriodKey, int, TxKind),
    /// All rows falling in the cycle with this key, for a start day.
    Period(PeriodKey, int),
    /// Expense rows on one exact date.
    DayExpense(Date),
    /// Rows of one kind joined with one category.
    CatKind(TxKind, i64),
    /// Rows of one kind joined with any category.
    AnyCat(TxKind),
}

/// Whether row `r` belongs to the subset `f` selects.
pub open spec fn row_matches(f: RowFilter, r: TxRow) -> bool {
    match f {
        RowFilter::Kind(k) => r.kind == k,
        RowFilter::PeriodKind(key, sd, k) => spec_label(r.date, sd) == key && r.kind == k,
        RowFilter::Period(key, sd) => spec_label(r.date, sd) == key,
        RowFilter::DayExpense(d) => r.kind == TxKind::Expense && r.date == d,
        RowFilter::CatKind(k, id) => r.kind == k && match r.category {
            Some(c) => c.id == id,
            None => false,
        },
        RowFilter::AnyCat(k) => r.kind == k && r.category is Some,
    }
}

/// Sum of the amounts of the rows `f` selects.
pub open spec fn sum_where(rows: Seq<TxRow>, f: RowFilter) -> int
    decreases rows.len(),
{
    if rows.len() == 0 {
        0
    } else {
        sum_where(rows.drop_last(), f) + if row_matches(f, rows.last()) {
            rows.last().amount.units as int
        } else {
            0
        }
    }
}

/// Number of rows `f` selects.
pub open spec fn count_where(rows: Seq<TxRow>, f: RowFilter) -> int
    decreases rows.len(),
{
    if rows.len() == 0 {
        0
    } else {
        count_where(rows.drop_last(), f) + if row_matches(f, rows.last()) {
            1int
        } else {
            0int
        }
    }
}

/// Total income over all rows.
pub open spec fn total_income(rows: Seq<TxRow>) -> int {
    sum_where(rows, RowFilter::Kind(TxKind::Income))
}

/// Total expense over all rows.
pub open spec fn total_expense(rows: Seq<TxRow>) -> int {
    sum_where(rows, RowFilter::Kind(TxKind::Expense))
}

/// Growing the summed prefix by one row adds that row's contribution.
pub proof fn lemma_sum_take_step(rows: Seq<TxRow>, f: RowFilter, i: int)
    requires
        0 <= i < rows.len(),
    ensures
        sum_where(rows.take(i + 1), f) == sum_where(rows.take(i), f) + if row_matches(
            f,
            rows[i],
        ) {
            rows[i].amount.units as int
        } else {
            0
        },
        count_where(rows.take(i + 1), f) == count_where(rows.take(i), f) + if row_matches(
            f,
            rows[i],
        ) {
            1int
        } else {
            0int
        },
{
    assert(rows.take(i + 1).drop_last() =~= rows.take(i));
    assert(rows.take(i + 1).last() == rows[i]);
}

/// Sums of acceptable rows are non-negative and bounded by the row count.
pub proof fn lemma_sum_bound(rows: Seq<TxRow>, f: RowFilter)
    requires
        rows_ok(rows),
    ensures
        0 <= sum_where(rows, f) <= rows.len() * MAX_AMOUNT_UNITS,
        0 <= count_where(rows, f) <= rows.len(),
        rows.len() <= MAX_ROWS ==> sum_where(rows, f) <= MAX_TOTAL_UNITS,
    decreases rows.len(),
{
    if rows.len() == 0 {
    } else {
        assert(rows_ok(rows.drop_last())) by {
            assert(forall|i: int|
                0 <= i < rows.len() - 1 ==> #[trigger] rows.drop_last()[i] == rows[i]);
        }
        lemma_sum_bound(rows.drop_last(), f);
        assert(rows.len() * MAX_AMOUNT_UNITS == (rows.len() - 1) * MAX_AMOUNT_UNITS
            + MAX_AMOUNT_UNITS) by (nonlinear_arith);
    }
    if rows.len() <= MAX_ROWS {
        assert(rows.len() * MAX_AMOUNT_UNITS <= MAX_ROWS * MAX_AMOUNT_UNITS) by (nonlinear_arith)
            requires
                rows.len() <= MAX_ROWS,
        ;
    }
}

/// A sum over rows none of which the filter selects is zero.
pub proof fn lemma_sum_zero(rows: Seq<TxRow>, f: RowFilter)
    requires
        forall|i: int| 0 <= i < rows.len() ==> !row_matches(f, #[trigger] rows[i]),
    ensures
        sum_where(rows, f) == 0,
        count_where(rows, f) == 0,
    decreases rows.len(),
{
    if rows.len() > 0 {
        assert(forall|i: int|
            0 <= i < rows.len() - 1 ==> #[trigger] rows.drop_last()[i] == rows[i]);
        lemma_sum_zero(rows.drop_last(), f);
    }
}

/// A sum over a subset of the selected rows is no larger than the sum over
/// all of them.
pub proof fn lemma_sum_subset(rows: Seq<TxRow>, f: RowFilter, g: RowFilter)
    requires
        rows_ok(rows),
        forall|i: int|
            0 <= i < rows.len() && row_matches(f, #[trigger] rows[i]) ==> row_matches(g, rows[i]),
    ensures
        sum_where(rows, f) <= sum_where(rows, g),
    decreases rows.len(),
{
    if rows.len() > 0 {
        assert(forall|i: int|
            0 <= i < rows.len() - 1 ==> #[trigger] rows.drop_last()[i] == rows[i]);
        lemma_sum_subset(rows.drop_last(), f, g);
    }
}

/// Income of the rows falling in the cycle labelled `key`.
pub open spec fn period_income(rows: Seq<TxRow>, sd: int, key: PeriodKey) -> int {
    sum_where(rows, RowFilter::PeriodKind(key, sd, TxKind::Income))
}

/// Expense of the rows falling in the cycle labelled `key`.
pub open spec fn period_expense(rows: Seq<TxRow>, sd: int, key: PeriodKey) -> int {
    sum_where(rows, RowFilter::PeriodKind(key, sd, TxKind::Expense))
}

/// Number of rows falling in the cycle labelled `key`.
pub open spec fn period_count(rows: Seq<TxRow>, sd: int, key: PeriodKey) -> int {
    count_where(rows, RowFilter::Period(key, sd))
}

/// Whether some row falls in the cycle labelled `key`.
pub open spec fn key_present(rows: Seq<TxRow>, sd: int, key: PeriodKey) -> bool {
    exists|i: int| 0 <= i < rows.len() && spec_label(#[trigger] rows[i].date, sd) == key
}

/// Whether the detail list has an entry for `key`.
pub open spec fn details_has_key(out: Seq<MonthlyDetail>, key: PeriodKey) -> bool {
    exists|j: int| 0 <= j < out.len() && (#[trigger] out[j]).date == key
}

/// One billing cycle's income, expense, balance and row count.
#[derive(Clone, Copy, Debug, PartialEq, Eq, Structural)]
pub struct MonthlyDetail {
    pub date: PeriodKey,
    pub income: Money,
    pub expense: Money,
    pub balance: Money,
    pub is_positive_balance: bool,
    pub transaction_count: i64,
}

/// One billing cycle's income and expense, for the trend chart.
#[derive(Clone, Copy, Debug, PartialEq, Eq, Structural)]
pub struct MonthlyTrend {
    pub month: PeriodKey,
    pub income: Money,
    pub expense: Money,
}

/// What a correct per-cycle detail list states: one entry per cycle that has
/// rows, in chronological order, with that cycle's exact sums and row count.
pub open spec fn details_correct(out: Seq<MonthlyDetail>, rows: Seq<TxRow>, sd: int) -> bool {
    &&& forall|j1: int, j2: int|
        0 <= j1 < j2 < out.len() ==> (#[trigger] out[j1]).date.spec_lt((#[trigger] out[j2]).date)
    &&& forall|j: int|
        0 <= j < out.len() ==> {
            let e = #[trigger] out[j];
            &&& e.date.valid()
            &&& e.date.start_day == sd
            &&& e.income.units == period_income(rows, sd, e.date)
            &&& e.expense.units == period_expense(rows, sd, e.date)
            &&& e.balance.units == e.income.units - e.expense.units
            &&& e.is_positive_balance == (e.balance.units >= 0)
            &&& e.transaction_count == period_count(rows, sd, e.date)
            &&& key_present(rows, sd, e.date)
        }
    &&& forall|i: int|
        0 <= i < rows.len() ==> details_has_key(out, spec_label(#[trigger] rows[i].date, sd))
}

/// Groups rows by the billing cycle they fall in and sums each cycle:
/// income, expense, balance with its sign, and the number of rows, in
/// chronological order of cycles.
pub fn details_by_period(rows: &Vec<TxRow>, start_day: u8) -> (out: Vec<MonthlyDetail>)
    requires
        rows_ok(rows@),
        rows@.len() <= MAX_ROWS,
        1 <= start_day <= 31,
    ensures
        details_correct(out@, rows@, start_day as int),
{
    let ghost gr = rows@;
    let ghost sd = start_day as int;
    let mut out: Vec<MonthlyDetail> = Vec::new();
    let mut i: usize = 0;
    while i < rows.len()
        invariant
            rows_ok(gr),
            gr.len() <= MAX_ROWS,
            gr == rows@,
            1 <= start_day <= 31,
            sd == start_day as int,
            0 <= i <= gr.len(),
            details_correct(out@, gr.take(i as int), sd),
        decreases rows.len() - i,
    {
        let row_date = rows[i].date;
        let row_kind = rows[i].kind;
        let amount = rows[i].amount;
        let key = crate::cycle::label_of(row_date, start_day);
        let ghost prefix = gr.take(i as int);
        let ghost prefix1 = gr.take(i as int + 1);
        proof {
            assert(rows_ok(prefix1)) by {
                assert(forall|j: int| 0 <= j < prefix1.len() ==> #[trigger] prefix1[j] == gr[j]);
            }
            assert(prefix1.len() <= MAX_ROWS);
        }

        // Find where `key` stands in the chronologically ordered entries.
        let mut j: usize = 0;
        while j < out.len() && out[j].date.before(key)
            invariant
                details_correct(out@, prefix, sd),
                key.valid(),
                0 <= j <= out@.len(),
                forall|j2: int| 0 <= j2 < j ==> (#[trigger] out@[j2]).date.spec_lt(key),
            decreases out.len() - j,
        {
            j = j + 1;
        }

        if j < out.len() && out[j].date == key {
            // The cycle already has an entry: fold this row in.
            proof {
                lemma_sum_bound(prefix1, RowFilter::PeriodKind(key, sd, TxKind::Income));
                lemma_sum_bound(prefix1, RowFilter::PeriodKind(key, sd, TxKind::Expense));
                lemma_sum_bound(prefix1, RowFilter::Period(key, sd));
            }
            let ghost orig = out@;
            let e = out.remove(j);
            proof {
                lemma_sum_take_step(gr, RowFilter::PeriodKind(key, sd, TxKind::Income), i as int);
                lemma_sum_take_step(gr, RowFilter::PeriodKind(key, sd, TxKind::Expense), i as int);
                lemma_sum_take_step(gr, RowFilter::Period(key, sd), i as int);
            }
            let income = if matches!(row_kind, TxKind::Income) {
                Money { units: e.income.units + amount.units }
            } else {
                e.income
            };
            let expense = if matches!(row_kind, TxKind::Expense) {
                Money { units: e.expense.units + amount.units }
            } else {
                e.expense
            };
            let e2 = MonthlyDetail {
                date: key,
                income,
                expense,
                balance: Money { units: income.units - expense.units },
                is_positive_balance: income.units - expense.units >= 0,
                transaction_count: e.transaction_count + 1,
            };
            out.insert(j, e2);
            proof {
                assert(out@ =~= orig.update(j as int, e2));
                lemma_details_step_others(orig, gr, sd, i as int, key);
                assert(forall|j2: int|
                    0 <= j2 < out@.len() && j2 != j ==> #[trigger] out@[j2] == orig[j2]);
                assert(forall|j2: int|
                    0 <= j2 < out@.len() ==> (#[trigger] out@[j2]).date == orig[j2].date);
                assert(details_correct(out@, prefix1, sd)) by {
                    assert(forall|i2: int|
                        0 <= i2 < prefix1.len() ==> details_has_key(
                            out@,
                            spec_label(#[trigger] prefix1[i2].date, sd),
                        )) by {
                        assert(forall|i2: int|
                            0 <= i2 < prefix.len() ==> #[trigger] prefix[i2] == prefix1[i2]);
                        assert(forall|k2: PeriodKey|
                            details_has_key(orig, k2) ==> #[trigger] details_has_key(out@, k2))
                            by {
                            assert(forall|j2: int|
                                0 <= j2 < orig.len() ==> (#[trigger] orig[j2]).date == out@[j2].date);
                        }
                        assert(out@[j as int].date == key);
                        assert(prefix1[i as int] == gr[i as int]);
                    }
                }
            }
        } else {
            // First row of this cycle: insert a fresh entry, keeping order.
            proof {
                // The key stands strictly between the scanned entries and the
                // rest, so no entry has it, and no earlier row falls in this
                // cycle.
                if (j as int) < out@.len() {
                    let d2 = out@[j as int].date;
                    if key.year * 12 + key.month == d2.year * 12 + d2.month {
                        crate::cycle::lemma_key_index_injective(key, d2);
                    }
                    assert(key.spec_lt(d2));
                }
                assert forall|j2: int| 0 <= j2 < out@.len() implies (#[trigger] out@[j2]).date
                    != key by {
                    if (j as int) < j2 {
                        assert(out@[j as int].date.spec_lt(out@[j2].date));
                    }
                }
                assert(!key_present(prefix, sd, key));
                assert(forall|i2: int|
                    0 <= i2 < prefix.len() ==> !row_matches(
                        RowFilter::PeriodKind(key, sd, TxKind::Income),
                        #[trigger] prefix[i2],
                    ) && !row_matches(
                        RowFilter::PeriodKind(key, sd, TxKind::Expense),
                        prefix[i2],
                    ) && !row_matches(RowFilter::Period(key, sd), prefix[i2]));
                lemma_sum_zero(prefix, RowFilter::PeriodKind(key, sd, TxKind::Income));
                lemma_sum_zero(prefix, RowFilter::PeriodKind(key, sd, TxKind::Expense));
                lemma_sum_zero(prefix, RowFilter::Period(key, sd));
                lemma_sum_take_step(gr, RowFilter::PeriodKind(key, sd, TxKind::Income), i as int);
                lemma_sum_take_step(gr, RowFilter::PeriodKind(key, sd, TxKind::Expense), i as int);
                lemma_sum_take_step(gr, RowFilter::Period(key, sd), i as int);
            }
            let (inc, exp) = match row_kind {
                TxKind::Income => (amount, Money::zero()),
                TxKind::Expense => (Money::zero(), amount),
            };
            let e2 = MonthlyDetail {
                date: key,
                income: inc,
                expense: exp,
                balance: Money { units: inc.units - exp.units },
                is_positive_balance: inc.units - exp.units >= 0,
                transaction_count: 1,
            };
            let ghost old_out = out@;
            out.insert(j, e2);
            proof {
                lemma_details_step_others(old_out, gr, sd, i as int, key);
                assert(forall|j2: int|
                    0 <= j2 < j as int ==> #[trigger] out@[j2] == old_out[j2]);
                assert(forall|j2: int|
                    (j as int) < j2 < out@.len() ==> #[trigger] out@[j2] == old_out[j2 - 1]);
                assert(details_correct(out@, prefix1, sd)) by {
                    assert(forall|i2: int|
                        0 <= i2 < prefix1.len() && i2 != i as int ==> details_has_key(
                            out@,
                            spec_label(#[trigger] prefix1[i2].date, sd),
                        )) by {
                        assert(forall|i2: int|
                            0 <= i2 < prefix.len() ==> #[trigger] prefix[i2] == prefix1[i2]);
                        assert(forall|k2: PeriodKey|
                            details_has_key(old_out, k2) ==> #[trigger] details_has_key(out@, k2))
                            by {
                            assert(forall|j2: int|
                                0 <= j2 < old_out.len() ==> #[trigger] old_out[j2] == out@[
                                    if j2 < j as int {
                                        j2
                                    } else {
                                        j2 + 1
                                    }
                                ]);
                        }
                    }
                    assert(out@[j as int] == e2);
                }
            }
        }
        i = i + 1;
        proof {
            assert(gr.take(i as int) == prefix1);
        }
    }
    proof {
        assert(gr.take(gr.len() as int) =~= gr);
    }
    out
}

/// Stepping the row prefix by a row of cycle `key` leaves every other
/// cycle's entry sums unchanged.
proof fn lemma_details_step_others(out: Seq<MonthlyDetail>, rows: Seq<TxRow>, sd: int, i: int, key: PeriodKey)
    requires
        0 <= i < rows.len(),
        spec_label(rows[i].date, sd) == key,
        details_correct(out, rows.take(i), sd),
    ensures
        forall|j: int|
            0 <= j < out.len() && (#[trigger] out[j]).date != key ==> {
                &&& period_income(rows.take(i + 1), sd, out[j].date) == period_income(
                    rows.take(i),
                    sd,
                    out[j].date,
                )
                &&& period_expense(rows.take(i + 1), sd, out[j].date) == period_expense(
                    rows.take(i),
                    sd,
                    out[j].date,
                )
                &&& period_count(rows.take(i + 1), sd, out[j].date) == period_count(
                    rows.take(i),
                    sd,
                    out[j].date,
                )
            },
        forall|k2: PeriodKey|
            key_present(rows.take(i), sd, k2) ==> #[trigger] key_present(rows.take(i + 1), sd, k2),
        key_present(rows.take(i + 1), sd, key),
{
    assert(forall|i2: int| 0 <= i2 < i ==> #[trigger] rows.take(i)[i2] == rows.take(i + 1)[i2]);
    assert(rows.take(i + 1)[i] == rows[i]);
    assert forall|j: int| 0 <= j < out.len() && (#[trigger] out[j]).date != key implies {
        &&& period_income(rows.take(i + 1), sd, out[j].date) == period_income(
            rows.take(i),
            sd,
            out[j].date,
        )
        &&& period_expense(rows.take(i + 1), sd, out[j].date) == period_expense(
            rows.take(i),
            sd,
            out[j].date,
        )
        &&& period_count(rows.take(i + 1), sd, out[j].date) == period_count(
            rows.take(i),
            sd,
            out[j].date,
        )
    } by {
        lemma_sum_take_step(rows, RowFilter::PeriodKind(out[j].date, sd, TxKind::Income), i);
        lemma_sum_take_step(rows, RowFilter::PeriodKind(out[j].date, sd, TxKind::Expense), i);
        lemma_sum_take_step(rows, RowFilter::Period(out[j].date, sd), i);
    }
}

/// Whether the trend list has an entry for `key`.
pub open spec fn trends_has_key(out: Seq<MonthlyTrend>, key: PeriodKey) -> bool {
    exists|j: int| 0 <= j < out.len() && (#[trigger] out[j]).month == key
}

/// What a correct per-cycle trend list states: one entry per cycle that has
/// rows, in chronological order, with that cycle's exact income and expense.
pub open spec fn trends_correct(out: Seq<MonthlyTrend>, rows: Seq<TxRow>, sd: int) -> bool {
    &&& forall|j1: int, j2: int|
        0 <= j1 < j2 < out.len() ==> (#[trigger] out[j1]).month.spec_lt(
            (#[trigger] out[j2]).month,
        )
    &&& forall|j: int|
        0 <= j < out.len() ==> {
            let e = #[trigger] out[j];
            &&& e.month.valid()
            &&& e.month.start_day == sd
            &&& e.income.units == period_income(rows, sd, e.month)
            &&& e.expense.units == period_expense(rows, sd, e.month)
            &&& key_present(rows, sd, e.month)
        }
    &&& forall|i: int|
        0 <= i < rows.len() ==> trends_has_key(out, spec_label(#[trigger] rows[i].date, sd))
}

/// Groups rows by the billing cycle they fall in and sums income and expense
/// per cycle, in chronological order of cycles.
pub fn trends_by_period(rows: &Vec<TxRow>, start_day: u8) -> (out: Vec<MonthlyTrend>)
    requires
        rows_ok(rows@),
        rows@.len() <= MAX_ROWS,
        1 <= start_day <= 31,
    ensures
        trends_correct(out@, rows@, start_day as int),
{
    let details = details_by_period(rows, start_day);
    let mut out: Vec<MonthlyTrend> = Vec::new();
    let mut j: usize = 0;
    while j < details.len()
        invariant
            details_correct(details@, rows@, start_day as int),
            out@.len() == j <= details@.len(),
            forall|j2: int|
                0 <= j2 < j ==> #[trigger] out@[j2] == (MonthlyTrend {
                    month: details@[j2].date,
                    income: details@[j2].income,
                    expense: details@[j2].expense,
                }),
        decreases details.len() - j,
    {
        let d = &details[j];
        out.push(MonthlyTrend { month: d.date, income: d.income, expense: d.expense });
        j = j + 1;
    }
    proof {
        assert forall|i: int| 0 <= i < rows@.len() implies trends_has_key(
            out@,
            spec_label(#[trigger] rows@[i].date, start_day as int),
        ) by {
            let k = spec_label(rows@[i].date, start_day as int);
            let jw = choose|jw: int| 0 <= jw < details@.len() && (#[trigger] details@[jw]).date == k;
            assert(out@[jw].month == k);
        }
    }
    out
}

/// Total expense of the rows dated exactly `d`.
pub open spec fn daily_expense(rows: Seq<TxRow>, d: Date) -> int {
    sum_where(rows, RowFilter::DayExpense(d))
}

/// Whether some expense row is dated exactly `d`.
pub open spec fn expense_date_present(rows: Seq<TxRow>, d: Date) -> bool {
    exists|i: int|
        0 <= i < rows.len() && (#[trigger] rows[i]).kind == TxKind::Expense && rows[i].date == d
}

/// Whether the daily list has an entry for date `d`.
pub open spec fn daily_has_date(out: Seq<DailyStat>, d: Date) -> bool {
    exists|j: int| 0 <= j < out.len() && (#[trigger] out[j]).date == d
}

/// One day's total expense.
#[derive(Clone, Copy, Debug, PartialEq, Eq, Structural)]
pub struct DailyStat {
    pub date: Date,
    pub amount: Money,
}

/// What a correct per-day expense list states: one entry per date that has an
/// expense row, in ascending date order, with that date's exact expense sum.
pub open spec fn daily_correct(out: Seq<DailyStat>, rows: Seq<TxRow>) -> bool {
    &&& forall|j1: int, j2: int|
        0 <= j1 < j2 < out.len() ==> (#[trigger] out[j1]).date.spec_lt((#[trigger] out[j2]).date)
    &&& forall|j: int|
        0 <= j < out.len() ==> {
            let e = #[trigger] out[j];
            &&& e.date.valid()
            &&& e.amount.units == daily_expense(rows, e.date)
            &&& expense_date_present(rows, e.date)
        }
    &&& forall|i: int|
        0 <= i < rows.len() && (#[trigger] rows[i]).kind == TxKind::Expense ==> daily_has_date(
            out,
            rows[i].date,
        )
}

/// Groups expense rows by their exact date and sums each day, in ascending
/// date order.
pub fn daily_expenses(rows: &Vec<TxRow>) -> (out: Vec<DailyStat>)
    requires
        rows_ok(rows@),
        rows@.len() <= MAX_ROWS,
    ensures
        daily_correct(out@, rows@),
{
    let ghost gr = rows@;
    let mut out: Vec<DailyStat> = Vec::new();
    let mut i: usize = 0;
    while i < rows.len()
        invariant
            rows_ok(gr),
            gr.len() <= MAX_ROWS,
            gr == rows@,
            0 <= i <= gr.len(),
            daily_correct(out@, gr.take(i as int)),
        decreases rows.len() - i,
    {
        let ghost prefix = gr.take(i as int);
        let ghost prefix1 = gr.take(i as int + 1);
        proof {
            assert(rows_ok(prefix1)) by {
                assert(forall|j2: int| 0 <= j2 < prefix1.len() ==> #[trigger] prefix1[j2] == gr[j2]);
            }
            assert(forall|i2: int| 0 <= i2 < prefix.len() ==> #[trigger] prefix[i2] == prefix1[i2]);
            assert(prefix1[i as int] == gr[i as int]);
            assert forall|j2: int| 0 <= j2 < out@.len() implies daily_expense(prefix1, (#[trigger] out@[j2]).date)
                == daily_expense(prefix, out@[j2].date) + if gr[i as int].kind == TxKind::Expense
                && gr[i as int].date == out@[j2].date {
                gr[i as int].amount.units as int
            } else {
                0
            } by {
                lemma_sum_take_step(gr, RowFilter::DayExpense(out@[j2].date), i as int);
            }
        }
        if matches!(rows[i].kind, TxKind::Expense) {
            let day = rows[i].date;
            let amount = rows[i].amount;
            let mut j: usize = 0;
            while j < out.len() && out[j].date.before(day)
                invariant
                    daily_correct(out@, prefix),
                    day.valid(),
                    0 <= j <= out@.len(),
                    forall|j2: int| 0 <= j2 < j ==> (#[trigger] out@[j2]).date.spec_lt(day),
                decreases out.len() - j,
            {
                j = j + 1;
            }
            if j < out.len() && out[j].date == day {
                proof {
                    lemma_sum_bound(prefix1, RowFilter::DayExpense(day));
                }
                let ghost orig = out@;
                let e = out.remove(j);
                out.insert(j, DailyStat { date: day, amount: Money { units: e.amount.units + amount.units } });
                proof {
                    assert(out@ =~= orig.update(j as int, out@[j as int]));
                    assert(forall|j2: int|
                        0 <= j2 < out@.len() && j2 != j ==> #[trigger] out@[j2] == orig[j2]);
                    assert(daily_correct(out@, prefix1)) by {
                        assert(forall|j2: int|
                            0 <= j2 < out@.len() ==> (#[trigger] out@[j2]).date == orig[j2].date);
                        assert forall|i2: int|
                            0 <= i2 < prefix1.len() && (#[trigger] prefix1[i2]).kind
                                == TxKind::Expense && i2 != i as int implies daily_has_date(
                            out@,
                            prefix1[i2].date,
                        ) by {
                            let d2 = prefix1[i2].date;
                            assert(daily_has_date(orig, d2));
                            let jw = choose|jw: int|
                                0 <= jw < orig.len() && (#[trigger] orig[jw]).date == d2;
                            assert(out@[jw].date == d2);
                        }
                        assert(out@[j as int].date == day);
                    }
                }
            } else {
                proof {
                    if (j as int) < out@.len() {
                        crate::date::lemma_date_order_total(day, out@[j as int].date);
                        assert(day.spec_lt(out@[j as int].date));
                    }
                    assert forall|j2: int| 0 <= j2 < out@.len() implies (#[trigger] out@[j2]).date
                        != day by {
                        if (j as int) < j2 {
                            assert(out@[j as int].date.spec_lt(out@[j2].date));
                        }
                    }
                    assert(forall|i2: int|
                        0 <= i2 < prefix.len() ==> !row_matches(
                            RowFilter::DayExpense(day),
                            #[trigger] prefix[i2],
                        ));
                    lemma_sum_zero(prefix, RowFilter::DayExpense(day));
                    lemma_sum_take_step(gr, RowFilter::DayExpense(day), i as int);
                }
                let ghost old_out = out@;
                out.insert(j, DailyStat { date: day, amount });
                proof {
                    assert(forall|j2: int|
                        0 <= j2 < j as int ==> #[trigger] out@[j2] == old_out[j2]);
                    assert(forall|j2: int|
                        (j as int) < j2 < out@.len() ==> #[trigger] out@[j2] == old_out[j2 - 1]);
                    assert(daily_correct(out@, prefix1)) by {
                        assert(forall|d2: Date|
                            daily_has_date(old_out, d2) ==> #[trigger] daily_has_date(out@, d2))
                            by {
                            assert(forall|j2: int|
                                0 <= j2 < old_out.len() ==> #[trigger] old_out[j2] == out@[
                                    if j2 < j as int {
                                        j2
                                    } else {
                                        j2 + 1
                                    }
                                ]);
                        }
                        assert(out@[j as int].date == day);
                    }
                }
            }
        } else {
            proof {
                assert(daily_correct(out@, prefix1));
            }
        }
        i = i + 1;
        proof {
            assert(gr.take(i as int) == prefix1);
        }
    }
    proof {
        assert(gr.take(gr.len() as int) =~= gr);
    }
    out
}

/// Sum of the amounts of rows of `kind` joined with category `id`.
pub open spec fn cat_amount(rows: Seq<TxRow>, kind: TxKind, id: i64) -> int {
    sum_where(rows, RowFilter::CatKind(kind, id))
}

/// Number of rows of `kind` joined with category `id`.
pub open spec fn cat_count(rows: Seq<TxRow>, kind: TxKind, id: i64) -> int {
    count_where(rows, RowFilter::CatKind(kind, id))
}

/// Sum of the amounts of all rows of `kind` joined with any category: the
/// denominator of every category percentage.
pub open spec fn kind_total(rows: Seq<TxRow>, kind: TxKind) -> int {
    sum_where(rows, RowFilter::AnyCat(kind))
}

/// Whether some row of `kind` is joined with category `id`.
pub open spec fn cat_present(rows: Seq<TxRow>, kind: TxKind, id: i64) -> bool {
    exists|i: int| 0 <= i < rows.len() && row_matches(RowFilter::CatKind(kind, id), #[trigger] rows[i])
}

/// The category id a row was joined with.
pub open spec fn cat_id_of(r: TxRow) -> i64 {
    match r.category {
        Some(c) => c.id,
        None => 0,
    }
}

/// The distinct category ids of rows of `kind`, in order of first appearance.
pub open spec fn first_ids(rows: Seq<TxRow>, kind: TxKind) -> Seq<i64>
    decreases rows.len(),
{
    if rows.len() == 0 {
        Seq::empty()
    } else {
        let rest = first_ids(rows.drop_last(), kind);
        if row_matches(RowFilter::AnyCat(kind), rows.last()) && !rest.contains(
            cat_id_of(rows.last()),
        ) {
            rest.push(cat_id_of(rows.last()))
        } else {
            rest
        }
    }
}

/// The name carried by the first row of `kind` joined with category `id`.
pub open spec fn first_name(rows: Seq<TxRow>, kind: TxKind, id: i64) -> Seq<char>
    decreases rows.len(),
{
    if rows.len() == 0 {
        Seq::empty()
    } else if row_matches(RowFilter::CatKind(kind, id), rows.last()) && !cat_present(
        rows.drop_last(),
        kind,
        id,
    ) {
        match rows.last().category {
            Some(c) => c.name@,
            None => Seq::empty(),
        }
    } else {
        first_name(rows.drop_last(), kind, id)
    }
}

/// The view of an optional colour string.
pub open spec fn opt_view(o: Option<String>) -> Option<Seq<char>> {
    match o {
        Some(s) => Some(s@),
        None => None,
    }
}

/// The colour carried by the first row of `kind` joined with category `id`.
pub open spec fn first_color(rows: Seq<TxRow>, kind: TxKind, id: i64) -> Option<Seq<char>>
    decreases rows.len(),
{
    if rows.len() == 0 {
        None
    } else if row_matches(RowFilter::CatKind(kind, id), rows.last()) && !cat_present(
        rows.drop_last(),
        kind,
        id,
    ) {
        match rows.last().category {
            Some(c) => opt_view(c.color),
            None => None,
        }
    } else {
        first_color(rows.drop_last(), kind, id)
    }
}

/// The mathematical view of one grouped category.
pub struct CatView {
    pub id: i64,
    pub name: Seq<char>,
    pub color: Option<Seq<char>>,
    pub amount: int,
    pub count: int,
}

/// The grouped view of category `id` over `rows`.
pub open spec fn group_view_at(rows: Seq<TxRow>, kind: TxKind, id: i64) -> CatView {
    CatView {
        id,
        name: first_name(rows, kind, id),
        color: first_color(rows, kind, id),
        amount: cat_amount(rows, kind, id),
        count: cat_count(rows, kind, id),
    }
}

/// All categories of `kind` with their sums, in order of first appearance.
pub open spec fn spec_groups(rows: Seq<TxRow>, kind: TxKind) -> Seq<CatView> {
    Seq::new(first_ids(rows, kind).len(), |j: int| group_view_at(rows, kind, first_ids(rows, kind)[j]))
}

/// Inserts `g` behind every element with an amount at least as large:
/// insertion keeps earlier elements of equal amount in front, which makes the
/// sort below stable.
pub open spec fn insert_desc(s: Seq<CatView>, g: CatView) -> Seq<CatView>
    decreases s.len(),
{
    if s.len() == 0 {
        seq![g]
    } else if s.first().amount >= g.amount {
        seq![s.first()] + insert_desc(s.drop_first(), g)
    } else {
        seq![g] + s
    }
}

/// Sorts by amount, descending, stably: elements are inserted left to right,
/// so elements of equal amount keep their input order.
pub open spec fn sort_desc(s: Seq<CatView>) -> Seq<CatView>
    decreases s.len(),
{
    if s.len() == 0 {
        Seq::empty()
    } else {
        insert_desc(sort_desc(s.drop_last()), s.last())
    }
}

/// The colour shown for categories that have none of their own.
pub open spec fn default_color() -> Seq<char> {
    "#007bff"@
}

/// The mathematical view of one reported category statistic.
pub struct CatStatView {
    pub name: Seq<char>,
    pub amount: int,
    pub percentage: int,
    pub color: Seq<char>,
    pub count: int,
}

/// One grouped category, as reported: with its percentage of the group total
/// and its colour defaulted.
pub open spec fn stat_view_of(g: CatView, total: int) -> CatStatView {
    CatStatView {
        name: g.name,
        amount: g.amount,
        percentage: crate::money::spec_percentage(g.amount, total),
        color: match g.color {
            Some(c) => c,
            None => default_color(),
        },
        count: g.count,
    }
}

/// The reported statistics of the categories of `kind`: all its categories
/// grouped and summed, sorted by amount descending (ties keeping first
/// appearance order), truncated to the top ten, each with its percentage of
/// the whole group's total.
pub open spec fn spec_category_stats(rows: Seq<TxRow>, kind: TxKind) -> Seq<CatStatView> {
    let sorted = sort_desc(spec_groups(rows, kind));
    let top = if sorted.len() <= 10 {
        sorted
    } else {
        sorted.take(10)
    };
    Seq::new(top.len(), |j: int| stat_view_of(top[j], kind_total(rows, kind)))
}

/// One category's reported statistics.
#[derive(Debug)]
pub struct CategoryStat {
    pub name: String,
    pub amount: Money,
    pub percentage: i32,
    pub color: String,
    pub transaction_count: i64,
}

/// Whether an executable statistic carries exactly the values of its view.
pub open spec fn stat_matches(s: CategoryStat, v: CatStatView) -> bool {
    &&& s.name@ == v.name
    &&& s.amount.units == v.amount
    &&& s.percentage == v.percentage
    &&& s.color@ == v.color
    &&& s.transaction_count == v.count
}

/// What a correct category statistic list states: exactly the reported
/// statistics of the rows, ordered by amount descending.
pub open spec fn category_stats_correct(out: Seq<CategoryStat>, rows: Seq<TxRow>, kind: TxKind) -> bool {
    &&& out.len() == spec_category_stats(rows, kind).len()
    &&& forall|j: int|
        0 <= j < out.len() ==> stat_matches(#[trigger] out[j], spec_category_stats(rows, kind)[j])
    &&& forall|j1: int, j2: int|
        0 <= j1 < j2 < out.len() ==> (#[trigger] out[j1]).amount.units
            >= (#[trigger] out[j2]).amount.units
}

/// One grouped category while the statistics are being built.
struct CatGroup {
    id: i64,
    name: String,
    color: Option<String>,
    amount: Money,
    count: i64,
}

/// The view of one executable group.
spec fn group_view(g: CatGroup) -> CatView {
    CatView {
        id: g.id,
        name: g.name@,
        color: opt_view(g.color),
        amount: g.amount.units as int,
        count: g.count as int,
    }
}

/// The views of a group list.
spec fn group_views(s: Seq<CatGroup>) -> Seq<CatView> {
    Seq::new(s.len(), |j: int| group_view(s[j]))
}

/// What the grouping pass establishes: one group per distinct category id of
/// matching rows, in first-appearance order, carrying that category's exact
/// sums and its first row's name and colour.
spec fn groups_match(gv: Seq<CatGroup>, rows: Seq<TxRow>, kind: TxKind) -> bool {
    &&& gv.len() == first_ids(rows, kind).len()
    &&& forall|j: int|
        0 <= j < gv.len() ==> {
            let g = #[trigger] gv[j];
            let id = first_ids(rows, kind)[j];
            &&& g.id == id
            &&& g.name@ == first_name(rows, kind, id)
            &&& opt_view(g.color) == first_color(rows, kind, id)
            &&& g.amount.units == cat_amount(rows, kind, id)
            &&& g.count == cat_count(rows, kind, id)
        }
}

/// A category id appears among the first ids exactly when some row of the
/// kind carries it, and it appears only once.
proof fn lemma_first_ids_props(rows: Seq<TxRow>, kind: TxKind)
    ensures
        forall|id: i64| #[trigger]
            first_ids(rows, kind).contains(id) <==> cat_present(rows, kind, id),
        forall|j1: int, j2: int|
            0 <= j1 < j2 < first_ids(rows, kind).len() ==> first_ids(rows, kind)[j1] != first_ids(
                rows,
                kind,
            )[j2],
    decreases rows.len(),
{
    if rows.len() > 0 {
        let rest = rows.drop_last();
        lemma_first_ids_props(rest, kind);
        assert(forall|i: int| 0 <= i < rest.len() ==> #[trigger] rest[i] == rows[i]);
        assert forall|id: i64| #[trigger] first_ids(rows, kind).contains(id) <==> cat_present(
            rows,
            kind,
            id,
        ) by {
            let ids = first_ids(rows, kind);
            let rids = first_ids(rest, kind);
            if ids.contains(id) {
                let jw = choose|jw: int| 0 <= jw < ids.len() && ids[jw] == id;
                if jw < rids.len() {
                    assert(rids.contains(id));
                    let iw = choose|iw: int|
                        0 <= iw < rest.len() && row_matches(
                            RowFilter::CatKind(kind, id),
                            #[trigger] rest[iw],
                        );
                    assert(row_matches(RowFilter::CatKind(kind, id), rows[iw]));
                } else {
                    assert(row_matches(RowFilter::CatKind(kind, id), rows.last()));
                }
            }
            if cat_present(rows, kind, id) {
                let iw = choose|iw: int|
                    0 <= iw < rows.len() && row_matches(
                        RowFilter::CatKind(kind, id),
                        #[trigger] rows[iw],
                    );
                if iw < rows.len() - 1 {
                    assert(row_matches(RowFilter::CatKind(kind, id), rest[iw]));
                    assert(rids.contains(id));
                    let jw = choose|jw: int| 0 <= jw < rids.len() && rids[jw] == id;
                    assert(ids[jw] == id);
                } else {
                    if !rids.contains(id) {
                        assert(ids.last() == id);
                    } else {
                        let jw = choose|jw: int| 0 <= jw < rids.len() && rids[jw] == id;
                        assert(ids[jw] == id);
                    }
                }
            }
        }
        let ids = first_ids(rows, kind);
        let rids = first_ids(rest, kind);
        if ids.len() > rids.len() {
            let last_idx = rids.len() as int;
            assert forall|j1: int| 0 <= j1 < rids.len() implies #[trigger] ids[j1]
                != ids[last_idx] by {
                if rids[j1] == cat_id_of(rows.last()) {
                    assert(rids.contains(cat_id_of(rows.last())));
                }
            }
        }
    }
}

/// Whatever holds of the first ids of a prefix keeps holding one row later:
/// the next row either adds one new id at the end or none.
proof fn lemma_first_ids_step(rows: Seq<TxRow>, kind: TxKind, i: int)
    requires
        0 <= i < rows.len(),
    ensures
        first_ids(rows.take(i + 1), kind) == if row_matches(RowFilter::AnyCat(kind), rows[i])
            && !first_ids(rows.take(i), kind).contains(cat_id_of(rows[i])) {
            first_ids(rows.take(i), kind).push(cat_id_of(rows[i]))
        } else {
            first_ids(rows.take(i), kind)
        },
{
    assert(rows.take(i + 1).drop_last() =~= rows.take(i));
    assert(rows.take(i + 1).last() == rows[i]);
}

/// Stepping the prefix changes a category's name, colour, sums and presence
/// only through the new row.
proof fn lemma_cat_fields_step(rows: Seq<TxRow>, kind: TxKind, id: i64, i: int)
    requires
        0 <= i < rows.len(),
    ensures
        first_name(rows.take(i + 1), kind, id) == if row_matches(
            RowFilter::CatKind(kind, id),
            rows[i],
        ) && !cat_present(rows.take(i), kind, id) {
            match rows[i].category {
                Some(c) => c.name@,
                None => Seq::<char>::empty(),
            }
        } else {
            first_name(rows.take(i), kind, id)
        },
        first_color(rows.take(i + 1), kind, id) == if row_matches(
            RowFilter::CatKind(kind, id),
            rows[i],
        ) && !cat_present(rows.take(i), kind, id) {
            match rows[i].category {
                Some(c) => opt_view(c.color),
                None => None,
            }
        } else {
            first_color(rows.take(i), kind, id)
        },
        cat_present(rows.take(i + 1), kind, id) == (cat_present(rows.take(i), kind, id)
            || row_matches(RowFilter::CatKind(kind, id), rows[i])),
{
    let pre = rows.take(i);
    let pre1 = rows.take(i + 1);
    assert(pre1.drop_last() =~= pre);
    assert(pre1.last() == rows[i]);
    assert(forall|i2: int| 0 <= i2 < pre.len() ==> #[trigger] pre[i2] == pre1[i2]);
    if cat_present(pre, kind, id) {
        let iw = choose|iw: int|
            0 <= iw < pre.len() && row_matches(RowFilter::CatKind(kind, id), #[trigger] pre[iw]);
        assert(row_matches(RowFilter::CatKind(kind, id), pre1[iw]));
    }
}

/// Groups the rows of `kind` that carry a category, by category id, in
/// first-appearance order.
fn group_categories(rows: &Vec<TxRow>, kind: TxKind) -> (gv: Vec<CatGroup>)
    requires
        rows_ok(rows@),
        rows@.len() <= MAX_ROWS,
    ensures
        groups_match(gv@, rows@, kind),
{
    let ghost gr = rows@;
    let mut gv: Vec<CatGroup> = Vec::new();
    let mut i: usize = 0;
    while i < rows.len()
        invariant
            rows_ok(gr),
            gr.len() <= MAX_ROWS,
            gr == rows@,
            0 <= i <= gr.len(),
            groups_match(gv@, gr.take(i as int), kind),
        decreases rows.len() - i,
    {
        let ghost prefix = gr.take(i as int);
        let ghost prefix1 = gr.take(i as int + 1);
        proof {
            assert(rows_ok(prefix1)) by {
                assert(forall|j2: int| 0 <= j2 < prefix1.len() ==> #[trigger] prefix1[j2] == gr[j2]);
            }
            lemma_first_ids_step(gr, kind, i as int);
            lemma_first_ids_props(prefix, kind);
            assert forall|j2: int| 0 <= j2 < gv@.len() implies {
                let id = #[trigger] first_ids(prefix, kind)[j2];
                &&& (!row_matches(RowFilter::CatKind(kind, id), gr[i as int]) || cat_present(
                    prefix,
                    kind,
                    id,
                )) ==> first_name(prefix1, kind, id) == first_name(prefix, kind, id)
                    && first_color(prefix1, kind, id) == first_color(prefix, kind, id)
                &&& cat_amount(prefix1, kind, id) == cat_amount(prefix, kind, id) + if row_matches(
                    RowFilter::CatKind(kind, id),
                    gr[i as int],
                ) {
                    gr[i as int].amount.units as int
                } else {
                    0
                }
                &&& cat_count(prefix1, kind, id) == cat_count(prefix, kind, id) + if row_matches(
                    RowFilter::CatKind(kind, id),
                    gr[i as int],
                ) {
                    1int
                } else {
                    0int
                }
            } by {
                let id = first_ids(prefix, kind)[j2];
                lemma_cat_fields_step(gr, kind, id, i as int);
                lemma_sum_take_step(gr, RowFilter::CatKind(kind, id), i as int);
            }
        }
        let matches_kind = rows[i].kind == kind;
        if matches_kind {
            let has_cat = rows[i].category.is_some();
            if has_cat {
                let (cid, amount) = match &rows[i].category {
                    Some(c) => (c.id, rows[i].amount),
                    None => (0, Money::zero()),
                };
                // Look for the category's existing group.
                let mut j: usize = 0;
                while j < gv.len() && gv[j].id != cid
                    invariant
                        0 <= j <= gv@.len(),
                        forall|j2: int| 0 <= j2 < j ==> (#[trigger] gv@[j2]).id != cid,
                    decreases gv.len() - j,
                {
                    j = j + 1;
                }
                proof {
                    assert(row_matches(RowFilter::CatKind(kind, cid), gr[i as int]));
                    lemma_cat_fields_step(gr, kind, cid, i as int);
                    lemma_sum_take_step(gr, RowFilter::CatKind(kind, cid), i as int);
                    lemma_sum_bound(prefix1, RowFilter::CatKind(kind, cid));
                }
                if j < gv.len() {
                    // The category has a group: fold the row in.  Its first
                    // row's name and colour stay.
                    proof {
                        assert(gv@[j as int].id == cid);
                        assert(first_ids(prefix, kind).contains(cid)) by {
                            assert(first_ids(prefix, kind)[j as int] == cid);
                        }
                        assert(cat_present(prefix, kind, cid));
                    }
                    let ghost orig = gv@;
                    let g = gv.remove(j);
                    let g2 = CatGroup {
                        id: g.id,
                        name: g.name,
                        color: g.color,
                        amount: Money { units: g.amount.units + amount.units },
                        count: g.count + 1,
                    };
                    gv.insert(j, g2);
                    proof {
                        assert(gv@ =~= orig.update(j as int, gv@[j as int]));
                        assert(forall|j2: int|
                            0 <= j2 < gv@.len() && j2 != j ==> #[trigger] gv@[j2] == orig[j2]);
                        assert(first_ids(prefix1, kind) == first_ids(prefix, kind));
                        assert forall|j2: int|
                            0 <= j2 < gv@.len() && j2 != j implies (#[trigger] gv@[j2]).id
                            != cid by {
                            lemma_first_ids_props(prefix, kind);
                        }
                        assert(groups_match(gv@, prefix1, kind));
                    }
                } else {
                    // First row of this category: append a fresh group.
                    proof {
                        assert(!first_ids(prefix, kind).contains(cid)) by {
                            if first_ids(prefix, kind).contains(cid) {
                                let jw = choose|jw: int|
                                    0 <= jw < first_ids(prefix, kind).len() && first_ids(
                                        prefix,
                                        kind,
                                    )[jw] == cid;
                                assert(gv@[jw].id == cid);
                            }
                        }
                        assert(!cat_present(prefix, kind, cid));
                        assert(forall|i2: int|
                            0 <= i2 < prefix.len() ==> !row_matches(
                                RowFilter::CatKind(kind, cid),
                                #[trigger] prefix[i2],
                            ));
                        lemma_sum_zero(prefix, RowFilter::CatKind(kind, cid));
                        assert(first_ids(prefix1, kind) == first_ids(prefix, kind).push(cid));
                    }
                    let (name, color) = match &rows[i].category {
                        Some(c) => (
                            c.name.clone(),
                            match &c.color {
                                Some(s) => Some(s.clone()),
                                None => None,
                            },
                        ),
                        None => (String::new(), None),
                    };
                    let ghost old_gv = gv@;
                    gv.push(CatGroup { id: cid, name, color, amount, count: 1 });
                    proof {
                        assert(forall|j2: int|
                            0 <= j2 < old_gv.len() ==> #[trigger] gv@[j2] == old_gv[j2]);
                        assert(groups_match(gv@, prefix1, kind));
                    }
                }
            } else {
                proof {
                    assert(!row_matches(RowFilter::AnyCat(kind), gr[i as int]));
                    assert(groups_match(gv@, prefix1, kind));
                }
            }
        } else {
            proof {
                assert(!row_matches(RowFilter::AnyCat(kind), gr[i as int]));
                assert(groups_match(gv@, prefix1, kind));
            }
        }
        i = i + 1;
        proof {
            assert(gr.take(i as int) == prefix1);
        }
    }
    proof {
        assert(gr.take(gr.len() as int) =~= gr);
    }
    gv
}

/// Non-strictly descending amounts.
pub open spec fn sorted_desc(s: Seq<CatView>) -> bool {
    forall|j1: int, j2: int| 0 <= j1 < j2 < s.len() ==> (#[trigger] s[j1]).amount >= (#[trigger] s[j2]).amount
}

/// Inserting at the first position whose amount is smaller is exactly what
/// [`insert_desc`] does.
proof fn lemma_insert_desc_at(s: Seq<CatView>, g: CatView, p: int)
    requires
        0 <= p <= s.len(),
        forall|j: int| 0 <= j < p ==> (#[trigger] s[j]).amount >= g.amount,
        p < s.len() ==> s[p].amount < g.amount,
    ensures
        insert_desc(s, g) =~= s.take(p) + seq![g] + s.skip(p),
    decreases p,
{
    if p == 0 {
        if s.len() == 0 {
        } else {
            assert(s[0].amount < g.amount);
        }
    } else {
        assert(s[0].amount >= g.amount);
        let rest = s.drop_first();
        assert(forall|j: int| 0 <= j < p - 1 ==> (#[trigger] rest[j]).amount >= g.amount) by {
            assert(forall|j: int| 0 <= j < rest.len() ==> #[trigger] rest[j] == s[j + 1]);
        }
        lemma_insert_desc_at(rest, g, p - 1);
        assert(insert_desc(s, g) =~= seq![s.first()] + (rest.take(p - 1) + seq![g] + rest.skip(
            p - 1,
        )));
    }
}

/// Insertion grows the length by one, adds no element but `g`, and keeps a
/// descending list descending.
proof fn lemma_insert_desc_props(s: Seq<CatView>, g: CatView)
    ensures
        insert_desc(s, g).len() == s.len() + 1,
        forall|j: int|
            0 <= j < insert_desc(s, g).len() ==> #[trigger] insert_desc(s, g)[j] == g
                || s.contains(insert_desc(s, g)[j]),
        sorted_desc(s) ==> sorted_desc(insert_desc(s, g)),
    decreases s.len(),
{
    if s.len() == 0 {
    } else if s.first().amount >= g.amount {
        let rest = s.drop_first();
        lemma_insert_desc_props(rest, g);
        let t = insert_desc(rest, g);
        let r = insert_desc(s, g);
        assert(r =~= seq![s.first()] + t);
        assert forall|j: int| 0 <= j < r.len() implies #[trigger] r[j] == g || s.contains(r[j]) by {
            if j == 0 {
                assert(s[0] == r[0]);
            } else {
                assert(r[j] == t[j - 1]);
                if t[j - 1] != g {
                    let jj = choose|jj: int| 0 <= jj < rest.len() && rest[jj] == t[j - 1];
                    assert(s[jj + 1] == t[j - 1]);
                }
            }
        }
        if sorted_desc(s) {
            assert(sorted_desc(rest)) by {
                assert(forall|j: int| 0 <= j < rest.len() ==> #[trigger] rest[j] == s[j + 1]);
            }
            assert forall|j1: int, j2: int| 0 <= j1 < j2 < r.len() implies (#[trigger] r[j1]).amount
                >= (#[trigger] r[j2]).amount by {
                if j1 == 0 {
                    assert(r[j2] == t[j2 - 1]);
                    if t[j2 - 1] != g {
                        let jj = choose|jj: int| 0 <= jj < rest.len() && rest[jj] == t[j2 - 1];
                        assert(s[jj + 1] == t[j2 - 1]);
                        assert(s[0].amount >= s[jj + 1].amount);
                    }
                } else {
                    assert(r[j1] == t[j1 - 1] && r[j2] == t[j2 - 1]);
                }
            }
        }
    } else {
        assert(insert_desc(s, g) =~= seq![g] + s);
        assert(forall|j: int| 0 < j < s.len() + 1 ==> #[trigger] insert_desc(s, g)[j] == s[j - 1]);
        assert(forall|j: int| 0 < j < s.len() + 1 ==> s.contains(#[trigger] insert_desc(s, g)[j]))
            by {
            assert(forall|j: int| 0 <= j < s.len() ==> s.contains(#[trigger] s[j]));
        }
    }
}

/// Sorting keeps the length, emits only elements of its input, and yields a
/// descending list.
proof fn lemma_sort_desc_props(s: Seq<CatView>)
    ensures
        sort_desc(s).len() == s.len(),
        forall|j: int| 0 <= j < sort_desc(s).len() ==> s.contains(#[trigger] sort_desc(s)[j]),
        sorted_desc(sort_desc(s)),
    decreases s.len(),
{
    if s.len() > 0 {
        let rest = s.drop_last();
        lemma_sort_desc_props(rest);
        lemma_insert_desc_props(sort_desc(rest), s.last());
        assert forall|j: int| 0 <= j < sort_desc(s).len() implies s.contains(
            #[trigger] sort_desc(s)[j],
        ) by {
            let v = sort_desc(s)[j];
            if v == s.last() {
                assert(s[s.len() - 1] == v);
            } else {
                if sort_desc(rest).contains(v) {
                    let jj = choose|jj: int| 0 <= jj < sort_desc(rest).len() && sort_desc(rest)[jj] == v;
                    let jr = choose|jr: int| 0 <= jr < rest.len() && rest[jr] == v;
                    assert(s[jr] == v);
                }
            }
        }
    }
}

/// Sorts grouped categories by amount, descending, keeping the input order
/// of groups with equal amounts.
fn sort_groups_desc(groups: Vec<CatGroup>) -> (out: Vec<CatGroup>)
    ensures
        group_views(out@) == sort_desc(group_views(groups@)),
{
    let ghost orig = groups@;
    let ghost gviews = group_views(orig);
    let mut rem = groups;
    let mut sorted: Vec<CatGroup> = Vec::new();
    let ghost k: int = 0;
    while rem.len() > 0
        invariant
            0 <= k <= orig.len(),
            rem@ =~= orig.skip(k),
            gviews == group_views(orig),
            group_views(sorted@) == sort_desc(gviews.take(k)),
        decreases rem.len(),
    {
        let g = rem.remove(0);
        proof {
            assert(g == orig[k]);
            assert(rem@ =~= orig.skip(k + 1));
        }
        let mut p: usize = 0;
        while p < sorted.len() && sorted[p].amount.units >= g.amount.units
            invariant
                0 <= p <= sorted@.len(),
                forall|j: int|
                    0 <= j < p ==> (#[trigger] sorted@[j]).amount.units >= g.amount.units,
            decreases sorted.len() - p,
        {
            p = p + 1;
        }
        let ghost before = group_views(sorted@);
        sorted.insert(p, g);
        proof {
            assert(forall|j: int| 0 <= j < p ==> (#[trigger] before[j]).amount >= group_view(
                g,
            ).amount);
            lemma_insert_desc_at(before, group_view(g), p as int);
            assert(group_views(sorted@) =~= before.take(p as int) + seq![group_view(g)]
                + before.skip(p as int));
            assert(gviews.take(k + 1).drop_last() =~= gviews.take(k));
            assert(gviews.take(k + 1).last() == gviews[k]);
            assert(gviews[k] == group_view(g)) by {
                assert(group_views(orig)[k] == group_view(orig[k]));
            }
            assert(group_views(sorted@) == insert_desc(sort_desc(gviews.take(k)), gviews[k]));
        }
        proof {
            k = k + 1;
        }
    }
    proof {
        assert(gviews.take(orig.len() as int) =~= gviews);
        assert(orig.skip(k).len() == 0);
    }
    sorted
}

/// Computes the reported statistics of the categories of `kind`: groups the
/// matching rows by category, sums and counts them, sorts by amount
/// descending (ties keeping first appearance order), keeps the top ten, and
/// gives each its rounded percentage of the whole group's total.
pub fn category_stats(rows: &Vec<TxRow>, kind: TxKind) -> (out: Vec<CategoryStat>)
    requires
        rows_ok(rows@),
        rows@.len() <= MAX_ROWS,
    ensures
        category_stats_correct(out@, rows@, kind),
{
    let ghost gr = rows@;
    let groups = group_categories(rows, kind);
    proof {
        lemma_first_ids_props(gr, kind);
        assert(group_views(groups@) =~= spec_groups(gr, kind));
    }
    let mut sorted = sort_groups_desc(groups);

    // The percentage denominator: the total over all matching rows.
    let mut total: i128 = 0;
    let mut i: usize = 0;
    while i < rows.len()
        invariant
            rows_ok(gr),
            gr.len() <= MAX_ROWS,
            gr == rows@,
            0 <= i <= gr.len(),
            total == sum_where(gr.take(i as int), RowFilter::AnyCat(kind)),
        decreases rows.len() - i,
    {
        proof {
            lemma_sum_take_step(gr, RowFilter::AnyCat(kind), i as int);
            assert(rows_ok(gr.take(i as int + 1))) by {
                assert(forall|j: int|
                    0 <= j < i as int + 1 ==> #[trigger] gr.take(i as int + 1)[j] == gr[j]);
            }
            lemma_sum_bound(gr.take(i as int + 1), RowFilter::AnyCat(kind));
        }
        let counts = rows[i].kind == kind && rows[i].category.is_some();
        if counts {
            total = total + rows[i].amount.units;
        }
        i = i + 1;
    }
    proof {
        assert(gr.take(gr.len() as int) =~= gr);
        lemma_sum_bound(gr, RowFilter::AnyCat(kind));
    }

    let ghost before_trunc = sorted@;
    sorted.truncate(10);
    let ghost svs = spec_category_stats(gr, kind);
    let ghost topviews = group_views(sorted@);
    proof {
        lemma_sort_desc_props(spec_groups(gr, kind));
        if before_trunc.len() > 10 {
            assert(topviews =~= group_views(before_trunc).take(10)) by {
                assert(forall|j: int|
                    0 <= j < 10 ==> #[trigger] group_views(sorted@)[j] == group_views(
                        before_trunc,
                    )[j]);
            }
            assert(topviews =~= sort_desc(spec_groups(gr, kind)).take(10));
        } else {
            assert(topviews == sort_desc(spec_groups(gr, kind)));
        }
        assert(svs.len() == topviews.len());
        assert forall|j: int| 0 <= j < topviews.len() implies 0 <= (#[trigger] topviews[j]).amount
            <= kind_total(gr, kind) by {
            assert(topviews[j] == sort_desc(spec_groups(gr, kind))[j]);
            assert(spec_groups(gr, kind).contains(topviews[j]));
            let jj = choose|jj: int|
                0 <= jj < spec_groups(gr, kind).len() && spec_groups(gr, kind)[jj] == topviews[j];
            let id = first_ids(gr, kind)[jj];
            assert(topviews[j].amount == cat_amount(gr, kind, id));
            lemma_sum_bound(gr, RowFilter::CatKind(kind, id));
            lemma_sum_subset(gr, RowFilter::CatKind(kind, id), RowFilter::AnyCat(kind));
        }
        assert forall|j: int| 0 <= j < svs.len() implies #[trigger] svs[j] == stat_view_of(
            topviews[j],
            kind_total(gr, kind),
        ) by {
            assert(topviews[j] == sort_desc(spec_groups(gr, kind))[j]);
        }
    }

    let mut out: Vec<CategoryStat> = Vec::new();
    let ghost n = topviews.len();
    while sorted.len() > 0
        invariant
            out@.len() + sorted@.len() == n,
            group_views(sorted@) =~= topviews.skip(out@.len() as int),
            svs == spec_category_stats(gr, kind),
            svs.len() == n,
            topviews.len() == n,
            total == kind_total(gr, kind),
            0 <= total <= MAX_TOTAL_UNITS,
            forall|j: int| 0 <= j < n ==> 0 <= (#[trigger] topviews[j]).amount <= total,
            forall|j: int|
                0 <= j < n ==> #[trigger] svs[j] == stat_view_of(topviews[j], total as int),
            forall|j: int| 0 <= j < out@.len() ==> stat_matches(#[trigger] out@[j], svs[j]),
        decreases sorted.len(),
    {
        let ghost kk = out@.len() as int;
        let ghost before_rm = sorted@;
        let g = sorted.remove(0);
        proof {
            assert(g == before_rm[0]);
            assert(group_views(before_rm)[0] == group_view(g));
            assert(group_views(before_rm)[0] == topviews.skip(kk)[0]);
            assert(topviews.skip(kk)[0] == topviews[kk]);
            assert(group_view(g) == topviews[kk]);
            assert forall|j: int| 0 <= j < sorted@.len() implies #[trigger] group_views(sorted@)[j]
                == topviews.skip(kk + 1)[j] by {
                assert(sorted@[j] == before_rm[j + 1]);
                assert(group_views(sorted@)[j] == group_view(sorted@[j]));
                assert(group_views(before_rm)[j + 1] == group_view(before_rm[j + 1]));
                assert(group_views(before_rm)[j + 1] == topviews.skip(kk)[j + 1]);
                assert(topviews.skip(kk)[j + 1] == topviews[kk + 1 + j]);
                assert(topviews.skip(kk + 1)[j] == topviews[kk + 1 + j]);
            }
            assert(group_views(sorted@) =~= topviews.skip(kk + 1));
        }
        let pct = crate::money::percentage_of(g.amount, Money { units: total });
        let color = match g.color {
            Some(c) => c,
            None => "#007bff".to_owned(),
        };
        out.push(CategoryStat {
            name: g.name,
            amount: g.amount,
            percentage: pct,
            color,
            transaction_count: g.count,
        });
        proof {
            assert(stat_matches(out@[kk], svs[kk]));
        }
    }
    proof {
        assert forall|j1: int, j2: int| 0 <= j1 < j2 < out@.len() implies (#[trigger] out@[j1]).amount.units
            >= (#[trigger] out@[j2]).amount.units by {
            let full = sort_desc(spec_groups(gr, kind));
            if full.len() > 10 {
                assert(topviews[j1] == full[j1] && topviews[j2] == full[j2]);
            }
            assert(svs[j1].amount == topviews[j1].amount && svs[j2].amount == topviews[j2].amount);
        }
    }
    out
}

/// The overall numbers of one report: totals, net balance and the average
/// spent per day.
#[derive(Clone, Copy, Debug, PartialEq, Eq, Structural)]
pub struct ReportSummary {
    pub total_income: Money,
    pub total_expense: Money,
    pub net_balance: Money,
    pub net_balance_abs: Money,
    pub is_positive_balance: bool,
    pub average_daily_expense: Money,
}

/// What a correct summary of `rows` over [`start`, `end`] states: exact
/// totals by kind, their difference as net balance with sign and absolute
/// value, and the expense average over the range's inclusive day count
/// (both `start` and `end` are counted), rounded half up to two decimal
/// places.
pub open spec fn summary_correct(s: ReportSummary, rows: Seq<TxRow>, start: Date, end: Date) -> bool {
    &&& s.total_income.units == total_income(rows)
    &&& s.total_expense.units == total_expense(rows)
    &&& s.net_balance.units == total_income(rows) - total_expense(rows)
    &&& s.is_positive_balance == (total_income(rows) >= total_expense(rows))
    &&& s.net_balance_abs.units == if s.net_balance.units >= 0 {
        s.net_balance.units as int
    } else {
        -(s.net_balance.units as int)
    }
    &&& s.average_daily_expense.units == spec_average_2dp(
        total_expense(rows),
        day_number(end) - day_number(start) + 1,
    )
}

/// Sums income and expense over all rows and derives the summary block.
pub fn summarize(rows: &Vec<TxRow>, start: Date, end: Date) -> (s: ReportSummary)
    requires
        rows_ok(rows@),
        rows@.len() <= MAX_ROWS,
        start.valid(),
        end.valid(),
        start.spec_le(end),
    ensures
        summary_correct(s, rows@, start, end),
{
    let ghost gr = rows@;
    let mut ti: i128 = 0;
    let mut te: i128 = 0;
    let mut i: usize = 0;
    while i < rows.len()
        invariant
            rows_ok(gr),
            gr.len() <= MAX_ROWS,
            gr == rows@,
            0 <= i <= gr.len(),
            ti == total_income(gr.take(i as int)),
            te == total_expense(gr.take(i as int)),
        decreases rows.len() - i,
    {
        proof {
            lemma_sum_take_step(gr, RowFilter::Kind(TxKind::Income), i as int);
            lemma_sum_take_step(gr, RowFilter::Kind(TxKind::Expense), i as int);
            assert(rows_ok(gr.take(i as int + 1))) by {
                assert(forall|j: int|
                    0 <= j < i as int + 1 ==> #[trigger] gr.take(i as int + 1)[j] == gr[j]);
            }
            lemma_sum_bound(gr.take(i as int + 1), RowFilter::Kind(TxKind::Income));
            lemma_sum_bound(gr.take(i as int + 1), RowFilter::Kind(TxKind::Expense));
            assert(gr.take(i as int + 1).len() <= MAX_ROWS);
        }
        let r = &rows[i];
        match r.kind {
            TxKind::Income => {
                ti = ti + r.amount.units;
            },
            TxKind::Expense => {
                te = te + r.amount.units;
            },
        }
        i = i + 1;
    }
    proof {
        assert(gr.take(gr.len() as int) =~= gr);
        lemma_sum_bound(gr, RowFilter::Kind(TxKind::Income));
        lemma_sum_bound(gr, RowFilter::Kind(TxKind::Expense));
        crate::date::lemma_day_number_order(start, end);
    }
    let net = Money { units: ti - te };
    let days: i64 = end.day_number_of() - start.day_number_of() + 1;
    ReportSummary {
        total_income: Money { units: ti },
        total_expense: Money { units: te },
        net_balance: net,
        net_balance_abs: net.abs(),
        is_positive_balance: ti >= te,
        average_daily_expense: crate::money::average_daily(Money { units: te }, days),
    }
}

/// One ledger's full report over an inclusive date range.
#[derive(Debug)]
pub struct Report {
    pub start_date: Date,
    pub end_date: Date,
    pub monthly_trends: Vec<MonthlyTrend>,
    pub expense_categories: Vec<CategoryStat>,
    pub income_categories: Vec<CategoryStat>,
    pub daily_expenses: Vec<DailyStat>,
    pub monthly_details: Vec<MonthlyDetail>,
    pub summary: ReportSummary,
}

/// Builds the full report of `rows` over [`start`, `end`] for a ledger whose
/// cycle starts on `start_day`: per-cycle trends and details, expense and
/// income category statistics, per-day expenses and the summary block.  A
/// start day outside 1-31 is rejected as invalid configuration; a range
/// whose end precedes its start is rejected as an invalid date range.
pub fn build_report(rows: &Vec<TxRow>, start_day: i32, start: Date, end: Date) -> (r: Result<
    Report,
    DomainError,
>)
    requires
        rows_ok(rows@),
        rows@.len() <= MAX_ROWS,
        start.valid(),
        end.valid(),
    ensures
        match r {
            Ok(rep) => {
                &&& 1 <= start_day <= 31
                &&& start.spec_le(end)
                &&& rep.start_date == start
                &&& rep.end_date == end
                &&& trends_correct(rep.monthly_trends@, rows@, start_day as int)
                &&& details_correct(rep.monthly_details@, rows@, start_day as int)
                &&& category_stats_correct(rep.expense_categories@, rows@, TxKind::Expense)
                &&& category_stats_correct(rep.income_categories@, rows@, TxKind::Income)
                &&& daily_correct(rep.daily_expenses@, rows@)
                &&& summary_correct(rep.summary, rows@, start, end)
            },
            Err(e) => {
                &&& !(1 <= start_day <= 31) ==> e == (DomainError::InvalidConfiguration {
                    start_day,
                })
                &&& 1 <= start_day <= 31 ==> !start.spec_le(end) && e
                    == (DomainError::InvalidDateRange { start, end })
            },
        },
        r is Err <==> !(1 <= start_day <= 31) || !start.spec_le(end),
{
    let sd = crate::error::check_start_day(start_day)?;
    if end.before(start) {
        return Err(DomainError::InvalidDateRange { start, end });
    }
    Ok(
        Report {
            start_date: start,
            end_date: end,
            monthly_trends: trends_by_period(rows, sd),
            expense_categories: category_stats(rows, TxKind::Expense),
            income_categories: category_stats(rows, TxKind::Income),
            daily_expenses: daily_expenses(rows),
            monthly_details: details_by_period(rows, sd),
            summary: summarize(rows, start, end),
        },
    )
}

/// Aggregating an empty row set never fails for a well-formed configuration
/// and range, and every summary field is exactly zero (and the balance
/// non-negative), rather than missing.
pub proof fn lemma_empty_rows_zero_summary(s: ReportSummary, rows: Seq<TxRow>, start: Date, end: Date)
    requires
        rows.len() == 0,
        summary_correct(s, rows, start, end),
    ensures
        s.total_income.units == 0,
        s.total_expense.units == 0,
        s.net_balance.units == 0,
        s.net_balance_abs.units == 0,
        s.is_positive_balance,
        s.average_daily_expense.units == 0,
{
    assert(total_income(rows) == 0);
    assert(total_expense(rows) == 0);
    let days = day_number(end) - day_number(start) + 1;
    let d = if days < 1 {
        1
    } else {
        days
    };
    assert(spec_average_2dp(0, days) == 0) by {
        assert((2 * 0 + d * 100) / (2 * (d * 100)) == 0) by (nonlinear_arith)
            requires
                d >= 1,
        ;
    }
}

} // verus!
