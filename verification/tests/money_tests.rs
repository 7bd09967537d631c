use accounting_system::money::{average_daily, percentage_of, Money, MONEY_SCALE};

#[test]
fn units_are_ten_thousandths() {
    assert_eq!(MONEY_SCALE, 10_000);
    assert_eq!(Money::zero().units, 0);
    assert_eq!(Money::from_units(123_456).units, 123_456);
}

#[test]
fn abs_drops_the_sign() {
    assert_eq!(Money::from_units(-500_000).abs(), Money::from_units(500_000));
    assert_eq!(Money::from_units(500_000).abs(), Money::from_units(500_000));
    assert_eq!(Money::zero().abs(), Money::zero());
}

#[test]
fn percentage_rounds_half_up() {
    let pct = |a: i128, t: i128| percentage_of(Money::from_units(a), Money::from_units(t));
    assert_eq!(pct(300, 400), 75);
    assert_eq!(pct(100, 400), 25);
    assert_eq!(pct(1, 3), 33);
    assert_eq!(pct(2, 3), 67);
    assert_eq!(pct(125, 1000), 13); // 12.5 rounds up
    assert_eq!(pct(0, 0), 0); // a zero total gives zero percent
    assert_eq!(pct(400, 400), 100);
}

#[test]
fn average_rounds_half_up_to_two_decimals() {
    // 55.555 over 10 days is 5.5555 a day, shown as 5.56.
    assert_eq!(
        average_daily(Money::from_units(555_550), 10),
        Money::from_units(55_600)
    );
    // Fewer than one day counts as one.
    assert_eq!(
        average_daily(Money::from_units(555_550), 0),
        Money::from_units(555_600)
    );
    assert_eq!(average_daily(Money::zero(), 10), Money::zero());
}
