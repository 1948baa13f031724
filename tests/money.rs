use rateio::money::Money;

fn money(text: &str) -> Money {
    Money::parse(text).unwrap()
}

#[test]
fn test_create_money_from_numbers() {
    assert_eq!(Money::from(20u32), Money(20000));
    assert_eq!(money("139.94"), Money(139940));
}

#[test]
fn test_from_rounds_correctly() {
    assert_eq!(money("10.5556"), Money(10556));
    assert_eq!(money("10.5554"), Money(10555));
}

#[test]
fn test_read_money() {
    let m = Money::from(20u32);
    assert_eq!(m.0, 20000);
    assert_eq!(m.thousandths() as f64 / 1000.0, 20.0);

    let m = money("19.952");
    assert_eq!(m.0, 19952);
    assert_eq!(m.thousandths() as f64 / 1000.0, 19.952);
}

#[test]
fn test_add_money() {
    assert_eq!(Money::from(30u32).add(Money::from(20u32)), Money::from(50u32));
    assert_eq!(Money::from(30u32).add(money("19.9")), money("49.9"));
}

#[test]
fn test_sub() {
    assert_eq!(Money::from(30u32).sub(Money::from(20u32)), Money::from(10u32));
    assert_eq!(Money::from(30u32).sub(money("19.9")), money("10.1"));
}

#[test]
fn test_mul_money() {
    assert_eq!(Money::from(30u32).mul(2), Money::from(60u32));
    assert_eq!(Money::from(30u32).scale(3, 2), Money::from(45u32));
}

#[test]
fn test_div_money() {
    assert_eq!(Money::from(30u32).div(2), Money::from(15u32));
    assert_eq!(Money::from(30u32).scale(2, 3), Money::from(20u32));
}

#[test]
fn division_rounds_halves_up() {
    assert_eq!(Money(10).div(4), Money(3));
    assert_eq!(Money(10).div(3), Money(3));
    assert_eq!(Money(11).div(2), Money(6));
    assert_eq!(Money(10000).div(3), Money(3333));
}

#[test]
fn parse_rounds_half_away_from_zero_and_rejects_bad_text() {
    assert_eq!(money("0.0005"), Money(1));
    assert_eq!(money("0.0004"), Money(0));
    assert_eq!(money("7"), Money(7000));
    assert_eq!(Money::parse("-1"), None);
    assert_eq!(Money::parse("abc"), None);
    assert_eq!(Money::parse(""), None);
    assert_eq!(Money::parse("100000000000000000000"), None);
}

#[test]
fn rounding_to_cents_and_sums() {
    assert_eq!(Money(10555).round_to_cents(), Money(10560));
    assert_eq!(Money(10554).round_to_cents(), Money(10550));
    assert_eq!(Money(10545).round_to_cents(), Money(10540));
    assert_eq!(Money(10565).round_to_cents(), Money(10560));
    assert_eq!(Money(10566).round_to_cents(), Money(10570));
    assert_eq!(Money::sum(&[Money(1), Money(20), Money(300)]), Money(321));
    assert_eq!(Money::sum(&[]), Money::zero());
    let mut m = Money(5);
    m.add_assign(Money(7));
    assert_eq!(m, Money(12));
    m.div_assign(4);
    assert_eq!(m, Money(3));
}

#[test]
fn from_decimal_parts_rounds_and_refuses() {
    assert_eq!(Money::from_decimal_parts(13994, 2), Some(Money(139940)));
    assert_eq!(Money::from_decimal_parts(105555, 4), Some(Money(10556)));
    assert_eq!(Money::from_decimal_parts(7, 0), Some(Money(7000)));
    assert_eq!(Money::from_decimal_parts(-1, 0), None);
    assert_eq!(Money::from_decimal_parts(1, 28), Some(Money(0)));
}
