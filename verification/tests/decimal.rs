use share_count::decimal::Decimal;

fn dec(text: &str) -> Decimal {
    Decimal::parse(text).expect("a decimal number")
}

#[test]
fn parse_reads_decimal_text() {
    assert_eq!(dec("3").to_text(), "3");
    assert_eq!(dec("-1.50").to_text(), "-1.50");
    assert!(Decimal::parse("abc").is_none());
    assert!(Decimal::parse("").is_none());
}

#[test]
fn parse_keeps_the_scale_within_limits() {
    assert!(Decimal::parse("1e-16383").is_some());
    assert!(Decimal::parse("1e-16384").is_none());
    assert!(Decimal::parse("1e131072").is_some());
    assert!(Decimal::parse("1e131073").is_none());
    assert!(Decimal::parse("1e-9223372036854775807").is_none());
}

#[test]
fn amounts_far_apart_in_scale_add_up() {
    let mut sum = dec("1e131072");
    sum.add_assign_ref(&dec("1e-16383"));
    assert!(dec("1e131072").lt(&sum));
    sum.sub_assign_ref(&dec("1e131072"));
    assert!(sum.same(&dec("1e-16383")));
}

#[test]
fn sum_and_difference_are_exact() {
    assert!(dec("0.1").plus(&dec("0.2")).same(&dec("0.3")));
    assert!(!dec("0.1").plus(&dec("0.2")).same(&dec("0.30000001")));
    let mut a = dec("1");
    a.sub_assign_ref(&dec("0.25"));
    assert!(a.same(&dec("0.75")));
    a.add_assign_ref(&dec("0.25"));
    assert!(a.same(&dec("1")));
    a.add_assign(dec("-3"));
    assert!(a.same(&dec("-2")));
}

#[test]
fn same_ignores_the_scale() {
    assert!(dec("1.0").same(&dec("1.00")));
    assert!(dec("100").same(&dec("1e2")));
    assert!(!dec("1.0").same(&dec("1.01")));
}

#[test]
fn order_follows_the_value() {
    assert!(dec("-4").lt(&dec("1")));
    assert!(!dec("1").lt(&dec("1.0")));
    assert!(dec("1").le(&dec("1.0")));
    assert!(dec("2.5").lt(&dec("2.51")));
    assert!(!dec("3").le(&dec("2.99")));
}

#[test]
fn times_minus_one_negates() {
    assert!(dec("4").times(-1).same(&dec("-4")));
    assert!(dec("-0.5").times(-1).same(&dec("0.5")));
    assert!(dec("0.5").times(3).same(&dec("1.5")));
}

#[test]
fn zero_and_one() {
    assert!(Decimal::zero().is_zero());
    assert!(dec("0.000").is_zero());
    assert!(!Decimal::one().is_zero());
    assert!(Decimal::one().same(&dec("1")));
    assert!(Decimal::from_i32(7).expect("some").same(&dec("7")));
}

#[test]
fn min_keeps_the_first_on_a_tie() {
    assert_eq!(dec("1.0").min(dec("1.00")).to_text(), "1.0");
    assert_eq!(dec("2").min(dec("1")).to_text(), "1");
    assert_eq!(dec("1").min(dec("2")).to_text(), "1");
}

#[test]
fn clone_keeps_the_text() {
    let d = dec("12.340");
    assert_eq!(d.clone().to_text(), "12.340");
}
