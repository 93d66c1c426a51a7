use cs50::decimal::Decimal;

fn d(s: &str) -> Decimal {
    Decimal::try_from(s).expect("a number")
}

#[test]
fn parse_and_print() {
    assert_eq!(d("2.1").to_string(), "2.1");
    assert_eq!(d("+007.500").to_string(), "7.5");
    assert_eq!(d("-0.0").to_string(), "-0");
    assert_eq!(d("0").negate().to_string(), "-0");
    assert!(d("-0").eq(&d("0")));
    assert_eq!(d(".25").to_string(), "0.25");
    assert_eq!(d("-12.").to_string(), "-12");
    assert_eq!(d("100").to_string(), "100");
    assert_eq!(d("100").int_places(), 3);
}

#[test]
fn parse_rejects() {
    assert!(Decimal::try_from("").is_none());
    assert!(Decimal::try_from("-").is_none());
    assert!(Decimal::try_from("1.2.3").is_none());
    assert!(Decimal::try_from("12a").is_none());
}

#[test]
fn arithmetic() {
    assert_eq!(d("2.1").mul(d("1.0")).to_string(), "2.1");
    assert_eq!(d("0.1").add(d("0.2")).to_string(), "0.3");
    assert_eq!(d("-5").sub(d("3.25")).to_string(), "-8.25");
    assert_eq!(d("1.5").sub(d("1.5")).to_string(), "0");
    assert_eq!(d("-1.5").mul(d("-2")).to_string(), "3");
    assert_eq!(d("99.99").add(d("0.01")).to_string(), "100");
    assert_eq!(d("123456789012345678901234567890").mul(d("10")).to_string(), "1234567890123456789012345678900");
    assert_eq!(d("7").negate().to_string(), "-7");
    assert_eq!(d("-7.25").abs().to_string(), "7.25");
}

#[test]
fn comparisons() {
    assert!(d("1.50").eq(&d("1.5")));
    assert!(d("1.5").lt(&d("1.50001")));
    assert!(d("-2").lt(&d("1")));
    assert!(d("-2").lt(&d("-1.9")));
    assert!(d("3").ge(&d("3.0")));
    assert!(d("3").le(&d("3")));
    assert!(d("0").gt(&d("-0.001")));
    assert_eq!(d("10").compare_any(&d("9.99")), 1);
}

#[test]
fn lone_point_is_zero() {
    assert_eq!(d(".").to_string(), "0");
    assert_eq!(d("-.").to_string(), "-0");
    assert_eq!(d("+.").to_string(), "0");
    assert!(Decimal::try_from("+").is_none());
}

#[test]
fn shortest_text_and_places() {
    assert_eq!(d("1.50").to_string(), "1.5");
    assert_eq!(d("-007.250").to_string(), "-7.25");
    assert_eq!(d("100.00").to_string(), "100");
    assert_eq!(d("0.0").to_string(), "0");
    assert_eq!(d("123.45").int_places(), 3);
    assert_eq!(d("0.5").int_places(), 1);
    assert_eq!(d("-7").int_places(), 1);
    assert_eq!(d("2.5").negate().negate().to_string(), "2.5");
}
