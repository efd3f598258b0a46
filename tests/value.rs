use faceted::DataType;
use std::cmp::Ordering;

#[test]
fn parse_integers_decimals_and_text() {
    assert_eq!(DataType::from_string("99"), DataType::Int(99));
    assert_eq!(DataType::from_string("-12"), DataType::Int(-12));
    assert_eq!(DataType::from_string("+7"), DataType::Int(7));
    assert_eq!(DataType::from_string("1.23"), DataType::Decimal(123, 2));
    assert_eq!(DataType::from_string("7000.0"), DataType::Decimal(70000, 1));
    assert_eq!(DataType::from_string("-0.05"), DataType::Decimal(-5, 2));
    assert_eq!(DataType::from_string(".5"), DataType::Decimal(5, 1));
    assert_eq!(DataType::from_string("5."), DataType::Decimal(5, 0));
    assert_eq!(DataType::from_string("abc"), DataType::String(String::from("abc")));
    assert_eq!(DataType::from_string("1.2.3"), DataType::String(String::from("1.2.3")));
    assert_eq!(DataType::from_string("."), DataType::String(String::from(".")));
    assert_eq!(DataType::from_string("-"), DataType::String(String::from("-")));
    assert_eq!(DataType::from_string(""), DataType::String(String::new()));
    assert_eq!(DataType::from_string("1e5"), DataType::String(String::from("1e5")));
    assert_eq!(DataType::from_string("-9223372036854775808"), DataType::Int(i64::MIN));
    assert_eq!(
        DataType::from_string("9223372036854775808"),
        DataType::String(String::from("9223372036854775808"))
    );
}

#[test]
fn render_values() {
    assert_eq!(DataType::Decimal(123, 2).to_string(), "1.23");
    assert_eq!(DataType::Decimal(70000, 1).to_string(), "7000.0");
    assert_eq!(DataType::Decimal(5, 3).to_string(), "0.005");
    assert_eq!(DataType::Decimal(-5, 2).to_string(), "-0.05");
    assert_eq!(DataType::Decimal(42, 0).to_string(), "42");
    assert_eq!(DataType::Int(i64::MIN).to_string(), "-9223372036854775808");
    assert_eq!(DataType::String(String::from("x y")).to_string(), "x y");
}

#[test]
fn decimal_round_trip() {
    for s in ["1.23", "7000.0", "99", "-0.05", "0", "-17", "0.000", "12.340"] {
        assert_eq!(DataType::from_string(s).to_string(), s);
    }
}

#[test]
fn decimal_safe_summation() {
    let a = DataType::Decimal(123, 2);
    let b = DataType::Int(5);
    assert_eq!(DataType::sum(&a, &b), Some(DataType::Decimal(623, 2)));
    assert_eq!(DataType::sum(&a, &b).unwrap().to_string(), "6.23");
    assert_eq!(DataType::sum(&DataType::Int(2), &DataType::Int(3)), Some(DataType::Int(5)));
    assert_eq!(
        DataType::sum(&DataType::Decimal(15, 1), &DataType::Decimal(5, 2)),
        Some(DataType::Decimal(155, 2))
    );
    assert_eq!(
        DataType::sum(&DataType::String(String::from("x")), &DataType::Int(4)),
        Some(DataType::Int(4))
    );
    assert_eq!(DataType::sum(&DataType::Int(i64::MAX), &DataType::Int(1)), None);
    assert_eq!(DataType::sum(&DataType::Decimal(1, 200), &DataType::Int(1)), None);
}

#[test]
fn compare_values() {
    let s = |x: &str| DataType::from_string(x);
    assert_eq!(DataType::cmp(&s("abc"), &s("1")), Ordering::Less);
    assert_eq!(DataType::cmp(&s("1"), &s("abc")), Ordering::Greater);
    assert_eq!(DataType::cmp(&s("abc"), &s("abd")), Ordering::Less);
    assert_eq!(DataType::cmp(&s("ab"), &s("ab")), Ordering::Equal);
    assert_eq!(DataType::cmp(&s("1.5"), &s("10")), Ordering::Less);
    assert_eq!(DataType::cmp(&s("1.50"), &s("1.5")), Ordering::Equal);
    assert_eq!(DataType::cmp(&s("2"), &s("1.99")), Ordering::Greater);
    assert_eq!(DataType::cmp(&s("-0.5"), &s("-1")), Ordering::Greater);
    assert_eq!(DataType::cmp(&DataType::Decimal(1, 200), &DataType::Int(0)), Ordering::Greater);
    assert_eq!(DataType::cmp(&DataType::Decimal(-1, 0), &DataType::Decimal(1, 250)), Ordering::Less);
    assert!(s("a").less(&s("b")));
    assert!(s("1").less(&s("1.0")));
    assert!(!s("1.0").less(&s("1")));
}
