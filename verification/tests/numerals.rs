use arith_expr::Decimal;

#[test]
fn digits_are_a_numeral() {
    let d = Decimal::new("12").unwrap();
    assert_eq!(d.as_str(), "12");
}

#[test]
fn one_point_is_allowed_anywhere() {
    assert_eq!(Decimal::new("1.5").unwrap().as_str(), "1.5");
    assert_eq!(Decimal::new(".5").unwrap().as_str(), ".5");
    assert_eq!(Decimal::new("5.").unwrap().as_str(), "5.");
}

#[test]
fn two_points_are_no_numeral() {
    assert!(Decimal::new("1.2.3").is_none());
    assert!(Decimal::new("1..2").is_none());
    assert!(Decimal::new("..").is_none());
}

#[test]
fn a_numeral_needs_a_digit() {
    assert!(Decimal::new("").is_none());
    assert!(Decimal::new(".").is_none());
}

#[test]
fn other_characters_are_no_numeral() {
    assert!(Decimal::new("1a").is_none());
    assert!(Decimal::new("-1").is_none());
    assert!(Decimal::new("1 2").is_none());
    assert!(Decimal::new("1e5").is_none());
    assert!(Decimal::new("+").is_none());
    assert!(Decimal::new("\u{0663}").is_none());
}

#[test]
fn a_numeral_is_kept_as_written() {
    assert_eq!(Decimal::new("007.50").unwrap().as_str(), "007.50");
}

#[test]
fn a_cloned_numeral_is_equal() {
    let d = Decimal::new("3.25").unwrap();
    let e = d.clone();
    assert_eq!(d, e);
    assert_eq!(e.as_str(), "3.25");
}

#[test]
fn every_numeral_is_a_machine_number_too() {
    for text in ["0", "12", "1.5", ".5", "5.", "007.50", "123456789012345678901234567890"] {
        let d = Decimal::new(text).unwrap();
        assert!(d.as_str().parse::<f64>().is_ok());
    }
}
