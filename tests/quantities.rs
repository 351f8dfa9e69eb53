use kubectl_view_allocations::{ParseError, Qty, Scale};

fn q(s: &str) -> Qty {
    Qty::from_str(s).unwrap()
}

#[test]
fn parse_plain_and_suffixed() {
    assert_eq!(q("4").attos, 4_000_000_000_000_000_000);
    assert_eq!(q("500m").attos, 500_000_000_000_000_000);
    assert_eq!(q("1.5").attos, 1_500_000_000_000_000_000);
    assert_eq!(q("1Ki").attos, 1_024_000_000_000_000_000_000);
    assert_eq!(q("1Gi").attos, 1_073_741_824_000_000_000_000_000_000);
    assert_eq!(q("+2k").attos, 2_000_000_000_000_000_000_000);
    assert_eq!(q("3n").attos, 3_000_000_000);
    assert_eq!(q(".5").attos, 500_000_000_000_000_000);
    assert_eq!(q("1Gi").scale, Scale::Gibi);
}

#[test]
fn parse_errors() {
    assert_eq!(Qty::from_str("").unwrap_err(), ParseError::Malformed);
    assert_eq!(Qty::from_str(".").unwrap_err(), ParseError::Malformed);
    assert_eq!(Qty::from_str("1.2.3").unwrap_err(), ParseError::Malformed);
    assert_eq!(Qty::from_str("abc").unwrap_err(), ParseError::Malformed);
    assert_eq!(Qty::from_str("12x").unwrap_err(), ParseError::UnknownSuffix);
    assert_eq!(Qty::from_str("12Ki3").unwrap_err(), ParseError::UnknownSuffix);
    assert_eq!(Qty::from_str("-1").unwrap_err(), ParseError::Negative);
    assert_eq!(Qty::from_str("0.0000000000000000001").unwrap_err(), ParseError::OutOfRange);
    assert_eq!(
        Qty::from_str("999999999999999999999999999999999999999").unwrap_err(),
        ParseError::OutOfRange
    );
}

#[test]
fn format_then_parse_every_suffix() {
    for s in ["5n", "7u", "250m", "3", "2k", "4M", "6G", "8T", "1Ki", "3Mi", "2Gi", "5Ti"] {
        let a = q(s);
        let text = a.format();
        assert_eq!(text, s);
        assert_eq!(q(&text).attos, a.attos);
    }
}

#[test]
fn format_falls_back_to_finer_scale() {
    assert_eq!(q("1.5").format(), "1500m");
    assert_eq!(q("1.5Ki").format(), "1536");
    assert_eq!(q("0.25").format(), "250m");
}

#[test]
fn addition_is_exact_in_any_order() {
    let a = q("500m");
    let b = q("250m");
    let c = q("0.25");
    let one = q("1");
    assert!(a.plus(&b).plus(&c).same_amount(&one));
    assert!(a.plus(&b.plus(&c)).same_amount(&one));
    assert!(c.plus(&a).plus(&b).same_amount(&one));
    assert_eq!(a.plus(&b).plus(&c).attos, 1_000_000_000_000_000_000);
}

#[test]
fn max_bounds_and_idempotent() {
    let a = q("500m");
    let b = q("1");
    assert!(a.max(&b).same_amount(&b));
    assert!(b.max(&a).same_amount(&b));
    assert!(!a.max(&b).less_than(&a));
    assert!(a.max(&a).same_amount(&a));
}

#[test]
fn compare_across_scales() {
    assert!(q("500m").less_than(&q("1")));
    assert!(q("1000000000").less_than(&q("1Gi")));
    assert!(q("1Gi").same_amount(&q("1073741824")));
}

#[test]
fn subtraction_floors_at_zero() {
    assert_eq!(q("4").saturating_sub(&q("2500m")).attos, 1_500_000_000_000_000_000);
    assert_eq!(q("1").saturating_sub(&q("3")).attos, 0);
    assert!(q("1").saturating_sub(&q("1")).is_zero());
}

#[test]
fn lowest_positive_is_one_nano() {
    let e = Qty::lowest_positive();
    assert_eq!(e.attos, 1_000_000_000);
    assert!(!e.is_zero());
    assert!(Qty::zero().less_than(&e));
}

#[test]
fn sign_goes_through_the_parser() {
    assert_eq!(Qty::from_str("-0").unwrap().attos, 0);
    let (minus, q) = Qty::parse_signed("-1500m").unwrap();
    assert!(minus);
    assert_eq!(q.attos, 1_500_000_000_000_000_000);
    let (minus, q) = Qty::parse_signed("+2Ki").unwrap();
    assert!(!minus);
    assert_eq!(q.attos, 2_048_000_000_000_000_000_000);
    assert_eq!(Qty::parse_signed("-x").unwrap_err(), ParseError::Malformed);
}

#[test]
fn amounts_below_a_nano_unit() {
    assert_eq!(q("1.5n").attos, 1_500_000_000);
    assert_eq!(q("1.5n").scale, Scale::Nano);
    assert_eq!(q("0.0000000001").attos, 100_000_000);
    assert_eq!(q("0.000000000000000001").attos, 1);
    assert_eq!(q("0.5n").attos, 500_000_000);
    assert_eq!(q("1.5n").format(), "1.500000000n");
    assert_eq!(q("0.0000000001").format(), "0.100000000n");
    assert_eq!(q("2.000000001u").format(), "2000.000001000n");
    for s in ["1.5n", "0.0000000001", "3.25u", "7.000000000000000001"] {
        let a = q(s);
        assert_eq!(q(&a.format()).attos, a.attos);
    }
}
