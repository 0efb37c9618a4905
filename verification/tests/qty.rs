use view_allocations::qty::{ParseError, Qty, QtyCmp};

fn q(s: &str) -> Qty {
    Qty::from_str(s).unwrap()
}

#[test]
fn parse_plain_integer_roundtrip() {
    let a = q("42");
    let b = q("42");
    assert_eq!(a.compare(&b), QtyCmp::Equal);
    let z = q("0");
    assert_eq!(z.add(&a).compare(&a), QtyCmp::Equal);
    assert_eq!(a.add(&z).compare(&a), QtyCmp::Equal);
}

#[test]
fn cross_suffix_equivalence() {
    assert_eq!(q("1000m").compare(&q("1")), QtyCmp::Equal);
    assert_eq!(q("1Ki").compare(&q("1024")), QtyCmp::Equal);
    assert_eq!(q("5Mi").compare(&q("5242880")), QtyCmp::Equal);
    assert_eq!(q("1k").compare(&q("1000")), QtyCmp::Equal);
    assert_eq!(q("1E").compare(&q("1000000000000000000")), QtyCmp::Equal);
}

#[test]
fn parse_fraction_exponent_and_sign() {
    assert_eq!(q("1.5").compare(&q("1500m")), QtyCmp::Equal);
    assert_eq!(q("1e3").compare(&q("1000")), QtyCmp::Equal);
    assert_eq!(q("1E+3").compare(&q("1000")), QtyCmp::Equal);
    assert_eq!(q("2e-2").compare(&q("20m")), QtyCmp::Equal);
    assert_eq!(q("-5").add(&q("5")).compare(&q("0")), QtyCmp::Equal);
    assert_eq!(q("0.5Ki").compare(&q("512")), QtyCmp::Equal);
}

#[test]
fn parse_rejects_bad_grammar() {
    assert_eq!(Qty::from_str("").unwrap_err(), ParseError::Syntax);
    assert_eq!(Qty::from_str("abc").unwrap_err(), ParseError::Syntax);
    assert_eq!(Qty::from_str("1.").unwrap_err(), ParseError::Syntax);
    assert_eq!(Qty::from_str("+").unwrap_err(), ParseError::Syntax);
    assert_eq!(Qty::from_str("12K").unwrap_err(), ParseError::Syntax);
    assert_eq!(Qty::from_str("1i").unwrap_err(), ParseError::Syntax);
    assert_eq!(Qty::from_str("1 ").unwrap_err(), ParseError::Syntax);
    assert_eq!(Qty::from_str("1e").unwrap_err(), ParseError::Syntax);
}

#[test]
fn parse_rejects_huge_exponent() {
    assert_eq!(
        Qty::from_str("1e99999999999").unwrap_err(),
        ParseError::OutOfRange
    );
}

#[test]
fn addition_is_associative_and_commutative_by_order() {
    let a = q("100m");
    let b = q("2Ki");
    let c = q("3");
    let l = a.add(&b).add(&c);
    let r = a.add(&b.add(&c));
    assert_eq!(l.compare(&r), QtyCmp::Equal);
    assert_eq!(a.add(&b).compare(&b.add(&a)), QtyCmp::Equal);
}

#[test]
fn comparison_is_an_exact_total_order() {
    assert_eq!(q("1").compare(&q("2")), QtyCmp::Less);
    assert_eq!(q("2").compare(&q("1")), QtyCmp::Greater);
    assert_eq!(q("2000m").compare(&q("2")), QtyCmp::Equal);
    assert_eq!(q("1.999").compare(&q("2")), QtyCmp::Less);
}

#[test]
fn percentage_of_zero_denominator_is_zero() {
    let zero = q("0");
    assert_eq!(q("5").calc_percentage(&zero), 0);
    assert_eq!(zero.calc_percentage(&zero), 0);
    assert_eq!(q("1Gi").calc_percentage(&zero), 0);
}

#[test]
fn percentage_values() {
    assert_eq!(q("500m").calc_percentage(&q("2")), 25);
    assert_eq!(q("3").calc_percentage(&q("2")), 150);
    assert_eq!(q("1").calc_percentage(&q("3")), 33);
    assert_eq!(q("512Mi").calc_percentage(&q("1Gi")), 50);
}

#[test]
fn display_scaling_decimal() {
    assert_eq!(q("0").adjust_scale(), "0");
    assert_eq!(q("12").adjust_scale(), "12");
    assert_eq!(q("1234").adjust_scale(), "1.2k");
    assert_eq!(q("2500000").adjust_scale(), "2.5M");
    assert_eq!(q("500m").adjust_scale(), "500m");
    assert_eq!(q("-1234").adjust_scale(), "-1.2k");
}

#[test]
fn display_scaling_binary() {
    assert_eq!(q("1Gi").adjust_scale(), "1Gi");
    assert_eq!(q("1536Ki").adjust_scale(), "1.5Mi");
    assert_eq!(q("512").adjust_scale(), "512");
    assert_eq!(q("0.5Ki").adjust_scale(), "512");
}

#[test]
fn default_is_additive_identity() {
    let z = Qty::default();
    let a = q("7Mi");
    assert_eq!(z.add(&a).compare(&a), QtyCmp::Equal);
    assert!(z.is_zero());
    assert!(!a.is_zero());
}
