use streamstats::parse::parse_value;

#[test]
fn plain_integers() {
    assert_eq!(parse_value(b"0"), Some(0));
    assert_eq!(parse_value(b"1"), Some(1000));
    assert_eq!(parse_value(b"42"), Some(42_000));
    assert_eq!(parse_value(b"007"), Some(7000));
    assert_eq!(parse_value(b"1000000"), Some(1_000_000_000));
}

#[test]
fn signs() {
    assert_eq!(parse_value(b"-1"), Some(-1000));
    assert_eq!(parse_value(b"+2"), Some(2000));
    assert_eq!(parse_value(b"-0"), Some(0));
    assert_eq!(parse_value(b"-1000000"), Some(-1_000_000_000));
}

#[test]
fn fractions() {
    assert_eq!(parse_value(b"1.5"), Some(1500));
    assert_eq!(parse_value(b"-1.5"), Some(-1500));
    assert_eq!(parse_value(b"0.001"), Some(1));
    assert_eq!(parse_value(b"3.14"), Some(3140));
    assert_eq!(parse_value(b"1.234"), Some(1234));
    assert_eq!(parse_value(b"12.500"), Some(12_500));
    assert_eq!(parse_value(b".5"), Some(500));
    assert_eq!(parse_value(b"5."), Some(5000));
    assert_eq!(parse_value(b"-.25"), Some(-250));
    assert_eq!(parse_value(b"007."), Some(7000));
}

#[test]
fn exponents() {
    assert_eq!(parse_value(b"1e3"), Some(1_000_000));
    assert_eq!(parse_value(b"1E3"), Some(1_000_000));
    assert_eq!(parse_value(b"1e+2"), Some(100_000));
    assert_eq!(parse_value(b"2.5e1"), Some(25_000));
    assert_eq!(parse_value(b"1e-3"), Some(1));
    assert_eq!(parse_value(b"15e-1"), Some(1500));
    assert_eq!(parse_value(b"1.5e-1"), Some(150));
    assert_eq!(parse_value(b"-2e2"), Some(-200_000));
    assert_eq!(parse_value(b".5e1"), Some(5000));
    assert_eq!(parse_value(b"0e99"), Some(0));
    assert_eq!(parse_value(b"1e005"), Some(100_000_000));
}

#[test]
fn rejected_shapes() {
    assert_eq!(parse_value(b""), None);
    assert_eq!(parse_value(b"-"), None);
    assert_eq!(parse_value(b"+"), None);
    assert_eq!(parse_value(b"."), None);
    assert_eq!(parse_value(b"-."), None);
    assert_eq!(parse_value(b".e3"), None);
    assert_eq!(parse_value(b"1.2345"), None);
    assert_eq!(parse_value(b"abc"), None);
    assert_eq!(parse_value(b"1 2"), None);
    assert_eq!(parse_value(b"1..2"), None);
    assert_eq!(parse_value(b"--1"), None);
    assert_eq!(parse_value(b"1e"), None);
    assert_eq!(parse_value(b"1e+"), None);
    assert_eq!(parse_value(b"1e2e3"), None);
    assert_eq!(parse_value(b"1e2.5"), None);
}

#[test]
fn rejected_magnitudes() {
    assert_eq!(parse_value(b"1000001"), None);
    assert_eq!(parse_value(b"2000000000"), None);
    assert_eq!(parse_value(b"1000000.001"), None);
    assert_eq!(parse_value(b"99999999999999999999"), None);
    assert_eq!(parse_value(b"-1000000.5"), None);
    // beyond the accepted range or below the precision
    assert_eq!(parse_value(b"1e7"), None);
    assert_eq!(parse_value(b"1e-4"), None);
    assert_eq!(parse_value(b"1e1000"), None);
    assert_eq!(parse_value(b"2e-1000"), None);
}
