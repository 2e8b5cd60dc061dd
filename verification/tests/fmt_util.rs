use spacesniff::fmt_util::{parse_size, SizeError, SizeParts};

/// The byte count a size text stands for: the number read as `f64`, times
/// the unit, converted as the command line does.
fn bytes(p: SizeParts) -> u64 {
    (p.number.parse::<f64>().unwrap() * p.scale as f64) as u64
}

#[test]
fn parse_sizes() {
    assert_eq!(bytes(parse_size("500").unwrap()), 500);
    assert_eq!(bytes(parse_size("10KB").unwrap()), 10_000);
    assert_eq!(bytes(parse_size("1.5GB").unwrap()), 1_500_000_000);
    assert_eq!(bytes(parse_size("2 mb").unwrap()), 2_000_000);
    assert!(parse_size("abc").is_err());
}

#[test]
fn parse_size_parts() {
    let p = parse_size("  1.5 gb ").unwrap();
    assert_eq!(p.number, "1.5");
    assert_eq!(p.scale, 1_000_000_000);
    let p = parse_size("-2k").unwrap();
    assert_eq!(p.number, "-2");
    assert_eq!(p.scale, 1_000);
}

#[test]
fn parse_size_units() {
    assert_eq!(parse_size("7").unwrap().scale, 1);
    assert_eq!(parse_size("7B").unwrap().scale, 1);
    assert_eq!(parse_size("7k").unwrap().scale, 1_000);
    assert_eq!(parse_size("7 M").unwrap().scale, 1_000_000);
    assert_eq!(parse_size("7g").unwrap().scale, 1_000_000_000);
    assert_eq!(parse_size("7TB").unwrap().scale, 1_000_000_000_000);
    assert_eq!(parse_size("  3 kb  ").unwrap().number, "3");
}

#[test]
fn parse_size_decimal_forms() {
    assert_eq!(parse_size(".5KB").unwrap().number, ".5");
    assert_eq!(parse_size("5.KB").unwrap().number, "5.");
    assert_eq!(parse_size("+2KB").unwrap().number, "+2");
    assert_eq!(bytes(parse_size("1.2345KB").unwrap()), 1_234);
    assert_eq!(bytes(parse_size("0").unwrap()), 0);
}

#[test]
fn parse_size_float_results() {
    assert_eq!(bytes(parse_size("1.005KB").unwrap()), 1_004);
    assert_eq!(bytes(parse_size("-5").unwrap()), 0);
    assert_eq!(bytes(parse_size("18446744073709551614").unwrap()), u64::MAX);
    assert_eq!(bytes(parse_size("99999999999999999999TB").unwrap()), u64::MAX);
}

#[test]
fn parse_size_errors() {
    match parse_size("abc") {
        Err(SizeError::InvalidSize(t)) => assert_eq!(t, "abc"),
        _ => panic!("expected an invalid size"),
    }
    match parse_size("10XB") {
        Err(SizeError::InvalidUnit(t)) => assert_eq!(t, "10XB"),
        _ => panic!("expected an invalid unit"),
    }
    assert!(matches!(parse_size(""), Err(SizeError::InvalidSize(_))));
    assert!(matches!(parse_size("."), Err(SizeError::InvalidSize(_))));
    assert!(matches!(parse_size("1.2.3"), Err(SizeError::InvalidSize(_))));
    assert!(matches!(parse_size("1e3"), Err(SizeError::InvalidUnit(_))));
    assert!(matches!(parse_size("1 5KB"), Err(SizeError::InvalidSize(_))));
    assert!(matches!(parse_size("5KBB"), Err(SizeError::InvalidUnit(_))));
    assert!(matches!(parse_size("5BB"), Err(SizeError::InvalidUnit(_))));
    assert!(matches!(parse_size("inf"), Err(SizeError::InvalidSize(_))));
}

#[test]
fn size_error_messages() {
    assert_eq!(parse_size("abc").unwrap_err().message(), "invalid size: abc");
    assert_eq!(parse_size("3 PB").unwrap_err().message(), "invalid size unit: 3 PB");
}

#[test]
fn parse_size_ignores_case_and_surrounding_space() {
    for text in ["10KB", "10kb", "10Kb", " 10kB\t", "\n10 kB  "] {
        let p = parse_size(text).unwrap();
        assert_eq!((p.number.as_str(), p.scale), ("10", 1_000));
    }
    assert!(matches!(parse_size("  Xyz "), Err(SizeError::InvalidSize(_))));
    assert!(matches!(parse_size(" 3 pB "), Err(SizeError::InvalidUnit(_))));
}
