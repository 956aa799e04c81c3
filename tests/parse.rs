use balloon::cli::{parse_page_size, parse_size, Opt, ParsePageSizeError, ParseSizeError};

fn opt_with(page_size: Option<usize>) -> Opt {
    Opt {
        size: 4096,
        page_size,
        no_mlock: false,
        no_fill: false,
        poll_interval: None,
    }
}

#[test]
fn size_with_kilo_prefix() {
    assert!(matches!(parse_size("1k"), Ok(1024)));
}

#[test]
fn size_with_mega_prefix() {
    assert!(matches!(parse_size("2M"), Ok(2097152)));
}

#[test]
fn size_without_prefix() {
    assert!(matches!(parse_size("100"), Ok(100)));
}

#[test]
fn size_with_giga_and_tera_prefix() {
    assert!(matches!(parse_size("3G"), Ok(3221225472)));
    assert!(matches!(parse_size("1T"), Ok(1099511627776)));
}

#[test]
fn size_ten_kilo() {
    assert!(matches!(parse_size("10k"), Ok(10240)));
}

#[test]
fn size_with_unknown_prefix() {
    match parse_size("1X") {
        Err(ParseSizeError::InvalidPrefix(p)) => assert_eq!(p, "X"),
        _ => panic!("expected an invalid prefix"),
    }
}

#[test]
fn size_with_long_suffix_is_invalid_prefix() {
    match parse_size("12kB") {
        Err(ParseSizeError::InvalidPrefix(p)) => assert_eq!(p, "kB"),
        _ => panic!("expected an invalid prefix"),
    }
    match parse_size(" 5") {
        Err(ParseSizeError::InvalidPrefix(p)) => assert_eq!(p, " 5"),
        _ => panic!("expected an invalid prefix"),
    }
}

#[test]
fn size_empty_fails() {
    assert!(matches!(parse_size(""), Err(ParseSizeError::InvalidNumber)));
}

#[test]
fn size_prefix_without_digits_fails() {
    assert!(matches!(parse_size("k"), Err(ParseSizeError::InvalidNumber)));
}

#[test]
fn size_digit_overflow_fails() {
    assert!(matches!(
        parse_size("18446744073709551616"),
        Err(ParseSizeError::InvalidNumber)
    ));
    assert!(matches!(
        parse_size("18446744073709551615"),
        Ok(18446744073709551615)
    ));
}

#[test]
fn size_product_overflow_fails() {
    assert!(matches!(parse_size("16777216T"), Err(ParseSizeError::InvalidNumber)));
    assert!(matches!(parse_size("16777215T"), Ok(18446742974197923840)));
}

#[test]
fn size_error_messages() {
    assert_eq!(ParseSizeError::InvalidNumber.message(), "Invalid size number");
    assert_eq!(
        ParseSizeError::InvalidPrefix("X".to_string()).message(),
        "Invalid size prefix 'X'"
    );
}

#[test]
fn page_size_power_of_two() {
    assert!(matches!(parse_page_size("4096"), Ok(4096)));
    assert!(matches!(parse_page_size("1"), Ok(1)));
    assert!(matches!(parse_page_size("+65536"), Ok(65536)));
    assert!(matches!(
        parse_page_size("9223372036854775808"),
        Ok(9223372036854775808)
    ));
}

#[test]
fn page_size_not_power_of_two() {
    assert!(matches!(
        parse_page_size("4095"),
        Err(ParsePageSizeError::NotPowerOfTwo)
    ));
    assert!(matches!(
        parse_page_size("18446744073709551615"),
        Err(ParsePageSizeError::NotPowerOfTwo)
    ));
}

#[test]
fn page_size_zero_fails() {
    assert!(matches!(
        parse_page_size("0"),
        Err(ParsePageSizeError::NotPowerOfTwo)
    ));
}

#[test]
fn page_size_invalid_number() {
    for s in ["", "+", "4k", "-4096", "18446744073709551616", "40 96"] {
        assert!(matches!(
            parse_page_size(s),
            Err(ParsePageSizeError::InvalidNumber)
        ));
    }
}

#[test]
fn page_size_every_power_of_two_accepted() {
    for e in 0..64u32 {
        let n: usize = 1usize << e;
        assert!(matches!(parse_page_size(&n.to_string()), Ok(v) if v == n));
        if n > 2 {
            assert!(matches!(
                parse_page_size(&(n + 1).to_string()),
                Err(ParsePageSizeError::NotPowerOfTwo)
            ));
        }
    }
}

#[test]
fn size_digits_times_prefix() {
    let cases: [(&str, usize); 5] = [("", 1), ("k", 1024), ("M", 1 << 20), ("G", 1 << 30), ("T", 1 << 40)];
    for d in [0usize, 7, 123, 4096] {
        for (p, m) in cases {
            let s = format!("{}{}", d, p);
            assert!(matches!(parse_size(&s), Ok(v) if v == d * m));
        }
    }
}

#[test]
fn page_size_error_messages() {
    assert_eq!(
        ParsePageSizeError::InvalidNumber.message(),
        "Invalid page size number"
    );
    assert_eq!(
        ParsePageSizeError::NotPowerOfTwo.message(),
        "Page size must be a power of two"
    );
}

#[test]
fn effective_page_size_prefers_request() {
    assert_eq!(opt_with(Some(8192)).effective_page_size(Some(4096)), 8192);
    assert_eq!(opt_with(None).effective_page_size(Some(16384)), 16384);
    assert_eq!(opt_with(None).effective_page_size(None), 4096);
    assert_eq!(opt_with(None).effective_page_size(Some(0)), 4096);
}
