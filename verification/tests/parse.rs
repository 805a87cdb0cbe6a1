use bitruler::parse::parse_unsigned;

#[test]
fn parses_supported_radixes() {
    assert_eq!(
        parse_unsigned("0x1234_1234_1234_1234"),
        Ok(0x1234_1234_1234_1234)
    );
    assert_eq!(
        parse_unsigned("0X1234_1234_1234_1234"),
        Ok(0x1234_1234_1234_1234)
    );
    assert_eq!(
        parse_unsigned("1311693406324658740"),
        Ok(0x1234_1234_1234_1234)
    );
    assert_eq!(
        parse_unsigned("0o110640443202215011064"),
        Ok(0x1234_1234_1234_1234)
    );
    assert_eq!(
        parse_unsigned("0O110640443202215011064"),
        Ok(0x1234_1234_1234_1234)
    );
    assert_eq!(
        parse_unsigned("0b0001001000110100000100100011010000010010001101000001001000110100"),
        Ok(0x1234_1234_1234_1234)
    );
    assert_eq!(
        parse_unsigned("0B0001001000110100000100100011010000010010001101000001001000110100"),
        Ok(0x1234_1234_1234_1234)
    );
}

#[test]
fn parses_binary_size_suffixes() {
    assert_eq!(parse_unsigned("40K"), Ok(40 * 1024));
    assert_eq!(parse_unsigned("40k"), Ok(40 * 1024));
    assert_eq!(parse_unsigned("3M"), Ok(3 * 1024 * 1024));
    assert_eq!(parse_unsigned("80m"), Ok(80 * 1024 * 1024));
    assert_eq!(parse_unsigned("25G"), Ok(25 * 1024 * 1024 * 1024));
    assert_eq!(parse_unsigned("34g"), Ok(34 * 1024 * 1024 * 1024));
}

#[test]
fn parses_size_suffixes_with_other_radixes_and_separators() {
    assert_eq!(parse_unsigned("0x10K"), Ok(0x10 * 1024));
    assert_eq!(parse_unsigned("0b10M"), Ok(2 * 1024 * 1024));
    assert_eq!(parse_unsigned("1_024K"), Ok(1024 * 1024));
}

#[test]
fn parses_u128_boundaries() {
    assert_eq!(
        parse_unsigned("0xffff_ffff_ffff_ffff_ffff_ffff_ffff_ffff"),
        Ok(u128::MAX)
    );
    assert!(parse_unsigned("0x1_0000_0000_0000_0000_0000_0000_0000_0000").is_err());
}

#[test]
fn rejects_invalid_numbers() {
    for input in [
        "", "_", "0x", "0o", "0b", "0xg", "0o8", "0b2", "12abc", "K", "1T",
    ] {
        assert!(
            parse_unsigned(input).is_err(),
            "{input:?} should be invalid"
        );
    }
}

#[test]
fn rejects_size_suffix_overflow() {
    assert!(parse_unsigned("0x4000_0000_0000_0000_0000_0000_0000_0000K").is_err());
}

#[test]
fn reports_each_parse_error() {
    assert_eq!(parse_unsigned(""), Err("number is empty".to_string()));
    assert_eq!(parse_unsigned("__"), Err("number is empty".to_string()));
    assert_eq!(parse_unsigned("0x"), Err("number has no digits".to_string()));
    assert_eq!(parse_unsigned("k"), Err("number has no digits".to_string()));
    assert_eq!(parse_unsigned("0xg"), Err("number has no digits".to_string()));
    assert_eq!(
        parse_unsigned("0xh"),
        Err("invalid unsigned number: 0xh".to_string())
    );
    assert_eq!(
        parse_unsigned("1_T"),
        Err("invalid unsigned number: 1_T".to_string())
    );
}

#[test]
fn accepts_a_leading_plus_like_the_standard_parser() {
    assert_eq!(parse_unsigned("+12"), Ok(12));
    assert_eq!(parse_unsigned("0x+ff"), Ok(255));
    assert!(parse_unsigned("+").is_err());
    assert!(parse_unsigned("-1").is_err());
}
