use bitruler::cli::{
    help_text, is_colors_flag, is_compact_flag, is_help_flag, is_hex_digits_flag,
    is_little_endian_flag, is_no_color_flag, is_text_only_flag, is_version_flag, parse_colors,
    parse_hex_digits,
};

#[test]
fn recognizes_help_flags() {
    assert!(is_help_flag("-h"));
    assert!(is_help_flag("--help"));
    assert!(!is_help_flag("0x1234"));
}

#[test]
fn recognizes_version_flags() {
    assert!(is_version_flag("-v"));
    assert!(is_version_flag("--version"));
    assert!(!is_version_flag("0x1234"));
}

#[test]
fn recognizes_no_color_flag() {
    assert!(is_no_color_flag("--no-color"));
    assert!(!is_no_color_flag("--color"));
}

#[test]
fn recognizes_text_only_flag() {
    assert!(is_text_only_flag("--text-only"));
    assert!(!is_text_only_flag("--text"));
}

#[test]
fn recognizes_compact_flag() {
    assert!(is_compact_flag("--compact"));
    assert!(!is_compact_flag("--small"));
}

#[test]
fn recognizes_hex_digits_flag() {
    assert!(is_hex_digits_flag("--hex-digits"));
    assert!(!is_hex_digits_flag("--bits"));
}

#[test]
fn parses_hex_digits_option() {
    assert_eq!(parse_hex_digits("1"), Ok(1));
    assert_eq!(parse_hex_digits("32"), Ok(32));
    assert!(parse_hex_digits("0").is_err());
    assert!(parse_hex_digits("33").is_err());
    assert!(parse_hex_digits("abc").is_err());
}

#[test]
fn hex_digits_errors_name_the_problem() {
    assert_eq!(
        parse_hex_digits("33"),
        Err("--hex-digits must be between 1 and 32, got 33".to_string())
    );
    assert_eq!(
        parse_hex_digits("abc"),
        Err("invalid --hex-digits value: abc".to_string())
    );
    assert_eq!(parse_hex_digits("+8"), Ok(8));
    assert!(parse_hex_digits("").is_err());
    assert!(parse_hex_digits("99999999999999999999999").is_err());
}

#[test]
fn recognizes_little_endian_and_colors_flags() {
    assert!(is_little_endian_flag("--little-endian"));
    assert!(!is_little_endian_flag("--little"));
    assert!(is_colors_flag("--colors"));
    assert!(!is_colors_flag("--color"));
}

#[test]
fn parses_colors_option() {
    assert_eq!(parse_colors("1,2,3,4"), Ok([1, 2, 3, 4]));
    assert_eq!(parse_colors("196,46,21,255"), Ok([196, 46, 21, 255]));
    assert_eq!(
        parse_colors("1,2,3"),
        Err("invalid --colors value: 1,2,3".to_string())
    );
    assert!(parse_colors("1,2,3,256").is_err());
    assert!(parse_colors("1,2,,4").is_err());
    assert!(parse_colors("1,2,3,4,5").is_err());
}

#[test]
fn help_text_names_the_program() {
    let text = help_text("bitruler");
    assert!(text.starts_with("bitruler - visualize, decode, and inspect binary data"));
    assert!(text.contains("  bitruler --help / -h"));
    assert!(text.ends_with("bitruler 0b0001_0010_0011_0100"));
}
