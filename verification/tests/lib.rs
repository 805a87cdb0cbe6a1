use bitruler::command::{plan_run, Plan};
use bitruler::format::Endian;
use bitruler::output::{OutputColor, OutputMode};
use bitruler::{fits_hex_digits, hex_digit_count, inferred_hex_digit_width, output_options};

#[test]
fn infers_hex_digit_width_from_input() {
    assert_eq!(inferred_hex_digit_width("0x001234"), Some(6));
    assert_eq!(inferred_hex_digit_width("0X001_234"), Some(6));
    assert_eq!(inferred_hex_digit_width("0x10K"), None);
    assert_eq!(inferred_hex_digit_width("0x0000_0000_0000_0000_0000_0000_0000_0000"), Some(32));
    assert_eq!(inferred_hex_digit_width("0x0000_0000_0000_0000_0000_0000_0000_0000_0"), None);
    assert_eq!(inferred_hex_digit_width("0b000000101"), Some(3));
    assert_eq!(inferred_hex_digit_width("0B0000_0010_1"), Some(3));
    assert_eq!(inferred_hex_digit_width("0b10M"), None);
    assert_eq!(inferred_hex_digit_width("4660"), None);
}

#[test]
fn counts_hex_digits_and_fits() {
    assert_eq!(hex_digit_count(0), 1);
    assert_eq!(hex_digit_count(0xf), 1);
    assert_eq!(hex_digit_count(0x10), 2);
    assert_eq!(hex_digit_count(u128::MAX), 32);
    assert!(fits_hex_digits(0xffff, 4));
    assert!(!fits_hex_digits(0x1_0000, 4));
}

#[test]
fn output_options_follow_flag_precedence() {
    let options = output_options(true, true, true, true, Some(4), Some([9, 9, 9, 9]));
    assert_eq!(options.color, OutputColor::NoColor);
    assert_eq!(options.mode, OutputMode::TextOnly);
    assert_eq!(options.endian, Endian::Little);
    assert_eq!(options.hex_digits, Some(4));
    let options = output_options(false, false, true, false, None, Some([1, 2, 3, 4]));
    assert_eq!(options.color, OutputColor::Ansi256([1, 2, 3, 4]));
    assert_eq!(options.mode, OutputMode::Compact);
    assert_eq!(options.endian, Endian::Big);
}

fn args(items: &[&str]) -> Vec<String> {
    items.iter().map(|item| item.to_string()).collect()
}

#[test]
fn plans_help_version_and_usage_errors() {
    assert!(matches!(plan_run(&args(&["br", "--help"])), Plan::Help { program_name } if program_name == "br"));
    assert!(matches!(plan_run(&args(&["br", "-v"])), Plan::Version));
    match plan_run(&args(&["br"])) {
        Plan::Fail { code, messages } => {
            assert_eq!(code, 2);
            assert_eq!(messages, vec!["Usage: br <unsigned-number>", "Try 'br --help' for more information."]);
        }
        _ => panic!("expected a usage error"),
    }
    match plan_run(&args(&["br", "1", "2"])) {
        Plan::Fail { code, .. } => assert_eq!(code, 2),
        _ => panic!("expected a usage error"),
    }
    match plan_run(&args(&["br", "1", "--hex-digits"])) {
        Plan::Fail { code, messages } => {
            assert_eq!(code, 2);
            assert_eq!(messages, vec!["Error: --hex-digits requires a value"]);
        }
        _ => panic!("expected a missing value error"),
    }
    match plan_run(&args(&["br", "--hex-digits", "40", "1"])) {
        Plan::Fail { code, messages } => {
            assert_eq!(code, 2);
            assert_eq!(messages, vec!["Error: --hex-digits must be between 1 and 32, got 40"]);
        }
        _ => panic!("expected an invalid value error"),
    }
}

#[test]
fn plans_output_for_a_number() {
    match plan_run(&args(&["br", "--compact", "--little-endian", "0x0012"])) {
        Plan::Show { number, options } => {
            assert_eq!(number, 0x12);
            assert_eq!(options.mode, OutputMode::Compact);
            assert_eq!(options.endian, Endian::Little);
            assert_eq!(options.hex_digits, Some(4));
            assert_eq!(options.color, OutputColor::Color);
        }
        _ => panic!("expected output"),
    }
    match plan_run(&args(&["br", "--hex-digits", "2", "0x1234"])) {
        Plan::Fail { code, messages } => {
            assert_eq!(code, 1);
            assert_eq!(messages, vec!["Error: value does not fit in 2 hex digits"]);
        }
        _ => panic!("expected a width error"),
    }
    match plan_run(&args(&["br", "12abc"])) {
        Plan::Fail { code, messages } => {
            assert_eq!(code, 1);
            assert_eq!(messages, vec!["Error: invalid unsigned number: 12abc"]);
        }
        _ => panic!("expected a parse error"),
    }
    match plan_run(&args(&["br", "--colors", "1,2,3,4", "--no-color", "7"])) {
        Plan::Show { options, .. } => assert_eq!(options.color, OutputColor::NoColor),
        _ => panic!("expected output"),
    }
}
