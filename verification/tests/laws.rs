use bitruler::format::{display_hex_digits, format_lines, reverse_hex_digit_bytes, Endian};
use bitruler::output::{clip_line, output_lines, trim_trailing_spaces, OutputColor, OutputMode, OutputOptions};
use bitruler::parse::parse_unsigned;
use bitruler::render::bit::{render_bit_area, TopConnector};
use bitruler::render::layout::{token_start_column, write_at};
use bitruler::render::ruler::render_ruler_from_labels;
use bitruler::render::{render_visual, RenderColor, RenderMode, RenderOptions};
use bitruler::{fits_hex_digits, inferred_hex_digit_width};
use bitruler::render::style::{colorize, grey_visual_scaffolding, ColorMode, ColorPalette};
use bitruler::terminal::{display_width, width_from_columns};
use bitruler::render::hex::render_hex_digits;

fn strip(input: &str) -> String {
    let mut stripped = String::new();
    let mut chars = input.chars();
    while let Some(character) = chars.next() {
        if character == '\x1b' {
            for character in chars.by_ref() {
                if character == 'm' {
                    break;
                }
            }
        } else {
            stripped.push(character);
        }
    }
    stripped
}

#[test]
fn no_color_output_has_no_escape_in_any_layout() {
    for mode in [OutputMode::VisualAndText, OutputMode::Compact, OutputMode::TextOnly] {
        for endian in [Endian::Big, Endian::Little] {
            for hex_digits in [None, Some(5), Some(32)] {
                let options = OutputOptions {
                    color: OutputColor::NoColor,
                    mode,
                    hex_digits,
                    endian,
                };
                let (lines, _) = output_lines(0x1b1b_a1b2_c3, options);
                for line in &lines {
                    assert!(!line.contains('\x1b'), "{line:?}");
                }
            }
        }
    }
}

#[test]
fn colored_output_does_use_escapes() {
    let options = OutputOptions {
        color: OutputColor::Color,
        mode: OutputMode::Compact,
        hex_digits: None,
        endian: Endian::Big,
    };
    let (lines, _) = output_lines(0x12, options);
    assert!(lines.iter().any(|line| line.contains('\x1b')));
}

#[test]
fn colorize_keeps_text_and_width() {
    for mode in [
        ColorMode::Color(ColorPalette::Default),
        ColorMode::Color(ColorPalette::Ansi256([196, 46, 21, 226])),
        ColorMode::NoColor,
    ] {
        let colored = colorize(6, "█ ██", mode);
        assert_eq!(strip(&colored), "█ ██");
        assert_eq!(display_width(&colored), 4);
    }
}

#[test]
fn grey_keeps_text_and_width() {
    let line = "A \x1b[34mB\x1b[0m ─┐";
    let greyed = grey_visual_scaffolding(line, ColorMode::Color(ColorPalette::Default));
    assert_eq!(greyed, "\x1b[90mA\x1b[0m \x1b[34mB\x1b[0m \x1b[90m─\x1b[0m\x1b[90m┐\x1b[0m");
    assert_eq!(strip(&greyed), strip(line));
    assert_eq!(display_width(&greyed), display_width(line));
    assert_eq!(display_width(&greyed), 6);
}

#[test]
fn clipped_line_is_a_prefix_within_the_width() {
    let line = "\x1b[31mabc\x1b[0mdef";
    let clipped = clip_line(line, Some(4));
    assert_eq!(clipped, "\x1b[31mabc\x1b[0md");
    assert!(line.starts_with(&clipped));
    assert_eq!(display_width(&clipped), 4);
    assert_eq!(clip_line(line, Some(6)), line);
    assert_eq!(clip_line(line, Some(0)), "\x1b[31m");
}

#[test]
fn trimmed_line_keeps_every_escape() {
    let line = "ab \x1b[31m \x1b[0m  ";
    let trimmed = trim_trailing_spaces(line);
    assert_eq!(trimmed, "ab\x1b[31m\x1b[0m");
    assert_eq!(display_width(&trimmed), 2);
    assert_eq!(trim_trailing_spaces("  \x1b[0m "), "");
}

#[test]
fn underscores_only_separate_digits() {
    assert_eq!(parse_unsigned("0x_1_2__3_"), parse_unsigned("0x123"));
    assert_eq!(parse_unsigned("0x_1_2__3_"), Ok(0x123));
    assert_eq!(parse_unsigned("1_000_K"), Ok(1_024_000));
    assert_eq!(parse_unsigned("0_b_1_0"), Ok(2));
    assert!(parse_unsigned("0x_g").is_err());
}

#[test]
fn fixed_width_shows_exactly_that_many_digits() {
    assert_eq!(display_hex_digits(0x12, Some(5), Endian::Big), "00012");
    assert_eq!(display_hex_digits(0x12, Some(5), Endian::Little), "120000");
    assert_eq!(display_hex_digits(0, Some(32), Endian::Big).len(), 32);
    let lines = format_lines(0x12, Some(5), Endian::Big);
    assert_eq!(lines[0], "HEX: 0x0_0012");
    assert_eq!(lines[3], "BIN: 0b0000_0000_0000_0001_0010");
}

#[test]
fn text_area_reads_back_as_the_number() {
    for number in [0u128, 1, 0x1234_5678_9abc, u128::MAX] {
        let lines = format_lines(number, None, Endian::Big);
        for (line, prefix) in lines.iter().zip(["HEX: ", "DEC: ", "OCT: ", "BIN: "]) {
            let value = line.strip_prefix(prefix).unwrap();
            assert_eq!(parse_unsigned(value), Ok(number), "{line}");
        }
    }
}

#[test]
fn byte_swap_undoes_itself() {
    let digits: Vec<char> = "12345".chars().collect();
    let once = reverse_hex_digit_bytes(&digits);
    assert_eq!(once.iter().collect::<String>(), "452301");
    let twice = reverse_hex_digit_bytes(&once);
    assert_eq!(twice.iter().collect::<String>(), "012345");
}

#[test]
fn bit_area_nibbles_share_columns() {
    let bits = "00010010001101000101";
    let lines = render_bit_area(bits, ColorMode::NoColor, TopConnector::Full);
    let n = bits.len() / 4;
    for i in 0..n {
        let s = token_start_column(i, n);
        let cols = |line: &String| line.chars().skip(s).take(4).collect::<String>();
        assert_eq!(cols(&lines[0]), "├┬┬┤");
        assert_eq!(cols(&lines[2]), bits[4 * i..4 * i + 4]);
        assert_eq!(cols(&lines[4]), "└──┤");
        assert_eq!(cols(&lines[5]), "   │");
        assert_eq!(cols(&lines[6]), format!("{:>4}", (n - i - 1) * 4));
    }
}

fn chars(s: &str) -> Vec<char> {
    s.chars().collect()
}

#[test]
fn ruler_draws_any_labels_at_any_overhang() {
    let digits = chars("12");
    let labels = vec![chars("long_label"), chars("x")];
    let grid = render_ruler_from_labels(&digits, &labels, 0);
    assert_eq!(grid.len(), 1);
    assert_eq!(grid[0].iter().collect::<String>(), format!("el ┐ ┌─ x{}", " ".repeat(10)));
    let grid = render_ruler_from_labels(&digits, &labels, 8);
    assert_eq!(grid[0].iter().collect::<String>(), format!("long_label ┐ ┌─ x{}", " ".repeat(10)));
}

#[test]
fn write_at_drops_characters_outside_the_line() {
    let mut line = chars("......");
    write_at(&mut line, -2, &chars("abcd"));
    assert_eq!(line.iter().collect::<String>(), "cd....");
    write_at(&mut line, 4, &chars("xyz"));
    assert_eq!(line.iter().collect::<String>(), "cd..xy");
}

#[test]
fn greying_twice_is_greying_once() {
    let mode = ColorMode::Color(ColorPalette::Default);
    for line in ["A \x1b[34mB\x1b[0m ─┐", "U    4K ┐    │", "\x1b[1m0\x1b[0m_1"] {
        let once = grey_visual_scaffolding(line, mode);
        assert_eq!(grey_visual_scaffolding(&once, mode), once);
    }
}

#[test]
fn clipped_width_is_the_smaller_width() {
    let line = "\x1b[31mabc\x1b[0mdef";
    for w in 0..9 {
        assert_eq!(display_width(&clip_line(line, Some(w))), w.min(6));
    }
    assert_eq!(clip_line(line, None), line);
}

#[test]
fn trimming_shows_the_text_without_trailing_spaces() {
    let line = "a b \x1b[31m \x1b[0m  ";
    assert_eq!(strip(&trim_trailing_spaces(line)), strip(line).trim_end_matches(' '));
}

#[test]
fn inferred_width_holds_the_value() {
    for input in ["0x0000_00ff", "0xffffffffffffffffffffffffffffffff", "0b1", "0b0_0001_0000"] {
        let width = inferred_hex_digit_width(input).unwrap();
        let number = parse_unsigned(input).unwrap();
        assert!(fits_hex_digits(number, width), "{input}");
    }
}

#[test]
fn color_changes_no_visible_character() {
    for mode in [RenderMode::Full, RenderMode::Compact] {
        for color in [RenderColor::Color, RenderColor::Ansi256([9, 10, 11, 12])] {
            let colored = RenderOptions { color, mode, hex_digits: None, endian: Endian::Big };
            let plain = RenderOptions { color: RenderColor::NoColor, ..colored };
            let c = render_visual(0x1234_5678_9abc, colored);
            let p = render_visual(0x1234_5678_9abc, plain);
            assert_eq!(c.len(), p.len());
            for (cl, pl) in c.iter().zip(&p) {
                assert_eq!(&strip(cl), pl);
            }
        }
    }
}

#[test]
fn colored_bit_area_lines_up_once_stripped() {
    let bits = "000100100011010001010110";
    let lines = render_bit_area(bits, ColorMode::Color(ColorPalette::Default), TopConnector::Compact);
    let n = bits.len() / 4;
    let stripped: Vec<String> = lines.iter().map(|l| strip(l)).collect();
    let width = token_start_column(n - 1, n) + 4;
    for k in [0, 2, 4, 5, 6] {
        assert_eq!(stripped[k].chars().count(), width);
    }
    for i in 0..n {
        let s = token_start_column(i, n);
        let cols = |line: &String| line.chars().skip(s).take(4).collect::<String>();
        assert_eq!(cols(&stripped[0]), "┌┬┬┤");
        assert_eq!(cols(&stripped[2]), bits[4 * i..4 * i + 4]);
        assert_eq!(cols(&stripped[6]), format!("{:>4}", (n - i - 1) * 4));
    }
}

#[test]
fn position_line_is_the_last_visual_line() {
    let options = RenderOptions {
        color: RenderColor::Color,
        mode: RenderMode::Full,
        hex_digits: None,
        endian: Endian::Big,
    };
    let lines = render_visual(0xff, options);
    assert_eq!(lines.len(), 1 + 16);
    assert_eq!(strip(&lines[16]), "S       4    0");
}

#[test]
fn columns_value_gives_a_positive_width() {
    assert_eq!(width_from_columns("80"), Some(80));
    assert_eq!(width_from_columns("+120"), Some(120));
    assert_eq!(width_from_columns("0"), None);
    assert_eq!(width_from_columns(""), None);
    assert_eq!(width_from_columns("8O"), None);
    assert_eq!(width_from_columns("99999999999999999999999999"), None);
}

#[test]
fn right_half_labels_need_no_digit() {
    let grid = render_ruler_from_labels(&chars("a"), &vec![chars("16"), chars("1")], 0);
    assert_eq!(grid.len(), 1);
    assert_eq!(grid[0].iter().collect::<String>(), format!("16 ┐   ┌─ 1{}", " ".repeat(8)));
}

#[test]
fn glyphs_tell_digits_apart() {
    let mode = ColorMode::Color(ColorPalette::Default);
    assert_eq!(render_hex_digits(&['a'], mode), render_hex_digits(&['A'], mode));
    assert_ne!(render_hex_digits(&['8'], mode), render_hex_digits(&['b'], mode));
    let digits = "0123456789abcdef".chars().collect::<Vec<_>>();
    for (i, a) in digits.iter().enumerate() {
        for b in &digits[i + 1..] {
            assert_ne!(render_hex_digits(&[*a], ColorMode::NoColor), render_hex_digits(&[*b], ColorMode::NoColor));
        }
    }
}

#[test]
fn clip_is_the_longest_fitting_prefix() {
    let line = "\x1b[31mab\x1b[0m cd";
    let clipped = clip_line(line, Some(3));
    assert_eq!(clipped, "\x1b[31mab\x1b[0m ");
    for j in clipped.len() + 1..=line.len() {
        if line.is_char_boundary(j) {
            assert!(display_width(&line[..j]) > 3);
        }
    }
}
