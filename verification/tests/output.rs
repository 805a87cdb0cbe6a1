use bitruler::format::Endian;
use bitruler::output::{
    clip_line, output_lines, output_width, terminal_lines, trim_trailing_spaces, width_warning,
    OutputColor, OutputMode, OutputOptions,
};

fn strip_ansi(input: &str) -> String {
    let mut stripped = String::new();
    let mut chars = input.chars();
    while let Some(character) = chars.next() {
        if character == '\x1b' {
            for character in chars.by_ref() {
                if character == 'm' {
                    break;
                }
            }
        } else {
            stripped.push(character);
        }
    }
    stripped
}

#[test]
fn assembles_text_only_output_without_visual_lines() {
    let (lines, visual_line_count) = output_lines(
        0x1234,
        OutputOptions {
            color: OutputColor::NoColor,
            mode: OutputMode::TextOnly,
            hex_digits: Some(8),
            endian: Endian::Big,
        },
    );

    assert_eq!(visual_line_count, 0);
    assert_eq!(
        lines,
        vec![
            "HEX: 0x0000_1234",
            "DEC: 4660",
            "OCT: 0o11064",
            "BIN: 0b0000_0000_0000_0000_0001_0010_0011_0100",
            "ASC: ...4",
        ]
    );
}

#[test]
fn assembles_visual_and_text_output_with_separator() {
    let (lines, visual_line_count) = output_lines(
        0x1234,
        OutputOptions {
            color: OutputColor::NoColor,
            mode: OutputMode::VisualAndText,
            hex_digits: None,
            endian: Endian::Big,
        },
    );

    assert!(visual_line_count > 0);
    assert_eq!(lines[visual_line_count], "");
    assert_eq!(lines[visual_line_count + 1], "HEX: 0x1234");
}

#[test]
fn assembles_compact_output_with_bit_area_and_text() {
    let (lines, visual_line_count) = output_lines(
        0x1234,
        OutputOptions {
            color: OutputColor::NoColor,
            mode: OutputMode::Compact,
            hex_digits: None,
            endian: Endian::Big,
        },
    );
    let rendered = lines.join("\n");

    assert!(visual_line_count > 0);
    assert!(!rendered.contains("U    "));
    assert!(rendered.contains("E       1    2    3    4"));
    assert!(rendered.contains("     ┌┬┬┤ ┌┬┬┤ ┌┬┬┤ ┌┬┬┤"));
    assert!(rendered.contains("I    0001_0010_0011_0100"));
    assert_eq!(lines[visual_line_count], "");
    assert_eq!(lines[visual_line_count + 1], "HEX: 0x1234");
}

#[test]
fn assembles_little_endian_output() {
    let (lines, _visual_line_count) = output_lines(
        0x1234,
        OutputOptions {
            color: OutputColor::NoColor,
            mode: OutputMode::Compact,
            hex_digits: None,
            endian: Endian::Little,
        },
    );
    let rendered = lines.join("\n");

    assert!(rendered.contains("E       3    4    1    2"));
    assert!(rendered.contains("I    0011_0100_0001_0010"));
    assert!(rendered.contains("HEX: 0x3412"));
    assert!(rendered.contains("DEC: 4660"));
    assert!(rendered.contains("ASC: 4."));
}

#[test]
fn output_width_ignores_trailing_spaces() {
    assert_eq!(
        output_width(&["abc   ".to_string(), "\x1b[90mde\x1b[0m   ".to_string()]),
        3
    );
}

#[test]
fn clips_lines_to_terminal_width() {
    assert_eq!(clip_line("abcdef", Some(4)), "abcd");
    assert_eq!(clip_line("┌─ 16", Some(3)), "┌─ ");
    assert_eq!(strip_ansi(&clip_line("\x1b[1m0\x1b[0m123", Some(3))), "012");
    assert_eq!(clip_line("abcdef", None), "abcdef");
}

#[test]
fn trims_trailing_spaces_without_dropping_ansi_sequences() {
    assert_eq!(trim_trailing_spaces("abc   "), "abc");
    assert_eq!(
        trim_trailing_spaces("\x1b[90mabc\x1b[0m   "),
        "\x1b[90mabc\x1b[0m"
    );
}

#[test]
fn clips_lines_without_splitting_ansi_sequences() {
    let clipped = clip_line("\x1b[31mab\x1b[0mcd", Some(3));

    assert_eq!(strip_ansi(&clipped), "abc");
    assert!(clipped.contains("\x1b[31m"));
    assert!(clipped.contains("\x1b[0m"));
}

#[test]
fn trims_blank_lines_to_nothing() {
    assert_eq!(trim_trailing_spaces("    "), "");
    assert_eq!(trim_trailing_spaces("\x1b[1m  \x1b[0m "), "");
    assert_eq!(trim_trailing_spaces("a \x1b[0m "), "a\x1b[0m");
    assert_eq!(trim_trailing_spaces(""), "");
}

#[test]
fn clipping_keeps_escapes_before_the_cut() {
    assert_eq!(clip_line("ab\x1b[0mcd", Some(2)), "ab\x1b[0m");
    assert_eq!(clip_line("ab", Some(0)), "");
    assert_eq!(clip_line("\x1b[1mab", Some(0)), "\x1b[1m");
    assert_eq!(clip_line("ab", Some(5)), "ab");
}

#[test]
fn prints_visual_lines_trimmed_and_clipped() {
    let lines = vec!["abcdef   ".to_string(), "".to_string(), "HEX: 0x1234".to_string()];
    assert_eq!(terminal_lines(&lines, 1, Some(4)), vec!["abcd", "", "HEX: 0x1234"]);
    assert_eq!(terminal_lines(&lines, 1, None), vec!["abcdef", "", "HEX: 0x1234"]);
}

#[test]
fn warns_when_output_is_wider_than_terminal() {
    let lines = vec!["abcdef   ".to_string()];
    assert_eq!(width_warning(&lines, None), None);
    assert_eq!(width_warning(&lines, Some(6)), None);
    assert_eq!(
        width_warning(&lines, Some(100)),
        None
    );
    assert_eq!(
        width_warning(&lines, Some(5)),
        Some("Warni".to_string())
    );
    let wide = vec!["x".repeat(80)];
    assert_eq!(
        width_warning(&wide, Some(79)),
        Some("Warning: output is 80 columns wide, but terminal is 79 columns wide.".to_string())
    );
}
