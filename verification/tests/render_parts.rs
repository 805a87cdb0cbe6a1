use bitruler::render::bit::{highlight_bit_digits, render_bit_area, TopConnector};
use bitruler::render::hex::{hex_right_edge, render_hex_digits};
use bitruler::render::layout::{is_wide_group_gap, join_visual_tokens, token_start_column, visual_width};
use bitruler::render::ruler::{format_power_of_two, render_ruler_with_left_labels};
use bitruler::render::style::{
    color_escape, color_index_from_right, colorize, grey_visual_scaffolding, ColorMode,
    ColorPalette,
};

fn strip_ansi(input: &str) -> String {
    let mut stripped = String::new();
    let mut chars = input.chars();
    while let Some(character) = chars.next() {
        if character == '\x1b' {
            for character in chars.by_ref() {
                if character == 'm' {
                    break;
                }
            }
        } else {
            stripped.push(character);
        }
    }
    stripped
}

#[test]
fn highlights_bit_digits() {
    assert_eq!(
        highlight_bit_digits(0, "10_01", ColorMode::Color(ColorPalette::Default)),
        "\x1b[1m\x1b[38;5;1m1\x1b[0m\x1b[1m\x1b[38;5;1m0\x1b[0m_\x1b[1m\x1b[38;5;1m0\x1b[0m\x1b[1m\x1b[38;5;1m1\x1b[0m"
    );
}

#[test]
fn leaves_bit_digits_uncolored_in_no_color_mode() {
    assert_eq!(
        highlight_bit_digits(0, "10_01", ColorMode::NoColor),
        "10_01"
    );
}

#[test]
fn renders_single_nibble_bit_area() {
    let lines = render_bit_area(
        "1010",
        ColorMode::Color(ColorPalette::Default),
        TopConnector::Full,
    )
    .into_iter()
    .map(|line| strip_ansi(&line))
    .collect::<Vec<_>>();

    assert_eq!(lines[0], "├┬┬┤");
    assert_eq!(lines[2], "1010");
    assert_eq!(lines[4], "└──┤");
    assert_eq!(lines[6], "   0");
    assert_eq!(lines[7], "");
}

#[test]
fn renders_bit_area_grouped_from_the_right() {
    let lines = render_bit_area(
        "00010010001101000101",
        ColorMode::Color(ColorPalette::Default),
        TopConnector::Full,
    )
    .into_iter()
    .map(|line| strip_ansi(&line))
    .collect::<Vec<_>>();

    assert_eq!(lines[0], "├┬┬┤   ├┬┬┤ ├┬┬┤ ├┬┬┤ ├┬┬┤");
    assert_eq!(lines[2], "0001 _ 0010_0011_0100_0101");
    assert_eq!(lines[4], "└──┤   └──┤ └──┤ └──┤ └──┤");
    assert_eq!(lines[6], "  16     12    8    4    0");
}

#[test]
fn renders_compact_top_connectors() {
    let lines = render_bit_area("10101111", ColorMode::NoColor, TopConnector::Compact);

    assert_eq!(lines[0], "┌┬┬┤ ┌┬┬┤");
}

#[test]
fn renders_bit_area_positions_for_key_lengths() {
    let cases = [
        (1, "   0"),
        (4, "  12    8    4    0"),
        (8, "  28   24   20   16     12    8    4    0"),
        (9, "  32     28   24   20   16     12    8    4    0"),
    ];

    for (nibble_count, expected_positions) in cases {
        let bit_digits = "0".repeat(nibble_count * 4);
        let lines = render_bit_area(
            &bit_digits,
            ColorMode::Color(ColorPalette::Default),
            TopConnector::Full,
        )
        .into_iter()
        .map(|line| strip_ansi(&line))
        .collect::<Vec<_>>();

        assert_eq!(lines[6], expected_positions, "nibble_count={nibble_count}");
    }
}

#[test]
fn renders_partial_last_nibble() {
    let lines = render_bit_area("10101", ColorMode::NoColor, TopConnector::Full);
    assert_eq!(lines[2], "1010_1");
    assert_eq!(lines[6], "   4    0");
}

#[test]
fn tracks_wide_group_gaps_from_the_right() {
    let cases = [
        (1, vec![]),
        (2, vec![]),
        (3, vec![]),
        (4, vec![]),
        (5, vec![1]),
        (6, vec![2]),
        (7, vec![3]),
        (8, vec![4]),
        (9, vec![1, 5]),
    ];

    for (token_count, expected_gap_indexes) in cases {
        let actual_gap_indexes = (1..token_count)
            .filter(|index| is_wide_group_gap(*index, token_count))
            .collect::<Vec<_>>();

        assert_eq!(
            actual_gap_indexes, expected_gap_indexes,
            "token_count={token_count}"
        );
    }
}

#[test]
fn joins_visual_tokens_with_wide_group_gaps() {
    let tokens = (0..5).map(|index| index.to_string()).collect::<Vec<_>>();

    assert_eq!(join_visual_tokens(&tokens), "0   1 2 3 4");
}

#[test]
fn token_columns_match_the_joined_tokens() {
    let tokens = (0..6).map(|_| "abcd".to_string()).collect::<Vec<_>>();
    let joined = join_visual_tokens(&tokens);
    for index in 0..6 {
        let column = token_start_column(index, 6);
        assert_eq!(&joined[column..column + 4], "abcd");
    }
    assert_eq!(token_start_column(2, 6), 12);
    assert_eq!(visual_width(6), 27 + 4 + 10);
    assert_eq!(visual_width(0), 0);
}

#[test]
fn formats_power_of_two_labels() {
    assert_eq!(format_power_of_two(0), "1");
    assert_eq!(format_power_of_two(8), "256");
    assert_eq!(format_power_of_two(12), "4K");
    assert_eq!(format_power_of_two(60), "1E");
    assert_eq!(format_power_of_two(64), "16E");
    assert_eq!(format_power_of_two(124), "2^124");
}

#[test]
fn formats_every_prefix_label() {
    assert_eq!(format_power_of_two(4), "16");
    assert_eq!(format_power_of_two(20), "1M");
    assert_eq!(format_power_of_two(36), "64G");
    assert_eq!(format_power_of_two(40), "1T");
    assert_eq!(format_power_of_two(52), "4P");
    assert_eq!(format_power_of_two(72), "4Z");
    assert_eq!(format_power_of_two(88), "256Y");
    assert_eq!(format_power_of_two(92), "2^92");
}

fn assert_ruler_connectors_align(lines: &[String], digit_count: usize) {
    for (row, line) in lines.iter().enumerate() {
        for (column, character) in line.chars().enumerate() {
            if character == '┐' {
                for line in lines.iter().skip(row + 1) {
                    assert_eq!(
                        line.chars().nth(column),
                        Some('│'),
                        "left connector at row {row}, column {column} for {digit_count} digits is not aligned"
                    );
                }
            } else if character == '┌' && row + 1 < lines.len() {
                assert_eq!(
                    lines[row + 1].chars().nth(column),
                    Some('│'),
                    "right connector at row {row}, column {column} for {digit_count} digits is not aligned"
                );
            }
        }
    }
}

#[test]
fn aligns_ruler_connectors_for_all_hex_lengths() {
    for digit_count in 1..=32 {
        let hex_digits = (0..digit_count)
            .map(|index| char::from(b"123456789abcdef0"[index % 16]))
            .collect::<Vec<_>>();
        let lines = render_ruler_with_left_labels(&hex_digits, "UNIT");
        let lines = lines
            .iter()
            .map(|line| strip_ansi(line))
            .collect::<Vec<_>>();

        assert_ruler_connectors_align(&lines, digit_count);
    }
}

#[test]
fn renders_expected_ruler_labels_for_key_lengths() {
    for digit_count in [1, 2, 3, 5, 9, 17, 32] {
        let hex_digits = vec!['f'; digit_count];
        let lines = render_ruler_with_left_labels(&hex_digits, "UNIT");
        let rendered = strip_ansi(&lines.join("\n"));
        let highest_label = format_power_of_two((digit_count - 1) * 4);

        assert!(
            rendered.contains(&highest_label),
            "digit_count={digit_count}"
        );
        assert!(rendered.contains('1'), "digit_count={digit_count}");
        assert_eq!(
            lines.len(),
            digit_count.div_ceil(2),
            "digit_count={digit_count}"
        );
    }
}

#[test]
fn renders_no_ruler_for_no_digits() {
    assert!(render_ruler_with_left_labels(&[], "UNIT").is_empty());
}

#[test]
fn colorizes_hex_digits() {
    assert_eq!(
        colorize(2, "████", ColorMode::Color(ColorPalette::Default)),
        "\x1b[38;5;3m████\x1b[0m"
    );
}

#[test]
fn colorizes_with_ansi_256_indexes() {
    assert_eq!(
        colorize(
            5,
            "████",
            ColorMode::Color(ColorPalette::Ansi256([1, 2, 3, 4]))
        ),
        "\x1b[38;5;2m████\x1b[0m"
    );
}

#[test]
fn leaves_hex_digits_uncolored_in_no_color_mode() {
    assert_eq!(colorize(2, "████", ColorMode::NoColor), "████");
}

#[test]
fn calculates_color_indexes_from_the_right() {
    let indexes = (0..5)
        .map(|index| color_index_from_right(index, 5))
        .collect::<Vec<_>>();

    assert_eq!(indexes, vec![3, 4, 5, 6, 7]);
}

#[test]
fn greys_visual_scaffolding() {
    assert_eq!(
        grey_visual_scaffolding(
            "A \x1b[34mB\x1b[0m",
            ColorMode::Color(ColorPalette::Default)
        ),
        "\x1b[90mA\x1b[0m \x1b[34mB\x1b[0m"
    );
}

#[test]
fn leaves_scaffolding_uncolored_in_no_color_mode() {
    assert_eq!(grey_visual_scaffolding("A B", ColorMode::NoColor), "A B");
}

#[test]
fn greys_after_a_reset_again() {
    assert_eq!(
        grey_visual_scaffolding("\x1b[34mB\x1b[0mC", ColorMode::Color(ColorPalette::Default)),
        "\x1b[34mB\x1b[0m\x1b[90mC\x1b[0m"
    );
}

#[test]
fn color_escapes_use_the_palette() {
    assert_eq!(
        color_escape(7, ColorMode::Color(ColorPalette::Ansi256([10, 20, 30, 200]))),
        Some("\x1b[38;5;200m".to_string())
    );
    assert_eq!(color_escape(0, ColorMode::NoColor), None);
}

#[test]
fn hex_glyphs_reach_the_last_column() {
    for digit in "0123456789abcdefABCDEF".chars() {
        assert_eq!(hex_right_edge(digit), 3, "digit={digit}");
    }
}

#[test]
fn renders_hex_glyph_rows() {
    let lines = render_hex_digits(&['1', 'b'], ColorMode::NoColor);
    assert_eq!(lines.len(), 5);
    assert_eq!(lines[0], "  █  ███ ");
    assert_eq!(lines[4], " ███ ███ ");
    let colored = render_hex_digits(&['0'], ColorMode::Color(ColorPalette::Default));
    assert_eq!(colored[1], "\x1b[38;5;1m█  █\x1b[0m");
}
