//! Without color the output is plain text: not one of its lines holds the
//! escape character that starts an ANSI sequence; with color the visual
//! area shows exactly the text it shows without.

use vstd::prelude::*;
use crate::format::{
    ascii_char, even_padded, hex_to_bits, nibble_bits, spec_display_bytes, spec_display_hex_digits,
    spec_format_ascii, spec_format_bin, spec_format_hex, spec_format_lines, Endian,
};
use crate::output::{OutputColor, OutputOptions, spec_output_lines, spec_visual_area, spec_render_color};
use crate::properties::lemma_numeral_round_trip;
use crate::render::{
    RenderMode, RenderOptions, compact_hex_rows, full_bit_section, spec_color_mode_of,
    spec_render_visual, visual_lines,
};
use crate::render::bit::{
    bit_chunks, nibble_count, position_labels, repeated, right_aligned, spec_render_bit_area,
    spec_render_bit_chunks, spec_highlight_bit_digits, visual_join, TopConnector,
};
use crate::render::hex::{hex_pattern_row, spec_render_hex_digits};
use crate::render::layout::{joined, joined_prefix, painted, separator, spec_add_left_labels, labeled_line};
use crate::render::ruler::{
    connector_column_from, connector_from, hinge_from, lemma_label_chars, paint_label_from,
    ruler_grid_from, ruler_label, ruler_labels, spec_render_ruler,
};
use crate::render::style::{
    ColorMode, ColorPalette, highlight_end, highlight_start, law_grey_keeps_text,
    lemma_color_escape_closed, palette_indexes, spec_ansi_256_color_escape,
    spec_color_index_from_right, spec_colorize, spec_grey_visual_scaffolding,
};
use crate::render::bit::{highlight_all, highlighted_char};
use crate::render::RenderColor;
use crate::terminal::{
    is_closed_token, is_escape, is_plain, lemma_shows_append, lemma_shows_escape, lemma_shows_plain,
    lemma_shows_strip, shows_as, spec_strip_ansi,
};
use crate::text::{digit_char, digits_in_base, grouped, repeat_char};

verus! {

/// Every line of `lines` is plain.
pub open spec fn all_plain(lines: Seq<Seq<char>>) -> bool {
    forall|r: int| 0 <= r < lines.len() ==> is_plain(#[trigger] lines[r])
}

proof fn lemma_plain_concat(a: Seq<char>, b: Seq<char>)
    requires
        is_plain(a),
        is_plain(b),
    ensures
        is_plain(a + b),
{
    assert forall|i: int| 0 <= i < (a + b).len() implies #[trigger] (a + b)[i] != '\x1b' by {
        if i < a.len() {
            assert((a + b)[i] == a[i]);
        } else {
            assert((a + b)[i] == b[i - a.len()]);
        }
    }
}

proof fn lemma_all_plain_concat(a: Seq<Seq<char>>, b: Seq<Seq<char>>)
    requires
        all_plain(a),
        all_plain(b),
    ensures
        all_plain(a + b),
{
    assert forall|r: int| 0 <= r < (a + b).len() implies is_plain(#[trigger] (a + b)[r]) by {
        if r < a.len() {
            assert((a + b)[r] == a[r]);
        } else {
            assert((a + b)[r] == b[r - a.len()]);
        }
    }
}

proof fn lemma_digit_char_plain(d: nat)
    requires
        d < 16,
    ensures
        digit_char(d) != '\x1b',
{
}

/// Numerals are plain.
proof fn lemma_numeral_plain(n: nat, radix: nat)
    requires
        2 <= radix <= 16,
    ensures
        is_plain(digits_in_base(n, radix)),
{
    lemma_numeral_round_trip(n, radix);
}

/// Tokens joined by plain separators are plain when every token is.
proof fn lemma_joined_plain(ts: Seq<Seq<char>>, k: nat, narrow: Seq<char>, wide: Seq<char>)
    requires
        all_plain(ts),
        is_plain(narrow),
        is_plain(wide),
        k <= ts.len(),
    ensures
        is_plain(joined_prefix(ts, k, narrow, wide)),
    decreases k,
{
    if k > 0 {
        lemma_joined_plain(ts, (k - 1) as nat, narrow, wide);
        let head = joined_prefix(ts, (k - 1) as nat, narrow, wide);
        let sep = if k - 1 > 0 {
            separator((k - 1) as nat, ts.len(), narrow, wide)
        } else {
            Seq::<char>::empty()
        };
        lemma_plain_concat(head, sep);
        assert(is_plain(ts[k - 1]));
        lemma_plain_concat(head + sep, ts[k - 1]);
    }
}

proof fn lemma_join_plain(ts: Seq<Seq<char>>, narrow: Seq<char>, wide: Seq<char>)
    requires
        all_plain(ts),
        is_plain(narrow),
        is_plain(wide),
    ensures
        is_plain(joined(ts, narrow, wide)),
{
    lemma_joined_plain(ts, ts.len(), narrow, wide);
}

/// Writing plain text over a plain line leaves it plain.
proof fn lemma_painted_plain(line: Seq<char>, column: int, text: Seq<char>)
    requires
        is_plain(line),
        is_plain(text),
    ensures
        is_plain(painted(line, column, text)),
{
    let p = painted(line, column, text);
    assert forall|j: int| 0 <= j < p.len() implies #[trigger] p[j] != '\x1b' by {
        if column <= j < column + text.len() {
            assert(p[j] == text[j - column]);
        } else {
            assert(p[j] == line[j]);
        }
    }
}

/// The connectors of plain labels are plain.
proof fn lemma_connector_plain(digits: Seq<char>, labels: Seq<Seq<char>>, overhang: nat, index: nat)
    requires
        index < labels.len(),
        all_plain(labels),
    ensures
        is_plain(connector_from(digits, labels, overhang, index)),
{
    let label = labels[index as int];
    assert(is_plain(label));
    assert(is_plain(seq!['┌', '─', ' ']));
    assert(is_plain(seq![' ', '┐']));
    assert(is_plain(seq![' ', '─', '┐']));
    lemma_plain_concat(seq!['┌', '─', ' '], label);
    lemma_plain_concat(label, seq![' ', '┐']);
    lemma_plain_concat(label, seq![' ', '─', '┐']);
}

/// A ruler grid of plain labels stays plain as connectors are drawn.
proof fn lemma_ruler_grid_plain(digits: Seq<char>, labels: Seq<Seq<char>>, overhang: nat, k: nat)
    requires
        k <= labels.len(),
        all_plain(labels),
    ensures
        all_plain(ruler_grid_from(digits, labels, overhang, k)),
    decreases k,
{
    if k == 0 {
        let g = ruler_grid_from(digits, labels, overhang, 0);
        assert forall|r: int| 0 <= r < g.len() implies is_plain(#[trigger] g[r]) by {
            assert forall|i: int| 0 <= i < g[r].len() implies #[trigger] g[r][i] != '\x1b' by {
                assert(g[r][i] == ' ');
            }
        }
    } else {
        let index = (k - 1) as nat;
        lemma_ruler_grid_plain(digits, labels, overhang, index);
        lemma_connector_plain(digits, labels, overhang, index);
        let g = ruler_grid_from(digits, labels, overhang, index);
        let p = paint_label_from(g, digits, labels, overhang, index);
        assert(is_plain(seq!['│']));
        assert forall|r: int| 0 <= r < p.len() implies is_plain(#[trigger] p[r]) by {
            assert(is_plain(g[r]));
            lemma_painted_plain(
                g[r],
                connector_column_from(digits, labels, overhang, index),
                connector_from(digits, labels, overhang, index),
            );
            lemma_painted_plain(g[r], hinge_from(digits, labels, overhang, index) as int, seq!['│']);
        }
    }
}

/// The Unit area is plain when its left labels are.
proof fn lemma_ruler_plain(digits: Seq<char>, left_labels: Seq<char>)
    requires
        is_plain(left_labels),
    ensures
        all_plain(spec_render_ruler(digits, left_labels)),
{
    let n = digits.len();
    let labels = ruler_labels(n);
    assert forall|k: int| 0 <= k < labels.len() implies is_plain(#[trigger] labels[k]) by {
        let shift = ((n - k - 1) * 4) as nat;
        assert(shift == 0 || shift == 4 || shift == 8 || shift >= 10);
        lemma_label_chars(shift);
        assert(labels[k] == ruler_label(n, k as nat));
    }
    let o = crate::render::ruler::spec_left_overhang(digits);
    lemma_ruler_grid_plain(digits, labels, o, n);
    let g = ruler_grid_from(digits, labels, o, n);
    let lines = spec_render_ruler(digits, left_labels);
    assert forall|r: int| 0 <= r < lines.len() implies is_plain(#[trigger] lines[r]) by {
        assert(is_plain(g[r]));
        assert forall|i: int| 0 <= i < lines[r].len() implies #[trigger] lines[r][i] != '\x1b' by {
            if i >= lines[r].len() - g[r].len() {
                assert(lines[r][i] == g[r][i - (lines[r].len() - g[r].len())]);
            }
        }
    }
}

/// Lines with plain left labels are plain when the lines are.
proof fn lemma_left_labels_plain(lines: Seq<Seq<char>>, labels: Seq<char>)
    requires
        all_plain(lines),
        is_plain(labels),
    ensures
        all_plain(spec_add_left_labels(lines, labels)),
{
    let out = spec_add_left_labels(lines, labels);
    assert forall|r: int| 0 <= r < out.len() implies is_plain(#[trigger] out[r]) by {
        let head = seq![crate::render::layout::label_at(labels, r)] + repeat_char(
            ' ',
            (crate::render::layout::LEFT_LABEL_WIDTH - 1) as nat,
        );
        assert(is_plain(lines[r]));
        assert(is_plain(head));
        lemma_plain_concat(head, lines[r]);
        assert(out[r] == labeled_line(labels, r, lines[r]));
    }
}

/// Without color the Hex glyph rows are plain.
proof fn lemma_hex_rows_plain(digits: Seq<char>)
    ensures
        all_plain(spec_render_hex_digits(digits, ColorMode::NoColor)),
{
    let rows = spec_render_hex_digits(digits, ColorMode::NoColor);
    assert forall|r: int| 0 <= r < rows.len() implies is_plain(#[trigger] rows[r]) by {
        let ts = Seq::new(
            digits.len(),
            |i: int| spec_colorize(i as nat, hex_pattern_row(digits[i], r as nat), ColorMode::NoColor),
        );
        assert forall|i: int| 0 <= i < ts.len() implies is_plain(#[trigger] ts[i]) by {
            assert(ts[i] == hex_pattern_row(digits[i], r as nat));
        }
        lemma_join_plain(ts, seq![' '], seq![' ', ' ', ' ']);
    }
}

/// The bits of any string are `0` or `1`, hence plain.
proof fn lemma_bits_plain(s: Seq<char>)
    ensures
        is_plain(hex_to_bits(s)),
    decreases s.len(),
{
    if s.len() > 0 {
        lemma_bits_plain(s.drop_last());
        let v = crate::format::hex_digit_value(s.last());
        lemma_digit_char_plain(v / 8);
        lemma_digit_char_plain((v / 4) % 2);
        lemma_digit_char_plain((v / 2) % 2);
        lemma_digit_char_plain(v % 2);
        lemma_plain_concat(hex_to_bits(s.drop_last()), nibble_bits(s.last()));
    }
}

/// Without color the Bit and Position areas of plain bits are plain.
proof fn lemma_bit_area_plain(bits: Seq<char>, top: TopConnector)
    requires
        is_plain(bits),
    ensures
        all_plain(spec_render_bit_area(bits, ColorMode::NoColor, top)),
{
    let n = nibble_count(bits.len());
    let chunks = bit_chunks(bits);
    let ts = Seq::new(
        chunks.len(),
        |i: int|
            spec_highlight_bit_digits(
                crate::render::style::spec_color_index_from_right(i as nat, chunks.len()),
                chunks[i],
                ColorMode::NoColor,
            ),
    );
    assert forall|i: int| 0 <= i < ts.len() implies is_plain(#[trigger] ts[i]) by {
        assert(ts[i] == chunks[i]);
        assert forall|j: int| 0 <= j < chunks[i].len() implies #[trigger] chunks[i][j] != '\x1b' by {
            assert(chunks[i][j] == bits[4 * i + j]);
        }
    }
    lemma_join_plain(ts, seq!['_'], seq![' ', '_', ' ']);
    assert(spec_render_bit_chunks(chunks, ColorMode::NoColor) == joined(ts, seq!['_'], seq![' ', '_', ' ']));
    let top_ts = repeated(crate::render::bit::top_connector_chars(top), n);
    let bottom_ts = repeated(crate::render::bit::bottom_connector(), n);
    let vertical_ts = repeated(crate::render::bit::bottom_vertical(), n);
    let labels = position_labels(n);
    assert(all_plain(top_ts));
    assert(all_plain(bottom_ts));
    assert(all_plain(vertical_ts));
    assert forall|i: int| 0 <= i < labels.len() implies is_plain(#[trigger] labels[i]) by {
        let d = digits_in_base(((n - i - 1) * 4) as nat, 10);
        lemma_numeral_plain(((n - i - 1) * 4) as nat, 10);
        assert(labels[i] == right_aligned(d, 4));
        if d.len() < 4 {
            lemma_plain_concat(repeat_char(' ', (4 - d.len()) as nat), d);
        }
    }
    lemma_join_plain(top_ts, seq![' '], seq![' ', ' ', ' ']);
    lemma_join_plain(bottom_ts, seq![' '], seq![' ', ' ', ' ']);
    lemma_join_plain(vertical_ts, seq![' '], seq![' ', ' ', ' ']);
    lemma_join_plain(labels, seq![' '], seq![' ', ' ', ' ']);
    let area = spec_render_bit_area(bits, ColorMode::NoColor, top);
    assert(area[0] == visual_join(top_ts));
    assert(area[4] == visual_join(bottom_ts));
    assert(area[5] == visual_join(vertical_ts));
    assert(area[6] == visual_join(labels));
    assert forall|r: int| 0 <= r < area.len() implies is_plain(#[trigger] area[r]) by {
        if r == 1 || r == 3 || r == 7 {
            assert(area[r] =~= Seq::<char>::empty());
        }
    }
}

/// Without color the compact Hex line of plain digits is plain.
proof fn lemma_compact_rows_plain(digits: Seq<char>)
    requires
        is_plain(digits),
    ensures
        all_plain(compact_hex_rows(digits, ColorMode::NoColor)),
{
    let ts = Seq::new(
        digits.len(),
        |i: int| seq![' ', ' ', ' '] + spec_colorize(i as nat, seq![digits[i]], ColorMode::NoColor),
    );
    assert forall|i: int| 0 <= i < ts.len() implies is_plain(#[trigger] ts[i]) by {
        assert(ts[i] == seq![' ', ' ', ' '] + seq![digits[i]]);
        lemma_plain_concat(seq![' ', ' ', ' '], seq![digits[i]]);
    }
    lemma_join_plain(ts, seq![' '], seq![' ', ' ', ' ']);
    let rows = compact_hex_rows(digits, ColorMode::NoColor);
    assert forall|r: int| 0 <= r < rows.len() implies is_plain(#[trigger] rows[r]) by {
        if r != 1 {
            assert(rows[r] =~= Seq::<char>::empty());
        }
    }
}

/// The displayed hexadecimal digits are plain.
#[verifier::spinoff_prover]
proof fn lemma_display_digits_plain(number: u128, hex_digits: Option<usize>, endian: Endian)
    ensures
        is_plain(spec_display_hex_digits(number, hex_digits, endian)),
{
    let n = crate::format::hex_numeral(number);
    lemma_numeral_plain(number as nat, 16);
    let digits = match hex_digits {
        Some(width) => crate::text::zero_padded(n, width as nat),
        None => n,
    };
    if let Some(width) = hex_digits {
        if n.len() < width {
            lemma_plain_concat(repeat_char('0', (width - n.len()) as nat), n);
        }
    }
    assert(is_plain(digits));
    let p = even_padded(digits);
    if digits.len() % 2 != 0 {
        lemma_plain_concat(seq!['0'], digits);
    }
    assert(is_plain(p));
}

/// Without color the visual lines of plain digits are plain.
proof fn lemma_visual_lines_plain(digits: Seq<char>, mode: RenderMode)
    requires
        is_plain(digits),
    ensures
        all_plain(visual_lines(digits, ColorMode::NoColor, mode)),
{
    reveal_strlit("UNIT");
    reveal_strlit("HEX");
    reveal_strlit(" BIT POS");
    let bits = hex_to_bits(digits);
    lemma_bits_plain(digits);
    let blank: Seq<Seq<char>> = seq![Seq::empty()];
    assert(all_plain(blank));
    match mode {
        RenderMode::Full => {
            lemma_ruler_plain(digits, "UNIT"@);
            lemma_hex_rows_plain(digits);
            lemma_left_labels_plain(spec_render_hex_digits(digits, ColorMode::NoColor), "HEX"@);
            lemma_bit_area_plain(bits, TopConnector::Full);
            let section = full_bit_section(bits, ColorMode::NoColor);
            let area = spec_render_bit_area(bits, ColorMode::NoColor, TopConnector::Full);
            assert forall|r: int| 0 <= r < section.len() implies is_plain(#[trigger] section[r]) by {
                assert(is_plain(area[0]) && is_plain(area[1]) && is_plain(area[2]) && is_plain(area[3]));
                assert(is_plain(area[4]) && is_plain(area[5]) && is_plain(area[6]));
            }
            lemma_left_labels_plain(section, " BIT POS"@);
            let a = blank + spec_render_ruler(digits, "UNIT"@);
            lemma_all_plain_concat(blank, spec_render_ruler(digits, "UNIT"@));
            lemma_all_plain_concat(a, blank);
            let b = a + blank + spec_add_left_labels(
                spec_render_hex_digits(digits, ColorMode::NoColor),
                "HEX"@,
            );
            lemma_all_plain_concat(
                a + blank,
                spec_add_left_labels(spec_render_hex_digits(digits, ColorMode::NoColor), "HEX"@),
            );
            lemma_all_plain_concat(b, blank);
            lemma_all_plain_concat(b + blank, spec_add_left_labels(section, " BIT POS"@));
        },
        RenderMode::Compact => {
            lemma_compact_rows_plain(digits);
            lemma_left_labels_plain(compact_hex_rows(digits, ColorMode::NoColor), "HEX"@);
            lemma_bit_area_plain(bits, TopConnector::Compact);
            lemma_left_labels_plain(
                spec_render_bit_area(bits, ColorMode::NoColor, TopConnector::Compact),
                " BIT POS"@,
            );
            lemma_all_plain_concat(
                spec_add_left_labels(compact_hex_rows(digits, ColorMode::NoColor), "HEX"@),
                spec_add_left_labels(
                    spec_render_bit_area(bits, ColorMode::NoColor, TopConnector::Compact),
                    " BIT POS"@,
                ),
            );
        },
    }
}

/// Without color the visual area holds no ANSI sequence: no line of it
/// contains the escape character, in the full and the compact layout,
/// for either byte order and any width.
pub proof fn law_no_color_visual_area_is_plain(number: u128, options: RenderOptions)
    requires
        spec_color_mode_of(options.color) == ColorMode::NoColor,
    ensures
        all_plain(spec_render_visual(number, options)),
{
    let digits = spec_display_hex_digits(number, options.hex_digits, options.endian);
    lemma_display_digits_plain(number, options.hex_digits, options.endian);
    lemma_visual_lines_plain(digits, options.mode);
    let lines = visual_lines(digits, ColorMode::NoColor, options.mode);
    let out = spec_render_visual(number, options);
    assert forall|r: int| 0 <= r < out.len() implies is_plain(#[trigger] out[r]) by {
        assert(out[r] == spec_grey_visual_scaffolding(lines[r], ColorMode::NoColor));
        assert(is_plain(lines[r]));
    }
}

/// Grouping plain digits keeps them plain.
proof fn lemma_grouped_plain(s: Seq<char>)
    requires
        is_plain(s),
    ensures
        is_plain(grouped(s)),
    decreases s.len(),
{
    if s.len() > 4 {
        let head = s.take(s.len() - 4);
        let tail = s.skip(s.len() - 4);
        assert(is_plain(head)) by {
            assert forall|i: int| 0 <= i < head.len() implies #[trigger] head[i] != '\x1b' by {
                assert(head[i] == s[i]);
            }
        }
        assert(is_plain(tail)) by {
            assert forall|i: int| 0 <= i < tail.len() implies #[trigger] tail[i] != '\x1b' by {
                assert(tail[i] == s[i + s.len() - 4]);
            }
        }
        lemma_grouped_plain(head);
        lemma_plain_concat(grouped(head), seq!['_']);
        lemma_plain_concat(grouped(head) + seq!['_'], tail);
    }
}

/// The text area is plain: its digits, separators, and printable ASCII.
proof fn lemma_text_area_plain(number: u128, hex_digits: Option<usize>, endian: Endian)
    ensures
        all_plain(spec_format_lines(number, hex_digits, endian)),
{
    reveal_strlit("HEX: ");
    reveal_strlit("DEC: ");
    reveal_strlit("OCT: 0o");
    reveal_strlit("BIN: ");
    reveal_strlit("ASC: ");
    reveal_strlit("0x");
    reveal_strlit("0b");
    let digits = spec_display_hex_digits(number, hex_digits, endian);
    lemma_display_digits_plain(number, hex_digits, endian);
    lemma_grouped_plain(digits);
    lemma_plain_concat("0x"@, grouped(digits));
    lemma_plain_concat("HEX: "@, spec_format_hex(number, hex_digits, endian));
    lemma_numeral_plain(number as nat, 10);
    lemma_plain_concat("DEC: "@, digits_in_base(number as nat, 10));
    lemma_numeral_plain(number as nat, 8);
    lemma_plain_concat("OCT: 0o"@, digits_in_base(number as nat, 8));
    lemma_bits_plain(digits);
    lemma_grouped_plain(hex_to_bits(digits));
    lemma_plain_concat("0b"@, grouped(hex_to_bits(digits)));
    lemma_plain_concat("BIN: "@, spec_format_bin(number, hex_digits, endian));
    let asc = spec_format_ascii(number, hex_digits, endian);
    assert forall|i: int| 0 <= i < asc.len() implies #[trigger] asc[i] != '\x1b' by {
        let b = spec_display_bytes(number, hex_digits, endian)[i];
        assert(asc[i] == ascii_char(b));
    }
    lemma_plain_concat("ASC: "@, asc);
    let lines = spec_format_lines(number, hex_digits, endian);
    assert forall|r: int| 0 <= r < lines.len() implies is_plain(#[trigger] lines[r]) by {
    }
}

/// With `--no-color` nothing that is printed holds an ANSI sequence: no
/// output line, visual or text, contains the escape character.
pub proof fn law_no_color_output_is_plain(number: u128, options: OutputOptions)
    requires
        options.color == OutputColor::NoColor,
    ensures
        all_plain(spec_output_lines(number, options).0),
{
    let visual = spec_visual_area(number, options);
    let text = spec_format_lines(number, options.hex_digits, options.endian);
    lemma_text_area_plain(number, options.hex_digits, options.endian);
    if visual.len() > 0 {
        let render_options = RenderOptions {
            color: spec_render_color(options.color),
            mode: crate::output::spec_render_mode(options.mode),
            hex_digits: options.hex_digits,
            endian: options.endian,
        };
        law_no_color_visual_area_is_plain(number, render_options);
        assert(all_plain(visual));
        let blank: Seq<Seq<char>> = seq![Seq::empty()];
        assert(all_plain(blank));
        assert(visual.push(Seq::empty()) =~= visual + blank);
        lemma_all_plain_concat(visual, blank);
        lemma_all_plain_concat(visual + blank, text);
    }
}

/// Every line of `a` shows as the line of `b` in the same place.
pub open spec fn all_show(a: Seq<Seq<char>>, b: Seq<Seq<char>>) -> bool {
    a.len() == b.len() && forall|k: int| 0 <= k < a.len() ==> shows_as(#[trigger] a[k], b[k])
}

proof fn lemma_all_show_concat(a: Seq<Seq<char>>, b: Seq<Seq<char>>, c: Seq<Seq<char>>, d: Seq<Seq<char>>)
    requires
        all_show(a, b),
        all_show(c, d),
    ensures
        all_show(a + c, b + d),
{
    assert forall|k: int| 0 <= k < (a + c).len() implies shows_as(#[trigger] (a + c)[k], (b + d)[k]) by {
        if k < a.len() {
            assert((a + c)[k] == a[k] && (b + d)[k] == b[k]);
        } else {
            assert((a + c)[k] == c[k - a.len()] && (b + d)[k] == d[k - a.len()]);
        }
    }
}

proof fn lemma_all_show_plain(a: Seq<Seq<char>>)
    requires
        all_plain(a),
    ensures
        all_show(a, a),
{
    assert forall|k: int| 0 <= k < a.len() implies shows_as(#[trigger] a[k], a[k]) by {
        lemma_shows_plain(a[k]);
    }
}

proof fn lemma_shows_empty()
    ensures
        shows_as(Seq::<char>::empty(), Seq::<char>::empty()),
{
    lemma_shows_plain(Seq::<char>::empty());
}

/// Colored plain text shows as the text.
proof fn lemma_colorize_shows(color_index: nat, input: Seq<char>, color_mode: ColorMode)
    requires
        is_plain(input),
    ensures
        shows_as(spec_colorize(color_index, input, color_mode), input),
{
    lemma_shows_plain(input);
    if let ColorMode::Color(palette) = color_mode {
        let color = spec_ansi_256_color_escape(color_index, palette_indexes(palette));
        lemma_color_escape_closed(color_index, palette_indexes(palette));
        lemma_shows_escape(color);
        lemma_shows_escape(highlight_end());
        lemma_shows_append(color, Seq::empty(), input, input);
        lemma_shows_append(color + input, Seq::empty() + input, highlight_end(), Seq::empty());
        assert(Seq::<char>::empty() + input + Seq::<char>::empty() =~= input);
    }
}

/// Tokens joined by plain separators show as the texts they show, joined.
proof fn lemma_joined_shows(ts: Seq<Seq<char>>, ps: Seq<Seq<char>>, k: nat, narrow: Seq<char>, wide: Seq<char>)
    requires
        all_show(ts, ps),
        is_plain(narrow),
        is_plain(wide),
        k <= ts.len(),
    ensures
        shows_as(joined_prefix(ts, k, narrow, wide), joined_prefix(ps, k, narrow, wide)),
    decreases k,
{
    if k == 0 {
        lemma_shows_empty();
    } else {
        lemma_joined_shows(ts, ps, (k - 1) as nat, narrow, wide);
        let sep = if k - 1 > 0 {
            separator((k - 1) as nat, ts.len(), narrow, wide)
        } else {
            Seq::<char>::empty()
        };
        lemma_shows_plain(sep);
        lemma_shows_append(
            joined_prefix(ts, (k - 1) as nat, narrow, wide),
            joined_prefix(ps, (k - 1) as nat, narrow, wide),
            sep,
            sep,
        );
        assert(shows_as(ts[k - 1], ps[k - 1]));
        lemma_shows_append(
            joined_prefix(ts, (k - 1) as nat, narrow, wide) + sep,
            joined_prefix(ps, (k - 1) as nat, narrow, wide) + sep,
            ts[k - 1],
            ps[k - 1],
        );
    }
}

/// Highlighted plain bits show as the bits.
proof fn lemma_highlight_shows(input: Seq<char>, color: Seq<char>)
    requires
        is_plain(input),
        is_closed_token(color),
        is_escape(color),
    ensures
        shows_as(highlight_all(input, color), input),
    decreases input.len(),
{
    if input.len() == 0 {
        lemma_shows_empty();
        assert(highlight_all(input, color) == Seq::<char>::empty());
        assert(input =~= Seq::<char>::empty());
    } else {
        let d = input.drop_last();
        let c = input.last();
        assert(highlight_all(input, color) == highlight_all(d, color) + highlighted_char(c, color));
        assert(is_plain(d)) by {
            assert forall|i: int| 0 <= i < d.len() implies #[trigger] d[i] != '\x1b' by {
                assert(d[i] == input[i]);
            }
        }
        assert(c == input[input.len() - 1]);
        lemma_highlight_shows(d, color);
        lemma_shows_plain(seq![c]);
        if c == '0' || c == '1' {
            lemma_shows_escape(highlight_start());
            lemma_shows_escape(highlight_end());
            lemma_shows_escape(color);
            let e = Seq::<char>::empty();
            lemma_shows_append(highlight_start(), e, color, e);
            lemma_shows_append(highlight_start() + color, e + e, seq![c], seq![c]);
            lemma_shows_append(highlight_start() + color + seq![c], e + e + seq![c], highlight_end(), e);
            assert(e + e + seq![c] + e =~= seq![c]);
            assert(highlighted_char(c, color) == highlight_start() + color + seq![c] + highlight_end());
        } else {
            assert(highlighted_char(c, color) == seq![c]);
        }
        lemma_shows_append(highlight_all(d, color), d, highlighted_char(c, color), seq![c]);
        assert(d + seq![c] =~= input);
    }
}

/// With color the Bit area shows the text it shows without.
proof fn lemma_bit_area_shows(bits: Seq<char>, palette: ColorPalette, top: TopConnector)
    requires
        is_plain(bits),
    ensures
        all_show(
            spec_render_bit_area(bits, ColorMode::Color(palette), top),
            spec_render_bit_area(bits, ColorMode::NoColor, top),
        ),
{
    let mode = ColorMode::Color(palette);
    lemma_bit_area_plain(bits, top);
    let colored = spec_render_bit_area(bits, mode, top);
    let plain = spec_render_bit_area(bits, ColorMode::NoColor, top);
    let chunks = bit_chunks(bits);
    let ts = Seq::new(
        chunks.len(),
        |i: int| spec_highlight_bit_digits(spec_color_index_from_right(i as nat, chunks.len()), chunks[i], mode),
    );
    let ps = Seq::new(
        chunks.len(),
        |i: int|
            spec_highlight_bit_digits(
                spec_color_index_from_right(i as nat, chunks.len()),
                chunks[i],
                ColorMode::NoColor,
            ),
    );
    assert forall|i: int| 0 <= i < ts.len() implies shows_as(#[trigger] ts[i], ps[i]) by {
        assert(is_plain(chunks[i])) by {
            assert forall|j: int| 0 <= j < chunks[i].len() implies #[trigger] chunks[i][j] != '\x1b' by {
                assert(chunks[i][j] == bits[4 * i + j]);
            }
        }
        let ci = spec_color_index_from_right(i as nat, chunks.len());
        let color = spec_ansi_256_color_escape(ci, palette_indexes(palette));
        lemma_color_escape_closed(ci, palette_indexes(palette));
        lemma_highlight_shows(chunks[i], color);
        assert(ps[i] == chunks[i]);
    }
    lemma_joined_shows(ts, ps, ts.len(), seq!['_'], seq![' ', '_', ' ']);
    assert forall|k: int| 0 <= k < colored.len() implies shows_as(#[trigger] colored[k], plain[k]) by {
        if k == 2 {
            assert(colored[k] == joined(ts, seq!['_'], seq![' ', '_', ' ']));
            assert(plain[k] == joined(ps, seq!['_'], seq![' ', '_', ' ']));
        } else {
            assert(colored[k] == plain[k]);
            assert(is_plain(plain[k]));
            lemma_shows_plain(plain[k]);
        }
    }
}

/// With color the Hex glyph rows show the text they show without.
proof fn lemma_hex_rows_show(digits: Seq<char>, palette: ColorPalette)
    ensures
        all_show(
            spec_render_hex_digits(digits, ColorMode::Color(palette)),
            spec_render_hex_digits(digits, ColorMode::NoColor),
        ),
{
    let mode = ColorMode::Color(palette);
    let colored = spec_render_hex_digits(digits, mode);
    let plain = spec_render_hex_digits(digits, ColorMode::NoColor);
    assert forall|r: int| 0 <= r < colored.len() implies shows_as(#[trigger] colored[r], plain[r]) by {
        let ts = Seq::new(
            digits.len(),
            |i: int| spec_colorize(i as nat, hex_pattern_row(digits[i], r as nat), mode),
        );
        let ps = Seq::new(
            digits.len(),
            |i: int| spec_colorize(i as nat, hex_pattern_row(digits[i], r as nat), ColorMode::NoColor),
        );
        assert forall|i: int| 0 <= i < ts.len() implies shows_as(#[trigger] ts[i], ps[i]) by {
            let g = hex_pattern_row(digits[i], r as nat);
            assert(is_plain(g)) by {
                assert forall|j: int| 0 <= j < g.len() implies #[trigger] g[j] != '\x1b' by {
                }
            }
            lemma_colorize_shows(i as nat, g, mode);
        }
        lemma_joined_shows(ts, ps, ts.len(), seq![' '], seq![' ', ' ', ' ']);
    }
}

/// With color the compact Hex line shows the text it shows without.
proof fn lemma_compact_rows_show(digits: Seq<char>, palette: ColorPalette)
    requires
        is_plain(digits),
    ensures
        all_show(
            compact_hex_rows(digits, ColorMode::Color(palette)),
            compact_hex_rows(digits, ColorMode::NoColor),
        ),
{
    let mode = ColorMode::Color(palette);
    let colored = compact_hex_rows(digits, mode);
    let plain = compact_hex_rows(digits, ColorMode::NoColor);
    let ts = Seq::new(
        digits.len(),
        |i: int| seq![' ', ' ', ' '] + spec_colorize(i as nat, seq![digits[i]], mode),
    );
    let ps = Seq::new(
        digits.len(),
        |i: int| seq![' ', ' ', ' '] + spec_colorize(i as nat, seq![digits[i]], ColorMode::NoColor),
    );
    assert forall|i: int| 0 <= i < ts.len() implies shows_as(#[trigger] ts[i], ps[i]) by {
        let d = seq![digits[i]];
        assert(is_plain(d));
        lemma_colorize_shows(i as nat, d, mode);
        lemma_shows_plain(seq![' ', ' ', ' ']);
        lemma_shows_append(seq![' ', ' ', ' '], seq![' ', ' ', ' '], spec_colorize(i as nat, d, mode), d);
    }
    lemma_joined_shows(ts, ps, ts.len(), seq![' '], seq![' ', ' ', ' ']);
    lemma_shows_empty();
    assert forall|k: int| 0 <= k < colored.len() implies shows_as(#[trigger] colored[k], plain[k]) by {
        if k != 1 {
            assert(colored[k] =~= Seq::<char>::empty());
            assert(plain[k] =~= Seq::<char>::empty());
        }
    }
}

/// Plain left labels keep what lines show.
proof fn lemma_left_labels_show(a: Seq<Seq<char>>, b: Seq<Seq<char>>, labels: Seq<char>)
    requires
        all_show(a, b),
        is_plain(labels),
    ensures
        all_show(spec_add_left_labels(a, labels), spec_add_left_labels(b, labels)),
{
    let la = spec_add_left_labels(a, labels);
    let lb = spec_add_left_labels(b, labels);
    assert forall|r: int| 0 <= r < la.len() implies shows_as(#[trigger] la[r], lb[r]) by {
        let head = seq![crate::render::layout::label_at(labels, r)] + repeat_char(
            ' ',
            (crate::render::layout::LEFT_LABEL_WIDTH - 1) as nat,
        );
        assert(is_plain(head));
        lemma_shows_plain(head);
        lemma_shows_append(head, head, a[r], b[r]);
        assert(la[r] == labeled_line(labels, r, a[r]));
        assert(lb[r] == labeled_line(labels, r, b[r]));
    }
}

/// With color the visual lines of plain digits show what they show
/// without.
proof fn lemma_visual_lines_show(digits: Seq<char>, palette: ColorPalette, mode: RenderMode)
    requires
        is_plain(digits),
    ensures
        all_show(visual_lines(digits, ColorMode::Color(palette), mode), visual_lines(digits, ColorMode::NoColor, mode)),
{
    reveal_strlit("UNIT");
    reveal_strlit("HEX");
    reveal_strlit(" BIT POS");
    let cm = ColorMode::Color(palette);
    let bits = hex_to_bits(digits);
    lemma_bits_plain(digits);
    let blank: Seq<Seq<char>> = seq![Seq::empty()];
    assert(all_plain(blank));
    lemma_all_show_plain(blank);
    match mode {
        RenderMode::Full => {
            lemma_ruler_plain(digits, "UNIT"@);
            let ruler = spec_render_ruler(digits, "UNIT"@);
            lemma_all_show_plain(ruler);
            lemma_hex_rows_show(digits, palette);
            lemma_left_labels_show(
                spec_render_hex_digits(digits, cm),
                spec_render_hex_digits(digits, ColorMode::NoColor),
                "HEX"@,
            );
            lemma_bit_area_shows(bits, palette, TopConnector::Full);
            let sc = full_bit_section(bits, cm);
            let sp = full_bit_section(bits, ColorMode::NoColor);
            let ac = spec_render_bit_area(bits, cm, TopConnector::Full);
            let ap = spec_render_bit_area(bits, ColorMode::NoColor, TopConnector::Full);
            assert forall|k: int| 0 <= k < sc.len() implies shows_as(#[trigger] sc[k], sp[k]) by {
                assert(shows_as(ac[0], ap[0]) && shows_as(ac[1], ap[1]) && shows_as(ac[2], ap[2]));
                assert(shows_as(ac[3], ap[3]) && shows_as(ac[4], ap[4]) && shows_as(ac[5], ap[5]));
                assert(shows_as(ac[6], ap[6]));
            }
            lemma_left_labels_show(sc, sp, " BIT POS"@);
            let hc = spec_add_left_labels(spec_render_hex_digits(digits, cm), "HEX"@);
            let hp = spec_add_left_labels(spec_render_hex_digits(digits, ColorMode::NoColor), "HEX"@);
            lemma_all_show_concat(blank, blank, ruler, ruler);
            lemma_all_show_concat(blank + ruler, blank + ruler, blank, blank);
            lemma_all_show_concat(blank + ruler + blank, blank + ruler + blank, hc, hp);
            lemma_all_show_concat(blank + ruler + blank + hc, blank + ruler + blank + hp, blank, blank);
            lemma_all_show_concat(
                blank + ruler + blank + hc + blank,
                blank + ruler + blank + hp + blank,
                spec_add_left_labels(sc, " BIT POS"@),
                spec_add_left_labels(sp, " BIT POS"@),
            );
        },
        RenderMode::Compact => {
            lemma_compact_rows_show(digits, palette);
            lemma_left_labels_show(compact_hex_rows(digits, cm), compact_hex_rows(digits, ColorMode::NoColor), "HEX"@);
            lemma_bit_area_shows(bits, palette, TopConnector::Compact);
            lemma_left_labels_show(
                spec_render_bit_area(bits, cm, TopConnector::Compact),
                spec_render_bit_area(bits, ColorMode::NoColor, TopConnector::Compact),
                " BIT POS"@,
            );
            lemma_all_show_concat(
                spec_add_left_labels(compact_hex_rows(digits, cm), "HEX"@),
                spec_add_left_labels(compact_hex_rows(digits, ColorMode::NoColor), "HEX"@),
                spec_add_left_labels(spec_render_bit_area(bits, cm, TopConnector::Compact), " BIT POS"@),
                spec_add_left_labels(
                    spec_render_bit_area(bits, ColorMode::NoColor, TopConnector::Compact),
                    " BIT POS"@,
                ),
            );
        },
    }
}

/// Color changes no visible character of the visual area: with any
/// palette it has as many lines as without color, and each line, with
/// its escape sequences removed, is the line drawn without color.
pub proof fn law_color_keeps_visual_text(number: u128, options: RenderOptions)
    ensures
        ({
            let colored = spec_render_visual(number, options);
            let plain = spec_render_visual(number, RenderOptions { color: RenderColor::NoColor, ..options });
            &&& colored.len() == plain.len()
            &&& forall|k: int| 0 <= k < colored.len() ==> spec_strip_ansi(#[trigger] colored[k]) == plain[k]
        }),
{
    let digits = spec_display_hex_digits(number, options.hex_digits, options.endian);
    lemma_display_digits_plain(number, options.hex_digits, options.endian);
    let plain_options = RenderOptions { color: RenderColor::NoColor, ..options };
    let colored = spec_render_visual(number, options);
    let plain = spec_render_visual(number, plain_options);
    let pl = visual_lines(digits, ColorMode::NoColor, options.mode);
    lemma_visual_lines_plain(digits, options.mode);
    match spec_color_mode_of(options.color) {
        ColorMode::NoColor => {
            assert forall|k: int| 0 <= k < colored.len() implies spec_strip_ansi(#[trigger] colored[k]) == plain[k] by {
                assert(colored[k] == pl[k]);
                assert(is_plain(pl[k]));
                lemma_shows_plain(pl[k]);
                lemma_shows_strip(pl[k], pl[k]);
            }
        },
        ColorMode::Color(palette) => {
            let cl = visual_lines(digits, ColorMode::Color(palette), options.mode);
            lemma_visual_lines_show(digits, palette, options.mode);
            assert forall|k: int| 0 <= k < colored.len() implies spec_strip_ansi(#[trigger] colored[k]) == plain[k] by {
                assert(colored[k] == spec_grey_visual_scaffolding(cl[k], ColorMode::Color(palette)));
                law_grey_keeps_text(cl[k], ColorMode::Color(palette));
                assert(shows_as(cl[k], pl[k]));
                lemma_shows_strip(cl[k], pl[k]);
                assert(plain[k] == pl[k]);
            }
        },
    }
}

/// In any color mode each nibble of the Bit area lines up once escape
/// sequences are removed: its top connector, bits, bottom connector,
/// vertical, and Position label fill the four columns from
/// `token_start_column(i, n)`, and the drawn lines are equally wide (for
/// Position labels of at most four digits).
pub proof fn law_bit_area_columns_align_in_any_color(
    bits: Seq<char>,
    color_mode: ColorMode,
    top: TopConnector,
    i: nat,
)
    requires
        bits.len() % 4 == 0,
        i < bits.len() / 4,
        bits.len() <= 10000,
        forall|j: int| 0 <= j < bits.len() ==> #[trigger] bits[j] == '0' || bits[j] == '1',
    ensures
        ({
            let n = bits.len() / 4;
            let a = spec_render_bit_area(bits, color_mode, top).map_values(|l: Seq<char>| spec_strip_ansi(l));
            let s = crate::render::layout::spec_token_start_column(i, n) as int;
            &&& a.len() == 8
            &&& a[0].subrange(s, s + 4) == crate::render::bit::top_connector_chars(top)
            &&& a[2].subrange(s, s + 4) == bits.subrange(4 * i as int, 4 * i + 4int)
            &&& a[4].subrange(s, s + 4) == crate::render::bit::bottom_connector()
            &&& a[5].subrange(s, s + 4) == crate::render::bit::bottom_vertical()
            &&& a[6].subrange(s, s + 4) == right_aligned(digits_in_base(((n - i - 1) * 4) as nat, 10), 4)
            &&& a[1].len() == 0 && a[3].len() == 0 && a[7].len() == 0
            &&& a[0].len() == a[2].len() && a[2].len() == a[4].len() && a[4].len() == a[5].len()
            &&& a[5].len() == a[6].len()
            &&& a[6].len() == crate::render::layout::spec_token_start_column((n - 1) as nat, n) + 4
        }),
{
    crate::render::bit::law_bit_area_columns_align(bits, top, i);
    assert(is_plain(bits)) by {
        assert forall|j: int| 0 <= j < bits.len() implies #[trigger] bits[j] != '\x1b' by {
            assert(bits[j] == '0' || bits[j] == '1');
        }
    }
    lemma_bit_area_plain(bits, top);
    let colored = spec_render_bit_area(bits, color_mode, top);
    let plain = spec_render_bit_area(bits, ColorMode::NoColor, top);
    assert forall|k: int| 0 <= k < colored.len() implies spec_strip_ansi(#[trigger] colored[k]) == plain[k] by {
        assert(is_plain(plain[k]));
        if let ColorMode::Color(palette) = color_mode {
            lemma_bit_area_shows(bits, palette, top);
            assert(shows_as(colored[k], plain[k]));
            lemma_shows_strip(colored[k], plain[k]);
        } else {
            lemma_shows_plain(plain[k]);
            lemma_shows_strip(plain[k], plain[k]);
        }
    }
    let a = colored.map_values(|l: Seq<char>| spec_strip_ansi(l));
    assert(a =~= plain);
}

/// Four bits per hexadecimal digit.
proof fn lemma_hex_to_bits_len(s: Seq<char>)
    ensures
        hex_to_bits(s).len() == 4 * s.len(),
    decreases s.len(),
{
    if s.len() > 0 {
        lemma_hex_to_bits_len(s.drop_last());
    }
}

/// The ruler has one row per label of its left half.
proof fn lemma_ruler_grid_len(digits: Seq<char>, labels: Seq<Seq<char>>, overhang: nat, k: nat)
    ensures
        ruler_grid_from(digits, labels, overhang, k).len() == crate::render::ruler::ruler_split(labels.len()),
    decreases k,
{
    if k > 0 {
        lemma_ruler_grid_len(digits, labels, overhang, (k - 1) as nat);
    }
}

/// The spaces before Position number `i` of `n` on the `S` line: the gap
/// after the label or the separator before it, and its right-alignment
/// padding.
pub open spec fn position_gap(n: nat, i: nat) -> nat {
    let sep: nat = if i == 0 {
        4
    } else if crate::render::layout::spec_is_wide_group_gap(i, n) {
        3
    } else {
        1
    };
    let d = digits_in_base(((n - i - 1) * 4) as nat, 10);
    sep + if d.len() < 4 {
        (4 - d.len()) as nat
    } else {
        0nat
    }
}

/// The `S` line after its label: each bit position, from `4 (n - 1)` down
/// to `0`, in decimal after its run of spaces.
pub open spec fn position_pieces(n: nat) -> Seq<Seq<char>> {
    Seq::new(
        n,
        |i: int| repeat_char(' ', position_gap(n, i as nat)) + digits_in_base(((n - i - 1) * 4) as nat, 10),
    )
}

/// The joined Position labels after the label gap are the pieces.
proof fn lemma_position_pieces(n: nat, k: nat)
    requires
        1 <= k <= n,
    ensures
        seq![' ', ' ', ' ', ' '] + crate::render::layout::joined_prefix(position_labels(n), k, seq![' '], seq![' ', ' ', ' '])
            == crate::terminal::concat(position_pieces(n).take(k as int)),
    decreases k,
{
    let labels = position_labels(n);
    let pieces = position_pieces(n);
    let i = (k - 1) as nat;
    let d = digits_in_base(((n - i - 1) * 4) as nat, 10);
    let pad: nat = if d.len() < 4 {
        (4 - d.len()) as nat
    } else {
        0nat
    };
    assert(labels[i as int] =~= repeat_char(' ', pad) + d);
    crate::terminal::lemma_single_token(pieces[i as int]);
    assert(pieces.take(k as int) =~= pieces.take(i as int) + seq![pieces[i as int]]);
    crate::terminal::lemma_concat_append(pieces.take(i as int), seq![pieces[i as int]]);
    if k == 1 {
        assert(pieces.take(0) =~= Seq::<Seq<char>>::empty());
        assert(crate::terminal::concat(Seq::<Seq<char>>::empty()) == Seq::<char>::empty());
        assert(crate::render::layout::joined_prefix(labels, 0, seq![' '], seq![' ', ' ', ' ']) == Seq::<char>::empty());
        assert(seq![' ', ' ', ' ', ' '] + (Seq::<char>::empty() + Seq::<char>::empty() + labels[0]) =~= pieces[0]);
    } else {
        lemma_position_pieces(n, i);
        let sep = separator(i, n, seq![' '], seq![' ', ' ', ' ']);
        let head = crate::render::layout::joined_prefix(labels, i, seq![' '], seq![' ', ' ', ' ']);
        assert(sep + labels[i as int] =~= pieces[i as int]);
        assert(seq![' ', ' ', ' ', ' '] + (head + sep + labels[i as int]) =~= (seq![' ', ' ', ' ', ' '] + head) + (sep + labels[i as int]));
    }
}

/// In the full layout the Position line, the `S` line, is the label and
/// its gap followed by each nibble's bit position right-aligned in four
/// columns (one per hex digit, `4 (n - 1)` down to `0`), joined like the
/// glyphs. It is the last line, after the blank line, the ruler's rows, a
/// blank line, the five glyph rows, a blank line, and seven Bit area
/// lines, and escape sequences aside it reads the same in every color.
pub proof fn law_position_line(number: u128, options: RenderOptions)
    requires
        options.mode == RenderMode::Full,
    ensures
        ({
            let n = spec_display_hex_digits(number, options.hex_digits, options.endian).len();
            let lines = spec_render_visual(number, options);
            let at = crate::render::ruler::ruler_split(n) + 15;
            &&& lines.len() == crate::render::ruler::ruler_split(n) + 16
            &&& spec_strip_ansi(lines[at as int]) == seq!['S', ' ', ' ', ' ', ' '] + visual_join(
                position_labels(n),
            )
            &&& spec_strip_ansi(lines[at as int]) == seq!['S'] + crate::terminal::concat(position_pieces(n))
            &&& forall|i: nat| i < n ==> #[trigger] position_gap(n, i) >= 1
            &&& spec_strip_ansi(lines[crate::render::ruler::ruler_split(n) + 2int]).take(5) == seq!['H', ' ', ' ', ' ', ' ']
            &&& spec_strip_ansi(lines[crate::render::ruler::ruler_split(n) + 10int]).take(5) == seq!['I', ' ', ' ', ' ', ' ']
        }),
{
    reveal_strlit("UNIT");
    reveal_strlit("HEX");
    reveal_strlit(" BIT POS");
    let digits = spec_display_hex_digits(number, options.hex_digits, options.endian);
    let n = digits.len();
    law_color_keeps_visual_text(number, options);
    let plain_options = RenderOptions { color: RenderColor::NoColor, ..options };
    let plain = spec_render_visual(number, plain_options);
    let vl = visual_lines(digits, ColorMode::NoColor, RenderMode::Full);
    let bits = hex_to_bits(digits);
    lemma_hex_to_bits_len(digits);
    assert(nibble_count(bits.len()) == n);
    let o = crate::render::ruler::spec_left_overhang(digits);
    lemma_ruler_grid_len(digits, ruler_labels(n), o, n);
    let blank: Seq<Seq<char>> = seq![Seq::empty()];
    let ruler = spec_render_ruler(digits, "UNIT"@);
    let split = crate::render::ruler::ruler_split(n);
    assert(ruler.len() == split);
    let hex = spec_add_left_labels(spec_render_hex_digits(digits, ColorMode::NoColor), "HEX"@);
    let section = full_bit_section(bits, ColorMode::NoColor);
    let tail = spec_add_left_labels(section, " BIT POS"@);
    assert(vl == blank + ruler + blank + hex + blank + tail);
    assert(hex.len() == 5);
    assert(tail.len() == 8);
    let at = split + 15;
    assert(vl[at as int] == tail[7]);
    assert(tail[7] == labeled_line(" BIT POS"@, 7, section[7]));
    let area = spec_render_bit_area(bits, ColorMode::NoColor, TopConnector::Full);
    assert(section[7] == area[6]);
    assert(area[6] == visual_join(position_labels(n)));
    assert(plain[at as int] == vl[at as int]);
    assert(" BIT POS"@[7] == 'S');
    assert(repeat_char(' ', (crate::render::layout::LEFT_LABEL_WIDTH - 1) as nat) =~= seq![' ', ' ', ' ', ' ']);
    assert(seq!['S'] + seq![' ', ' ', ' ', ' '] =~= seq!['S', ' ', ' ', ' ', ' ']);
    assert(blank.len() == 1);
    assert((blank + ruler).len() == split + 1);
    assert((blank + ruler + blank + hex + blank).len() == split + 8);
    assert(vl.len() == split + 16);
    assert(plain.len() == vl.len());
    let lines = spec_render_visual(number, options);
    assert(lines.len() == plain.len());
    assert(spec_strip_ansi(lines[at as int]) == plain[at as int]);
    crate::text::lemma_digits_nonempty(number as nat, 16);
    lemma_display_digits_len(number, options.hex_digits, options.endian);
    lemma_position_pieces(n, n);
    assert(position_pieces(n).take(n as int) =~= position_pieces(n));
    assert(visual_join(position_labels(n)) == crate::render::layout::joined_prefix(position_labels(n), n, seq![' '], seq![' ', ' ', ' ']));
    assert(seq!['S', ' ', ' ', ' ', ' '] + visual_join(position_labels(n)) =~= seq!['S'] + (seq![' ', ' ', ' ', ' '] + visual_join(position_labels(n))));
    let h = split + 2;
    assert(vl[h as int] == hex[0]);
    assert(hex[0] == labeled_line("HEX"@, 0, spec_render_hex_digits(digits, ColorMode::NoColor)[0]));
    assert(spec_strip_ansi(lines[h as int]) == plain[h as int]);
    assert(plain[h as int] == vl[h as int]);
    assert(plain[h as int].take(5) =~= seq!['H', ' ', ' ', ' ', ' ']);
    let b = split + 10;
    assert(vl[b as int] == tail[2]);
    assert(tail[2] == labeled_line(" BIT POS"@, 2, section[2]));
    assert(spec_strip_ansi(lines[b as int]) == plain[b as int]);
    assert(plain[b as int] == vl[b as int]);
    assert(plain[b as int].take(5) =~= seq!['I', ' ', ' ', ' ', ' ']);
}

/// At least one digit is displayed.
proof fn lemma_display_digits_len(number: u128, hex_digits: Option<usize>, endian: Endian)
    ensures
        spec_display_hex_digits(number, hex_digits, endian).len() >= 1,
{
    crate::text::lemma_digits_nonempty(number as nat, 16);
}

/// Without color the Hex glyph rows hold no escape character; with any
/// palette there are five rows, and each, stripped of its escape
/// sequences, is the row drawn without color.
pub proof fn law_hex_rows_color_keeps_text(digits: Seq<char>, palette: ColorPalette)
    ensures
        all_plain(spec_render_hex_digits(digits, ColorMode::NoColor)),
        spec_render_hex_digits(digits, ColorMode::Color(palette)).len() == 5,
        forall|r: int|
            0 <= r < 5 ==> spec_strip_ansi(#[trigger] spec_render_hex_digits(digits, ColorMode::Color(palette))[r])
                == spec_render_hex_digits(digits, ColorMode::NoColor)[r],
{
    lemma_hex_rows_plain(digits);
    lemma_hex_rows_show(digits, palette);
    let c = spec_render_hex_digits(digits, ColorMode::Color(palette));
    let p = spec_render_hex_digits(digits, ColorMode::NoColor);
    assert forall|r: int| 0 <= r < 5 implies spec_strip_ansi(#[trigger] c[r]) == p[r] by {
        lemma_shows_strip(c[r], p[r]);
    }
}

/// In any color mode, row `r` of the Hex area, stripped of escape
/// sequences, is the digits' glyph rows, four columns each, joined by one
/// space and by three between groups of four counted from the right; the
/// area of a single digit is that digit's glyph rows.
pub proof fn law_hex_rows_are_joined_glyphs(digits: Seq<char>, color_mode: ColorMode)
    ensures
        spec_render_hex_digits(digits, color_mode).len() == 5,
        forall|r: int, i: int| 0 <= r < 5 && 0 <= i < digits.len() ==> (#[trigger] hex_pattern_row(digits[i], r as nat)).len() == 4,
        forall|r: int|
            0 <= r < 5 ==> spec_strip_ansi(#[trigger] spec_render_hex_digits(digits, color_mode)[r]) == joined(
                Seq::new(digits.len(), |i: int| hex_pattern_row(digits[i], r as nat)),
                seq![' '],
                seq![' ', ' ', ' '],
            ),
        digits.len() == 1 ==> forall|r: int|
            0 <= r < 5 ==> spec_strip_ansi(#[trigger] spec_render_hex_digits(digits, color_mode)[r])
                == hex_pattern_row(digits[0], r as nat),
{
    let p = spec_render_hex_digits(digits, ColorMode::NoColor);
    lemma_hex_rows_plain(digits);
    assert forall|r: int| 0 <= r < 5 implies p[r] == joined(
        Seq::new(digits.len(), |i: int| hex_pattern_row(digits[i], r as nat)),
        seq![' '],
        seq![' ', ' ', ' '],
    ) by {
        assert(Seq::new(
            digits.len(),
            |i: int| spec_colorize(i as nat, hex_pattern_row(digits[i], r as nat), ColorMode::NoColor),
        ) =~= Seq::new(digits.len(), |i: int| hex_pattern_row(digits[i], r as nat)));
    }
    let c = spec_render_hex_digits(digits, color_mode);
    assert forall|r: int| 0 <= r < 5 implies spec_strip_ansi(#[trigger] c[r]) == p[r] by {
        if let ColorMode::Color(palette) = color_mode {
            law_hex_rows_color_keeps_text(digits, palette);
        } else {
            assert(is_plain(p[r]));
            lemma_shows_plain(p[r]);
            lemma_shows_strip(p[r], p[r]);
        }
    }
    if digits.len() == 1 {
        assert forall|r: int| 0 <= r < 5 implies joined(
            Seq::new(digits.len(), |i: int| hex_pattern_row(digits[i], r as nat)),
            seq![' '],
            seq![' ', ' ', ' '],
        ) == #[trigger] hex_pattern_row(digits[0], r as nat) by {
            crate::render::layout::lemma_joined_one(
                Seq::new(digits.len(), |i: int| hex_pattern_row(digits[i], r as nat)),
                seq![' '],
                seq![' ', ' ', ' '],
            );
        }
    }
}

/// The Unit area holds no escape sequence when its left labels hold none,
/// so every ruler line reads the same with its escape sequences removed
/// and the connectors line up after stripping as they do before.
pub proof fn law_ruler_is_plain(digits: Seq<char>, left_labels: Seq<char>)
    requires
        is_plain(left_labels),
    ensures
        all_plain(spec_render_ruler(digits, left_labels)),
        forall|r: int|
            0 <= r < spec_render_ruler(digits, left_labels).len() ==> spec_strip_ansi(
                #[trigger] spec_render_ruler(digits, left_labels)[r],
            ) == spec_render_ruler(digits, left_labels)[r],
{
    lemma_ruler_plain(digits, left_labels);
    let lines = spec_render_ruler(digits, left_labels);
    assert forall|r: int| 0 <= r < lines.len() implies spec_strip_ansi(#[trigger] lines[r]) == lines[r] by {
        assert(is_plain(lines[r]));
        lemma_shows_plain(lines[r]);
        lemma_shows_strip(lines[r], lines[r]);
    }
}

} // verus!
