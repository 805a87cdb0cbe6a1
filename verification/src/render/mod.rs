//! The visual area: Unit ruler, Hex glyphs, Bit area, and Position labels.

pub mod layout;
pub mod style;
pub mod hex;
pub mod bit;
pub mod ruler;

use vstd::prelude::*;
use crate::format::{
    Endian, display_hex_digits_chars, hex_digits_to_bits, hex_numeral, hex_to_bits,
    spec_display_hex_digits, swap_byte_order, even_padded,
};
use crate::render::bit::{TopConnector, render_bit_area_lines, spec_render_bit_area};
use crate::render::hex::{is_hex_digit, render_hex_digit_lines, spec_render_hex_digits};
use crate::render::layout::{add_left_labels, join_tokens, joined, spec_add_left_labels};
use crate::render::ruler::{render_ruler_lines, spec_render_ruler};
use crate::render::style::{
    ColorMode, ColorPalette, colorize_chars, grey_visual_scaffolding_chars, spec_colorize,
    spec_grey_visual_scaffolding,
};
use crate::text::{digit_char, digits_in_base, push_line, repeat, strings_of, zero_padded};

verus! {

/// How the visual area is colored.
#[derive(Clone, Copy, Debug, PartialEq, Eq)]
pub enum RenderColor {
    Color,
    Ansi256([u8; 4]),
    NoColor,
}

/// Which visual areas are drawn.
#[derive(Clone, Copy, Debug, PartialEq, Eq)]
pub enum RenderMode {
    /// Unit ruler, Hex glyphs, and the Bit and Position areas.
    Full,
    /// Inline hex digits and the Bit and Position areas.
    Compact,
}

/// What the visual area shows and how.
#[derive(Clone, Copy, Debug, PartialEq, Eq)]
pub struct RenderOptions {
    pub color: RenderColor,
    pub mode: RenderMode,
    pub hex_digits: Option<usize>,
    pub endian: Endian,
}

/// The color mode of the styling for a render color.
pub open spec fn spec_color_mode_of(color: RenderColor) -> ColorMode {
    match color {
        RenderColor::Color => ColorMode::Color(ColorPalette::Default),
        RenderColor::Ansi256(indexes) => ColorMode::Color(ColorPalette::Ansi256(indexes)),
        RenderColor::NoColor => ColorMode::NoColor,
    }
}

impl From<RenderColor> for ColorMode {
    /// The color mode of the styling for a render color.
    fn from(color: RenderColor) -> (mode: ColorMode) {
        match color {
            RenderColor::Color => ColorMode::Color(ColorPalette::Default),
            RenderColor::Ansi256(indexes) => ColorMode::Color(ColorPalette::Ansi256(indexes)),
            RenderColor::NoColor => ColorMode::NoColor,
        }
    }
}

impl vstd::std_specs::convert::FromSpecImpl<RenderColor> for ColorMode {
    open spec fn obeys_from_spec() -> bool {
        true
    }

    open spec fn from_spec(color: RenderColor) -> ColorMode {
        spec_color_mode_of(color)
    }
}

/// The Bit area of the full layout: like the compact one, with the
/// verticals drawn twice so that the Position labels sit on the last
/// label row.
pub open spec fn full_bit_section(bits: Seq<char>, color_mode: ColorMode) -> Seq<Seq<char>> {
    let a = spec_render_bit_area(bits, color_mode, TopConnector::Full);
    seq![a[0], a[1], a[2], a[3], a[4], a[5], a[5], a[6]]
}

/// The compact Hex area: a blank line, each digit right-aligned in its
/// glyph's four columns, and a blank line.
pub open spec fn compact_hex_rows(digits: Seq<char>, color_mode: ColorMode) -> Seq<Seq<char>> {
    seq![
        Seq::empty(),
        joined(
            Seq::new(
                digits.len(),
                |i: int| seq![' ', ' ', ' '] + spec_colorize(i as nat, seq![digits[i]], color_mode),
            ),
            seq![' '],
            seq![' ', ' ', ' '],
        ),
        Seq::empty(),
    ]
}

/// The visual area before the scaffolding is greyed.
pub open spec fn visual_lines(digits: Seq<char>, color_mode: ColorMode, mode: RenderMode) -> Seq<
    Seq<char>,
> {
    let bits = hex_to_bits(digits);
    match mode {
        RenderMode::Full => seq![Seq::empty()] + spec_render_ruler(digits, "UNIT"@) + seq![
            Seq::empty(),
        ] + spec_add_left_labels(spec_render_hex_digits(digits, color_mode), "HEX"@) + seq![
            Seq::empty(),
        ] + spec_add_left_labels(full_bit_section(bits, color_mode), " BIT POS"@),
        RenderMode::Compact => spec_add_left_labels(compact_hex_rows(digits, color_mode), "HEX"@)
            + spec_add_left_labels(
            spec_render_bit_area(bits, color_mode, TopConnector::Compact),
            " BIT POS"@,
        ),
    }
}

/// The lines of the visual area for `number`.
pub open spec fn spec_render_visual(number: u128, options: RenderOptions) -> Seq<Seq<char>> {
    let digits = spec_display_hex_digits(number, options.hex_digits, options.endian);
    let color_mode = spec_color_mode_of(options.color);
    visual_lines(digits, color_mode, options.mode).map_values(
        |line: Seq<char>| spec_grey_visual_scaffolding(line, color_mode),
    )
}

/// Every digit of a numeral in base 16 is a hexadecimal digit.
proof fn lemma_numeral_hex(n: nat)
    ensures
        forall|i: int|
            0 <= i < digits_in_base(n, 16).len() ==> is_hex_digit(#[trigger] digits_in_base(n, 16)[i]),
    decreases n,
{
    if n >= 16 {
        assert(n / 16 < n);
        lemma_numeral_hex(n / 16);
        assert(digits_in_base(n, 16) == digits_in_base(n / 16, 16).push(digit_char(n % 16)));
    }
}

/// The displayed digits are hexadecimal digits, and not many more than
/// the width asked for or 32.
proof fn lemma_display_digits(number: u128, hex_digits: Option<usize>, endian: Endian)
    ensures
        forall|i: int|
            0 <= i < spec_display_hex_digits(number, hex_digits, endian).len() ==> is_hex_digit(
                #[trigger] spec_display_hex_digits(number, hex_digits, endian)[i],
            ),
        spec_display_hex_digits(number, hex_digits, endian).len() <= 33 || (
        hex_digits matches Some(w) && spec_display_hex_digits(number, hex_digits, endian).len()
            <= w + 1),
{
    crate::text::lemma_hex_numeral_len(number);
    lemma_numeral_hex(number as nat);
    let h = hex_numeral(number);
    let d = match hex_digits {
        Some(w) => zero_padded(h, w as nat),
        None => h,
    };
    assert forall|i: int| 0 <= i < d.len() implies is_hex_digit(#[trigger] d[i]) by {
        if let Some(w) = hex_digits {
            if h.len() < w {
                if i >= w - h.len() {
                    assert(d[i] == h[i - (w - h.len())]);
                }
            }
        }
    }
    let p = even_padded(d);
    assert forall|i: int| 0 <= i < p.len() implies is_hex_digit(#[trigger] p[i]) by {
        if d.len() % 2 != 0 && i > 0 {
            assert(p[i] == d[i - 1]);
        }
    }
    let s = swap_byte_order(d);
    assert forall|i: int| 0 <= i < s.len() implies is_hex_digit(#[trigger] s[i]) by {
        assert(s[i] == p[p.len() - 2 - 2 * (i / 2) + i % 2]);
    }
}

/// The compact Hex area rows.
fn compact_hex_lines(digits: &Vec<char>, color_mode: ColorMode) -> (lines: Vec<Vec<char>>)
    ensures
        lines.deep_view() == compact_hex_rows(digits@, color_mode),
{
    let ghost want = Seq::new(
        digits@.len(),
        |i: int| seq![' ', ' ', ' '] + spec_colorize(i as nat, seq![digits@[i]], color_mode),
    );
    let mut tokens: Vec<Vec<char>> = Vec::new();
    let mut i: usize = 0;
    while i < digits.len()
        invariant
            i <= digits@.len(),
            want == Seq::new(
                digits@.len(),
                |i: int| seq![' ', ' ', ' '] + spec_colorize(i as nat, seq![digits@[i]], color_mode),
            ),
            tokens.deep_view() == want.take(i as int),
        decreases digits@.len() - i,
    {
        let mut digit: Vec<char> = Vec::new();
        digit.push(digits[i]);
        assert(digit@ =~= seq![digits@[i as int]]);
        let mut token = repeat(' ', 3);
        crate::text::extend_chars(&mut token, colorize_chars(i, &digit, color_mode).as_slice());
        assert(token@ =~= want[i as int]);
        push_line(&mut tokens, token);
        assert(tokens.deep_view() =~= want.take(i + 1));
        i = i + 1;
    }
    assert(want.take(i as int) =~= want);
    let narrow = repeat(' ', 1);
    let wide = repeat(' ', 3);
    assert(narrow@ =~= seq![' ']);
    assert(wide@ =~= seq![' ', ' ', ' ']);
    let mut lines: Vec<Vec<char>> = Vec::new();
    push_line(&mut lines, Vec::new());
    push_line(&mut lines, join_tokens(&tokens, &narrow, &wide));
    push_line(&mut lines, Vec::new());
    assert(lines.deep_view() =~= compact_hex_rows(digits@, color_mode));
    lines
}

/// Appends lines to a list of lines.
fn append_lines(lines: &mut Vec<Vec<char>>, more: Vec<Vec<char>>)
    ensures
        final(lines).deep_view() == old(lines).deep_view() + more.deep_view(),
{
    let ghost m = more.deep_view();
    let mut i: usize = 0;
    while i < more.len()
        invariant
            m == more.deep_view(),
            i <= m.len(),
            lines.deep_view() == old(lines).deep_view() + m.take(i as int),
        decreases m.len() - i,
    {
        assert(m[i as int] == more@[i as int]@);
        push_line(lines, more[i].clone());
        assert(m.take(i + 1) =~= m.take(i as int).push(m[i as int]));
        assert(lines.deep_view() =~= old(lines).deep_view() + m.take(i + 1));
        i = i + 1;
    }
    assert(m.take(i as int) =~= m);
}

/// Renders the visual area for `number`: in the full layout a blank line,
/// the Unit ruler, the Hex glyphs, and the Bit and Position areas; in the
/// compact layout the inline hex digits and the Bit and Position areas.
/// Scaffolding is greyed when coloring is on.
pub fn render_visual(number: u128, options: RenderOptions) -> (lines: Vec<String>)
    requires
        options.hex_digits matches Some(w) ==> w <= isize::MAX / 32,
    ensures
        lines.deep_view() == spec_render_visual(number, options),
{
    let digits = display_hex_digits_chars(number, options.hex_digits, options.endian);
    proof {
        lemma_display_digits(number, options.hex_digits, options.endian);
    }
    let bits = hex_digits_to_bits(&digits);
    let color_mode = ColorMode::from(options.color);
    let mut raw: Vec<Vec<char>> = Vec::new();
    match options.mode {
        RenderMode::Full => {
            push_line(&mut raw, Vec::new());
            append_lines(&mut raw, render_ruler_lines(digits.as_slice(), "UNIT"));
            push_line(&mut raw, Vec::new());
            append_lines(
                &mut raw,
                add_left_labels(render_hex_digit_lines(digits.as_slice(), color_mode), "HEX"),
            );
            push_line(&mut raw, Vec::new());
            let area = render_bit_area_lines(&bits, color_mode, TopConnector::Full);
            let ghost a = area.deep_view();
            assert(a.len() == 8);
            let mut section: Vec<Vec<char>> = Vec::new();
            let mut k: usize = 0;
            while k < 6
                invariant
                    a == area.deep_view(),
                    a.len() == 8,
                    k <= 6,
                    section.deep_view() == a.take(k as int),
                decreases 6 - k,
            {
                assert(a[k as int] == area@[k as int]@);
                push_line(&mut section, area[k].clone());
                assert(a.take(k + 1) =~= a.take(k as int).push(a[k as int]));
                k = k + 1;
            }
            assert(a[5] == area@[5]@);
            assert(a[6] == area@[6]@);
            push_line(&mut section, area[5].clone());
            push_line(&mut section, area[6].clone());
            assert(section.deep_view() =~= full_bit_section(hex_to_bits(digits@), color_mode));
            append_lines(&mut raw, add_left_labels(section, " BIT POS"));
        },
        RenderMode::Compact => {
            append_lines(&mut raw, add_left_labels(compact_hex_lines(&digits, color_mode), "HEX"));
            append_lines(
                &mut raw,
                add_left_labels(
                    render_bit_area_lines(&bits, color_mode, TopConnector::Compact),
                    " BIT POS",
                ),
            );
        },
    }
    let ghost r = raw.deep_view();
    assert(r =~= visual_lines(digits@, color_mode, options.mode));
    let ghost want = spec_render_visual(number, options);
    let mut out: Vec<Vec<char>> = Vec::new();
    let mut i: usize = 0;
    while i < raw.len()
        invariant
            r == raw.deep_view(),
            want == r.map_values(|line: Seq<char>| spec_grey_visual_scaffolding(line, color_mode)),
            i <= r.len(),
            out.deep_view() == want.take(i as int),
        decreases r.len() - i,
    {
        assert(r[i as int] == raw@[i as int]@);
        push_line(&mut out, grey_visual_scaffolding_chars(&raw[i], color_mode));
        assert(out.deep_view() =~= want.take(i + 1));
        i = i + 1;
    }
    assert(want.take(i as int) =~= want);
    strings_of(&out)
}

} // verus!
