//! Hex area rendering: five-row block glyphs for hexadecimal digits.

use vstd::prelude::*;
use crate::render::layout::{joined, join_tokens, HEX_DIGIT_WIDTH};
use crate::render::style::{ColorMode, colorize_chars, spec_colorize};
use crate::text::{push_line, repeat, strings_of};
use crate::format::hex_digit_value;

verus! {

/// Whether `c` is a hexadecimal digit of either case.
pub open spec fn is_hex_digit(c: char) -> bool {
    ('0' <= c <= '9') || ('a' <= c <= 'f') || ('A' <= c <= 'F')
}

/// The ink of row `row` of the glyph for digit value `v`, as four bits
/// with the leftmost cell in the highest bit.
pub open spec fn glyph_mask(v: nat, row: nat) -> nat {
    let rows: Seq<nat> = if v == 0 {
        seq![15, 9, 9, 9, 15]
    } else if v == 1 {
        seq![2, 6, 2, 2, 7]
    } else if v == 2 {
        seq![15, 1, 15, 8, 15]
    } else if v == 3 {
        seq![15, 1, 15, 1, 15]
    } else if v == 4 {
        seq![9, 9, 15, 1, 1]
    } else if v == 5 {
        seq![15, 8, 15, 1, 15]
    } else if v == 6 {
        seq![15, 8, 15, 9, 15]
    } else if v == 7 {
        seq![15, 1, 2, 4, 4]
    } else if v == 8 {
        seq![15, 9, 15, 9, 15]
    } else if v == 9 {
        seq![15, 9, 15, 1, 15]
    } else if v == 10 {
        seq![15, 9, 15, 9, 9]
    } else if v == 11 {
        seq![14, 9, 14, 9, 14]
    } else if v == 12 {
        seq![15, 8, 8, 8, 15]
    } else if v == 13 {
        seq![14, 9, 9, 9, 14]
    } else if v == 14 {
        seq![15, 8, 15, 8, 15]
    } else {
        seq![15, 8, 15, 8, 8]
    };
    rows[row as int]
}

/// A four-cell glyph row: a full block where the mask has ink, a space
/// elsewhere.
pub open spec fn glyph_row(mask: nat) -> Seq<char> {
    Seq::new(
        4,
        |j: int|
            if (mask / (if j == 0 {
                8nat
            } else if j == 1 {
                4nat
            } else if j == 2 {
                2nat
            } else {
                1nat
            })) % 2 == 1 {
                '█'
            } else {
                ' '
            },
    )
}

/// Row `row` (0 to 4) of the block glyph of hex digit `digit`.
pub open spec fn hex_pattern_row(digit: char, row: nat) -> Seq<char> {
    glyph_row(glyph_mask(hex_digit_value(digit), row))
}

/// The glyph mask of a digit value's row.
fn glyph_mask_of(v: u8, row: usize) -> (m: u8)
    requires
        v < 16,
        row < 5,
    ensures
        m as nat == glyph_mask(v as nat, row as nat),
        m < 16,
{
    let rows: [u8; 5] = match v {
        0 => [15, 9, 9, 9, 15],
        1 => [2, 6, 2, 2, 7],
        2 => [15, 1, 15, 8, 15],
        3 => [15, 1, 15, 1, 15],
        4 => [9, 9, 15, 1, 1],
        5 => [15, 8, 15, 1, 15],
        6 => [15, 8, 15, 9, 15],
        7 => [15, 1, 2, 4, 4],
        8 => [15, 9, 15, 9, 15],
        9 => [15, 9, 15, 1, 15],
        10 => [15, 9, 15, 9, 9],
        11 => [14, 9, 14, 9, 14],
        12 => [15, 8, 8, 8, 15],
        13 => [14, 9, 9, 9, 14],
        14 => [15, 8, 15, 8, 15],
        _ => [15, 8, 15, 8, 8],
    };
    rows[row]
}

/// The value of a hexadecimal digit character.
fn hex_value(c: char) -> (v: u8)
    requires
        is_hex_digit(c),
    ensures
        v as nat == hex_digit_value(c),
        v < 16,
{
    if '0' <= c && c <= '9' {
        (c as u32 - '0' as u32) as u8
    } else if 'a' <= c && c <= 'f' {
        (c as u32 - 'a' as u32 + 10) as u8
    } else {
        (c as u32 - 'A' as u32 + 10) as u8
    }
}

/// Row `row` of the glyph of `digit`.
pub fn hex_pattern(digit: char, row: usize) -> (v: Vec<char>)
    requires
        is_hex_digit(digit),
        row < 5,
    ensures
        v@ == hex_pattern_row(digit, row as nat),
{
    let m = glyph_mask_of(hex_value(digit), row);
    let mut v: Vec<char> = Vec::new();
    v.push(if (m / 8) % 2 == 1 { '█' } else { ' ' });
    v.push(if (m / 4) % 2 == 1 { '█' } else { ' ' });
    v.push(if (m / 2) % 2 == 1 { '█' } else { ' ' });
    v.push(if m % 2 == 1 { '█' } else { ' ' });
    assert(v@ =~= hex_pattern_row(digit, row as nat));
    v
}

/// The rightmost inked column of a glyph row, or -1 for a blank row.
pub open spec fn row_right_edge(row: Seq<char>) -> int
    decreases row.len(),
{
    if row.len() == 0 {
        -1
    } else if row.last() != ' ' {
        row.len() - 1
    } else {
        row_right_edge(row.drop_last())
    }
}

/// The rightmost inked column over the first `rows` rows of a glyph.
pub open spec fn glyph_right_edge(digit: char, rows: nat) -> int
    decreases rows,
{
    if rows == 0 {
        -1
    } else {
        let before = glyph_right_edge(digit, (rows - 1) as nat);
        let edge = row_right_edge(hex_pattern_row(digit, (rows - 1) as nat));
        if edge > before {
            edge
        } else {
            before
        }
    }
}

/// The rightmost inked column of the glyph of `digit`; the last glyph
/// column when the glyph has no ink.
pub open spec fn spec_hex_right_edge(digit: char) -> nat {
    let edge = glyph_right_edge(digit, 5);
    if edge < 0 {
        (HEX_DIGIT_WIDTH - 1) as nat
    } else {
        edge as nat
    }
}

fn last_ink_column(row: &Vec<char>) -> (r: Option<usize>)
    ensures
        match r {
            Some(c) => row_right_edge(row@) == c as int,
            None => row_right_edge(row@) == -1,
        },
{
    let mut k = row.len();
    assert(row@.take(k as int) =~= row@);
    while k > 0 && row[k - 1] == ' '
        invariant
            k <= row@.len(),
            row_right_edge(row@) == row_right_edge(row@.take(k as int)),
        decreases k,
    {
        assert(row@.take(k as int).drop_last() =~= row@.take(k - 1));
        k = k - 1;
    }
    if k == 0 {
        assert(row@.take(0) =~= Seq::<char>::empty());
        None
    } else {
        Some(k - 1)
    }
}

/// The rightmost column with ink in the glyph of `digit`, where a
/// connector can attach to it.
pub fn hex_right_edge(digit: char) -> (r: usize)
    requires
        is_hex_digit(digit),
    ensures
        r == spec_hex_right_edge(digit),
        r == 3,
{
    let mut best: Option<usize> = None;
    let mut row: usize = 0;
    while row < 5
        invariant
            is_hex_digit(digit),
            row <= 5,
            match best {
                Some(c) => glyph_right_edge(digit, row as nat) == c as int,
                None => glyph_right_edge(digit, row as nat) == -1,
            },
        decreases 5 - row,
    {
        let pattern = hex_pattern(digit, row);
        let edge = last_ink_column(&pattern);
        best = match (edge, best) {
            (Some(e), Some(b)) => if e > b {
                Some(e)
            } else {
                Some(b)
            },
            (Some(e), None) => Some(e),
            (None, b) => b,
        };
        row = row + 1;
    }
    let r = match best {
        Some(c) => c,
        None => HEX_DIGIT_WIDTH - 1,
    };
    proof {
        lemma_glyph_right_edge_is_last_column(digit);
    }
    r
}

/// Every glyph reaches its last column.
pub proof fn lemma_right_edge_value(digit: char)
    requires
        is_hex_digit(digit),
    ensures
        spec_hex_right_edge(digit) == 3,
{
    lemma_glyph_right_edge_is_last_column(digit);
}

/// Every glyph reaches its last column in some row.
proof fn lemma_glyph_right_edge_is_last_column(digit: char)
    requires
        is_hex_digit(digit),
    ensures
        spec_hex_right_edge(digit) == 3,
{
    let v = hex_digit_value(digit);
    assert(v < 16);
    reveal_with_fuel(glyph_right_edge, 6);
    reveal_with_fuel(row_right_edge, 5);
    let r0 = hex_pattern_row(digit, 0);
    let r1 = hex_pattern_row(digit, 1);
    let r2 = hex_pattern_row(digit, 2);
    let r3 = hex_pattern_row(digit, 3);
    let r4 = hex_pattern_row(digit, 4);
    assert(r0.len() == 4 && r1.len() == 4 && r2.len() == 4 && r3.len() == 4 && r4.len() == 4);
    assert(row_right_edge(r0) <= 3 && row_right_edge(r1) <= 3 && row_right_edge(r2) <= 3
        && row_right_edge(r3) <= 3 && row_right_edge(r4) <= 3);
    assert(r0.last() != ' ' || r1.last() != ' ' || r2.last() != ' ' || r3.last() != ' '
        || r4.last() != ' ');
}

/// The five lines of the Hex area: one glyph per digit, colored by slot
/// `index`, joined like all visual tokens.
pub open spec fn spec_render_hex_digits(digits: Seq<char>, color_mode: ColorMode) -> Seq<Seq<char>> {
    Seq::new(
        5,
        |row: int|
            joined(
                Seq::new(
                    digits.len(),
                    |i: int| spec_colorize(i as nat, hex_pattern_row(digits[i], row as nat), color_mode),
                ),
                seq![' '],
                seq![' ', ' ', ' '],
            ),
    )
}

/// The five lines of the Hex area as characters.
pub fn render_hex_digit_lines(hex_digits: &[char], color_mode: ColorMode) -> (lines: Vec<Vec<char>>)
    requires
        forall|i: int| 0 <= i < hex_digits@.len() ==> is_hex_digit(#[trigger] hex_digits@[i]),
    ensures
        lines.deep_view() == spec_render_hex_digits(hex_digits@, color_mode),
{
    let narrow = repeat(' ', 1);
    let wide = repeat(' ', 3);
    assert(narrow@ =~= seq![' ']);
    assert(wide@ =~= seq![' ', ' ', ' ']);
    let mut lines: Vec<Vec<char>> = Vec::new();
    let mut row: usize = 0;
    while row < 5
        invariant
            forall|i: int| 0 <= i < hex_digits@.len() ==> is_hex_digit(#[trigger] hex_digits@[i]),
            narrow@ == seq![' '],
            wide@ == seq![' ', ' ', ' '],
            row <= 5,
            lines.deep_view() == spec_render_hex_digits(hex_digits@, color_mode).take(row as int),
        decreases 5 - row,
    {
        let ghost want = Seq::new(
            hex_digits@.len(),
            |i: int| spec_colorize(i as nat, hex_pattern_row(hex_digits@[i], row as nat), color_mode),
        );
        let mut tokens: Vec<Vec<char>> = Vec::new();
        let mut i: usize = 0;
        while i < hex_digits.len()
            invariant
                forall|i: int| 0 <= i < hex_digits@.len() ==> is_hex_digit(#[trigger] hex_digits@[i]),
                row < 5,
                i <= hex_digits@.len(),
                want == Seq::new(
                    hex_digits@.len(),
                    |i: int| spec_colorize(i as nat, hex_pattern_row(hex_digits@[i], row as nat), color_mode),
                ),
                tokens.deep_view() == want.take(i as int),
            decreases hex_digits@.len() - i,
        {
            let pattern = hex_pattern(hex_digits[i], row);
            push_line(&mut tokens, colorize_chars(i, &pattern, color_mode));
            assert(want.take(i + 1) =~= want.take(i as int).push(want[i as int]));
            i = i + 1;
        }
        assert(want.take(i as int) =~= want);
        push_line(&mut lines, join_tokens(&tokens, &narrow, &wide));
        assert(lines.deep_view() =~= spec_render_hex_digits(hex_digits@, color_mode).take(row + 1));
        row = row + 1;
    }
    assert(spec_render_hex_digits(hex_digits@, color_mode).take(5) =~= spec_render_hex_digits(
        hex_digits@,
        color_mode,
    ));
    lines
}

/// The five lines of the Hex area: a block glyph per digit, each colored
/// by its position, joined with the visual token gaps.
pub fn render_hex_digits(hex_digits: &[char], color_mode: ColorMode) -> (lines: Vec<String>)
    requires
        forall|i: int| 0 <= i < hex_digits@.len() ==> is_hex_digit(#[trigger] hex_digits@[i]),
    ensures
        lines.deep_view() == spec_render_hex_digits(hex_digits@, color_mode),
{
    strings_of(&render_hex_digit_lines(hex_digits, color_mode))
}

/// `c` with an ASCII capital letter made lowercase.
pub open spec fn ascii_lowercase(c: char) -> char {
    if 'A' <= c <= 'Z' {
        ((c as nat) + 32) as char
    } else {
        c
    }
}

/// The five row masks of a digit value packed into one number.
spec fn mask_signature(v: nat) -> nat {
    glyph_mask(v, 0) + 16 * glyph_mask(v, 1) + 256 * glyph_mask(v, 2) + 4096 * glyph_mask(v, 3)
        + 65536 * glyph_mask(v, 4)
}

/// The digit value whose rows pack into `s`.
spec fn signature_digit(s: nat) -> nat {
    if s == 1022367 {
        0
    } else if s == 467554 {
        1
    } else if s == 1019679 {
        2
    } else if s == 991007 {
        3
    } else if s == 73625 {
        4
    } else if s == 991119 {
        5
    } else if s == 1023887 {
        6
    } else if s == 279071 {
        7
    } else if s == 1023903 {
        8
    } else if s == 991135 {
        9
    } else if s == 630687 {
        10
    } else if s == 958110 {
        11
    } else if s == 1017999 {
        12
    } else if s == 956830 {
        13
    } else if s == 1019791 {
        14
    } else if s == 561039 {
        15
    } else {
        16
    }
}

/// Every digit value is recovered from its packed rows.
proof fn lemma_signature_digit(v: nat)
    requires
        v < 16,
    ensures
        signature_digit(mask_signature(v)) == v,
{
}

/// Row masks are four bits.
proof fn lemma_mask_small(v: nat, r: nat)
    requires
        r < 5,
    ensures
        glyph_mask(v, r) < 16,
{
}

/// A glyph row tells its mask.
proof fn lemma_glyph_row_injective(m1: nat, m2: nat)
    requires
        m1 < 16,
        m2 < 16,
        glyph_row(m1) == glyph_row(m2),
    ensures
        m1 == m2,
{
    let g1 = glyph_row(m1);
    let g2 = glyph_row(m2);
    assert(g1[0] == (if (m1 / 8nat) % 2 == 1 { '█' } else { ' ' }));
    assert(g2[0] == (if (m2 / 8nat) % 2 == 1 { '█' } else { ' ' }));
    assert(g1[1] == (if (m1 / 4nat) % 2 == 1 { '█' } else { ' ' }));
    assert(g2[1] == (if (m2 / 4nat) % 2 == 1 { '█' } else { ' ' }));
    assert(g1[2] == (if (m1 / 2nat) % 2 == 1 { '█' } else { ' ' }));
    assert(g2[2] == (if (m2 / 2nat) % 2 == 1 { '█' } else { ' ' }));
    assert(g1[3] == (if (m1 / 1nat) % 2 == 1 { '█' } else { ' ' }));
    assert(g2[3] == (if (m2 / 1nat) % 2 == 1 { '█' } else { ' ' }));
    assert(g1[0] == g2[0] && g1[1] == g2[1] && g1[2] == g2[2] && g1[3] == g2[3]);
    assert((m1 / 8) % 2 == (m2 / 8) % 2);
    assert((m1 / 4) % 2 == (m2 / 4) % 2);
    assert((m1 / 2) % 2 == (m2 / 2) % 2);
    assert(m1 % 2 == m2 % 2);
}

/// Two hex digits draw the same glyph exactly when they are the same
/// digit, ignoring case: the glyph rows are equal, and so is the Hex area
/// of the one digit in any color mode.
pub proof fn law_glyphs_tell_digits_apart(c1: char, c2: char, color_mode: ColorMode)
    requires
        is_hex_digit(c1),
        is_hex_digit(c2),
    ensures
        (forall|r: nat| r < 5 ==> #[trigger] hex_pattern_row(c1, r) == hex_pattern_row(c2, r))
            <==> ascii_lowercase(c1) == ascii_lowercase(c2),
        spec_render_hex_digits(seq![c1], color_mode) == spec_render_hex_digits(seq![c2], color_mode)
            <==> ascii_lowercase(c1) == ascii_lowercase(c2),
{
    let v1 = hex_digit_value(c1);
    let v2 = hex_digit_value(c2);
    assert(v1 < 16 && v2 < 16);
    assert((v1 == v2) <==> (ascii_lowercase(c1) == ascii_lowercase(c2)));
    if forall|r: nat| r < 5 ==> #[trigger] hex_pattern_row(c1, r) == hex_pattern_row(c2, r) {
        assert forall|r: nat| r < 5 implies glyph_mask(v1, r) == glyph_mask(v2, r) by {
            assert(hex_pattern_row(c1, r) == hex_pattern_row(c2, r));
            lemma_mask_small(v1, r);
            lemma_mask_small(v2, r);
            lemma_glyph_row_injective(glyph_mask(v1, r), glyph_mask(v2, r));
        }
        assert(glyph_mask(v1, 0) == glyph_mask(v2, 0) && glyph_mask(v1, 1) == glyph_mask(v2, 1));
        assert(glyph_mask(v1, 2) == glyph_mask(v2, 2) && glyph_mask(v1, 3) == glyph_mask(v2, 3));
        assert(glyph_mask(v1, 4) == glyph_mask(v2, 4));
        assert(mask_signature(v1) == mask_signature(v2));
        lemma_signature_digit(v1);
        lemma_signature_digit(v2);
    }
    let a = spec_render_hex_digits(seq![c1], color_mode);
    let b = spec_render_hex_digits(seq![c2], color_mode);
    assert forall|r: nat| r < 5 implies a[r as int] == spec_colorize(0, hex_pattern_row(c1, r), color_mode)
        && b[r as int] == spec_colorize(0, hex_pattern_row(c2, r), color_mode) by {
        crate::render::layout::lemma_joined_one(
            Seq::new(1, |i: int| spec_colorize(i as nat, hex_pattern_row(seq![c1][i], r), color_mode)),
            seq![' '],
            seq![' ', ' ', ' '],
        );
        crate::render::layout::lemma_joined_one(
            Seq::new(1, |i: int| spec_colorize(i as nat, hex_pattern_row(seq![c2][i], r), color_mode)),
            seq![' '],
            seq![' ', ' ', ' '],
        );
    }
    if v1 == v2 {
        assert(a =~= b);
    }
    if a == b {
        assert forall|r: nat| r < 5 implies #[trigger] hex_pattern_row(c1, r) == hex_pattern_row(c2, r) by {
            let p1 = hex_pattern_row(c1, r);
            let p2 = hex_pattern_row(c2, r);
            assert(a[r as int] == b[r as int]);
            crate::render::style::lemma_colorize_injective(0, p1, p2, color_mode);
        }
    }
}

/// The connector column of a glyph is its rightmost inked column: some
/// row has ink there, no row has ink right of it, and it lies within the
/// glyph's four columns.
pub proof fn law_right_edge_is_rightmost_ink(digit: char)
    requires
        is_hex_digit(digit),
    ensures
        spec_hex_right_edge(digit) < HEX_DIGIT_WIDTH,
        forall|r: nat| r < 5 ==> (#[trigger] hex_pattern_row(digit, r)).len() == HEX_DIGIT_WIDTH,
        exists|r: nat| r < 5 && #[trigger] hex_pattern_row(digit, r)[spec_hex_right_edge(digit) as int] != ' ',
        forall|r: nat, j: int|
            r < 5 && spec_hex_right_edge(digit) < j < HEX_DIGIT_WIDTH ==> #[trigger] hex_pattern_row(digit, r)[j] == ' ',
{
    lemma_glyph_right_edge_is_last_column(digit);
    let r0 = hex_pattern_row(digit, 0);
    let r1 = hex_pattern_row(digit, 1);
    let r2 = hex_pattern_row(digit, 2);
    let r3 = hex_pattern_row(digit, 3);
    let r4 = hex_pattern_row(digit, 4);
    let v = hex_digit_value(digit);
    assert(v < 16);
    assert(r0.last() != ' ' || r1.last() != ' ' || r2.last() != ' ' || r3.last() != ' '
        || r4.last() != ' ');
    assert(r0.last() == r0[3] && r1.last() == r1[3] && r2.last() == r2[3] && r3.last() == r3[3] && r4.last() == r4[3]);
}

} // verus!
