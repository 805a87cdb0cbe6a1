//! Unit area: power-of-two labels on a two-sided ruler whose connectors
//! drop onto the hex glyphs.

use vstd::prelude::*;
use crate::render::hex::{hex_right_edge, is_hex_digit, spec_hex_right_edge};
use crate::render::layout::{
    painted, spec_token_start_column, spec_visual_width, token_start_column, visual_width,
    write_at, label_at, LEFT_LABEL_WIDTH,
};
use crate::text::{
    chars_of, digits_in_base, extend_chars, format_radix, lemma_digits_len, power, push_line, repeat,
    repeat_char, string_of, strings_of,
};

verus! {

/// The binary prefix letter for 2^(10 (i + 1)).
pub open spec fn power_suffix(i: nat) -> char {
    seq!['K', 'M', 'G', 'T', 'P', 'E', 'Z', 'Y'][i as int]
}

/// The label for the bit position `shift`: `1`, `16`, `256`, then a power
/// of two below 1024 with a binary prefix (`4K`, `16E`), and `2^shift`
/// past the last prefix.
pub open spec fn spec_power_label(shift: nat) -> Seq<char> {
    if shift == 0 {
        seq!['1']
    } else if shift == 4 {
        seq!['1', '6']
    } else if shift == 8 {
        seq!['2', '5', '6']
    } else if shift / 10 - 1 < 8 {
        digits_in_base(power(2, shift % 10), 10).push(power_suffix((shift / 10 - 1) as nat))
    } else {
        seq!['2', '^'] + digits_in_base(shift, 10)
    }
}

/// Shifts that `format_power_of_two` labels.
pub open spec fn is_labelable_shift(shift: nat) -> bool {
    shift == 0 || shift == 4 || shift == 8 || shift >= 10
}

fn power_label_chars(shift: usize) -> (v: Vec<char>)
    requires
        is_labelable_shift(shift as nat),
    ensures
        v@ == spec_power_label(shift as nat),
{
    let mut v: Vec<char> = Vec::new();
    if shift == 0 {
        v.push('1');
    } else if shift == 4 {
        v.push('1');
        v.push('6');
    } else if shift == 8 {
        v.push('2');
        v.push('5');
        v.push('6');
    } else if shift / 10 - 1 < 8 {
        let exponent = shift % 10;
        let value: u128 = 1u128 << (exponent as u32);
        assert(value as nat == power(2, exponent as nat)) by {
            assert(exponent < 10);
            reveal_with_fuel(power, 11);
            assert(1u128 << 0u32 == 1u128 && 1u128 << 1u32 == 2u128 && 1u128 << 2u32 == 4u128 && 1u128
                << 3u32 == 8u128 && 1u128 << 4u32 == 16u128 && 1u128 << 5u32 == 32u128 && 1u128 << 6u32
                == 64u128 && 1u128 << 7u32 == 128u128 && 1u128 << 8u32 == 256u128 && 1u128 << 9u32
                == 512u128) by (bit_vector);
        }
        extend_chars(&mut v, format_radix(value, 10).as_slice());
        let suffixes: [char; 8] = ['K', 'M', 'G', 'T', 'P', 'E', 'Z', 'Y'];
        let suffix = suffixes[shift / 10 - 1];
        assert(suffix == power_suffix((shift / 10 - 1) as nat));
        v.push(suffix);
    } else {
        v.push('2');
        v.push('^');
        extend_chars(&mut v, format_radix(shift as u128, 10).as_slice());
    }
    assert(v@ =~= spec_power_label(shift as nat));
    v
}

/// The Unit label for bit position `shift`, e.g. `256`, `4K`, `16E`, or
/// `2^124`.
pub fn format_power_of_two(shift: usize) -> (s: String)
    requires
        is_labelable_shift(shift as nat),
    ensures
        s@ == spec_power_label(shift as nat),
{
    string_of(power_label_chars(shift).as_slice())
}

/// The label of hex digit `index` of `n`: the bit position of its lowest
/// bit.
pub open spec fn ruler_label(n: nat, index: nat) -> Seq<char> {
    spec_power_label(((n - index - 1) * 4) as nat)
}

/// Where the ruler turns from the left half (labels drawn leftwards) to
/// the right half (labels drawn rightwards).
pub open spec fn ruler_split(n: nat) -> nat {
    (n + 1) / 2
}

/// The column of digit `index`'s connector before the left overhang: the
/// glyph's right edge on the left half, its left edge on the right half.
pub open spec fn base_hinge(digits: Seq<char>, index: nat) -> nat {
    if index >= ruler_split(digits.len()) {
        spec_token_start_column(index, digits.len())
    } else {
        spec_token_start_column(index, digits.len()) + spec_hex_right_edge(digits[index as int])
    }
}

/// How far the short connector `label ┐` of a left-half digit reaches past
/// the left edge of the data area.
pub open spec fn overhang_of(digits: Seq<char>, index: nat) -> nat {
    let width = ruler_label(digits.len(), index).len() + 2;
    if width > base_hinge(digits, index) + 1 {
        (width - (base_hinge(digits, index) + 1)) as nat
    } else {
        0
    }
}

/// The largest overhang among the first `k` digits.
pub open spec fn max_overhang(digits: Seq<char>, k: nat) -> nat
    decreases k,
{
    if k == 0 {
        0
    } else {
        let before = max_overhang(digits, (k - 1) as nat);
        let here = overhang_of(digits, (k - 1) as nat);
        if here > before {
            here
        } else {
            before
        }
    }
}

/// How many columns the ruler extends left of the data area.
pub open spec fn spec_left_overhang(digits: Seq<char>) -> nat {
    max_overhang(digits, ruler_split(digits.len()))
}

/// The ruler column of digit `index`'s connector.
pub open spec fn hinge(digits: Seq<char>, index: nat) -> nat {
    base_hinge(digits, index) + spec_left_overhang(digits)
}

/// The connector of digit `index`: `┌─ label` on the right half; on the
/// left half `label ─┐`, or `label ┐` when that would not fit.
pub open spec fn connector(digits: Seq<char>, index: nat) -> Seq<char> {
    let label = ruler_label(digits.len(), index);
    if index >= ruler_split(digits.len()) {
        seq!['┌', '─', ' '] + label
    } else if hinge(digits, index) + 1 < label.len() + 3 {
        label + seq![' ', '┐']
    } else {
        label + seq![' ', '─', '┐']
    }
}

/// Where the connector of digit `index` starts: at the hinge on the right
/// half, ending at the hinge on the left half.
pub open spec fn connector_column(digits: Seq<char>, index: nat) -> int {
    if index >= ruler_split(digits.len()) {
        hinge(digits, index) as int
    } else {
        hinge(digits, index) - (connector(digits, index).len() - 1)
    }
}

/// The ruler row of digit `index`: the outermost digits on the lowest
/// row, the middle ones on the top row.
pub open spec fn spec_ruler_row(index: nat, split: nat) -> nat {
    if index < split {
        (split - index - 1) as nat
    } else {
        (index - split) as nat
    }
}

/// The grid with digit `index`'s connector drawn on its row and a vertical
/// line under its hinge on every lower row.
pub open spec fn paint_label(grid: Seq<Seq<char>>, digits: Seq<char>, index: nat) -> Seq<Seq<char>> {
    let row = spec_ruler_row(index, ruler_split(digits.len()));
    Seq::new(
        grid.len(),
        |r: int|
            if r == row {
                painted(grid[r], connector_column(digits, index), connector(digits, index))
            } else if r > row {
                painted(grid[r], hinge(digits, index) as int, seq!['│'])
            } else {
                grid[r]
            },
    )
}

/// The width of the ruler grid.
pub open spec fn ruler_width(digits: Seq<char>) -> nat {
    spec_visual_width(digits.len()) + spec_left_overhang(digits)
}

/// The ruler grid after the first `k` digits are drawn, in order, onto
/// blank rows.
pub open spec fn ruler_grid(digits: Seq<char>, k: nat) -> Seq<Seq<char>>
    decreases k,
{
    if k == 0 {
        Seq::new(ruler_split(digits.len()), |_r: int| repeat_char(' ', ruler_width(digits)))
    } else {
        paint_label(ruler_grid(digits, (k - 1) as nat), digits, (k - 1) as nat)
    }
}

/// The power-of-two labels of `n` hex digits, most significant first.
pub open spec fn ruler_labels(n: nat) -> Seq<Seq<char>> {
    Seq::new(n, |k: int| ruler_label(n, k as nat))
}

/// The column of connector `index` before any overhang: the left edge of
/// its glyph on the right half, the glyph's right edge on the left half.
pub open spec fn hinge_base_from(digits: Seq<char>, index: nat, is_right_half: bool) -> nat {
    if is_right_half {
        spec_token_start_column(index, digits.len())
    } else {
        spec_token_start_column(index, digits.len()) + spec_hex_right_edge(digits[index as int])
    }
}

/// How far the short connector `label ┐` of label `index`, drawn on the
/// left half, reaches past the left edge of the data area.
pub open spec fn overhang_from(digits: Seq<char>, labels: Seq<Seq<char>>, index: nat) -> nat {
    let width = labels[index as int].len() + 2;
    let h = hinge_base_from(digits, index, false);
    if width > h + 1 {
        (width - (h + 1)) as nat
    } else {
        0
    }
}

/// The largest overhang among the first `k` labels.
pub open spec fn max_overhang_from(digits: Seq<char>, labels: Seq<Seq<char>>, k: nat) -> nat
    decreases k,
{
    if k == 0 {
        0
    } else {
        let before = max_overhang_from(digits, labels, (k - 1) as nat);
        let here = overhang_from(digits, labels, (k - 1) as nat);
        if here > before {
            here
        } else {
            before
        }
    }
}

/// The ruler column of label `index`'s connector, with the overhang.
pub open spec fn hinge_from(digits: Seq<char>, labels: Seq<Seq<char>>, overhang: nat, index: nat) -> nat {
    hinge_base_from(digits, index, index >= ruler_split(labels.len())) + overhang
}

/// The connector of label `index`: `┌─ label` on the right half; on the
/// left half `label ─┐`, or `label ┐` when that would not fit.
pub open spec fn connector_from(digits: Seq<char>, labels: Seq<Seq<char>>, overhang: nat, index: nat) -> Seq<char> {
    let label = labels[index as int];
    if index >= ruler_split(labels.len()) {
        seq!['┌', '─', ' '] + label
    } else if hinge_from(digits, labels, overhang, index) + 1 < label.len() + 3 {
        label + seq![' ', '┐']
    } else {
        label + seq![' ', '─', '┐']
    }
}

/// Where the connector of label `index` starts: at the hinge on the right
/// half, ending at the hinge on the left half (possibly left of the
/// grid, where it is cut off).
pub open spec fn connector_column_from(digits: Seq<char>, labels: Seq<Seq<char>>, overhang: nat, index: nat) -> int {
    if index >= ruler_split(labels.len()) {
        hinge_from(digits, labels, overhang, index) as int
    } else {
        hinge_from(digits, labels, overhang, index) - (connector_from(digits, labels, overhang, index).len() - 1)
    }
}

/// The grid with label `index`'s connector drawn on its row and a vertical
/// line under its hinge on every lower row.
pub open spec fn paint_label_from(
    grid: Seq<Seq<char>>,
    digits: Seq<char>,
    labels: Seq<Seq<char>>,
    overhang: nat,
    index: nat,
) -> Seq<Seq<char>> {
    let row = spec_ruler_row(index, ruler_split(labels.len()));
    Seq::new(
        grid.len(),
        |r: int|
            if r == row {
                painted(
                    grid[r],
                    connector_column_from(digits, labels, overhang, index),
                    connector_from(digits, labels, overhang, index),
                )
            } else if r > row {
                painted(grid[r], hinge_from(digits, labels, overhang, index) as int, seq!['│'])
            } else {
                grid[r]
            },
    )
}

/// The ruler grid for `labels` over the hex digits, shifted right by
/// `overhang`, after the first `k` labels are drawn, in order, onto blank
/// rows: one row per label of the left half, as wide as the data area
/// plus the overhang.
pub open spec fn ruler_grid_from(digits: Seq<char>, labels: Seq<Seq<char>>, overhang: nat, k: nat) -> Seq<Seq<char>>
    decreases k,
{
    if k == 0 {
        Seq::new(
            ruler_split(labels.len()),
            |_r: int| repeat_char(' ', spec_visual_width(labels.len()) + overhang),
        )
    } else {
        paint_label_from(ruler_grid_from(digits, labels, overhang, (k - 1) as nat), digits, labels, overhang, (k - 1) as nat)
    }
}

/// The Unit area lines: the ruler of the digits' power-of-two labels with
/// its left labels; the gap after a label shrinks by the left overhang.
pub open spec fn spec_render_ruler(digits: Seq<char>, left_labels: Seq<char>) -> Seq<Seq<char>> {
    let overhang = spec_left_overhang(digits);
    let grid = ruler_grid_from(digits, ruler_labels(digits.len()), overhang, digits.len());
    let padding: nat = if overhang < LEFT_LABEL_WIDTH - 1 {
        (LEFT_LABEL_WIDTH - 1 - overhang) as nat
    } else {
        0
    };
    Seq::new(
        grid.len(),
        |r: int| seq![label_at(left_labels, r)] + repeat_char(' ', padding) + grid[r],
    )
}

/// The overhang of the digits' own labels is the general one.
proof fn lemma_max_overhang_from_digits(digits: Seq<char>, k: nat)
    requires
        k <= ruler_split(digits.len()),
    ensures
        max_overhang(digits, k) == max_overhang_from(digits, ruler_labels(digits.len()), k),
    decreases k,
{
    if k > 0 {
        lemma_max_overhang_from_digits(digits, (k - 1) as nat);
        assert(ruler_labels(digits.len())[k - 1] == ruler_label(digits.len(), (k - 1) as nat));
    }
}

/// The ruler grid of the digits' own labels is the general one.
proof fn lemma_ruler_grid_from_digits(digits: Seq<char>, k: nat)
    requires
        k <= digits.len(),
    ensures
        ruler_grid(digits, k) == ruler_grid_from(
            digits,
            ruler_labels(digits.len()),
            spec_left_overhang(digits),
            k,
        ),
    decreases k,
{
    let labels = ruler_labels(digits.len());
    let o = spec_left_overhang(digits);
    if k == 0 {
        assert(ruler_grid(digits, 0) =~= ruler_grid_from(digits, labels, o, 0));
    } else {
        let i = (k - 1) as nat;
        lemma_ruler_grid_from_digits(digits, i);
        assert(labels[i as int] == ruler_label(digits.len(), i));
        assert(hinge(digits, i) == hinge_from(digits, labels, o, i));
        assert(connector(digits, i) == connector_from(digits, labels, o, i));
        assert(connector_column(digits, i) == connector_column_from(digits, labels, o, i));
        let g = ruler_grid(digits, i);
        assert(paint_label(g, digits, i) =~= paint_label_from(g, digits, labels, o, i));
    }
}

/// Bounds that keep the ruler's column arithmetic in range.
proof fn lemma_label_len(n: nat, index: nat)
    requires
        index < n,
        n <= usize::MAX / 8,
    ensures
        ruler_label(n, index).len() <= 22,
{
    let shift = ((n - index - 1) * 4) as nat;
    assert(power(10, 20) == 100_000_000_000_000_000_000nat) by {
        reveal_with_fuel(power, 21);
    }
    lemma_digits_len(shift, 10, 20);
    if shift != 0 && shift != 4 && shift != 8 && shift / 10 - 1 < 8 {
        assert(shift % 10 < 10);
        assert(power(2, shift % 10) <= 512) by {
            reveal_with_fuel(power, 11);
        }
        lemma_digits_len(power(2, shift % 10), 10, 3);
        assert(power(10, 3) == 1000) by {
            reveal_with_fuel(power, 4);
        }
    }
}

proof fn lemma_max_overhang_bound(digits: Seq<char>, k: nat)
    requires
        k <= ruler_split(digits.len()),
        digits.len() <= usize::MAX / 8,
    ensures
        max_overhang(digits, k) <= 24,
        forall|i: nat| i < k ==> #[trigger] overhang_of(digits, i) <= max_overhang(digits, k),
    decreases k,
{
    if k > 0 {
        lemma_max_overhang_bound(digits, (k - 1) as nat);
        lemma_label_len(digits.len(), (k - 1) as nat);
    }
}

/// Writes `text` over row `row` of a grid.
fn write_row(grid: &mut Vec<Vec<char>>, row: usize, column: isize, text: &Vec<char>)
    requires
        row < old(grid)@.len(),
    ensures
        final(grid).deep_view() == old(grid).deep_view().update(
            row as int,
            painted(old(grid).deep_view()[row as int], column as int, text@),
        ),
{
    let ghost before = grid.deep_view();
    let ghost old_v = grid@;
    write_at(&mut grid[row], column, text);
    assert(grid.deep_view() =~= before.update(
        row as int,
        painted(before[row as int], column as int, text@),
    )) by {
        assert forall|k: int| 0 <= k < grid.deep_view().len() implies grid.deep_view()[k]
            == before.update(row as int, painted(before[row as int], column as int, text@))[k] by {
            if k != row {
                assert(grid@[k] == old_v[k]);
            }
        }
    }
}

/// The connector for a label.
fn connector_chars(label: &Vec<char>, right: bool, hinge_col: usize) -> (conn: Vec<char>)
    requires
        label@.len() + 3 <= usize::MAX,
    ensures
        conn@ == (if right {
            seq!['┌', '─', ' '] + label@
        } else if hinge_col + 1 < label@.len() + 3 {
            label@ + seq![' ', '┐']
        } else {
            label@ + seq![' ', '─', '┐']
        }),
{
    let mut conn: Vec<char> = Vec::new();
    if right {
        conn.push('┌');
        conn.push('─');
        conn.push(' ');
        extend_chars(&mut conn, label.as_slice());
    } else if hinge_col < label.len() + 2 {
        extend_chars(&mut conn, label.as_slice());
        conn.push(' ');
        conn.push('┐');
    } else {
        extend_chars(&mut conn, label.as_slice());
        conn.push(' ');
        conn.push('─');
        conn.push('┐');
    }
    assert(conn@ =~= (if right {
        seq!['┌', '─', ' '] + label@
    } else if hinge_col + 1 < label@.len() + 3 {
        label@ + seq![' ', '┐']
    } else {
        label@ + seq![' ', '─', '┐']
    }));
    conn
}

/// Draws a connector on its row and a vertical bar under its hinge on
/// every lower row.
fn draw_connector(grid: &mut Vec<Vec<char>>, row: usize, column: isize, hinge_col: isize, conn: &Vec<char>)
    requires
        row < old(grid)@.len(),
    ensures
        final(grid).deep_view() == Seq::new(
            old(grid).deep_view().len(),
            |r: int|
                if r == row {
                    painted(old(grid).deep_view()[r], column as int, conn@)
                } else if r > row {
                    painted(old(grid).deep_view()[r], hinge_col as int, seq!['│'])
                } else {
                    old(grid).deep_view()[r]
                },
        ),
{
    let ghost g = grid.deep_view();
    let split = grid.len();
    write_row(grid, row, column, conn);
    let mut bar: Vec<char> = Vec::new();
    bar.push('│');
    assert(bar@ =~= seq!['│']);
    let mut vr = row + 1;
    assert(grid.deep_view() =~= Seq::new(
        g.len(),
        |r: int|
            if r == row {
                painted(g[r], column as int, conn@)
            } else if row < r < vr {
                painted(g[r], hinge_col as int, seq!['│'])
            } else {
                g[r]
            },
    ));
    while vr < split
        invariant
            row < vr <= split,
            split == g.len(),
            bar@ == seq!['│'],
            grid@.len() == split,
            grid.deep_view() == Seq::new(
                g.len(),
                |r: int|
                    if r == row {
                        painted(g[r], column as int, conn@)
                    } else if row < r < vr {
                        painted(g[r], hinge_col as int, seq!['│'])
                    } else {
                        g[r]
                    },
            ),
        decreases split - vr,
    {
        write_row(grid, vr, hinge_col, &bar);
        assert(grid.deep_view() =~= Seq::new(
            g.len(),
            |r: int|
                if r == row {
                    painted(g[r], column as int, conn@)
                } else if row < r < vr + 1 {
                    painted(g[r], hinge_col as int, seq!['│'])
                } else {
                    g[r]
                },
        ));
        vr = vr + 1;
    }
    assert(grid.deep_view() =~= Seq::new(
        g.len(),
        |r: int|
            if r == row {
                painted(g[r], column as int, conn@)
            } else if r > row {
                painted(g[r], hinge_col as int, seq!['│'])
            } else {
                g[r]
            },
    ));
}

/// The Unit label of every hex digit, most significant first.
fn power_labels(n: usize) -> (labels: Vec<Vec<char>>)
    requires
        n <= usize::MAX / 8,
    ensures
        labels.deep_view() == Seq::new(n as nat, |k: int| ruler_label(n as nat, k as nat)),
        labels@.len() == n,
{
    let mut labels: Vec<Vec<char>> = Vec::new();
    let mut i: usize = 0;
    while i < n
        invariant
            n <= usize::MAX / 8,
            i <= n,
            labels.deep_view() == Seq::new(i as nat, |k: int| ruler_label(n as nat, k as nat)),
        decreases n - i,
    {
        let shift = (n - i - 1) * 4;
        push_line(&mut labels, power_label_chars(shift));
        assert(labels.deep_view() =~= Seq::new((i + 1) as nat, |k: int| ruler_label(n as nat, k as nat)));
        i = i + 1;
    }
    labels
}

/// The ruler row of label `index`: the outermost labels on the lowest
/// row, the middle ones on the top row.
pub fn ruler_row(index: usize, split_index: usize) -> (row: usize)
    ensures
        row == spec_ruler_row(index as nat, split_index as nat),
{
    if index < split_index {
        split_index - index - 1
    } else {
        index - split_index
    }
}

/// The column of connector `index` before the left overhang: the left
/// edge of its glyph on the right half, its right edge on the left half
/// (only the left half reads the digit).
pub fn ruler_hinge_column(index: usize, is_right_half: bool, hex_digits: &[char]) -> (column: usize)
    requires
        index <= usize::MAX / 8,
        !is_right_half ==> index < hex_digits@.len() && is_hex_digit(hex_digits@[index as int]),
    ensures
        column == hinge_base_from(hex_digits@, index as nat, is_right_half),
        column <= 7 * index + 3,
{
    let token_count = hex_digits.len();
    if is_right_half {
        token_start_column(index, token_count)
    } else {
        token_start_column(index, token_count) + hex_right_edge(hex_digits[index])
    }
}

/// How many columns the short connectors of the first `split_index`
/// labels reach past the left edge of the data area: the largest overhang
/// among them, zero for none.
pub fn ruler_left_overhang(hex_digits: &[char], labels: &Vec<Vec<char>>, split_index: usize) -> (overhang: usize)
    requires
        (if split_index < labels@.len() {
            split_index as int
        } else {
            labels@.len() as int
        }) <= hex_digits@.len(),
        forall|i: int|
            0 <= i < (if split_index < labels@.len() {
                split_index as int
            } else {
                labels@.len() as int
            }) ==> is_hex_digit(#[trigger] hex_digits@[i]),
        hex_digits@.len() <= usize::MAX / 8,
        forall|k: int| 0 <= k < labels@.len() ==> (#[trigger] labels@[k])@.len() + 3 <= usize::MAX,
    ensures
        overhang == max_overhang_from(
            hex_digits@,
            labels.deep_view(),
            if split_index < labels@.len() {
                split_index as nat
            } else {
                labels@.len() as nat
            },
        ),
{
    let ghost digits = hex_digits@;
    let ghost ls = labels.deep_view();
    let count = if split_index < labels.len() {
        split_index
    } else {
        labels.len()
    };
    let mut overhang: usize = 0;
    let mut k: usize = 0;
    while k < count
        invariant
            count <= labels@.len(),
            count <= digits.len(),
            digits.len() <= usize::MAX / 8,
            forall|j: int| 0 <= j < count ==> is_hex_digit(#[trigger] digits[j]),
            forall|j: int| 0 <= j < labels@.len() ==> (#[trigger] labels@[j])@.len() + 3 <= usize::MAX,
            digits == hex_digits@,
            ls == labels.deep_view(),
            k <= count,
            overhang == max_overhang_from(digits, ls, k as nat),
        decreases count - k,
    {
        assert(ls[k as int] == labels@[k as int]@);
        let hinge_column = ruler_hinge_column(k, false, hex_digits);
        let connector_width = labels[k].len() + 2;
        let here = if connector_width > hinge_column + 1 {
            connector_width - (hinge_column + 1)
        } else {
            0
        };
        if here > overhang {
            overhang = here;
        }
        k = k + 1;
    }
    overhang
}

/// Blank ruler rows, one per digit of the left half.
fn blank_ruler_grid(rows: usize, width: usize) -> (grid: Vec<Vec<char>>)
    ensures
        grid.deep_view() == Seq::new(rows as nat, |_r: int| repeat_char(' ', width as nat)),
{
    let mut grid: Vec<Vec<char>> = Vec::new();
    let mut r: usize = 0;
    while r < rows
        invariant
            r <= rows,
            grid.deep_view() == Seq::new(r as nat, |_r: int| repeat_char(' ', width as nat)),
        decreases rows - r,
    {
        push_line(&mut grid, repeat(' ', width));
        assert(grid.deep_view() =~= Seq::new((r + 1) as nat, |_r: int| repeat_char(' ', width as nat)));
        r = r + 1;
    }
    grid
}

/// The ruler rows for `labels` over the hex digits, shifted right by
/// `left_overhang`: each label's connector on its row, and a vertical line
/// under its hinge on every lower row.
pub fn render_ruler_from_labels(hex_digits: &[char], labels: &Vec<Vec<char>>, left_overhang: usize) -> (grid: Vec<Vec<char>>)
    requires
        ruler_split(labels@.len() as nat) <= hex_digits@.len(),
        forall|i: int| 0 <= i < ruler_split(labels@.len() as nat) ==> is_hex_digit(#[trigger] hex_digits@[i]),
        8 * labels@.len() + left_overhang + 16 <= isize::MAX,
        forall|k: int| 0 <= k < labels@.len() ==> (#[trigger] labels@[k])@.len() + 3 <= isize::MAX,
    ensures
        grid.deep_view() == ruler_grid_from(hex_digits@, labels.deep_view(), left_overhang as nat, labels@.len() as nat),
        grid.deep_view().len() == ruler_split(labels@.len() as nat),
{
    let ghost digits = hex_digits@;
    let ghost ls = labels.deep_view();
    let ghost o = left_overhang as nat;
    let m = labels.len();
    let split = (m + 1) / 2;
    let width = visual_width(m) + left_overhang;
    let mut grid = blank_ruler_grid(split, width);
    assert(grid.deep_view() =~= ruler_grid_from(digits, ls, o, 0));
    let mut index: usize = 0;
    while index < m
        invariant
            m == labels@.len(),
            split <= digits.len(),
            8 * m + left_overhang + 16 <= isize::MAX,
            split == ruler_split(m as nat),
            forall|j: int| 0 <= j < split ==> is_hex_digit(#[trigger] digits[j]),
            forall|j: int| 0 <= j < labels@.len() ==> (#[trigger] labels@[j])@.len() + 3 <= isize::MAX,
            digits == hex_digits@,
            ls == labels.deep_view(),
            o == left_overhang as nat,
            index <= m,
            grid.deep_view() == ruler_grid_from(digits, ls, o, index as nat),
            grid.deep_view().len() == split,
        decreases m - index,
    {
        let ghost g = grid.deep_view();
        let row = ruler_row(index, split);
        let is_right_half = index >= split;
        let hinge_column = ruler_hinge_column(index, is_right_half, hex_digits) + left_overhang;
        assert(hinge_column == hinge_from(digits, ls, o, index as nat));
        assert(ls[index as int] == labels@[index as int]@);
        let conn = connector_chars(&labels[index], is_right_half, hinge_column);
        assert(conn@ == connector_from(digits, ls, o, index as nat));
        let column: isize = if is_right_half {
            hinge_column as isize
        } else {
            hinge_column as isize - (conn.len() as isize - 1)
        };
        assert(column as int == connector_column_from(digits, ls, o, index as nat));
        draw_connector(&mut grid, row, column, hinge_column as isize, &conn);
        assert(grid.deep_view() =~= paint_label_from(g, digits, ls, o, index as nat));
        index = index + 1;
    }
    grid
}

/// The Unit area lines for the hex digits with their left labels.
pub fn render_ruler_lines(hex_digits: &[char], left_labels: &str) -> (lines: Vec<Vec<char>>)
    requires
        forall|i: int| 0 <= i < hex_digits@.len() ==> is_hex_digit(#[trigger] hex_digits@[i]),
        hex_digits@.len() <= isize::MAX / 16,
    ensures
        lines.deep_view() == spec_render_ruler(hex_digits@, left_labels@),
        lines@.len() == (hex_digits@.len() + 1) / 2,
{
    let ghost digits = hex_digits@;
    let n = hex_digits.len();
    let labels = power_labels(n);
    assert(labels.deep_view() =~= ruler_labels(n as nat));
    assert forall|k: int| 0 <= k < labels@.len() implies (#[trigger] labels@[k])@.len() + 3
        <= isize::MAX by {
        assert(labels.deep_view()[k] == labels@[k]@);
        lemma_label_len(n as nat, k as nat);
    }
    let split = (n + 1) / 2;
    let overhang = ruler_left_overhang(hex_digits, &labels, split);
    proof {
        lemma_max_overhang_from_digits(digits, split as nat);
        lemma_max_overhang_bound(digits, split as nat);
        lemma_ruler_grid_from_digits(digits, n as nat);
    }
    assert(overhang == spec_left_overhang(digits));
    let grid = render_ruler_from_labels(hex_digits, &labels, overhang);
    let label_chars = chars_of(left_labels);
    let padding = if overhang < LEFT_LABEL_WIDTH - 1 {
        LEFT_LABEL_WIDTH - 1 - overhang
    } else {
        0
    };
    let ghost g = grid.deep_view();
    let ghost want = spec_render_ruler(digits, left_labels@);
    let mut lines: Vec<Vec<char>> = Vec::new();
    let mut r: usize = 0;
    while r < split
        invariant
            g == grid.deep_view(),
            g.len() == split,
            g == ruler_grid_from(digits, ruler_labels(n as nat), spec_left_overhang(digits), n as nat),
            n == digits.len(),
            overhang == spec_left_overhang(digits),
            label_chars@ == left_labels@,
            want == spec_render_ruler(digits, left_labels@),
            padding == (if overhang < LEFT_LABEL_WIDTH - 1 {
                (LEFT_LABEL_WIDTH - 1 - overhang) as nat
            } else {
                0nat
            }),
            r <= split,
            lines.deep_view() == want.take(r as int),
        decreases split - r,
    {
        let mut line: Vec<char> = Vec::new();
        line.push(if r < label_chars.len() {
            label_chars[r]
        } else {
            ' '
        });
        extend_chars(&mut line, repeat(' ', padding).as_slice());
        assert(g[r as int] == grid@[r as int]@);
        extend_chars(&mut line, grid[r].as_slice());
        push_line(&mut lines, line);
        assert(lines.deep_view() =~= want.take(r + 1));
        r = r + 1;
    }
    assert(want.take(r as int) =~= want);
    lines
}

/// The Unit area: a ruler of power-of-two labels whose connectors end
/// above the hex glyphs, labelled on the left with `left_labels`.
pub fn render_ruler_with_left_labels(hex_digits: &[char], left_labels: &str) -> (lines: Vec<String>)
    requires
        forall|i: int| 0 <= i < hex_digits@.len() ==> is_hex_digit(#[trigger] hex_digits@[i]),
        hex_digits@.len() <= isize::MAX / 16,
    ensures
        lines.deep_view() == spec_render_ruler(hex_digits@, left_labels@),
        lines@.len() == (hex_digits@.len() + 1) / 2,
{
    strings_of(&render_ruler_lines(hex_digits, left_labels))
}

} // verus!

verus! {

/// Start columns grow by at least five per token.
proof fn lemma_start_increases(j: nat, k: nat, n: nat)
    requires
        j < k,
    ensures
        spec_token_start_column(j, n) + 5 <= spec_token_start_column(k, n),
    decreases k - j,
{
    crate::render::layout::lemma_gap_count_step(k, n);
    if j + 1 < k {
        lemma_start_increases(j, (k - 1) as nat, n);
    }
}

/// Hinges move right from one digit to the next and stay inside the grid.
proof fn lemma_hinge_order(digits: Seq<char>, j: nat, k: nat)
    requires
        j < k < digits.len(),
        forall|i: int| 0 <= i < digits.len() ==> is_hex_digit(#[trigger] digits[i]),
    ensures
        hinge(digits, j) < hinge(digits, k),
        hinge(digits, k) < ruler_width(digits),
{
    let n = digits.len();
    lemma_start_increases(j, k, n);
    crate::render::hex::lemma_right_edge_value(digits[j as int]);
    crate::render::hex::lemma_right_edge_value(digits[k as int]);
    if k < n - 1 {
        lemma_start_increases(k, (n - 1) as nat, n);
    }
}

proof fn lemma_hinge_in_grid(digits: Seq<char>, k: nat)
    requires
        k < digits.len(),
        forall|i: int| 0 <= i < digits.len() ==> is_hex_digit(#[trigger] digits[i]),
    ensures
        hinge(digits, k) < ruler_width(digits),
{
    let n = digits.len();
    crate::render::hex::lemma_right_edge_value(digits[k as int]);
    if k < n - 1 {
        lemma_start_increases(k, (n - 1) as nat, n);
    }
}

proof fn lemma_suffix_letter(i: nat)
    requires
        i < 8,
    ensures
        'A' <= power_suffix(i) <= 'Z',
{
    if i == 0 {
    } else if i == 1 {
    } else if i == 2 {
    } else if i == 3 {
    } else if i == 4 {
    } else if i == 5 {
    } else if i == 6 {
    } else {
    }
}

/// Labels are made of digits, prefix letters, and `^`.
pub(crate) proof fn lemma_label_chars(shift: nat)
    requires
        is_labelable_shift(shift),
    ensures
        forall|i: int|
            0 <= i < spec_power_label(shift).len() ==> (#[trigger] spec_power_label(shift)[i]) != '┐'
                && spec_power_label(shift)[i] != '┌' && spec_power_label(shift)[i] != '\x1b',
{
    let l = spec_power_label(shift);
    if shift != 0 && shift != 4 && shift != 8 {
        if shift / 10 - 1 < 8 {
            let d = digits_in_base(power(2, shift % 10), 10);
            crate::properties::lemma_numeral_round_trip(power(2, shift % 10), 10);
            lemma_suffix_letter((shift / 10 - 1) as nat);
            assert forall|i: int| 0 <= i < l.len() implies (#[trigger] l[i]) != '┐' && l[i] != '┌'
                && l[i] != '\x1b' by {
                if i < d.len() {
                    assert(l[i] == d[i]);
                }
            }
        } else {
            let d = digits_in_base(shift, 10);
            crate::properties::lemma_numeral_round_trip(shift, 10);
            assert forall|i: int| 0 <= i < l.len() implies (#[trigger] l[i]) != '┐' && l[i] != '┌'
                && l[i] != '\x1b' by {
                if i >= 2 {
                    assert(l[i] == d[i - 2]);
                }
            }
        }
    }
}

/// Cell `(r, c)` of a grid holds `ch`.
pub open spec fn cell_is(g: Seq<Seq<char>>, r: int, c: int, ch: char) -> bool {
    0 <= r < g.len() && 0 <= c < g[r].len() && g[r][c] == ch
}

/// The left-half digit `j` has its corner at `(r, c)`.
pub open spec fn left_corner_at(digits: Seq<char>, j: nat, r: int, c: int) -> bool {
    j < ruler_split(digits.len()) && r == spec_ruler_row(j, ruler_split(digits.len())) && c == hinge(
        digits,
        j,
    )
}

/// The right-half digit `j` has its corner at `(r, c)`.
pub open spec fn right_corner_at(digits: Seq<char>, j: nat, r: int, c: int) -> bool {
    ruler_split(digits.len()) <= j < digits.len() && r == spec_ruler_row(j, ruler_split(digits.len()))
        && c == hinge(digits, j)
}

/// What holds of the ruler grid after the first `k` digits are drawn.
pub open spec fn drawn_invariant(digits: Seq<char>, g: Seq<Seq<char>>, k: nat) -> bool {
    let split = ruler_split(digits.len());
    &&& g.len() == split
    &&& forall|r: int| 0 <= r < g.len() ==> (#[trigger] g[r]).len() == ruler_width(digits)
    &&& forall|r: int, c: int|
        #[trigger] cell_is(g, r, c, '┐') ==> exists|j: nat| j < k && #[trigger] left_corner_at(
            digits,
            j,
            r,
            c,
        )
    &&& forall|r: int, c: int|
        #[trigger] cell_is(g, r, c, '┌') ==> exists|j: nat| j < k && #[trigger] right_corner_at(
            digits,
            j,
            r,
            c,
        )
    &&& forall|j: nat, r: int|
        j < k && j < split && spec_ruler_row(j, split) < r < split ==> #[trigger] cell_is(
            g,
            r,
            hinge(digits, j) as int,
            '│',
        )
    &&& forall|j: nat|
        j < k && split <= j < digits.len() && spec_ruler_row(j, split) + 1 < split ==> #[trigger] cell_is(
            g,
            spec_ruler_row(j, split) + 1int,
            hinge(digits, j) as int,
            '│',
        )
}

} // verus!

verus! {

/// Where the connector's corner falls and what else it holds.
proof fn lemma_connector_shape(digits: Seq<char>, k: nat)
    requires
        k < digits.len(),
        digits.len() <= usize::MAX / 8,
        forall|i: int| 0 <= i < digits.len() ==> is_hex_digit(#[trigger] digits[i]),
    ensures
        ({
            let conn = connector(digits, k);
            let col = connector_column(digits, k);
            let h = hinge(digits, k) as int;
            if k < ruler_split(digits.len()) {
                &&& col >= 0
                &&& col + conn.len() - 1 == h
                &&& conn[conn.len() - 1] == '┐'
                &&& forall|i: int| 0 <= i < conn.len() - 1 ==> #[trigger] conn[i] != '┐'
                &&& forall|i: int| 0 <= i < conn.len() ==> #[trigger] conn[i] != '┌'
            } else {
                &&& col == h
                &&& conn[0] == '┌'
                &&& forall|i: int| 0 < i < conn.len() ==> #[trigger] conn[i] != '┌'
                &&& forall|i: int| 0 <= i < conn.len() ==> #[trigger] conn[i] != '┐'
            }
        }),
{
    let n = digits.len();
    let split = ruler_split(n);
    let shift = ((n - k - 1) * 4) as nat;
    assert(is_labelable_shift(shift)) by {
        let m = (n - k - 1) as nat;
        if m >= 3 {
            assert(shift >= 12);
        }
    }
    lemma_label_chars(shift);
    let label = ruler_label(n, k);
    let conn = connector(digits, k);
    if k < split {
        lemma_max_overhang_bound(digits, split);
        assert(overhang_of(digits, k) <= spec_left_overhang(digits));
        assert forall|i: int| 0 <= i < conn.len() - 1 implies #[trigger] conn[i] != '┐' by {
            if i < label.len() {
                assert(conn[i] == label[i]);
            }
        }
        assert forall|i: int| 0 <= i < conn.len() implies #[trigger] conn[i] != '┌' by {
            if i < label.len() {
                assert(conn[i] == label[i]);
            }
        }
    } else {
        assert forall|i: int| 0 < i < conn.len() implies #[trigger] conn[i] != '┌' by {
            if i >= 3 {
                assert(conn[i] == label[i - 3]);
            }
        }
        assert forall|i: int| 0 <= i < conn.len() implies #[trigger] conn[i] != '┐' by {
            if i >= 3 {
                assert(conn[i] == label[i - 3]);
            }
        }
    }
}

/// The blank grid holds no corners.
proof fn lemma_blank_grid_invariant(digits: Seq<char>)
    ensures
        drawn_invariant(digits, ruler_grid(digits, 0), 0),
{
    let g = ruler_grid(digits, 0);
    assert forall|r: int, c: int| #[trigger] cell_is(g, r, c, '┐') implies exists|j: nat|
        j < 0 && #[trigger] left_corner_at(digits, j, r, c) by {
        assert(g[r][c] == ' ');
    }
    assert forall|r: int, c: int| #[trigger] cell_is(g, r, c, '┌') implies exists|j: nat|
        j < 0 && #[trigger] right_corner_at(digits, j, r, c) by {
        assert(g[r][c] == ' ');
    }
}

/// Drawing the next digit keeps every corner above its vertical line.
proof fn lemma_draw_keeps_alignment(digits: Seq<char>, g: Seq<Seq<char>>, k: nat)
    requires
        k < digits.len(),
        digits.len() <= usize::MAX / 8,
        forall|i: int| 0 <= i < digits.len() ==> is_hex_digit(#[trigger] digits[i]),
        drawn_invariant(digits, g, k),
    ensures
        drawn_invariant(digits, paint_label(g, digits, k), k + 1),
{
    let n = digits.len();
    let split = ruler_split(n);
    let g2 = paint_label(g, digits, k);
    let row = spec_ruler_row(k, split) as int;
    let h = hinge(digits, k) as int;
    let conn = connector(digits, k);
    let col = connector_column(digits, k);
    let w = ruler_width(digits);
    lemma_connector_shape(digits, k);
    lemma_hinge_in_grid(digits, k);
    assert forall|j: nat| j < k implies hinge(digits, j) < hinge(digits, k) by {
        lemma_hinge_order(digits, j, k);
    }
    assert forall|r: int| 0 <= r < g2.len() implies (#[trigger] g2[r]).len() == w by {
        assert(g[r].len() == w);
    }
    // Corners of the new grid come from a digit drawn so far.
    assert forall|r: int, c: int| #[trigger] cell_is(g2, r, c, '┐') implies exists|j: nat|
        j < k + 1 && #[trigger] left_corner_at(digits, j, r, c) by {
        if r == row && col <= c < col + conn.len() {
            assert(g2[r][c] == conn[c - col]);
            assert(k < split && c == h);
            assert(left_corner_at(digits, k, r, c));
        } else if r > row && c == h {
            assert(g2[r][c] == '│');
        } else {
            assert(g2[r][c] == g[r][c]);
            assert(cell_is(g, r, c, '┐'));
            let j = choose|j: nat| j < k && #[trigger] left_corner_at(digits, j, r, c);
            assert(left_corner_at(digits, j, r, c));
        }
    }
    assert forall|r: int, c: int| #[trigger] cell_is(g2, r, c, '┌') implies exists|j: nat|
        j < k + 1 && #[trigger] right_corner_at(digits, j, r, c) by {
        if r == row && col <= c < col + conn.len() {
            assert(g2[r][c] == conn[c - col]);
            assert(k >= split && c == h);
            assert(right_corner_at(digits, k, r, c));
        } else if r > row && c == h {
            assert(g2[r][c] == '│');
        } else {
            assert(g2[r][c] == g[r][c]);
            assert(cell_is(g, r, c, '┌'));
            let j = choose|j: nat| j < k && #[trigger] right_corner_at(digits, j, r, c);
            assert(right_corner_at(digits, j, r, c));
        }
    }
    // Vertical lines under left corners.
    assert forall|j: nat, r: int|
        j < k + 1 && j < split && spec_ruler_row(j, split) < r < split implies #[trigger] cell_is(
        g2,
        r,
        hinge(digits, j) as int,
        '│',
    ) by {
        let hj = hinge(digits, j) as int;
        if j == k {
            assert(g2[r][hj] == '│');
        } else {
            assert(cell_is(g, r, hj, '│'));
            assert(hj < h);
            if r == row {
                assert(k >= split);
                assert(g2[r][hj] == g[r][hj]);
            } else if r > row {
                assert(g2[r][hj] == g[r][hj]);
            } else {
                assert(g2[r][hj] == g[r][hj]);
            }
        }
    }
    // Vertical lines under right corners.
    assert forall|j: nat|
        j < k + 1 && split <= j < n && spec_ruler_row(j, split) + 1 < split implies #[trigger] cell_is(
        g2,
        spec_ruler_row(j, split) + 1int,
        hinge(digits, j) as int,
        '│',
    ) by {
        let hj = hinge(digits, j) as int;
        let r = spec_ruler_row(j, split) + 1int;
        if j == k {
            assert(g2[r][hj] == '│');
        } else {
            assert(cell_is(g, r, hj, '│'));
            assert(hj < h);
            assert(g2[r][hj] == g[r][hj]);
        }
    }
}

proof fn lemma_ruler_grid_invariant(digits: Seq<char>, k: nat)
    requires
        k <= digits.len(),
        digits.len() <= usize::MAX / 8,
        forall|i: int| 0 <= i < digits.len() ==> is_hex_digit(#[trigger] digits[i]),
    ensures
        drawn_invariant(digits, ruler_grid(digits, k), k),
    decreases k,
{
    if k == 0 {
        lemma_blank_grid_invariant(digits);
    } else {
        lemma_ruler_grid_invariant(digits, (k - 1) as nat);
        lemma_draw_keeps_alignment(digits, ruler_grid(digits, (k - 1) as nat), (k - 1) as nat);
    }
}

/// The ruler's connectors line up: below every `┐` corner each lower line
/// has a `│` in the same column, and below every `┌` corner the next line
/// has a `│` in the same column (for left labels without these box
/// characters).
pub proof fn law_ruler_connectors_align(digits: Seq<char>, left_labels: Seq<char>)
    requires
        digits.len() <= usize::MAX / 8,
        forall|i: int| 0 <= i < digits.len() ==> is_hex_digit(#[trigger] digits[i]),
        forall|i: int| 0 <= i < left_labels.len() ==> #[trigger] left_labels[i] != '┐' && left_labels[i] != '┌',
    ensures
        ({
            let lines = spec_render_ruler(digits, left_labels);
            &&& forall|r: int, c: int, r2: int|
                #![trigger lines[r][c], lines[r2][c]]
                0 <= r < r2 < lines.len() && 0 <= c < lines[r].len() && lines[r][c] == '┐' ==> c
                    < lines[r2].len() && lines[r2][c] == '│'
            &&& forall|r: int, c: int|
                0 <= r && r + 1 < lines.len() && 0 <= c < #[trigger] lines[r].len() && #[trigger] lines[r][c] == '┌' ==> c
                    < lines[r + 1].len() && lines[r + 1][c] == '│'
        }),
{
    let n = digits.len();
    let g = ruler_grid(digits, n);
    lemma_ruler_grid_invariant(digits, n);
    lemma_ruler_grid_from_digits(digits, n);
    let lines = spec_render_ruler(digits, left_labels);
    let padding: nat = if spec_left_overhang(digits) < LEFT_LABEL_WIDTH - 1 {
        (LEFT_LABEL_WIDTH - 1 - spec_left_overhang(digits)) as nat
    } else {
        0
    };
    let off: int = 1 + padding as int;
    assert forall|r: int, c: int, r2: int|
        #![trigger lines[r][c], lines[r2][c]]
        0 <= r < r2 < lines.len() && 0 <= c < lines[r].len() && lines[r][c] == '┐' implies c
        < lines[r2].len() && lines[r2][c] == '│' by {
        assert(lines[r] == seq![label_at(left_labels, r)] + repeat_char(' ', padding) + g[r]);
        assert(lines[r2] == seq![label_at(left_labels, r2)] + repeat_char(' ', padding) + g[r2]);
        if c == 0 {
            assert(lines[r][c] == label_at(left_labels, r));
        } else if c < off {
            assert(lines[r][c] == ' ');
        } else {
            assert(lines[r][c] == g[r][c - off]);
            assert(cell_is(g, r, c - off, '┐'));
            let j = choose|j: nat| j < n && #[trigger] left_corner_at(digits, j, r, c - off);
            assert(left_corner_at(digits, j, r, c - off));
            assert(cell_is(g, r2, hinge(digits, j) as int, '│'));
            assert(lines[r2][c] == g[r2][c - off]);
        }
    }
    assert forall|r: int, c: int|
        0 <= r && r + 1 < lines.len() && 0 <= c < #[trigger] lines[r].len() && #[trigger] lines[r][c] == '┌' implies c
        < lines[r + 1].len() && lines[r + 1][c] == '│' by {
        assert(lines[r] == seq![label_at(left_labels, r)] + repeat_char(' ', padding) + g[r]);
        assert(lines[r + 1] == seq![label_at(left_labels, r + 1)] + repeat_char(' ', padding) + g[r + 1]);
        if c == 0 {
            assert(lines[r][c] == label_at(left_labels, r));
        } else if c < off {
            assert(lines[r][c] == ' ');
        } else {
            assert(lines[r][c] == g[r][c - off]);
            assert(cell_is(g, r, c - off, '┌'));
            let j = choose|j: nat| j < n && #[trigger] right_corner_at(digits, j, r, c - off);
            assert(right_corner_at(digits, j, r, c - off));
            assert(cell_is(g, r + 1, hinge(digits, j) as int, '│'));
            assert(lines[r + 1][c] == g[r + 1][c - off]);
        }
    }
}

/// Below a `┐` corner of the Unit area every lower line has a `│` in the
/// same column (for left labels without these box characters).
pub proof fn law_ruler_left_corner_has_vertical_below(
    digits: Seq<char>,
    left_labels: Seq<char>,
    r: int,
    c: int,
    r2: int,
)
    requires
        digits.len() <= usize::MAX / 8,
        forall|i: int| 0 <= i < digits.len() ==> is_hex_digit(#[trigger] digits[i]),
        forall|i: int| 0 <= i < left_labels.len() ==> #[trigger] left_labels[i] != '┐' && left_labels[i] != '┌',
        0 <= r < r2 < spec_render_ruler(digits, left_labels).len(),
        0 <= c < spec_render_ruler(digits, left_labels)[r].len(),
        spec_render_ruler(digits, left_labels)[r][c] == '┐',
    ensures
        c < spec_render_ruler(digits, left_labels)[r2].len(),
        spec_render_ruler(digits, left_labels)[r2][c] == '│',
{
    law_ruler_connectors_align(digits, left_labels);
    let lines = spec_render_ruler(digits, left_labels);
    let below = lines[r2][c];
    assert(lines[r][c] == '┐');
    assert(c < lines[r2].len() && below == '│');
}

/// Below a `┌` corner of the Unit area the next line has a `│` in the
/// same column (for left labels without these box characters).
pub proof fn law_ruler_right_corner_has_vertical_below(
    digits: Seq<char>,
    left_labels: Seq<char>,
    r: int,
    c: int,
)
    requires
        digits.len() <= usize::MAX / 8,
        forall|i: int| 0 <= i < digits.len() ==> is_hex_digit(#[trigger] digits[i]),
        forall|i: int| 0 <= i < left_labels.len() ==> #[trigger] left_labels[i] != '┐' && left_labels[i] != '┌',
        0 <= r && r + 1 < spec_render_ruler(digits, left_labels).len(),
        0 <= c < spec_render_ruler(digits, left_labels)[r].len(),
        spec_render_ruler(digits, left_labels)[r][c] == '┌',
    ensures
        c < spec_render_ruler(digits, left_labels)[r + 1].len(),
        spec_render_ruler(digits, left_labels)[r + 1][c] == '│',
{
    law_ruler_connectors_align(digits, left_labels);
    let lines = spec_render_ruler(digits, left_labels);
    assert(lines[r][c] == '┌');
}

/// Drawing the later digits leaves the bottom row left of the first
/// digit's hinge as the first digit drew it.
proof fn lemma_first_label_kept(digits: Seq<char>, m: nat, c: int)
    requires
        1 <= m <= digits.len(),
        digits.len() <= usize::MAX / 8,
        forall|i: int| 0 <= i < digits.len() ==> is_hex_digit(#[trigger] digits[i]),
        0 <= c < hinge(digits, 0),
    ensures
        ruler_grid(digits, m)[ruler_split(digits.len()) - 1][c] == ruler_grid(digits, 1)[ruler_split(digits.len()) - 1][c],
    decreases m,
{
    let n = digits.len();
    let split = ruler_split(n);
    let bottom = split - 1;
    if m > 1 {
        let j = (m - 1) as nat;
        lemma_first_label_kept(digits, j, c);
        lemma_hinge_order(digits, 0, j);
        lemma_connector_shape(digits, j);
        lemma_ruler_grid_invariant(digits, j);
        let g = ruler_grid(digits, j);
        assert(g.len() == split);
        assert(g[bottom].len() == ruler_width(digits));
        let row = spec_ruler_row(j, split);
        assert(row <= bottom);
        if row == bottom {
            assert(j >= split);
            assert(connector_column(digits, j) == hinge(digits, j));
        }
        assert(paint_label(g, digits, j)[bottom][c] == g[bottom][c]);
    }
}

/// Where the first digit's label lies on the bottom row of the grid.
proof fn lemma_top_label_in_grid(digits: Seq<char>) -> (col: int)
    requires
        1 <= digits.len() <= usize::MAX / 8,
        forall|i: int| 0 <= i < digits.len() ==> is_hex_digit(#[trigger] digits[i]),
    ensures
        0 <= col,
        col + ruler_label(digits.len(), 0).len() <= ruler_width(digits),
        ruler_grid(digits, digits.len()).len() == ruler_split(digits.len()),
        ruler_grid(digits, digits.len())[ruler_split(digits.len()) - 1].len() == ruler_width(digits),
        forall|k: int|
            0 <= k < ruler_label(digits.len(), 0).len() ==> #[trigger] ruler_grid(digits, digits.len())[ruler_split(
                digits.len(),
            ) - 1][col + k] == ruler_label(digits.len(), 0)[k],
{
    let n = digits.len();
    let split = ruler_split(n);
    let bottom = split - 1;
    let top = ruler_label(n, 0);
    lemma_connector_shape(digits, 0);
    lemma_hinge_in_grid(digits, 0);
    lemma_ruler_grid_invariant(digits, 0);
    lemma_ruler_grid_invariant(digits, n);
    let conn = connector(digits, 0);
    let col = connector_column(digits, 0);
    assert(conn.take(top.len() as int) =~= top);
    let g1 = ruler_grid(digits, 1);
    assert(spec_ruler_row(0, split) == bottom);
    let g = ruler_grid(digits, n);
    assert forall|k: int| 0 <= k < top.len() implies #[trigger] g[bottom][col + k] == top[k] by {
        lemma_first_label_kept(digits, n, col + k);
        assert(g1[bottom][col + k] == conn[k]);
    }
    col
}

/// Where the last digit's label `1` lies in the grid.
proof fn lemma_one_in_grid(digits: Seq<char>) -> (rc: (int, int))
    requires
        2 <= digits.len() <= usize::MAX / 8,
        forall|i: int| 0 <= i < digits.len() ==> is_hex_digit(#[trigger] digits[i]),
    ensures
        0 <= rc.0 < ruler_split(digits.len()),
        0 <= rc.1 < ruler_width(digits),
        ruler_grid(digits, digits.len()).len() == ruler_split(digits.len()),
        ruler_grid(digits, digits.len())[rc.0].len() == ruler_width(digits),
        ruler_grid(digits, digits.len())[rc.0][rc.1] == '1',
{
    let n = digits.len();
    let split = ruler_split(n);
    let last = (n - 1) as nat;
    lemma_connector_shape(digits, last);
    lemma_ruler_grid_invariant(digits, last);
    lemma_ruler_grid_invariant(digits, n);
    let row = spec_ruler_row(last, split);
    let h = hinge(digits, last) as int;
    assert(ruler_label(n, last) == seq!['1']);
    assert(connector(digits, last) =~= seq!['┌', '─', ' ', '1']);
    assert(h + 3 < ruler_width(digits));
    let gl = ruler_grid(digits, last);
    let g = ruler_grid(digits, n);
    assert(g == paint_label(gl, digits, last));
    assert(g[row as int][h + 3] == '1');
    (row as int, h + 3)
}

/// The Unit area shows the label of the most significant digit and the
/// label `1` of the least significant one.
pub proof fn law_ruler_shows_end_labels(digits: Seq<char>, left_labels: Seq<char>)
    requires
        1 <= digits.len() <= usize::MAX / 8,
        forall|i: int| 0 <= i < digits.len() ==> is_hex_digit(#[trigger] digits[i]),
    ensures
        ({
            let lines = spec_render_ruler(digits, left_labels);
            let top = spec_power_label(((digits.len() - 1) * 4) as nat);
            &&& exists|r: int, c: int|
                0 <= r < lines.len() && 0 <= c && c + top.len() <= lines[r].len()
                    && #[trigger] lines[r].subrange(c, c + top.len()) == top
            &&& exists|r: int, c: int| 0 <= r < lines.len() && 0 <= c < lines[r].len() && #[trigger] lines[r][c] == '1'
        }),
{
    let n = digits.len();
    let split = ruler_split(n);
    let bottom = split - 1;
    let lines = spec_render_ruler(digits, left_labels);
    lemma_ruler_grid_from_digits(digits, n);
    let g = ruler_grid(digits, n);
    let padding: nat = if spec_left_overhang(digits) < LEFT_LABEL_WIDTH - 1 {
        (LEFT_LABEL_WIDTH - 1 - spec_left_overhang(digits)) as nat
    } else {
        0
    };
    let off: int = 1 + padding as int;
    let top = ruler_label(n, 0);
    let col = lemma_top_label_in_grid(digits);
    assert(lines[bottom] == seq![label_at(left_labels, bottom)] + repeat_char(' ', padding) + g[bottom]);
    let seg = lines[bottom].subrange(off + col, off + col + top.len());
    assert forall|k: int| 0 <= k < top.len() implies seg[k] == top[k] by {
        assert(seg[k] == lines[bottom][off + col + k]);
        assert(lines[bottom][off + col + k] == g[bottom][col + k]);
    }
    assert(seg =~= top);
    if n == 1 {
        assert(top == seq!['1']);
        assert(lines[bottom][off + col] == seg[0]);
    } else {
        let (r, c) = lemma_one_in_grid(digits);
        assert(lines[r] == seq![label_at(left_labels, r)] + repeat_char(' ', padding) + g[r]);
        assert(lines[r][off + c] == g[r][c]);
    }
}

} // verus!
