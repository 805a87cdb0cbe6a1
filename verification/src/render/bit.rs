//! Bit area, dividers, and Position area rendering.

use vstd::prelude::*;
use crate::render::layout::{joined, join_tokens, lemma_token_columns, spec_token_start_column};
use crate::render::style::{
    ColorMode, color_escape_chars, highlight_end, highlight_end_chars, highlight_start,
    highlight_start_chars, spec_color_escape, spec_color_index_from_right, color_index_from_right,
};
use crate::text::{
    chars_of, digits_in_base, extend_chars, format_radix, lemma_digits_len, power, push_line, repeat,
    repeat_char, string_of, strings_of,
};

verus! {

/// The connector drawn above each nibble of the Bit area.
#[derive(Clone, Copy, Debug, PartialEq, Eq)]
pub enum TopConnector {
    Full,
    Compact,
}

/// The characters of a top connector.
pub open spec fn top_connector_chars(top: TopConnector) -> Seq<char> {
    match top {
        TopConnector::Full => seq!['├', '┬', '┬', '┤'],
        TopConnector::Compact => seq!['┌', '┬', '┬', '┤'],
    }
}

/// The connector drawn below each nibble.
pub open spec fn bottom_connector() -> Seq<char> {
    seq!['└', '─', '─', '┤']
}

/// The vertical line drawn under each bottom connector.
pub open spec fn bottom_vertical() -> Seq<char> {
    seq![' ', ' ', ' ', '│']
}

impl TopConnector {
    /// The characters of the connector.
    pub fn as_str(self) -> (v: Vec<char>)
        ensures
            v@ == top_connector_chars(self),
    {
        let mut v: Vec<char> = Vec::new();
        match self {
            TopConnector::Full => v.push('├'),
            TopConnector::Compact => v.push('┌'),
        }
        v.push('┬');
        v.push('┬');
        v.push('┤');
        assert(v@ =~= top_connector_chars(self));
        v
    }
}

/// The number of nibbles (groups of up to four bits) in `len` bits.
pub open spec fn nibble_count(len: nat) -> nat {
    (len + 3) / 4
}

/// The bits split into groups of four from the left; the last group may
/// be shorter.
pub open spec fn bit_chunks(bits: Seq<char>) -> Seq<Seq<char>> {
    Seq::new(
        nibble_count(bits.len()),
        |i: int|
            bits.subrange(
                4 * i,
                if 4 * i + 4 <= bits.len() {
                    4 * i + 4
                } else {
                    bits.len() as int
                },
            ),
    )
}

/// `s` right-aligned in `width` columns with spaces in front.
pub open spec fn right_aligned(s: Seq<char>, width: nat) -> Seq<char> {
    if s.len() < width {
        repeat_char(' ', (width - s.len()) as nat) + s
    } else {
        s
    }
}

/// The Position labels: the bit position of the lowest bit of each nibble,
/// right-aligned under it.
pub open spec fn position_labels(count: nat) -> Seq<Seq<char>> {
    Seq::new(count, |i: int| right_aligned(digits_in_base(((count - i - 1) * 4) as nat, 10), 4))
}

/// `count` copies of a token.
pub open spec fn repeated(token: Seq<char>, count: nat) -> Seq<Seq<char>> {
    Seq::new(count, |_i: int| token)
}

/// One character of a bit chunk, highlighted when it is a bit.
pub open spec fn highlighted_char(c: char, color: Seq<char>) -> Seq<char> {
    if c == '0' || c == '1' {
        highlight_start() + color + seq![c] + highlight_end()
    } else {
        seq![c]
    }
}

/// Every bit of `input` highlighted in `color`; other characters as they
/// are.
pub open spec fn highlight_all(input: Seq<char>, color: Seq<char>) -> Seq<char>
    decreases input.len(),
{
    if input.len() == 0 {
        Seq::empty()
    } else {
        highlight_all(input.drop_last(), color) + highlighted_char(input.last(), color)
    }
}

/// Bits highlighted bold in the color of slot `color_index`, or unchanged
/// without color.
pub open spec fn spec_highlight_bit_digits(color_index: nat, input: Seq<char>, color_mode: ColorMode) -> Seq<
    char,
> {
    match spec_color_escape(color_index, color_mode) {
        Some(color) => highlight_all(input, color),
        None => input,
    }
}

/// The Bit line: nibbles joined by `_`, and by ` _ ` between groups of
/// four nibbles counted from the right; nibbles colored from the right.
pub open spec fn spec_render_bit_chunks(chunks: Seq<Seq<char>>, color_mode: ColorMode) -> Seq<char> {
    joined(
        Seq::new(
            chunks.len(),
            |i: int|
                spec_highlight_bit_digits(
                    spec_color_index_from_right(i as nat, chunks.len()),
                    chunks[i],
                    color_mode,
                ),
        ),
        seq!['_'],
        seq![' ', '_', ' '],
    )
}

/// Visual tokens joined by one space, three between groups.
pub open spec fn visual_join(ts: Seq<Seq<char>>) -> Seq<char> {
    joined(ts, seq![' '], seq![' ', ' ', ' '])
}

/// The eight lines of the Bit area: top connectors, a blank line, the
/// bits, a blank line, bottom connectors, verticals, Position labels, and a
/// blank line.
pub open spec fn spec_render_bit_area(bits: Seq<char>, color_mode: ColorMode, top: TopConnector) -> Seq<
    Seq<char>,
> {
    let n = nibble_count(bits.len());
    seq![
        visual_join(repeated(top_connector_chars(top), n)),
        Seq::empty(),
        spec_render_bit_chunks(bit_chunks(bits), color_mode),
        Seq::empty(),
        visual_join(repeated(bottom_connector(), n)),
        visual_join(repeated(bottom_vertical(), n)),
        visual_join(position_labels(n)),
        Seq::empty(),
    ]
}

fn highlight_chars(color_index: usize, input: &Vec<char>, color_mode: ColorMode) -> (v: Vec<char>)
    ensures
        v@ == spec_highlight_bit_digits(color_index as nat, input@, color_mode),
{
    let color = match color_escape_chars(color_index, color_mode) {
        Some(c) => c,
        None => {
            return input.clone();
        },
    };
    let start = highlight_start_chars();
    let end = highlight_end_chars();
    let mut v: Vec<char> = Vec::new();
    let mut i: usize = 0;
    while i < input.len()
        invariant
            i <= input@.len(),
            start@ == highlight_start(),
            end@ == highlight_end(),
            v@ == highlight_all(input@.take(i as int), color@),
        decreases input@.len() - i,
    {
        let c = input[i];
        if c == '0' || c == '1' {
            extend_chars(&mut v, start.as_slice());
            extend_chars(&mut v, color.as_slice());
            v.push(c);
            extend_chars(&mut v, end.as_slice());
        } else {
            v.push(c);
        }
        assert(input@.take(i + 1).drop_last() =~= input@.take(i as int));
        assert(v@ =~= highlight_all(input@.take(i + 1), color@));
        i = i + 1;
    }
    assert(input@.take(i as int) =~= input@);
    v
}

/// Highlights every `0` and `1` bold in the color of slot `color_index`;
/// other characters are kept as they are. Unchanged without color.
pub fn highlight_bit_digits(color_index: usize, input: &str, color_mode: ColorMode) -> (r: String)
    ensures
        r@ == spec_highlight_bit_digits(color_index as nat, input@, color_mode),
{
    let chars = chars_of(input);
    string_of(highlight_chars(color_index, &chars, color_mode).as_slice())
}

/// `count` copies of a token.
pub fn repeated_tokens(token: &Vec<char>, count: usize) -> (ts: Vec<Vec<char>>)
    ensures
        ts.deep_view() == repeated(token@, count as nat),
{
    let mut ts: Vec<Vec<char>> = Vec::new();
    let mut i: usize = 0;
    while i < count
        invariant
            i <= count,
            ts.deep_view() == repeated(token@, i as nat),
        decreases count - i,
    {
        push_line(&mut ts, token.clone());
        assert(ts.deep_view() =~= repeated(token@, (i + 1) as nat));
        i = i + 1;
    }
    ts
}

/// The bits split into groups of four.
fn split_chunks(bits: &Vec<char>) -> (chunks: Vec<Vec<char>>)
    ensures
        chunks.deep_view() == bit_chunks(bits@),
{
    let n = bits.len();
    let count = n / 4 + if n % 4 == 0 {
        0
    } else {
        1
    };
    assert(count == nibble_count(n as nat));
    let ghost want = bit_chunks(bits@);
    let mut chunks: Vec<Vec<char>> = Vec::new();
    let mut i: usize = 0;
    while i < count
        invariant
            n == bits@.len(),
            count == nibble_count(n as nat),
            want == bit_chunks(bits@),
            i <= count,
            chunks.deep_view() == want.take(i as int),
        decreases count - i,
    {
        let start = 4 * i;
        let end = if n - start >= 4 {
            start + 4
        } else {
            n
        };
        let mut chunk: Vec<char> = Vec::new();
        let mut j = start;
        while j < end
            invariant
                start <= j <= end <= n,
                n == bits@.len(),
                chunk@ == bits@.subrange(start as int, j as int),
            decreases end - j,
        {
            chunk.push(bits[j]);
            assert(bits@.subrange(start as int, j + 1) =~= bits@.subrange(start as int, j as int).push(
                bits@[j as int],
            ));
            j = j + 1;
        }
        push_line(&mut chunks, chunk);
        assert(chunks.deep_view() =~= want.take(i + 1));
        i = i + 1;
    }
    assert(want.take(i as int) =~= want);
    chunks
}

/// The Bit line: highlighted nibbles joined by underscores.
fn render_bit_chunks(chunks: &Vec<Vec<char>>, color_mode: ColorMode) -> (v: Vec<char>)
    requires
        chunks@.len() <= usize::MAX - 4,
    ensures
        v@ == spec_render_bit_chunks(chunks.deep_view(), color_mode),
{
    let ghost cs = chunks.deep_view();
    let n = chunks.len();
    let ghost want = Seq::new(
        cs.len(),
        |i: int|
            spec_highlight_bit_digits(spec_color_index_from_right(i as nat, cs.len()), cs[i], color_mode),
    );
    let mut tokens: Vec<Vec<char>> = Vec::new();
    let mut i: usize = 0;
    while i < n
        invariant
            cs == chunks.deep_view(),
            n == cs.len(),
            n <= usize::MAX - 4,
            i <= n,
            want == Seq::new(
                cs.len(),
                |i: int|
                    spec_highlight_bit_digits(
                        spec_color_index_from_right(i as nat, cs.len()),
                        cs[i],
                        color_mode,
                    ),
            ),
            tokens.deep_view() == want.take(i as int),
        decreases n - i,
    {
        assert(cs[i as int] == chunks@[i as int]@);
        push_line(&mut tokens, highlight_chars(color_index_from_right(i, n), &chunks[i], color_mode));
        assert(tokens.deep_view() =~= want.take(i + 1));
        i = i + 1;
    }
    assert(want.take(i as int) =~= want);
    let mut narrow: Vec<char> = Vec::new();
    narrow.push('_');
    let mut wide: Vec<char> = Vec::new();
    wide.push(' ');
    wide.push('_');
    wide.push(' ');
    assert(narrow@ =~= seq!['_']);
    assert(wide@ =~= seq![' ', '_', ' ']);
    join_tokens(&tokens, &narrow, &wide)
}

/// A number right-aligned in four columns.
fn right_aligned_number(n: usize) -> (v: Vec<char>)
    ensures
        v@ == right_aligned(digits_in_base(n as nat, 10), 4),
{
    let digits = format_radix(n as u128, 10);
    if digits.len() < 4 {
        let mut v = repeat(' ', 4 - digits.len());
        extend_chars(&mut v, digits.as_slice());
        v
    } else {
        digits
    }
}

/// The Position labels of `count` nibbles.
fn position_label_tokens(count: usize) -> (ts: Vec<Vec<char>>)
    requires
        count <= usize::MAX / 4 + 1,
    ensures
        ts.deep_view() == position_labels(count as nat),
{
    let mut ts: Vec<Vec<char>> = Vec::new();
    let mut i: usize = 0;
    while i < count
        invariant
            count <= usize::MAX / 4 + 1,
            i <= count,
            ts.deep_view() == position_labels(count as nat).take(i as int),
        decreases count - i,
    {
        push_line(&mut ts, right_aligned_number((count - i - 1) * 4));
        assert(ts.deep_view() =~= position_labels(count as nat).take(i + 1));
        i = i + 1;
    }
    assert(position_labels(count as nat).take(i as int) =~= position_labels(count as nat));
    ts
}

/// The Bit area lines as characters.
pub fn render_bit_area_lines(bits: &Vec<char>, color_mode: ColorMode, top_connector: TopConnector) -> (lines:
    Vec<Vec<char>>)
    ensures
        lines.deep_view() == spec_render_bit_area(bits@, color_mode, top_connector),
{
    let chunks = split_chunks(bits);
    let n = chunks.len();
    assert(chunks.deep_view().len() == chunks@.len());
    assert(n == nibble_count(bits@.len()));
    assert(bits@.len() == bits.len());
    assert(n <= usize::MAX / 4 + 1);
    let narrow = repeat(' ', 1);
    let wide = repeat(' ', 3);
    assert(narrow@ =~= seq![' ']);
    assert(wide@ =~= seq![' ', ' ', ' ']);
    let mut bottom: Vec<char> = Vec::new();
    bottom.push('└');
    bottom.push('─');
    bottom.push('─');
    bottom.push('┤');
    assert(bottom@ =~= bottom_connector());
    let mut vertical = repeat(' ', 3);
    vertical.push('│');
    assert(vertical@ =~= bottom_vertical());
    let mut lines: Vec<Vec<char>> = Vec::new();
    push_line(&mut lines, join_tokens(&repeated_tokens(&top_connector.as_str(), n), &narrow, &wide));
    push_line(&mut lines, Vec::new());
    push_line(&mut lines, render_bit_chunks(&chunks, color_mode));
    push_line(&mut lines, Vec::new());
    push_line(&mut lines, join_tokens(&repeated_tokens(&bottom, n), &narrow, &wide));
    push_line(&mut lines, join_tokens(&repeated_tokens(&vertical, n), &narrow, &wide));
    push_line(&mut lines, join_tokens(&position_label_tokens(n), &narrow, &wide));
    push_line(&mut lines, Vec::new());
    assert(lines.deep_view() =~= spec_render_bit_area(bits@, color_mode, top_connector));
    lines
}

/// The Bit area for a string of bits: top connectors, the bits grouped by
/// nibble, bottom connectors and verticals, and the Position labels.
pub fn render_bit_area(bit_digits: &str, color_mode: ColorMode, top_connector: TopConnector) -> (lines:
    Vec<String>)
    ensures
        lines.deep_view() == spec_render_bit_area(bit_digits@, color_mode, top_connector),
{
    let bits = chars_of(bit_digits);
    strings_of(&render_bit_area_lines(&bits, color_mode, top_connector))
}

} // verus!

verus! {

/// Without color every nibble lines up in the Bit area: its top
/// connector, its four bits, its bottom connector, its vertical, and its
/// Position label all fill the same four columns, those from
/// `token_start_column(i, n)` for nibble `i` of `n` (for Position labels
/// of at most four digits).
pub proof fn law_bit_area_columns_align(bits: Seq<char>, top: TopConnector, i: nat)
    requires
        bits.len() % 4 == 0,
        i < bits.len() / 4,
        bits.len() <= 10000,
    ensures
        ({
            let n = bits.len() / 4;
            let a = spec_render_bit_area(bits, ColorMode::NoColor, top);
            let s = spec_token_start_column(i, n) as int;
            &&& a[0].subrange(s, s + 4) == top_connector_chars(top)
            &&& a[2].subrange(s, s + 4) == bits.subrange(4 * i as int, 4 * i + 4int)
            &&& a[4].subrange(s, s + 4) == bottom_connector()
            &&& a[5].subrange(s, s + 4) == bottom_vertical()
            &&& a[6].subrange(s, s + 4) == right_aligned(digits_in_base(((n - i - 1) * 4) as nat, 10), 4)
            &&& a.len() == 8
            &&& a[1].len() == 0 && a[3].len() == 0 && a[7].len() == 0
            &&& a[0].len() == a[2].len() && a[2].len() == a[4].len() && a[4].len() == a[5].len()
            &&& a[5].len() == a[6].len()
            &&& a[6].len() == spec_token_start_column((n - 1) as nat, n) + 4
        }),
{
    let n = nibble_count(bits.len());
    assert(n == bits.len() / 4);
    let chunks = bit_chunks(bits);
    let ts = Seq::new(
        chunks.len(),
        |k: int|
            spec_highlight_bit_digits(
                spec_color_index_from_right(k as nat, chunks.len()),
                chunks[k],
                ColorMode::NoColor,
            ),
    );
    assert forall|k: int| 0 <= k < ts.len() implies (#[trigger] ts[k]).len() == 4 by {
        assert(ts[k] == chunks[k]);
    }
    lemma_token_columns(ts, i, seq!['_'], seq![' ', '_', ' ']);
    assert(ts[i as int] == bits.subrange(4 * i as int, 4 * i + 4int));
    let top_ts = repeated(top_connector_chars(top), n);
    let bottom_ts = repeated(bottom_connector(), n);
    let vertical_ts = repeated(bottom_vertical(), n);
    let labels = position_labels(n);
    lemma_token_columns(top_ts, i, seq![' '], seq![' ', ' ', ' ']);
    lemma_token_columns(bottom_ts, i, seq![' '], seq![' ', ' ', ' ']);
    lemma_token_columns(vertical_ts, i, seq![' '], seq![' ', ' ', ' ']);
    assert(power(10, 4) == 10000) by {
        reveal_with_fuel(power, 5);
    }
    assert forall|k: int| 0 <= k < labels.len() implies (#[trigger] labels[k]).len() == 4 by {
        let x = ((n - k - 1) * 4) as nat;
        lemma_digits_len(x, 10, 4);
    }
    lemma_token_columns(labels, i, seq![' '], seq![' ', ' ', ' ']);
}

} // verus!
