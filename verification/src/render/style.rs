//! ANSI color styling for data and grey visual scaffolding.

use vstd::prelude::*;
use crate::text::{chars_eq, chars_of, digits_in_base, extend_chars, format_radix, string_of};
use crate::terminal::{
    all_closed, ansi_tokens, char_tokens, concat, is_closed_token, is_escape, is_plain,
    lemma_char_tokens, lemma_char_tokens_text, lemma_concat_append, lemma_retokenize,
    lemma_single_token, lemma_tokens_well_formed, lemma_visible_count_append,
    lemma_visible_text_append, lemma_well_formed_append, lemma_well_formed_drop_first,
    spec_display_width, spec_strip_ansi, tokens, visible_count, visible_text, well_formed_tokens,
};

verus! {

/// The 256-color palette indexes used for data, cycling from the right.
#[derive(Clone, Copy, Debug, PartialEq, Eq)]
pub enum ColorPalette {
    Default,
    Ansi256([u8; 4]),
}

/// Whether the visual area is colored, and with which palette.
#[derive(Clone, Copy, Debug, PartialEq, Eq)]
pub enum ColorMode {
    Color(ColorPalette),
    NoColor,
}

/// The sequence that starts bold text.
pub open spec fn highlight_start() -> Seq<char> {
    seq!['\x1b', '[', '1', 'm']
}

/// The sequence that resets all styling.
pub open spec fn highlight_end() -> Seq<char> {
    seq!['\x1b', '[', '0', 'm']
}

/// The sequence that starts grey text.
pub open spec fn grey() -> Seq<char> {
    seq!['\x1b', '[', '9', '0', 'm']
}

/// The palette indexes of the default palette.
pub open spec fn default_color_indexes() -> Seq<u8> {
    seq![1u8, 2u8, 3u8, 4u8]
}

/// The palette indexes a palette uses.
pub open spec fn palette_indexes(palette: ColorPalette) -> Seq<u8> {
    match palette {
        ColorPalette::Default => default_color_indexes(),
        ColorPalette::Ansi256(indexes) => indexes@,
    }
}

/// The 256-color foreground sequence for color slot `color_index`,
/// cycling through the four palette indexes.
pub open spec fn spec_ansi_256_color_escape(color_index: nat, indexes: Seq<u8>) -> Seq<char> {
    seq!['\x1b', '[', '3', '8', ';', '5', ';'] + digits_in_base(indexes[(color_index % 4) as int] as nat, 10)
        + seq!['m']
}

/// The color sequence for a slot, when coloring is on.
pub open spec fn spec_color_escape(color_index: nat, color_mode: ColorMode) -> Option<Seq<char>> {
    match color_mode {
        ColorMode::Color(palette) => Some(
            spec_ansi_256_color_escape(color_index, palette_indexes(palette)),
        ),
        ColorMode::NoColor => None,
    }
}

/// `input` in the color of slot `color_index`, or unchanged without color.
pub open spec fn spec_colorize(color_index: nat, input: Seq<char>, color_mode: ColorMode) -> Seq<
    char,
> {
    match spec_color_escape(color_index, color_mode) {
        Some(color) => color + input + highlight_end(),
        None => input,
    }
}

/// The color slot of token `index` of `token_count`, chosen so that the
/// rightmost token always gets the last slot of a cycle of four.
pub open spec fn spec_color_index_from_right(index: nat, token_count: nat) -> nat {
    (index + (4 - token_count % 4)) as nat
}

/// The characters of the escape sequence that resets all styling.
pub fn highlight_end_chars() -> (v: Vec<char>)
    ensures
        v@ == highlight_end(),
{
    let mut v: Vec<char> = Vec::new();
    v.push('\x1b');
    v.push('[');
    v.push('0');
    v.push('m');
    assert(v@ =~= highlight_end());
    v
}

/// The characters of the escape sequence that starts bold text.
pub fn highlight_start_chars() -> (v: Vec<char>)
    ensures
        v@ == highlight_start(),
{
    let mut v: Vec<char> = Vec::new();
    v.push('\x1b');
    v.push('[');
    v.push('1');
    v.push('m');
    assert(v@ =~= highlight_start());
    v
}

fn grey_chars() -> (v: Vec<char>)
    ensures
        v@ == grey(),
{
    let mut v: Vec<char> = Vec::new();
    v.push('\x1b');
    v.push('[');
    v.push('9');
    v.push('0');
    v.push('m');
    assert(v@ =~= grey());
    v
}

/// The palette indexes of the default palette.
pub fn default_indexes() -> (a: [u8; 4])
    ensures
        a@ == default_color_indexes(),
{
    let a: [u8; 4] = [1, 2, 3, 4];
    assert(a@ =~= default_color_indexes());
    a
}

/// The color slot of token `index` counted so that colors line up from
/// the right.
pub fn color_index_from_right(index: usize, token_count: usize) -> (r: usize)
    requires
        index <= usize::MAX - 4,
    ensures
        r == spec_color_index_from_right(index as nat, token_count as nat),
{
    index + (4 - token_count % 4)
}

/// The 256-color foreground sequence for a color slot.
pub fn ansi_256_color_escape(color_index: usize, indexes: [u8; 4]) -> (v: Vec<char>)
    ensures
        v@ == spec_ansi_256_color_escape(color_index as nat, indexes@),
{
    let mut v: Vec<char> = Vec::new();
    v.push('\x1b');
    v.push('[');
    v.push('3');
    v.push('8');
    v.push(';');
    v.push('5');
    v.push(';');
    let ghost head = v@;
    let index = indexes[color_index % 4];
    extend_chars(&mut v, format_radix(index as u128, 10).as_slice());
    v.push('m');
    assert(v@ =~= spec_ansi_256_color_escape(color_index as nat, indexes@));
    v
}

/// The color sequence for a slot, or nothing without color.
pub fn color_escape_chars(color_index: usize, color_mode: ColorMode) -> (r: Option<Vec<char>>)
    ensures
        match r {
            Some(v) => spec_color_escape(color_index as nat, color_mode) == Some(v@),
            None => spec_color_escape(color_index as nat, color_mode) is None,
        },
{
    match color_mode {
        ColorMode::Color(ColorPalette::Default) => Some(
            ansi_256_color_escape(color_index, default_indexes()),
        ),
        ColorMode::Color(ColorPalette::Ansi256(indexes)) => Some(
            ansi_256_color_escape(color_index, indexes),
        ),
        ColorMode::NoColor => None,
    }
}

/// The color sequence for a slot, or nothing without color.
pub fn color_escape(color_index: usize, color_mode: ColorMode) -> (r: Option<String>)
    ensures
        match r {
            Some(s) => spec_color_escape(color_index as nat, color_mode) == Some(s@),
            None => spec_color_escape(color_index as nat, color_mode) is None,
        },
{
    match color_escape_chars(color_index, color_mode) {
        Some(v) => Some(string_of(v.as_slice())),
        None => None,
    }
}

/// `input` colored for slot `color_index`.
pub fn colorize_chars(color_index: usize, input: &Vec<char>, color_mode: ColorMode) -> (v: Vec<
    char,
>)
    ensures
        v@ == spec_colorize(color_index as nat, input@, color_mode),
{
    match color_escape_chars(color_index, color_mode) {
        Some(color) => {
            let mut v = color;
            extend_chars(&mut v, input.as_slice());
            extend_chars(&mut v, highlight_end_chars().as_slice());
            v
        },
        None => input.clone(),
    }
}

/// Wraps `input` in the 256-color sequence of its slot and a reset; leaves
/// it unchanged without color.
pub fn colorize(color_index: usize, input: &str, color_mode: ColorMode) -> (r: String)
    ensures
        r@ == spec_colorize(color_index as nat, input@, color_mode),
{
    let chars = chars_of(input);
    string_of(colorize_chars(color_index, &chars, color_mode).as_slice())
}

/// Greys the tokens that are not styled data: each visible non-space
/// character outside a colored span gets its own grey sequence and reset.
/// A span is colored from any escape sequence other than a reset up to the
/// next reset.
pub open spec fn grey_tokens(ts: Seq<Seq<char>>, styled: bool) -> Seq<char>
    decreases ts.len(),
{
    if ts.len() == 0 {
        Seq::empty()
    } else {
        let t = ts[0];
        if is_escape(t) {
            t + grey_tokens(ts.drop_first(), t != highlight_end())
        } else if styled || t == seq![' '] {
            t + grey_tokens(ts.drop_first(), styled)
        } else {
            grey() + t + highlight_end() + grey_tokens(ts.drop_first(), styled)
        }
    }
}

/// A line with its scaffolding greyed, or unchanged without color.
pub open spec fn spec_grey_visual_scaffolding(line: Seq<char>, color_mode: ColorMode) -> Seq<char> {
    match color_mode {
        ColorMode::NoColor => line,
        ColorMode::Color(_) => grey_tokens(tokens(line), false),
    }
}

/// Greys the visual scaffolding of a line (rulers, connectors, labels)
/// while leaving colored data and spaces alone.
pub fn grey_visual_scaffolding_chars(line: &Vec<char>, color_mode: ColorMode) -> (v: Vec<char>)
    ensures
        v@ == spec_grey_visual_scaffolding(line@, color_mode),
{
    if let ColorMode::NoColor = color_mode {
        return line.clone();
    }
    let ts = ansi_tokens(line);
    let ghost all = ts.deep_view();
    let end = highlight_end_chars();
    let grey_seq = grey_chars();
    let mut out: Vec<char> = Vec::new();
    let mut styled = false;
    let mut i: usize = 0;
    assert(all.skip(0) =~= all);
    while i < ts.len()
        invariant
            all == ts.deep_view(),
            end@ == highlight_end(),
            grey_seq@ == grey(),
            i <= all.len(),
            out@ + grey_tokens(all.skip(i as int), styled) == grey_tokens(all, false),
        decreases all.len() - i,
    {
        let ghost rest = all.skip(i as int);
        assert(rest.drop_first() =~= all.skip(i + 1));
        assert(rest[0] == ts@[i as int]@);
        let ghost before = out@;
        let ghost was_styled = styled;
        if ts[i].len() > 0 && ts[i][0] == '\x1b' {
            extend_chars(&mut out, ts[i].as_slice());
            styled = !chars_eq(ts[i].as_slice(), end.as_slice());
        } else if styled || (ts[i].len() == 1 && ts[i][0] == ' ') {
            proof {
                if all[i as int].len() == 1 && all[i as int][0] == ' ' {
                    assert(all[i as int] =~= seq![' ']);
                }
            }
            extend_chars(&mut out, ts[i].as_slice());
        } else {
            proof {
                if all[i as int] =~= seq![' '] {
                    assert(all[i as int].len() == 1);
                }
            }
            extend_chars(&mut out, grey_seq.as_slice());
            extend_chars(&mut out, ts[i].as_slice());
            extend_chars(&mut out, end.as_slice());
        }
        assert(out@ + grey_tokens(all.skip(i + 1), styled) =~= before + grey_tokens(
            rest,
            was_styled,
        ));
        i = i + 1;
    }
    assert(grey_tokens(all.skip(i as int), styled) =~= Seq::<char>::empty());
    assert(out@ + Seq::<char>::empty() =~= out@);
    out
}

/// Greys the visual scaffolding of a line while leaving colored data and
/// spaces alone; unchanged without color.
pub fn grey_visual_scaffolding(line: &str, color_mode: ColorMode) -> (r: String)
    ensures
        r@ == spec_grey_visual_scaffolding(line@, color_mode),
{
    let chars = chars_of(line);
    string_of(grey_visual_scaffolding_chars(&chars, color_mode).as_slice())
}

} // verus!

verus! {

/// Tokens the same distance from the right get the same color slot,
/// whatever the number of tokens: the rightmost token always gets the
/// last slot of the four.
pub proof fn law_colors_counted_from_right(index: nat, token_count: nat)
    requires
        index < token_count,
    ensures
        spec_color_index_from_right(index, token_count) % 4 == (3 + 4 - (token_count - 1 - index)
            % 4) % 4,
{
}

/// The 256-color sequences are whole escape sequences.
pub(crate) proof fn lemma_color_escape_closed(color_index: nat, indexes: Seq<u8>)
    ensures
        is_closed_token(spec_ansi_256_color_escape(color_index, indexes)),
{
    let n = indexes[(color_index % 4) as int] as nat;
    let d = digits_in_base(n, 10);
    crate::properties::lemma_numeral_round_trip(n, 10);
    let e = spec_ansi_256_color_escape(color_index, indexes);
    assert forall|i: int| 1 <= i < e.len() - 1 implies #[trigger] e[i] != 'm' by {
        if i >= 7 {
            assert(e[i] == d[i - 7]);
        }
    }
}

/// Colored text: the color sequence, one token per character, and the
/// reset.
proof fn lemma_colorized_tokens(color: Seq<char>, input: Seq<char>)
    requires
        is_closed_token(color),
        is_escape(color),
        is_plain(input),
    ensures
        tokens(color + input + highlight_end()) == seq![color] + char_tokens(input) + seq![highlight_end()],
        visible_count(seq![color] + char_tokens(input) + seq![highlight_end()]) == input.len(),
        visible_text(seq![color] + char_tokens(input) + seq![highlight_end()]) == input,
{
    let end = highlight_end();
    let head = seq![color];
    let mid = char_tokens(input);
    let tail = seq![end];
    lemma_char_tokens(input);
    lemma_char_tokens_text(input);
    lemma_single_token(color);
    lemma_single_token(end);
    assert(is_closed_token(end));
    assert(all_closed(head + mid + tail)) by {
        assert forall|j: int| 0 <= j < (head + mid + tail).len() implies is_closed_token(
            #[trigger] (head + mid + tail)[j],
        ) by {
            if j == 0 {
            } else if j < 1 + mid.len() {
                assert((head + mid + tail)[j] == mid[j - 1]);
            } else {
                assert((head + mid + tail)[j] == end);
            }
        }
    }
    lemma_well_formed_append(head + mid + tail, Seq::empty());
    assert(head + mid + tail + Seq::<Seq<char>>::empty() =~= head + mid + tail);
    lemma_concat_append(head, mid);
    lemma_concat_append(head + mid, tail);
    lemma_retokenize(head + mid + tail);
    lemma_visible_count_append(head, mid);
    lemma_visible_count_append(head + mid, tail);
    lemma_visible_text_append(head, mid);
    lemma_visible_text_append(head + mid, tail);
    assert(Seq::<char>::empty() + input + Seq::<char>::empty() =~= input);
}

/// Color takes no columns and hides nothing: text without escape
/// characters, colored for any slot and mode, still shows exactly that
/// text, one column per character.
pub proof fn law_colorize_keeps_text(color_index: nat, input: Seq<char>, color_mode: ColorMode)
    requires
        is_plain(input),
    ensures
        spec_strip_ansi(spec_colorize(color_index, input, color_mode)) == input,
        spec_display_width(spec_colorize(color_index, input, color_mode)) == input.len(),
{
    match color_mode {
        ColorMode::NoColor => {
            lemma_char_tokens(input);
            lemma_char_tokens_text(input);
            lemma_well_formed_append(char_tokens(input), Seq::empty());
            assert(char_tokens(input) + Seq::<Seq<char>>::empty() =~= char_tokens(input));
            lemma_retokenize(char_tokens(input));
        },
        ColorMode::Color(palette) => {
            let color = spec_ansi_256_color_escape(color_index, palette_indexes(palette));
            lemma_color_escape_closed(color_index, palette_indexes(palette));
            lemma_colorized_tokens(color, input);
        },
    }
}

/// The tokens that `grey_tokens` joins: each token, with a grey sequence
/// and a reset around a visible character that is neither a space nor
/// colored data.
pub open spec fn grey_token_seq(ts: Seq<Seq<char>>, styled: bool) -> Seq<Seq<char>>
    decreases ts.len(),
{
    if ts.len() == 0 {
        Seq::empty()
    } else {
        let t = ts[0];
        if is_escape(t) {
            seq![t] + grey_token_seq(ts.drop_first(), t != highlight_end())
        } else if styled || t == seq![' '] {
            seq![t] + grey_token_seq(ts.drop_first(), styled)
        } else {
            seq![grey(), t, highlight_end()] + grey_token_seq(ts.drop_first(), styled)
        }
    }
}

/// Greying joins into well-formed tokens that show the same text and
/// take the same columns as the tokens greyed.
proof fn lemma_grey_token_seq(ts: Seq<Seq<char>>, styled: bool)
    requires
        well_formed_tokens(ts),
    ensures
        concat(grey_token_seq(ts, styled)) == grey_tokens(ts, styled),
        well_formed_tokens(grey_token_seq(ts, styled)),
        visible_count(grey_token_seq(ts, styled)) == visible_count(ts),
        visible_text(grey_token_seq(ts, styled)) == visible_text(ts),
    decreases ts.len(),
{
    if ts.len() == 0 {
        assert(concat(grey_token_seq(ts, styled)) =~= grey_tokens(ts, styled));
    } else {
        let t = ts[0];
        let rest = ts.drop_first();
        lemma_well_formed_drop_first(ts);
        let next = if is_escape(t) {
            t != highlight_end()
        } else {
            styled
        };
        lemma_grey_token_seq(rest, next);
        let g = grey_token_seq(rest, next);
        lemma_single_token(t);
        if is_escape(t) || styled || t == seq![' '] {
            let head = seq![t];
            assert(grey_token_seq(ts, styled) == head + g);
            lemma_concat_append(head, g);
            lemma_visible_count_append(head, g);
            lemma_visible_text_append(head, g);
            if is_closed_token(t) {
                assert(all_closed(head));
                lemma_well_formed_append(head, g);
            } else {
                assert(ts.len() == 1);
                assert(g =~= Seq::<Seq<char>>::empty());
                assert(head + g =~= head);
            }
        } else {
            let head = seq![grey(), t, highlight_end()];
            assert(grey_token_seq(ts, styled) == head + g);
            assert(is_closed_token(t));
            assert(is_closed_token(grey()));
            assert(is_closed_token(highlight_end()));
            assert(all_closed(head));
            lemma_well_formed_append(head, g);
            let h1 = seq![grey()];
            let h2 = seq![t];
            let h3 = seq![highlight_end()];
            assert(head =~= h1 + h2 + h3);
            lemma_single_token(grey());
            lemma_single_token(highlight_end());
            lemma_concat_append(h1, h2);
            lemma_concat_append(h1 + h2, h3);
            lemma_concat_append(head, g);
            lemma_visible_count_append(h1, h2);
            lemma_visible_count_append(h1 + h2, h3);
            lemma_visible_count_append(head, g);
            lemma_visible_text_append(h1, h2);
            lemma_visible_text_append(h1 + h2, h3);
            lemma_visible_text_append(head, g);
            assert(Seq::<char>::empty() + t + Seq::<char>::empty() =~= t);
            assert(grey() + t + highlight_end() + grey_tokens(rest, styled) =~= grey() + t
                + highlight_end() + concat(g));
        }
    }
}

/// Greying the scaffolding changes only colors: the line shows the same
/// text and takes the same number of columns.
pub proof fn law_grey_keeps_text(line: Seq<char>, color_mode: ColorMode)
    ensures
        spec_strip_ansi(spec_grey_visual_scaffolding(line, color_mode)) == spec_strip_ansi(line),
        spec_display_width(spec_grey_visual_scaffolding(line, color_mode)) == spec_display_width(line),
{
    if color_mode != ColorMode::NoColor {
        lemma_tokens_well_formed(line);
        lemma_grey_token_seq(tokens(line), false);
        lemma_retokenize(grey_token_seq(tokens(line), false));
    }
}

/// One token in front of others, greyed.
proof fn lemma_grey_token_seq_cons(t: Seq<char>, rest: Seq<Seq<char>>, styled: bool)
    ensures
        grey_token_seq(seq![t] + rest, styled) == if is_escape(t) {
            seq![t] + grey_token_seq(rest, t != highlight_end())
        } else if styled || t == seq![' '] {
            seq![t] + grey_token_seq(rest, styled)
        } else {
            seq![grey(), t, highlight_end()] + grey_token_seq(rest, styled)
        },
{
    assert((seq![t] + rest)[0] == t);
    assert((seq![t] + rest).drop_first() =~= rest);
}

/// Greying greyed tokens changes nothing.
proof fn lemma_grey_token_seq_idempotent(ts: Seq<Seq<char>>, styled: bool)
    ensures
        grey_token_seq(grey_token_seq(ts, styled), styled) == grey_token_seq(ts, styled),
    decreases ts.len(),
{
    if ts.len() == 0 {
        assert(grey_token_seq(ts, styled) =~= Seq::<Seq<char>>::empty());
    } else {
        let t = ts[0];
        let rest = ts.drop_first();
        if is_escape(t) {
            let next = t != highlight_end();
            lemma_grey_token_seq_idempotent(rest, next);
            lemma_grey_token_seq_cons(t, grey_token_seq(rest, next), styled);
        } else if styled || t == seq![' '] {
            lemma_grey_token_seq_idempotent(rest, styled);
            lemma_grey_token_seq_cons(t, grey_token_seq(rest, styled), styled);
        } else {
            lemma_grey_token_seq_idempotent(rest, styled);
            let g = grey_token_seq(rest, styled);
            let e = highlight_end();
            assert(seq![grey(), t, e] + g =~= seq![grey()] + (seq![t] + (seq![e] + g)));
            assert(grey() != e);
            lemma_grey_token_seq_cons(grey(), seq![t] + (seq![e] + g), styled);
            lemma_grey_token_seq_cons(t, seq![e] + g, true);
            lemma_grey_token_seq_cons(e, g, true);
            assert(seq![grey()] + (seq![t] + (seq![e] + grey_token_seq(g, false))) =~= seq![
                grey(),
                t,
                e,
            ] + g);
        }
    }
}

/// Greying a greyed line changes nothing.
pub proof fn law_grey_is_idempotent(line: Seq<char>, color_mode: ColorMode)
    ensures
        spec_grey_visual_scaffolding(spec_grey_visual_scaffolding(line, color_mode), color_mode)
            == spec_grey_visual_scaffolding(line, color_mode),
{
    if color_mode != ColorMode::NoColor {
        let ts = tokens(line);
        lemma_tokens_well_formed(line);
        lemma_grey_token_seq(ts, false);
        let g = grey_token_seq(ts, false);
        lemma_retokenize(g);
        lemma_grey_token_seq(g, false);
        lemma_grey_token_seq_idempotent(ts, false);
    }
}

/// Coloring keeps texts apart.
pub proof fn lemma_colorize_injective(color_index: nat, a: Seq<char>, b: Seq<char>, color_mode: ColorMode)
    requires
        spec_colorize(color_index, a, color_mode) == spec_colorize(color_index, b, color_mode),
    ensures
        a == b,
{
    if let Some(color) = spec_color_escape(color_index, color_mode) {
        let x = color + a + highlight_end();
        let y = color + b + highlight_end();
        assert(x.len() == y.len());
        assert(x.subrange(color.len() as int, (color.len() + a.len()) as int) =~= a);
        assert(y.subrange(color.len() as int, (color.len() + b.len()) as int) =~= b);
    }
}

} // verus!
