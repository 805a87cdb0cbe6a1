//! Terminal output assembly: trimming and clipping of lines, their width,
//! and the composition of the visual and text areas.

use vstd::prelude::*;
use crate::format::{Endian, format_lines, spec_format_lines};
use crate::render::{RenderColor, RenderMode, RenderOptions, render_visual, spec_render_visual};
use crate::text::{
    chars_of, digits_in_base, extend_chars, extend_str, format_radix, push_string, string_of,
};
use crate::terminal::{
    all_closed, ansi_tokens, concat, display_width, is_closed_token, is_escape, is_open_escape,
    lemma_concat_append, lemma_retokenize, lemma_single_token, lemma_tokens_after_closed,
    lemma_tokens_concat, lemma_width_from_visible_start, esc,
    lemma_visible_text_append, spec_strip_ansi, visible_text, lemma_tokens_well_formed, lemma_well_formed_take,
    spec_display_width, tokens, visible_count, well_formed_tokens,
};

verus! {

/// How the visual area is colored.
#[derive(Clone, Copy, Debug, PartialEq, Eq)]
pub enum OutputColor {
    Color,
    Ansi256([u8; 4]),
    NoColor,
}

/// Which areas are printed.
#[derive(Clone, Copy, Debug, PartialEq, Eq)]
pub enum OutputMode {
    /// The full visual area and the text area.
    VisualAndText,
    /// The compact visual area and the text area.
    Compact,
    /// The text area only.
    TextOnly,
}

/// Everything that decides what is printed for a number.
#[derive(Clone, Copy, Debug, PartialEq, Eq)]
pub struct OutputOptions {
    pub color: OutputColor,
    pub mode: OutputMode,
    pub hex_digits: Option<usize>,
    pub endian: Endian,
}

/// The render mode for an output mode.
pub open spec fn spec_render_mode(mode: OutputMode) -> RenderMode {
    match mode {
        OutputMode::VisualAndText => RenderMode::Full,
        OutputMode::Compact => RenderMode::Compact,
        OutputMode::TextOnly => RenderMode::Full,
    }
}

/// The render color for an output color.
pub open spec fn spec_render_color(color: OutputColor) -> RenderColor {
    match color {
        OutputColor::Color => RenderColor::Color,
        OutputColor::Ansi256(indexes) => RenderColor::Ansi256(indexes),
        OutputColor::NoColor => RenderColor::NoColor,
    }
}

/// The render mode for an output mode.
pub fn render_mode(mode: OutputMode) -> (r: RenderMode)
    ensures
        r == spec_render_mode(mode),
{
    match mode {
        OutputMode::VisualAndText => RenderMode::Full,
        OutputMode::Compact => RenderMode::Compact,
        OutputMode::TextOnly => RenderMode::Full,
    }
}

/// The render color for an output color.
pub fn render_color(color: OutputColor) -> (r: RenderColor)
    ensures
        r == spec_render_color(color),
{
    match color {
        OutputColor::Color => RenderColor::Color,
        OutputColor::Ansi256(indexes) => RenderColor::Ansi256(indexes),
        OutputColor::NoColor => RenderColor::NoColor,
    }
}

/// The visual area lines for the options; none in text-only mode.
pub open spec fn spec_visual_area(number: u128, options: OutputOptions) -> Seq<Seq<char>> {
    match options.mode {
        OutputMode::TextOnly => Seq::empty(),
        _ => spec_render_visual(
            number,
            RenderOptions {
                color: spec_render_color(options.color),
                mode: spec_render_mode(options.mode),
                hex_digits: options.hex_digits,
                endian: options.endian,
            },
        ),
    }
}

/// All output lines: the visual area, a blank separator line when there
/// is a visual area, then the text area; and the number of visual lines.
pub open spec fn spec_output_lines(number: u128, options: OutputOptions) -> (Seq<Seq<char>>, nat) {
    let visual = spec_visual_area(number, options);
    let text = spec_format_lines(number, options.hex_digits, options.endian);
    (
        if visual.len() > 0 {
            visual.push(Seq::empty()) + text
        } else {
            text
        },
        visual.len(),
    )
}

/// Assembles the output: the visual area (unless text-only), a blank line
/// after it, and the text area; returns the lines and how many of them
/// belong to the visual area.
pub fn output_lines(number: u128, options: OutputOptions) -> (r: (Vec<String>, usize))
    requires
        options.hex_digits matches Some(w) ==> w <= 32,
    ensures
        (r.0.deep_view(), r.1 as nat) == spec_output_lines(number, options),
{
    let text_lines = format_lines(number, options.hex_digits, options.endian);
    let visual_lines = match options.mode {
        OutputMode::VisualAndText | OutputMode::Compact => render_visual(
            number,
            RenderOptions {
                color: render_color(options.color),
                mode: render_mode(options.mode),
                hex_digits: options.hex_digits,
                endian: options.endian,
            },
        ),
        OutputMode::TextOnly => Vec::new(),
    };
    assert(visual_lines.deep_view() == spec_visual_area(number, options));
    let visual_line_count = visual_lines.len();
    let mut lines = visual_lines;
    if lines.len() > 0 {
        push_string(&mut lines, String::new());
    }
    let ghost head = lines.deep_view();
    let ghost t = text_lines.deep_view();
    let mut i: usize = 0;
    while i < text_lines.len()
        invariant
            t == text_lines.deep_view(),
            i <= t.len(),
            lines.deep_view() == head + t.take(i as int),
        decreases t.len() - i,
    {
        assert(t[i as int] == text_lines@[i as int]@);
        push_string(&mut lines, text_lines[i].clone());
        assert(lines.deep_view() =~= head + t.take(i + 1));
        i = i + 1;
    }
    assert(t.take(i as int) =~= t);
    assert(lines.deep_view() =~= spec_output_lines(number, options).0);
    (lines, visual_line_count)
}

/// The lines as printed to a terminal: visual lines without trailing
/// spaces and clipped to the terminal width; text lines as they are.
pub open spec fn spec_terminal_lines(
    lines: Seq<Seq<char>>,
    visual_line_count: nat,
    terminal_width: Option<usize>,
) -> Seq<Seq<char>> {
    Seq::new(
        lines.len(),
        |i: int|
            if i < visual_line_count {
                spec_clip_line(spec_trim_trailing_spaces(lines[i]), terminal_width)
            } else {
                lines[i]
            },
    )
}

/// The lines as printed to a terminal of the given width.
pub fn terminal_lines(lines: &[String], visual_line_count: usize, terminal_width: Option<usize>) -> (r:
    Vec<String>)
    ensures
        r.deep_view() == spec_terminal_lines(
            lines@.map_values(|l: String| l@),
            visual_line_count as nat,
            terminal_width,
        ),
{
    let ghost views = lines@.map_values(|l: String| l@);
    let ghost want = spec_terminal_lines(views, visual_line_count as nat, terminal_width);
    let mut out: Vec<String> = Vec::new();
    let mut i: usize = 0;
    while i < lines.len()
        invariant
            views == lines@.map_values(|l: String| l@),
            want == spec_terminal_lines(views, visual_line_count as nat, terminal_width),
            i <= views.len(),
            out.deep_view() == want.take(i as int),
        decreases views.len() - i,
    {
        let line = if i < visual_line_count {
            let trimmed = trim_trailing_spaces(lines[i].as_str());
            clip_line(trimmed.as_str(), terminal_width)
        } else {
            lines[i].clone()
        };
        push_string(&mut out, line);
        assert(out.deep_view() =~= want.take(i + 1));
        i = i + 1;
    }
    assert(want.take(i as int) =~= want);
    out
}

/// The warning printed when the output is wider than the terminal,
/// itself clipped to the terminal width.
pub open spec fn spec_width_warning(lines: Seq<Seq<char>>, terminal_width: Option<usize>) -> Option<
    Seq<char>,
> {
    match terminal_width {
        None => None,
        Some(w) => if max_trimmed_width(lines) > w {
            Some(
                spec_clip_line(
                    "Warning: output is "@ + digits_in_base(max_trimmed_width(lines), 10)
                        + " columns wide, but terminal is "@ + digits_in_base(w as nat, 10)
                        + " columns wide."@,
                    terminal_width,
                ),
            )
        } else {
            None
        },
    }
}

/// The warning for output wider than the terminal, if it is.
pub fn width_warning(lines: &[String], terminal_width: Option<usize>) -> (r: Option<String>)
    ensures
        match r {
            Some(s) => spec_width_warning(lines@.map_values(|l: String| l@), terminal_width) == Some(
                s@,
            ),
            None => spec_width_warning(lines@.map_values(|l: String| l@), terminal_width) is None,
        },
{
    let w = match terminal_width {
        None => {
            return None;
        },
        Some(w) => w,
    };
    let width = output_width(lines);
    if width <= w {
        return None;
    }
    let mut message = chars_of("Warning: output is ");
    extend_chars(&mut message, format_radix(width as u128, 10).as_slice());
    extend_str(&mut message, " columns wide, but terminal is ");
    extend_chars(&mut message, format_radix(w as u128, 10).as_slice());
    extend_str(&mut message, " columns wide.");
    Some(string_of(clip_chars(&message, terminal_width).as_slice()))
}

/// A visible character other than a space.
pub open spec fn is_ink(t: Seq<char>) -> bool {
    !is_escape(t) && t != seq![' ']
}

/// Some token is a visible character other than a space.
pub open spec fn has_ink(ts: Seq<Seq<char>>) -> bool {
    exists|j: int| 0 <= j < ts.len() && is_ink(#[trigger] ts[j])
}

/// The tokens without the spaces after the last visible non-space
/// character; the escape sequences there stay. Nothing is left when there
/// is no visible non-space character.
pub open spec fn trim_tokens(ts: Seq<Seq<char>>) -> Seq<Seq<char>>
    decreases ts.len(),
{
    if !has_ink(ts) {
        Seq::empty()
    } else if is_ink(ts.last()) {
        ts
    } else if is_escape(ts.last()) {
        trim_tokens(ts.drop_last()).push(ts.last())
    } else {
        trim_tokens(ts.drop_last())
    }
}

/// The escape sequences among the tokens, in order.
pub open spec fn escapes_only(ts: Seq<Seq<char>>) -> Seq<Seq<char>>
    decreases ts.len(),
{
    if ts.len() == 0 {
        Seq::empty()
    } else if is_escape(ts.last()) {
        escapes_only(ts.drop_last()).push(ts.last())
    } else {
        escapes_only(ts.drop_last())
    }
}

/// A line without its trailing spaces; escape sequences are kept.
pub open spec fn spec_trim_trailing_spaces(line: Seq<char>) -> Seq<char> {
    concat(trim_tokens(tokens(line)))
}

/// The tokens up to the visible character that would be column `width`
/// (counting from zero); escape sequences before it are kept.
pub open spec fn clip_tokens(ts: Seq<Seq<char>>, width: nat) -> Seq<Seq<char>>
    decreases ts.len(),
{
    if ts.len() == 0 {
        Seq::empty()
    } else if is_escape(ts[0]) {
        seq![ts[0]] + clip_tokens(ts.drop_first(), width)
    } else if width == 0 {
        Seq::empty()
    } else {
        seq![ts[0]] + clip_tokens(ts.drop_first(), (width - 1) as nat)
    }
}

/// A line cut to the terminal width, if one is known.
pub open spec fn spec_clip_line(line: Seq<char>, terminal_width: Option<usize>) -> Seq<char> {
    match terminal_width {
        None => line,
        Some(w) => concat(clip_tokens(tokens(line), w as nat)),
    }
}

/// The widest of the lines once their trailing spaces are removed.
pub open spec fn max_trimmed_width(lines: Seq<Seq<char>>) -> nat
    decreases lines.len(),
{
    if lines.len() == 0 {
        0
    } else {
        let rest = max_trimmed_width(lines.drop_last());
        let w = spec_display_width(spec_trim_trailing_spaces(lines.last()));
        if w > rest {
            w
        } else {
            rest
        }
    }
}

/// The tokens joined into characters.
fn concat_tokens(ts: &Vec<Vec<char>>, out: &mut Vec<char>)
    ensures
        final(out)@ == old(out)@ + concat(ts.deep_view()),
{
    let ghost all = ts.deep_view();
    let mut i: usize = 0;
    assert(all.skip(0) =~= all);
    while i < ts.len()
        invariant
            all == ts.deep_view(),
            i <= all.len(),
            out@ + concat(all.skip(i as int)) == old(out)@ + concat(all),
        decreases all.len() - i,
    {
        assert(all.skip(i as int).drop_first() =~= all.skip(i + 1));
        assert(all.skip(i as int)[0] == ts@[i as int]@);
        let ghost before = out@;
        extend_chars(out, ts[i].as_slice());
        assert(out@ + concat(all.skip(i + 1)) =~= before + concat(all.skip(i as int)));
        i = i + 1;
    }
    assert(concat(all.skip(i as int)) =~= Seq::<char>::empty());
    assert(out@ + Seq::<char>::empty() =~= out@);
}

proof fn lemma_trim_from_last_ink(ts: Seq<Seq<char>>, last: int)
    requires
        0 <= last < ts.len(),
        is_ink(ts[last]),
        forall|j: int| last < j < ts.len() ==> !is_ink(#[trigger] ts[j]),
    ensures
        trim_tokens(ts) == ts.take(last + 1) + escapes_only(ts.skip(last + 1)),
    decreases ts.len(),
{
    assert(has_ink(ts));
    if ts.len() == last + 1 {
        assert(ts.take(last + 1) =~= ts);
        assert(ts.skip(last + 1) =~= Seq::<Seq<char>>::empty());
        assert(ts.take(last + 1) + Seq::<Seq<char>>::empty() =~= ts);
    } else {
        let d = ts.drop_last();
        assert forall|j: int| last < j < d.len() implies !is_ink(#[trigger] d[j]) by {
            assert(d[j] == ts[j]);
        }
        assert(d[last] == ts[last]);
        lemma_trim_from_last_ink(d, last);
        assert(d.take(last + 1) =~= ts.take(last + 1));
        assert(ts.skip(last + 1).drop_last() =~= d.skip(last + 1));
        assert(ts.skip(last + 1).last() == ts.last());
        assert(!is_ink(ts.last()));
    }
}

/// Removes the spaces after the last visible non-space character, keeping
/// the ANSI escape sequences there; a line without any visible non-space
/// character becomes empty.
pub fn trim_trailing_spaces(line: &str) -> (r: String)
    ensures
        r@ == spec_trim_trailing_spaces(line@),
{
    let chars = chars_of(line);
    string_of(trim_chars(&chars).as_slice())
}

/// `trim_trailing_spaces` on characters.
pub fn trim_chars(chars: &Vec<char>) -> (r: Vec<char>)
    ensures
        r@ == spec_trim_trailing_spaces(chars@),
{
    let ts = ansi_tokens(chars);
    let ghost all = ts.deep_view();
    let n = ts.len();
    let mut k: usize = n;
    while k > 0 && !(ts[k - 1].len() > 0 && ts[k - 1][0] != '\x1b' && !(ts[k - 1].len() == 1
        && ts[k - 1][0] == ' '))
        invariant
            all == ts.deep_view(),
            all == tokens(chars@),
            n == all.len(),
            k <= n,
            forall|j: int| k <= j < n ==> !is_ink(#[trigger] all[j]),
        decreases k,
    {
        proof {
            crate::terminal::lemma_tokens_concat(chars@);
            let t = all[k - 1];
            assert(t == ts@[k - 1]@);
            if t.len() == 1 && t[0] == ' ' {
                assert(t =~= seq![' ']);
            }
        }
        k = k - 1;
    }
    let mut out: Vec<char> = Vec::new();
    if k == 0 {
        assert(!has_ink(all));
        return out;
    }
    let last = k - 1;
    proof {
        let t = all[last as int];
        assert(t == ts@[last as int]@);
        assert(t != seq![' ']) by {
            if t =~= seq![' '] {
            }
        }
        lemma_trim_from_last_ink(all, last as int);
    }
    let mut i: usize = 0;
    while i < k
        invariant
            all == ts.deep_view(),
            n == all.len(),
            i <= k <= n,
            out@ == concat(all.take(i as int)),
        decreases k - i,
    {
        let ghost before = out@;
        extend_chars(&mut out, ts[i].as_slice());
        proof {
            lemma_concat_push(all.take(i as int), all[i as int]);
            assert(all.take(i + 1) =~= all.take(i as int).push(all[i as int]));
        }
        i = i + 1;
    }
    let ghost head = out@;
    let mut rest: Vec<Vec<char>> = Vec::new();
    let mut j: usize = k;
    while j < n
        invariant
            all == ts.deep_view(),
            n == all.len(),
            k <= j <= n,
            rest.deep_view() == escapes_only(all.subrange(k as int, j as int)),
        decreases n - j,
    {
        let ghost old_rest = rest.deep_view();
        let ghost old_v = rest@;
        assert(all.subrange(k as int, j + 1).drop_last() =~= all.subrange(k as int, j as int));
        assert(all.subrange(k as int, j + 1).last() == all[j as int]);
        assert(all[j as int] == ts@[j as int]@);
        if ts[j].len() > 0 && ts[j][0] == '\x1b' {
            let token = ts[j].clone();
            rest.push(token);
            assert(rest.deep_view() =~= old_rest.push(all[j as int])) by {
                assert forall|m: int| 0 <= m < rest.deep_view().len() implies rest.deep_view()[m]
                    == old_rest.push(all[j as int])[m] by {
                    if m < old_v.len() {
                        assert(rest@[m] == old_v[m]);
                    }
                }
            }
        }
        j = j + 1;
    }
    assert(all.subrange(k as int, n as int) =~= all.skip(k as int));
    concat_tokens(&rest, &mut out);
    proof {
        lemma_concat_append(all.take(k as int), escapes_only(all.skip(k as int)));
    }
    out
}

/// Joining tokens distributes over appending one more.
pub proof fn lemma_concat_push(ts: Seq<Seq<char>>, t: Seq<char>)
    ensures
        concat(ts.push(t)) == concat(ts) + t,
    decreases ts.len(),
{
    if ts.len() == 0 {
        assert(ts.push(t).drop_first() =~= Seq::<Seq<char>>::empty());
        assert(concat(ts.push(t).drop_first()) == Seq::<char>::empty());
        assert(ts.push(t)[0] == t);
        assert(t + Seq::<char>::empty() =~= t);
        assert(Seq::<char>::empty() + t =~= t);
    } else {
        assert(ts.push(t).drop_first() =~= ts.drop_first().push(t));
        lemma_concat_push(ts.drop_first(), t);
        assert(ts[0] + (concat(ts.drop_first()) + t) =~= (ts[0] + concat(ts.drop_first())) + t);
    }
}

/// Cuts a line after `terminal_width` visible characters without splitting
/// ANSI escape sequences; escape sequences that come before the next
/// visible character are kept. Without a width the line is unchanged.
pub fn clip_line(line: &str, terminal_width: Option<usize>) -> (r: String)
    ensures
        r@ == spec_clip_line(line@, terminal_width),
{
    let chars = chars_of(line);
    string_of(clip_chars(&chars, terminal_width).as_slice())
}

/// `clip_line` on characters.
pub fn clip_chars(chars: &Vec<char>, terminal_width: Option<usize>) -> (r: Vec<char>)
    ensures
        r@ == spec_clip_line(chars@, terminal_width),
{
    let width = match terminal_width {
        None => {
            return chars.clone();
        },
        Some(w) => w,
    };
    let ts = ansi_tokens(chars);
    let ghost all = ts.deep_view();
    let mut out: Vec<char> = Vec::new();
    let mut budget: usize = width;
    let mut i: usize = 0;
    assert(all.skip(0) =~= all);
    while i < ts.len()
        invariant
            all == ts.deep_view(),
            all == tokens(chars@),
            terminal_width == Some(width),
            i <= all.len(),
            out@ + concat(clip_tokens(all.skip(i as int), budget as nat)) == concat(
                clip_tokens(all, width as nat),
            ),
        decreases all.len() - i,
    {
        let ghost rest = all.skip(i as int);
        assert(rest.drop_first() =~= all.skip(i + 1));
        assert(rest[0] == ts@[i as int]@);
        let is_esc = ts[i].len() > 0 && ts[i][0] == '\x1b';
        if !is_esc && budget == 0 {
            assert(clip_tokens(rest, 0) =~= Seq::<Seq<char>>::empty());
            assert(concat(Seq::<Seq<char>>::empty()) == Seq::<char>::empty());
            assert(out@ + Seq::<char>::empty() =~= out@);
            return out;
        }
        let ghost before = out@;
        extend_chars(&mut out, ts[i].as_slice());
        proof {
            let next_budget: nat = if is_esc {
                budget as nat
            } else {
                (budget - 1) as nat
            };
            assert(clip_tokens(rest, budget as nat) == seq![rest[0]] + clip_tokens(
                rest.drop_first(),
                next_budget,
            ));
            lemma_concat_append(seq![rest[0]], clip_tokens(rest.drop_first(), next_budget));
            assert(concat(seq![rest[0]]) =~= rest[0]) by {
                assert(seq![rest[0]].drop_first() =~= Seq::<Seq<char>>::empty());
                assert(concat(seq![rest[0]].drop_first()) == Seq::<char>::empty());
                assert(rest[0] + Seq::<char>::empty() =~= rest[0]);
            }
            assert(out@ + concat(clip_tokens(all.skip(i + 1), next_budget)) =~= before + concat(
                clip_tokens(rest, budget as nat),
            ));
        }
        if !is_esc {
            budget = budget - 1;
        }
        i = i + 1;
    }
    assert(clip_tokens(all.skip(i as int), budget as nat) =~= Seq::<Seq<char>>::empty());
    assert(out@ + Seq::<char>::empty() =~= out@);
    out
}

/// The width of the widest line once trailing spaces are removed; zero
/// for no lines.
pub fn output_width(lines: &[String]) -> (width: usize)
    ensures
        width == max_trimmed_width(lines@.map_values(|l: String| l@)),
{
    let ghost views = lines@.map_values(|l: String| l@);
    let mut width: usize = 0;
    let mut i: usize = 0;
    while i < lines.len()
        invariant
            views == lines@.map_values(|l: String| l@),
            i <= lines@.len(),
            width == max_trimmed_width(views.take(i as int)),
        decreases lines@.len() - i,
    {
        let trimmed = trim_trailing_spaces(lines[i].as_str());
        let w = display_width(trimmed.as_str());
        assert(views.take(i + 1).drop_last() =~= views.take(i as int));
        assert(views.take(i + 1).last() == lines@[i as int]@);
        if w > width {
            width = w;
        }
        i = i + 1;
    }
    assert(views.take(i as int) =~= views);
    width
}

/// The kept tokens are the first ones, show at most `width` visible
/// characters, and are all of them when those fit.
proof fn lemma_clip_tokens(ts: Seq<Seq<char>>, width: nat)
    ensures
        clip_tokens(ts, width).len() <= ts.len(),
        clip_tokens(ts, width) == ts.take(clip_tokens(ts, width).len() as int),
        visible_count(clip_tokens(ts, width)) <= width,
        visible_count(ts) <= width ==> clip_tokens(ts, width) == ts,
        visible_count(clip_tokens(ts, width)) == if visible_count(ts) < width {
            visible_count(ts)
        } else {
            width
        },
        clip_tokens(ts, width).len() < ts.len() ==> !is_escape(ts[clip_tokens(ts, width).len() as int])
            && visible_count(clip_tokens(ts, width)) == width,
    decreases ts.len(),
{
    if ts.len() == 0 {
        assert(ts.take(0) =~= ts);
    } else {
        let rest = ts.drop_first();
        if is_escape(ts[0]) || width > 0 {
            let next: nat = if is_escape(ts[0]) {
                width
            } else {
                (width - 1) as nat
            };
            lemma_clip_tokens(rest, next);
            let kept = clip_tokens(ts, width);
            let tail = clip_tokens(rest, next);
            assert(kept == seq![ts[0]] + tail);
            assert(kept.drop_first() =~= tail);
            assert(kept =~= ts.take(kept.len() as int)) by {
                assert forall|j: int| 0 <= j < kept.len() implies kept[j] == ts.take(
                    kept.len() as int,
                )[j] by {
                    if j > 0 {
                        assert(kept[j] == tail[j - 1]);
                        assert(tail[j - 1] == rest.take(tail.len() as int)[j - 1]);
                    }
                }
            }
            if visible_count(ts) <= width {
                assert(seq![ts[0]] + rest =~= ts);
            }
            if kept.len() < ts.len() {
                assert(ts[kept.len() as int] == rest[tail.len() as int]);
            }
        } else {
            assert(ts.take(0) =~= Seq::<Seq<char>>::empty());
        }
    }
}

/// Clipping cuts a line at a token boundary: the result is a prefix of
/// the line, splits into exactly the tokens that were kept (no escape
/// sequence is cut), is as wide as the smaller of `width` and the line,
/// is the whole line when that fits, and otherwise stops just before a
/// visible character (it keeps every escape sequence up to there).
/// Without a width the line is unchanged.
pub proof fn law_clip_line(line: Seq<char>, width: usize)
    ensures
        spec_clip_line(line, None) == line,
        spec_clip_line(line, Some(width)) == line.take(spec_clip_line(line, Some(width)).len() as int),
        tokens(spec_clip_line(line, Some(width))) == clip_tokens(tokens(line), width as nat),
        spec_display_width(spec_clip_line(line, Some(width))) <= width,
        spec_display_width(spec_clip_line(line, Some(width))) == if spec_display_width(line) < width {
            spec_display_width(line)
        } else {
            width as nat
        },
        spec_display_width(line) <= width ==> spec_clip_line(line, Some(width)) == line,
        clip_tokens(tokens(line), width as nat).len() < tokens(line).len() ==> !is_escape(
            tokens(line)[clip_tokens(tokens(line), width as nat).len() as int],
        ),
        forall|j: int|
            spec_clip_line(line, Some(width)).len() < j <= line.len() ==> spec_display_width(
                #[trigger] line.take(j),
            ) > width,
{
    let ts = tokens(line);
    lemma_tokens_well_formed(line);
    lemma_tokens_concat(line);
    lemma_clip_tokens(ts, width as nat);
    let kept = clip_tokens(ts, width as nat);
    let m = kept.len() as int;
    lemma_well_formed_take(ts, m);
    lemma_retokenize(kept);
    let c = concat(kept);
    assert(ts.take(m) + ts.skip(m) =~= ts);
    lemma_concat_append(ts.take(m), ts.skip(m));
    assert(line == c + concat(ts.skip(m)));
    assert(line.take(c.len() as int) =~= c);
    if m < ts.len() {
        let rest = concat(ts.skip(m));
        assert(all_closed(kept)) by {
            assert forall|j: int| 0 <= j < kept.len() implies is_closed_token(#[trigger] kept[j]) by {
                assert(kept[j] == ts[j]);
                assert(j < ts.len() - 1);
            }
        }
        let x = ts[m];
        assert(ts.skip(m)[0] == x);
        assert(rest == x + concat(ts.skip(m).drop_first()));
        assert(is_closed_token(x) || is_open_escape(x));
        assert(x.len() == 1 && x[0] != esc());
        assert(rest[0] == x[0]);
        assert forall|j: int| c.len() < j <= line.len() implies spec_display_width(#[trigger] line.take(j))
            > width by {
            let r = rest.take(j - c.len());
            assert(line.take(j) =~= c + r);
            lemma_tokens_after_closed(kept, r);
            crate::terminal::lemma_visible_count_append(kept, tokens(r));
            assert(r[0] == rest[0]);
            lemma_width_from_visible_start(r);
        }
    } else {
        assert(kept.len() == ts.len());
        assert(kept =~= ts);
    }
}

/// The tokens end with a visible non-space character followed by escape
/// sequences only.
pub open spec fn ends_with_ink(ts: Seq<Seq<char>>) -> bool {
    exists|last: int|
        0 <= last < ts.len() && is_ink(#[trigger] ts[last]) && forall|j: int|
            last < j < ts.len() ==> is_escape(#[trigger] ts[j])
}

/// One more token adds one visible character unless it is an escape
/// sequence.
proof fn lemma_visible_count_push(ts: Seq<Seq<char>>, t: Seq<char>)
    ensures
        visible_count(ts.push(t)) == visible_count(ts) + (if is_escape(t) {
            0nat
        } else {
            1nat
        }),
    decreases ts.len(),
{
    if ts.len() == 0 {
        assert(ts.push(t).drop_first() =~= Seq::<Seq<char>>::empty());
        assert(ts.push(t)[0] == t);
        assert(visible_count(ts.push(t).drop_first()) == 0);
    } else {
        assert(ts.push(t).drop_first() =~= ts.drop_first().push(t));
        assert(ts.push(t)[0] == ts[0]);
        lemma_visible_count_push(ts.drop_first(), t);
    }
}

/// A visible non-space character before the last token.
proof fn lemma_ink_before_last(ts: Seq<Seq<char>>)
    requires
        has_ink(ts),
        !is_ink(ts.last()),
    ensures
        has_ink(ts.drop_last()),
{
    let j = choose|j: int| 0 <= j < ts.len() && is_ink(#[trigger] ts[j]);
    assert(j != ts.len() - 1);
    assert(ts.drop_last()[j] == ts[j]);
}

/// Trimming keeps the tokens well-formed, adds no visible character,
/// keeps every escape sequence of a line with ink, and leaves it ending
/// in ink.
proof fn lemma_trim_tokens(ts: Seq<Seq<char>>)
    requires
        well_formed_tokens(ts),
    ensures
        well_formed_tokens(trim_tokens(ts)),
        all_closed(ts) ==> all_closed(trim_tokens(ts)),
        visible_count(trim_tokens(ts)) <= visible_count(ts),
        has_ink(ts) ==> escapes_only(trim_tokens(ts)) == escapes_only(ts),
        has_ink(ts) ==> ends_with_ink(trim_tokens(ts)),
    decreases ts.len(),
{
    let t = trim_tokens(ts);
    if !has_ink(ts) {
        assert(t =~= Seq::<Seq<char>>::empty());
    } else if is_ink(ts.last()) {
        assert(t == ts);
        assert(is_ink(t[t.len() - 1]));
    } else {
        let d = ts.drop_last();
        let l = ts.last();
        assert(ts =~= d.push(l));
        assert(all_closed(d)) by {
            assert forall|j: int| 0 <= j < d.len() implies is_closed_token(#[trigger] d[j]) by {
                assert(d[j] == ts[j]);
            }
        }
        lemma_ink_before_last(ts);
        lemma_trim_tokens(d);
        lemma_visible_count_push(d, l);
        let td = trim_tokens(d);
        let last = choose|last: int|
            0 <= last < td.len() && is_ink(#[trigger] td[last]) && forall|j: int|
                last < j < td.len() ==> is_escape(#[trigger] td[j]);
        if is_escape(l) {
            assert(t == td.push(l));
            lemma_visible_count_push(td, l);
            assert(t.drop_last() =~= td);
            assert(escapes_only(t) == escapes_only(td).push(l));
            assert(well_formed_tokens(t)) by {
                assert forall|j: int| 0 <= j < t.len() implies is_closed_token(#[trigger] t[j]) || (j
                    == t.len() - 1 && is_open_escape(t[j])) by {
                    if j < td.len() {
                        assert(t[j] == td[j]);
                    } else {
                        assert(t[j] == l);
                        assert(l == ts[ts.len() - 1]);
                    }
                }
            }
            if all_closed(ts) {
                assert forall|j: int| 0 <= j < t.len() implies is_closed_token(#[trigger] t[j]) by {
                    if j < td.len() {
                        assert(t[j] == td[j]);
                    } else {
                        assert(l == ts[ts.len() - 1]);
                    }
                }
            }
            assert(t[last] == td[last]);
            assert forall|j: int| last < j < t.len() implies is_escape(#[trigger] t[j]) by {
                if j < td.len() {
                    assert(t[j] == td[j]);
                }
            }
        } else {
            assert(t == td);
        }
    }
}

/// `s` without the spaces at its end.
pub open spec fn trim_end_spaces(s: Seq<char>) -> Seq<char>
    decreases s.len(),
{
    if s.len() > 0 && s.last() == ' ' {
        trim_end_spaces(s.drop_last())
    } else {
        s
    }
}

/// The text shown by one more token.
proof fn lemma_visible_text_push(ts: Seq<Seq<char>>, t: Seq<char>)
    ensures
        visible_text(ts.push(t)) == visible_text(ts) + (if is_escape(t) {
            Seq::<char>::empty()
        } else {
            t
        }),
{
    assert(ts.push(t) =~= ts + seq![t]);
    lemma_visible_text_append(ts, seq![t]);
    lemma_single_token(t);
}

/// Without a visible non-space character the text shown is all spaces,
/// and nothing is left once trailing spaces go.
proof fn lemma_no_ink_text(ts: Seq<Seq<char>>)
    requires
        well_formed_tokens(ts),
        !has_ink(ts),
    ensures
        trim_end_spaces(visible_text(ts)) == Seq::<char>::empty(),
        forall|i: int| 0 <= i < visible_text(ts).len() ==> #[trigger] visible_text(ts)[i] == ' ',
    decreases ts.len(),
{
    if ts.len() > 0 {
        let d = ts.drop_last();
        let l = ts.last();
        assert(ts =~= d.push(l));
        assert(well_formed_tokens(d)) by {
            assert forall|j: int| 0 <= j < d.len() implies is_closed_token(#[trigger] d[j]) || (j
                == d.len() - 1 && is_open_escape(d[j])) by {
                assert(d[j] == ts[j]);
            }
        }
        assert(!has_ink(d)) by {
            if has_ink(d) {
                let j = choose|j: int| 0 <= j < d.len() && is_ink(#[trigger] d[j]);
                assert(ts[j] == d[j]);
            }
        }
        assert(!is_ink(ts[ts.len() - 1]));
        lemma_no_ink_text(d);
        lemma_visible_text_push(d, l);
        let v = visible_text(ts);
        if !is_escape(l) {
            assert(is_closed_token(ts[ts.len() - 1]));
            assert(l =~= seq![' ']);
            assert(v.drop_last() =~= visible_text(d));
        } else {
            assert(v =~= visible_text(d));
        }
    } else {
        assert(visible_text(ts) =~= Seq::<char>::empty());
    }
}

/// Trimming the tokens shows the text with its trailing spaces removed.
proof fn lemma_trim_text(ts: Seq<Seq<char>>)
    requires
        well_formed_tokens(ts),
    ensures
        visible_text(trim_tokens(ts)) == trim_end_spaces(visible_text(ts)),
    decreases ts.len(),
{
    if !has_ink(ts) {
        lemma_no_ink_text(ts);
        assert(trim_tokens(ts) =~= Seq::<Seq<char>>::empty());
        assert(visible_text(trim_tokens(ts)) =~= Seq::<char>::empty());
    } else {
        let d = ts.drop_last();
        let l = ts.last();
        assert(ts =~= d.push(l));
        assert(is_closed_token(ts[ts.len() - 1]) || is_open_escape(ts[ts.len() - 1]));
        lemma_visible_text_push(d, l);
        let v = visible_text(ts);
        if is_ink(l) {
            assert(trim_tokens(ts) == ts);
            assert(l.len() == 1);
            assert(l =~= seq![l[0]]);
            assert(l[0] != ' ');
            assert(v.last() == l[0]);
            assert(trim_end_spaces(v) == v);
        } else {
            assert(well_formed_tokens(d)) by {
                assert forall|j: int| 0 <= j < d.len() implies is_closed_token(#[trigger] d[j]) || (
                j == d.len() - 1 && is_open_escape(d[j])) by {
                    assert(d[j] == ts[j]);
                }
            }
            lemma_trim_text(d);
            let td = trim_tokens(d);
            if is_escape(l) {
                lemma_visible_text_push(td, l);
                assert(visible_text(ts) =~= visible_text(d));
                assert(visible_text(td.push(l)) =~= visible_text(td));
            } else {
                assert(l =~= seq![' ']);
                assert(v.drop_last() =~= visible_text(d));
            }
        }
    }
}

/// Trimming removes only the spaces after the last visible non-space
/// character: the result splits into exactly the tokens kept, is never
/// wider than the line, keeps every escape sequence of a line that has a
/// visible non-space character and ends with such a character followed
/// only by escape sequences; a line without one becomes empty.
pub proof fn law_trim_trailing_spaces(line: Seq<char>)
    ensures
        tokens(spec_trim_trailing_spaces(line)) == trim_tokens(tokens(line)),
        spec_display_width(spec_trim_trailing_spaces(line)) <= spec_display_width(line),
        has_ink(tokens(line)) ==> escapes_only(tokens(spec_trim_trailing_spaces(line)))
            == escapes_only(tokens(line)),
        has_ink(tokens(line)) ==> ends_with_ink(tokens(spec_trim_trailing_spaces(line))),
        !has_ink(tokens(line)) ==> spec_trim_trailing_spaces(line) == Seq::<char>::empty(),
        spec_strip_ansi(spec_trim_trailing_spaces(line)) == trim_end_spaces(spec_strip_ansi(line)),
{
    let ts = tokens(line);
    lemma_tokens_well_formed(line);
    lemma_trim_tokens(ts);
    lemma_trim_text(ts);
    lemma_retokenize(trim_tokens(ts));
    if !has_ink(ts) {
        assert(trim_tokens(ts) =~= Seq::<Seq<char>>::empty());
    }
}

} // verus!
