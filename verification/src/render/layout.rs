//! Shared visual layout helpers for hex nibbles grouped by four from the
//! right.

use vstd::prelude::*;
use crate::text::{chars_of, extend_chars, lines_of, push_line, repeat, repeat_char, string_of};

verus! {

/// Columns taken by a line's left label and the gap after it.
pub const LEFT_LABEL_WIDTH: usize = 5;

/// Columns between the left label area and the first token.
pub const DATA_INDENT: usize = 0;

/// Columns taken by one hex digit glyph.
pub const HEX_DIGIT_WIDTH: usize = 4;

/// How many wide (group) gaps come before token `index` of `token_count`
/// tokens, when tokens are grouped by four from the right.
pub open spec fn spec_group_gap_count_before(index: nat, token_count: nat) -> nat {
    if index == 0 {
        0
    } else {
        let first_group_width = token_count % 4;
        if first_group_width == 0 {
            index / 4
        } else if index < first_group_width {
            0
        } else {
            (1 + (index - first_group_width) / 4) as nat
        }
    }
}

/// Whether a wide gap separates token `index` from the token before it.
pub open spec fn spec_is_wide_group_gap(index: nat, token_count: nat) -> bool {
    index > 0 && spec_group_gap_count_before(index, token_count) > spec_group_gap_count_before(
        (index - 1) as nat,
        token_count,
    )
}

/// The column where token `index` starts: five columns per token and two
/// more per wide gap before it.
pub open spec fn spec_token_start_column(index: nat, token_count: nat) -> nat {
    DATA_INDENT as nat + index * 5 + spec_group_gap_count_before(index, token_count) * 2
}

/// The number of gaps before `index` that the join places.
pub fn group_gap_count_before(index: usize, token_count: usize) -> (r: usize)
    ensures
        r == spec_group_gap_count_before(index as nat, token_count as nat),
        r <= index,
{
    if index == 0 {
        return 0;
    }
    let first_group_width = token_count % 4;
    if first_group_width == 0 {
        index / 4
    } else if index < first_group_width {
        0
    } else {
        1 + (index - first_group_width) / 4
    }
}

/// Whether a wide gap comes right before token `index`.
pub fn is_wide_group_gap(index: usize, token_count: usize) -> (r: bool)
    ensures
        r == spec_is_wide_group_gap(index as nat, token_count as nat),
{
    index > 0 && group_gap_count_before(index, token_count) > group_gap_count_before(
        index - 1,
        token_count,
    )
}

/// The column where token `index` starts.
pub fn token_start_column(index: usize, token_count: usize) -> (r: usize)
    requires
        index <= usize::MAX / 8,
    ensures
        r == spec_token_start_column(index as nat, token_count as nat),
        r <= 7 * index,
{
    DATA_INDENT + index * 5 + group_gap_count_before(index, token_count) * 2
}

/// The width of the visual area for `token_count` tokens, with room for a
/// label after the last token.
pub open spec fn spec_visual_width(token_count: nat) -> nat {
    if token_count == 0 {
        0
    } else {
        spec_token_start_column((token_count - 1) as nat, token_count) + HEX_DIGIT_WIDTH as nat
            + 10
    }
}

/// The width of the visual area for `token_count` tokens.
pub fn visual_width(token_count: usize) -> (r: usize)
    requires
        token_count <= usize::MAX / 8,
    ensures
        r == spec_visual_width(token_count as nat),
        r <= 7 * token_count + 14,
{
    if token_count == 0 {
        0
    } else {
        token_start_column(token_count - 1, token_count) + HEX_DIGIT_WIDTH + 10
    }
}

/// The separator placed before token `index`: `wide` at a group boundary,
/// `narrow` otherwise.
pub open spec fn separator(index: nat, token_count: nat, narrow: Seq<char>, wide: Seq<char>) -> Seq<
    char,
> {
    if spec_is_wide_group_gap(index, token_count) {
        wide
    } else {
        narrow
    }
}

/// The first `k` tokens joined with separators chosen for all the tokens.
pub open spec fn joined_prefix(
    ts: Seq<Seq<char>>,
    k: nat,
    narrow: Seq<char>,
    wide: Seq<char>,
) -> Seq<char>
    decreases k,
{
    if k == 0 {
        Seq::empty()
    } else {
        joined_prefix(ts, (k - 1) as nat, narrow, wide) + (if k - 1 > 0 {
            separator((k - 1) as nat, ts.len(), narrow, wide)
        } else {
            Seq::empty()
        }) + ts[k - 1]
    }
}

/// All tokens joined, `narrow` between tokens and `wide` between groups of
/// four counted from the right.
pub open spec fn joined(ts: Seq<Seq<char>>, narrow: Seq<char>, wide: Seq<char>) -> Seq<char> {
    joined_prefix(ts, ts.len(), narrow, wide)
}

/// Visual tokens joined by one space, three at group boundaries.
pub open spec fn spec_join_visual_tokens(ts: Seq<Seq<char>>) -> Seq<char> {
    joined(ts, seq![' '], seq![' ', ' ', ' '])
}

/// Tokens joined with `narrow` and `wide` separators.
pub fn join_tokens(tokens: &Vec<Vec<char>>, narrow: &Vec<char>, wide: &Vec<char>) -> (r: Vec<char>)
    ensures
        r@ == joined(tokens.deep_view(), narrow@, wide@),
{
    let ghost ts = tokens.deep_view();
    let n = tokens.len();
    let mut out: Vec<char> = Vec::new();
    let mut k: usize = 0;
    while k < n
        invariant
            ts == tokens.deep_view(),
            n == ts.len(),
            k <= n,
            out@ == joined_prefix(ts, k as nat, narrow@, wide@),
        decreases n - k,
    {
        if k > 0 {
            if is_wide_group_gap(k, n) {
                extend_chars(&mut out, wide.as_slice());
            } else {
                extend_chars(&mut out, narrow.as_slice());
            }
        }
        assert(ts[k as int] == tokens@[k as int]@);
        extend_chars(&mut out, tokens[k].as_slice());
        k = k + 1;
    }
    out
}

/// Joins visual tokens with one space, or three spaces where a group of
/// four (counted from the right) ends.
pub fn join_visual_tokens(tokens: &[String]) -> (r: String)
    ensures
        r@ == spec_join_visual_tokens(tokens@.map_values(|t: String| t@)),
{
    let ts = lines_of(tokens);
    let narrow = repeat(' ', 1);
    let wide = repeat(' ', 3);
    assert(narrow@ =~= seq![' ']);
    assert(wide@ =~= seq![' ', ' ', ' ']);
    string_of(join_tokens(&ts, &narrow, &wide).as_slice())
}

/// The left label of line `index`: the label character at that position,
/// or a space past the end of the labels.
pub open spec fn label_at(labels: Seq<char>, index: int) -> char {
    if 0 <= index < labels.len() {
        labels[index]
    } else {
        ' '
    }
}

/// A line with its left label and the gap after it.
pub open spec fn labeled_line(labels: Seq<char>, index: int, line: Seq<char>) -> Seq<char> {
    seq![label_at(labels, index)] + repeat_char(' ', (LEFT_LABEL_WIDTH - 1) as nat) + line
}

/// Each line with its left label and the gap after it.
pub open spec fn spec_add_left_labels(lines: Seq<Seq<char>>, labels: Seq<char>) -> Seq<Seq<char>> {
    Seq::new(lines.len(), |i: int| labeled_line(labels, i, lines[i]))
}

/// Prefixes each line with the label character at its position (a space
/// past the end of the labels) and a gap up to the data area.
pub fn add_left_labels(lines: Vec<Vec<char>>, labels: &str) -> (r: Vec<Vec<char>>)
    ensures
        r.deep_view() == spec_add_left_labels(lines.deep_view(), labels@),
{
    let label_chars = chars_of(labels);
    let ghost input = lines.deep_view();
    let mut out: Vec<Vec<char>> = Vec::new();
    let mut i: usize = 0;
    while i < lines.len()
        invariant
            input == lines.deep_view(),
            label_chars@ == labels@,
            i <= input.len(),
            out.deep_view() == spec_add_left_labels(input, labels@).take(i as int),
        decreases input.len() - i,
    {
        let label = if i < label_chars.len() {
            label_chars[i]
        } else {
            ' '
        };
        let mut line: Vec<char> = Vec::new();
        line.push(label);
        extend_chars(&mut line, repeat(' ', LEFT_LABEL_WIDTH - 1).as_slice());
        extend_chars(&mut line, lines[i].as_slice());
        assert(input[i as int] == lines@[i as int]@);
        assert(line@ =~= labeled_line(labels@, i as int, input[i as int]));
        push_line(&mut out, line);
        assert(out.deep_view() =~= spec_add_left_labels(input, labels@).take(i + 1));
        i = i + 1;
    }
    assert(spec_add_left_labels(input, labels@).take(i as int) =~= spec_add_left_labels(
        input,
        labels@,
    ));
    out
}

/// `line` with `text` written over it from `column` on; characters that
/// would fall past the end are dropped.
pub open spec fn painted(line: Seq<char>, column: int, text: Seq<char>) -> Seq<char> {
    Seq::new(
        line.len(),
        |j: int|
            if column <= j < column + text.len() {
                text[j - column]
            } else {
                line[j]
            },
    )
}

/// Writes `text` over `line` starting at `column`; characters that would
/// fall before the start or past the end of the line are dropped.
pub fn write_at(line: &mut Vec<char>, column: isize, text: &Vec<char>)
    ensures
        final(line)@ == painted(old(line)@, column as int, text@),
{
    let n = line.len();
    let mut offset: usize = 0;
    while offset < text.len()
        invariant
            n == line@.len(),
            n == old(line)@.len(),
            offset <= text@.len(),
            forall|j: int|
                0 <= j < n ==> #[trigger] line@[j] == (if column <= j < column + offset {
                    text@[j - column]
                } else {
                    old(line)@[j]
                }),
        decreases text@.len() - offset,
    {
        let target: i128 = column as i128 + offset as i128;
        if 0 <= target && target < n as i128 {
            line.set(target as usize, text[offset]);
        }
        offset = offset + 1;
    }
    assert(line@ =~= painted(old(line)@, column as int, text@));
}

} // verus!

verus! {

/// Wide gaps come every four tokens counted from the right: before token
/// `index` exactly when a multiple of four tokens follows it.
pub proof fn law_wide_gaps_every_four_from_right(index: nat, token_count: nat)
    requires
        index < token_count,
    ensures
        spec_is_wide_group_gap(index, token_count) <==> (index > 0 && (token_count - index) % 4
            == 0),
{
}

/// The gap count grows by one exactly at a wide gap.
pub proof fn lemma_gap_count_step(index: nat, token_count: nat)
    requires
        index > 0,
    ensures
        spec_group_gap_count_before(index, token_count) == spec_group_gap_count_before(
            (index - 1) as nat,
            token_count,
        ) + if spec_is_wide_group_gap(index, token_count) {
            1nat
        } else {
            0nat
        },
{
}

proof fn lemma_joined_prefix_len(ts: Seq<Seq<char>>, k: nat, narrow: Seq<char>, wide: Seq<char>)
    requires
        1 <= k <= ts.len(),
        forall|i: int| 0 <= i < ts.len() ==> (#[trigger] ts[i]).len() == 4,
        narrow.len() == 1,
        wide.len() == 3,
    ensures
        joined_prefix(ts, k, narrow, wide).len() == spec_token_start_column(
            (k - 1) as nat,
            ts.len(),
        ) + 4,
    decreases k,
{
    if k > 1 {
        lemma_joined_prefix_len(ts, (k - 1) as nat, narrow, wide);
        lemma_gap_count_step((k - 1) as nat, ts.len());
        let sep = separator((k - 1) as nat, ts.len(), narrow, wide);
        assert(sep.len() == if spec_is_wide_group_gap((k - 1) as nat, ts.len()) {
            3nat
        } else {
            1nat
        });
        assert(joined_prefix(ts, k, narrow, wide) == joined_prefix(ts, (k - 1) as nat, narrow, wide)
            + sep + ts[k - 1]);
    } else {
        assert(joined_prefix(ts, 0, narrow, wide).len() == 0);
        assert(ts[0].len() == 4);
    }
}

proof fn lemma_joined_prefix_extends(ts: Seq<Seq<char>>, k: nat, m: nat, narrow: Seq<char>, wide: Seq<char>)
    requires
        k <= m <= ts.len(),
    ensures
        joined_prefix(ts, m, narrow, wide).take(joined_prefix(ts, k, narrow, wide).len() as int)
            == joined_prefix(ts, k, narrow, wide),
        joined_prefix(ts, k, narrow, wide).len() <= joined_prefix(ts, m, narrow, wide).len(),
    decreases m - k,
{
    if k < m {
        lemma_joined_prefix_extends(ts, k, (m - 1) as nat, narrow, wide);
        let a = joined_prefix(ts, (m - 1) as nat, narrow, wide);
        let b = joined_prefix(ts, m, narrow, wide);
        let p = joined_prefix(ts, k, narrow, wide);
        assert(b.take(a.len() as int) =~= a);
        assert(b.take(p.len() as int) =~= a.take(p.len() as int));
    }
}

/// Tokens four columns wide, joined with one-column separators and
/// three-column ones between groups: token `index` starts at
/// `token_start_column(index, token_count)`.
pub proof fn lemma_token_columns(ts: Seq<Seq<char>>, index: nat, narrow: Seq<char>, wide: Seq<char>)
    requires
        index < ts.len(),
        forall|i: int| 0 <= i < ts.len() ==> (#[trigger] ts[i]).len() == 4,
        narrow.len() == 1,
        wide.len() == 3,
    ensures
        joined(ts, narrow, wide).len() == spec_token_start_column((ts.len() - 1) as nat, ts.len()) + 4,
        joined(ts, narrow, wide).subrange(
            spec_token_start_column(index, ts.len()) as int,
            spec_token_start_column(index, ts.len()) + 4int,
        ) == ts[index as int],
{
    let p = joined_prefix(ts, index + 1, narrow, wide);
    lemma_joined_prefix_len(ts, index + 1, narrow, wide);
    lemma_joined_prefix_len(ts, ts.len(), narrow, wide);
    lemma_joined_prefix_extends(ts, index + 1, ts.len(), narrow, wide);
    let all = joined_prefix(ts, ts.len(), narrow, wide);
    let start: int = spec_token_start_column(index, ts.len()) as int;
    assert(p.len() == start + 4);
    assert(p.subrange(start, start + 4) =~= ts[index as int]);
    assert(all.take(p.len() as int) == p);
    assert(all.subrange(start, start + 4) =~= p.subrange(start, start + 4)) by {
        assert forall|j: int| 0 <= j < 4 implies #[trigger] all.subrange(start, start + 4)[j]
            == p.subrange(start, start + 4)[j] by {
            assert(all.take(p.len() as int)[start + j] == all[start + j]);
        }
    }
}

/// When every token is four columns wide, token `index` of the joined
/// visual tokens starts at `token_start_column(index, token_count)`.
pub proof fn law_token_start_column(ts: Seq<Seq<char>>, index: nat)
    requires
        index < ts.len(),
        forall|i: int| 0 <= i < ts.len() ==> (#[trigger] ts[i]).len() == 4,
    ensures
        spec_join_visual_tokens(ts).subrange(
            spec_token_start_column(index, ts.len()) as int,
            spec_token_start_column(index, ts.len()) + 4int,
        ) == ts[index as int],
{
    lemma_token_columns(ts, index, seq![' '], seq![' ', ' ', ' ']);
}

/// A single token joins to itself.
pub proof fn lemma_joined_one(ts: Seq<Seq<char>>, narrow: Seq<char>, wide: Seq<char>)
    requires
        ts.len() == 1,
    ensures
        joined(ts, narrow, wide) == ts[0],
{
    assert(joined_prefix(ts, 0, narrow, wide) == Seq::<char>::empty());
    assert(Seq::<char>::empty() + Seq::<char>::empty() + ts[0] =~= ts[0]);
}

} // verus!
