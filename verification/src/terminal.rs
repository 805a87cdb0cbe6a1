//! ANSI-aware splitting of lines into escape sequences and visible
//! characters, and the display width that follows from it.

use vstd::prelude::*;
use crate::parse::{parse_digits, spec_parse_digits};
use crate::text::chars_of;

verus! {

/// The escape character that starts an ANSI sequence.
pub open spec fn esc() -> char {
    '\x1b'
}

/// The position just after the first `m` at or after `i`, or the end of
/// `s` when there is none.
pub open spec fn ansi_end(s: Seq<char>, i: int) -> int
    decreases s.len() - i,
{
    if i >= s.len() {
        s.len() as int
    } else if s[i] == 'm' {
        i + 1
    } else {
        ansi_end(s, i + 1)
    }
}

/// The length of the first token of a non-empty line: a whole escape
/// sequence (from the escape character through the next `m`, or to the
/// end of the line) or a single character.
pub open spec fn first_token_len(s: Seq<char>) -> int {
    if s[0] == esc() {
        ansi_end(s, 1)
    } else {
        1
    }
}

pub proof fn lemma_ansi_end_bounds(s: Seq<char>, i: int)
    requires
        0 <= i <= s.len(),
    ensures
        i <= ansi_end(s, i) <= s.len(),
        i < s.len() ==> i < ansi_end(s, i),
    decreases s.len() - i,
{
    if i < s.len() && s[i] != 'm' {
        lemma_ansi_end_bounds(s, i + 1);
    }
}

/// A line split into tokens: escape sequences and single characters.
pub open spec fn tokens(s: Seq<char>) -> Seq<Seq<char>>
    decreases s.len(),
{
    if s.len() == 0 {
        Seq::empty()
    } else {
        proof {
            lemma_ansi_end_bounds(s, 1);
        }
        let k = first_token_len(s);
        seq![s.take(k)] + tokens(s.skip(k))
    }
}

/// Whether a token is an escape sequence.
pub open spec fn is_escape(t: Seq<char>) -> bool {
    t.len() > 0 && t[0] == esc()
}

/// The tokens joined back together.
pub open spec fn concat(ts: Seq<Seq<char>>) -> Seq<char>
    decreases ts.len(),
{
    if ts.len() == 0 {
        Seq::empty()
    } else {
        ts[0] + concat(ts.drop_first())
    }
}

/// The number of visible characters among the tokens.
pub open spec fn visible_count(ts: Seq<Seq<char>>) -> nat
    decreases ts.len(),
{
    if ts.len() == 0 {
        0
    } else {
        (if is_escape(ts[0]) {
            0nat
        } else {
            1nat
        }) + visible_count(ts.drop_first())
    }
}

/// The number of terminal columns a line takes: its characters outside
/// escape sequences.
pub open spec fn spec_display_width(s: Seq<char>) -> nat {
    visible_count(tokens(s))
}

/// Splitting a line into tokens loses and adds nothing, and every token
/// that is not an escape sequence is a single character.
pub proof fn lemma_tokens_concat(s: Seq<char>)
    ensures
        concat(tokens(s)) == s,
        forall|j: int|
            0 <= j < tokens(s).len() ==> (#[trigger] tokens(s)[j]).len() >= 1 && (!is_escape(
                tokens(s)[j],
            ) ==> tokens(s)[j].len() == 1),
    decreases s.len(),
{
    if s.len() > 0 {
        lemma_ansi_end_bounds(s, 1);
        let k = first_token_len(s);
        lemma_tokens_concat(s.skip(k));
        let ts = tokens(s);
        assert(ts.drop_first() =~= tokens(s.skip(k)));
        assert(s.take(k) + s.skip(k) =~= s);
        assert forall|j: int| 0 <= j < ts.len() implies (#[trigger] ts[j]).len() >= 1 && (
        !is_escape(ts[j]) ==> ts[j].len() == 1) by {
            if j > 0 {
                assert(ts[j] == tokens(s.skip(k))[j - 1]);
            }
        }
    }
}

/// Splits a line into escape sequences and single characters.
pub fn ansi_tokens(s: &Vec<char>) -> (ts: Vec<Vec<char>>)
    ensures
        ts.deep_view() == tokens(s@),
{
    let n = s.len();
    let mut ts: Vec<Vec<char>> = Vec::new();
    let mut i: usize = 0;
    assert(s@.skip(0) =~= s@);
    while i < n
        invariant
            n == s@.len(),
            i <= n,
            tokens(s@) == ts.deep_view() + tokens(s@.skip(i as int)),
        decreases n - i,
    {
        let start = i;
        let ghost t = s@.skip(start as int);
        if s[i] == '\x1b' {
            i = i + 1;
            while i < n && s[i] != 'm'
                invariant
                    n == s@.len(),
                    start < i <= n,
                    t == s@.skip(start as int),
                    t[0] == esc(),
                    ansi_end(t, 1) == ansi_end(t, i - start),
                decreases n - i,
            {
                i = i + 1;
            }
            if i < n {
                i = i + 1;
            }
        } else {
            i = i + 1;
        }
        assert(first_token_len(t) == i - start);
        let mut token: Vec<char> = Vec::new();
        let mut j: usize = start;
        while j < i
            invariant
                start <= j <= i <= n,
                n == s@.len(),
                token@ == s@.subrange(start as int, j as int),
            decreases i - j,
        {
            token.push(s[j]);
            assert(s@.subrange(start as int, j + 1) =~= s@.subrange(start as int, j as int).push(
                s@[j as int],
            ));
            j = j + 1;
        }
        let ghost old_ts = ts.deep_view();
        let ghost old_v = ts@;
        let ghost token_view = token@;
        ts.push(token);
        assert(ts@ == old_v.push(ts@.last()));
        assert(ts@.last()@ == token_view);
        assert(ts.deep_view() =~= old_ts.push(token_view)) by {
            assert forall|k: int| 0 <= k < ts.deep_view().len() implies ts.deep_view()[k]
                == old_ts.push(token_view)[k] by {
                if k < old_v.len() {
                    assert(ts@[k] == old_v[k]);
                }
            }
        }
        assert(t.take(i - start) =~= token_view);
        assert(t.skip(i - start) =~= s@.skip(i as int));
        assert(tokens(t) == seq![token_view] + tokens(s@.skip(i as int)));
        assert(ts.deep_view() + tokens(s@.skip(i as int)) =~= old_ts + tokens(t));
    }
    assert(tokens(s@.skip(i as int)) =~= Seq::<Seq<char>>::empty());
    assert(ts.deep_view() + Seq::<Seq<char>>::empty() =~= ts.deep_view());
    ts
}

/// The number of terminal columns a line takes: escape sequences take
/// none, every other character takes one.
pub fn display_width(line: &str) -> (width: usize)
    ensures
        width == spec_display_width(line@),
{
    let chars = chars_of(line);
    let ts = ansi_tokens(&chars);
    let ghost all = ts.deep_view();
    let mut width: usize = 0;
    let mut i: usize = 0;
    proof {
        lemma_visible_count_bound(all);
        lemma_tokens_len(chars@);
    }
    assert(all.skip(0) =~= all);
    while i < ts.len()
        invariant
            all == ts.deep_view(),
            all.len() <= chars@.len(),
            i <= all.len(),
            width <= i,
            width + visible_count(all.skip(i as int)) == visible_count(all),
        decreases all.len() - i,
    {
        assert(all.skip(i as int).drop_first() =~= all.skip(i + 1));
        assert(all.skip(i as int)[0] == all[i as int]);
        if ts[i].len() == 0 || ts[i][0] != '\x1b' {
            width = width + 1;
        }
        i = i + 1;
    }
    width
}

/// The visible count never exceeds the number of tokens.
pub proof fn lemma_visible_count_bound(ts: Seq<Seq<char>>)
    ensures
        visible_count(ts) <= ts.len(),
    decreases ts.len(),
{
    if ts.len() > 0 {
        lemma_visible_count_bound(ts.drop_first());
    }
}

/// A line has no more tokens than characters.
pub proof fn lemma_tokens_len(s: Seq<char>)
    ensures
        tokens(s).len() <= s.len(),
    decreases s.len(),
{
    if s.len() > 0 {
        lemma_ansi_end_bounds(s, 1);
        lemma_tokens_len(s.skip(first_token_len(s)));
    }
}

/// A token as a line splits into it away from the line's end: a single
/// visible character, or an escape sequence through its first `m`.
pub open spec fn is_closed_token(t: Seq<char>) -> bool {
    ||| (t.len() == 1 && t[0] != esc())
    ||| (t.len() >= 2 && t[0] == esc() && t.last() == 'm' && forall|i: int|
        1 <= i < t.len() - 1 ==> #[trigger] t[i] != 'm')
}

/// An escape sequence cut off by the end of its line: no `m` after the
/// escape character.
pub open spec fn is_open_escape(t: Seq<char>) -> bool {
    t.len() >= 1 && t[0] == esc() && forall|i: int| 1 <= i < t.len() ==> #[trigger] t[i] != 'm'
}

/// Tokens as a line splits into: closed tokens, and at most one cut-off
/// escape sequence, at the end.
pub open spec fn well_formed_tokens(ts: Seq<Seq<char>>) -> bool {
    forall|j: int|
        0 <= j < ts.len() ==> is_closed_token(#[trigger] ts[j]) || (j == ts.len() - 1
            && is_open_escape(ts[j]))
}

/// Every token is closed.
pub open spec fn all_closed(ts: Seq<Seq<char>>) -> bool {
    forall|j: int| 0 <= j < ts.len() ==> is_closed_token(#[trigger] ts[j])
}

/// Where the scan for `m` from `i` stops: just after an `m` with none
/// before it, or at the end of a line with no `m` from `i` on.
proof fn lemma_ansi_end_shape(s: Seq<char>, i: int)
    requires
        0 <= i <= s.len(),
    ensures
        forall|k: int| i <= k < ansi_end(s, i) - 1 ==> #[trigger] s[k] != 'm',
        (i < ansi_end(s, i) && s[ansi_end(s, i) - 1] == 'm') || (ansi_end(s, i) == s.len() && forall|
            k: int,
        | i <= k < s.len() ==> #[trigger] s[k] != 'm'),
    decreases s.len() - i,
{
    if i < s.len() && s[i] != 'm' {
        lemma_ansi_end_shape(s, i + 1);
    }
}

/// The scan for `m` from `i` stops just after the first `m`.
proof fn lemma_ansi_end_at(s: Seq<char>, i: int, e: int)
    requires
        0 <= i < e <= s.len(),
        forall|k: int| i <= k < e - 1 ==> #[trigger] s[k] != 'm',
        s[e - 1] == 'm',
    ensures
        ansi_end(s, i) == e,
    decreases e - i,
{
    if i < e - 1 {
        lemma_ansi_end_at(s, i + 1, e);
    }
}

/// Without an `m` from `i` on, the scan runs to the end.
proof fn lemma_ansi_end_none(s: Seq<char>, i: int)
    requires
        0 <= i <= s.len(),
        forall|k: int| i <= k < s.len() ==> #[trigger] s[k] != 'm',
    ensures
        ansi_end(s, i) == s.len(),
    decreases s.len() - i,
{
    if i < s.len() {
        lemma_ansi_end_none(s, i + 1);
    }
}

/// A line splits into well-formed tokens.
pub proof fn lemma_tokens_well_formed(s: Seq<char>)
    ensures
        well_formed_tokens(tokens(s)),
    decreases s.len(),
{
    if s.len() > 0 {
        lemma_ansi_end_bounds(s, 1);
        let k = first_token_len(s);
        lemma_tokens_well_formed(s.skip(k));
        let t = s.take(k);
        let rest = tokens(s.skip(k));
        let ts = tokens(s);
        assert(ts == seq![t] + rest);
        if s[0] == esc() {
            lemma_ansi_end_shape(s, 1);
            if 1 < k && s[k - 1] == 'm' {
                assert forall|i: int| 1 <= i < t.len() - 1 implies #[trigger] t[i] != 'm' by {
                    assert(t[i] == s[i]);
                }
                assert(is_closed_token(t));
            } else {
                assert(k == s.len());
                assert(s.skip(k).len() == 0);
                assert(rest.len() == 0);
                assert forall|i: int| 1 <= i < t.len() implies #[trigger] t[i] != 'm' by {
                    assert(t[i] == s[i]);
                }
                assert(is_open_escape(t));
            }
        }
        assert forall|j: int| 0 <= j < ts.len() implies is_closed_token(#[trigger] ts[j]) || (j
            == ts.len() - 1 && is_open_escape(ts[j])) by {
            if j > 0 {
                assert(ts[j] == rest[j - 1]);
            }
        }
    }
}

/// Well-formed tokens joined together split back into the same tokens.
pub proof fn lemma_retokenize(ts: Seq<Seq<char>>)
    requires
        well_formed_tokens(ts),
    ensures
        tokens(concat(ts)) == ts,
    decreases ts.len(),
{
    if ts.len() == 0 {
        assert(tokens(concat(ts)) =~= ts);
    } else {
        let t = ts[0];
        let rest = ts.drop_first();
        assert forall|j: int| 0 <= j < rest.len() implies is_closed_token(#[trigger] rest[j]) || (j
            == rest.len() - 1 && is_open_escape(rest[j])) by {
            assert(rest[j] == ts[j + 1]);
        }
        lemma_retokenize(rest);
        let c = concat(ts);
        assert(c == t + concat(rest));
        assert(t.len() >= 1);
        assert(c[0] == t[0]);
        if t[0] == esc() {
            if is_closed_token(t) {
                assert forall|k: int| 1 <= k < t.len() - 1 implies #[trigger] c[k] != 'm' by {
                    assert(c[k] == t[k]);
                }
                assert(c[t.len() - 1] == t[t.len() - 1]);
                lemma_ansi_end_at(c, 1, t.len() as int);
            } else {
                assert(ts.len() == 1);
                assert(rest.len() == 0);
                assert(c =~= t);
                lemma_ansi_end_none(c, 1);
            }
        }
        assert(first_token_len(c) == t.len());
        assert(c.take(t.len() as int) =~= t);
        assert(c.skip(t.len() as int) =~= concat(rest));
        assert(tokens(c) =~= seq![t] + rest);
        assert(seq![t] + rest =~= ts);
    }
}

/// A prefix of well-formed tokens is well-formed.
pub proof fn lemma_well_formed_take(ts: Seq<Seq<char>>, m: int)
    requires
        well_formed_tokens(ts),
        0 <= m <= ts.len(),
    ensures
        well_formed_tokens(ts.take(m)),
{
    assert forall|j: int| 0 <= j < ts.take(m).len() implies is_closed_token(#[trigger] ts.take(m)[j])
        || (j == ts.take(m).len() - 1 && is_open_escape(ts.take(m)[j])) by {
        assert(ts.take(m)[j] == ts[j]);
    }
}

/// `s` holds no escape character.
pub open spec fn is_plain(s: Seq<char>) -> bool {
    forall|i: int| 0 <= i < s.len() ==> #[trigger] s[i] != esc()
}

/// Each character of `s` as a token of its own.
pub open spec fn char_tokens(s: Seq<char>) -> Seq<Seq<char>> {
    Seq::new(s.len(), |i: int| seq![s[i]])
}

/// Joining tokens distributes over appending token sequences.
pub proof fn lemma_concat_append(a: Seq<Seq<char>>, b: Seq<Seq<char>>)
    ensures
        concat(a + b) == concat(a) + concat(b),
    decreases a.len(),
{
    if a.len() == 0 {
        assert(a + b =~= b);
        assert(Seq::<char>::empty() + concat(b) =~= concat(b));
    } else {
        assert((a + b).drop_first() =~= a.drop_first() + b);
        lemma_concat_append(a.drop_first(), b);
        assert(a[0] + (concat(a.drop_first()) + concat(b)) =~= (a[0] + concat(a.drop_first()))
            + concat(b));
    }
}

/// Visible characters add up over appended token sequences.
pub proof fn lemma_visible_count_append(a: Seq<Seq<char>>, b: Seq<Seq<char>>)
    ensures
        visible_count(a + b) == visible_count(a) + visible_count(b),
    decreases a.len(),
{
    if a.len() == 0 {
        assert(a + b =~= b);
    } else {
        assert((a + b).drop_first() =~= a.drop_first() + b);
        assert((a + b)[0] == a[0]);
        lemma_visible_count_append(a.drop_first(), b);
    }
}

/// Closed tokens followed by well-formed ones are well-formed.
pub proof fn lemma_well_formed_append(a: Seq<Seq<char>>, b: Seq<Seq<char>>)
    requires
        all_closed(a),
        well_formed_tokens(b),
    ensures
        well_formed_tokens(a + b),
{
    assert forall|j: int| 0 <= j < (a + b).len() implies is_closed_token(#[trigger] (a + b)[j]) || (j
        == (a + b).len() - 1 && is_open_escape((a + b)[j])) by {
        if j < a.len() {
            assert((a + b)[j] == a[j]);
        } else {
            assert((a + b)[j] == b[j - a.len()]);
        }
    }
}

/// The characters of a plain string, one token each, are closed tokens
/// that join back into the string and count one column each.
pub proof fn lemma_char_tokens(s: Seq<char>)
    requires
        is_plain(s),
    ensures
        all_closed(char_tokens(s)),
        concat(char_tokens(s)) == s,
        visible_count(char_tokens(s)) == s.len(),
    decreases s.len(),
{
    let ts = char_tokens(s);
    if s.len() == 0 {
        assert(concat(ts) =~= s);
    } else {
        let rest = s.drop_first();
        assert(is_plain(rest)) by {
            assert forall|i: int| 0 <= i < rest.len() implies #[trigger] rest[i] != esc() by {
                assert(rest[i] == s[i + 1]);
            }
        }
        lemma_char_tokens(rest);
        assert(ts.drop_first() =~= char_tokens(rest));
        assert(ts[0] == seq![s[0]]);
        assert(seq![s[0]] + rest =~= s);
        assert(!is_escape(ts[0]));
        assert forall|j: int| 0 <= j < ts.len() implies is_closed_token(#[trigger] ts[j]) by {
            assert(ts[j] == seq![s[j]]);
        }
    }
}

/// The visible characters of tokens: everything outside escape
/// sequences, in order.
pub open spec fn visible_text(ts: Seq<Seq<char>>) -> Seq<char>
    decreases ts.len(),
{
    if ts.len() == 0 {
        Seq::empty()
    } else {
        (if is_escape(ts[0]) {
            Seq::empty()
        } else {
            ts[0]
        }) + visible_text(ts.drop_first())
    }
}

/// A line without its escape sequences.
pub open spec fn spec_strip_ansi(s: Seq<char>) -> Seq<char> {
    visible_text(tokens(s))
}

/// Visible text adds up over appended token sequences.
pub proof fn lemma_visible_text_append(a: Seq<Seq<char>>, b: Seq<Seq<char>>)
    ensures
        visible_text(a + b) == visible_text(a) + visible_text(b),
    decreases a.len(),
{
    if a.len() == 0 {
        assert(a + b =~= b);
        assert(Seq::<char>::empty() + visible_text(b) =~= visible_text(b));
    } else {
        assert((a + b).drop_first() =~= a.drop_first() + b);
        assert((a + b)[0] == a[0]);
        lemma_visible_text_append(a.drop_first(), b);
        let h = if is_escape(a[0]) {
            Seq::<char>::empty()
        } else {
            a[0]
        };
        assert(h + (visible_text(a.drop_first()) + visible_text(b)) =~= (h + visible_text(
            a.drop_first(),
        )) + visible_text(b));
    }
}

/// One token on its own: what it joins to, shows, and counts.
pub proof fn lemma_single_token(t: Seq<char>)
    ensures
        concat(seq![t]) == t,
        visible_text(seq![t]) == (if is_escape(t) {
            Seq::<char>::empty()
        } else {
            t
        }),
        visible_count(seq![t]) == (if is_escape(t) {
            0nat
        } else {
            1nat
        }),
{
    let one = seq![t];
    assert(one.drop_first() =~= Seq::<Seq<char>>::empty());
    assert(one[0] == t);
    assert(concat(one.drop_first()) == Seq::<char>::empty());
    assert(visible_text(one.drop_first()) == Seq::<char>::empty());
    assert(visible_count(one.drop_first()) == 0);
    assert(t + Seq::<char>::empty() =~= t);
    assert(Seq::<char>::empty() + Seq::<char>::empty() =~= Seq::<char>::empty());
}

/// The characters of a plain string show as the string.
pub proof fn lemma_char_tokens_text(s: Seq<char>)
    requires
        is_plain(s),
    ensures
        visible_text(char_tokens(s)) == s,
    decreases s.len(),
{
    let ts = char_tokens(s);
    if s.len() == 0 {
        assert(visible_text(ts) =~= s);
    } else {
        let rest = s.drop_first();
        assert(is_plain(rest)) by {
            assert forall|i: int| 0 <= i < rest.len() implies #[trigger] rest[i] != esc() by {
                assert(rest[i] == s[i + 1]);
            }
        }
        lemma_char_tokens_text(rest);
        assert(ts.drop_first() =~= char_tokens(rest));
        assert(ts[0] == seq![s[0]]);
        assert(seq![s[0]] + rest =~= s);
    }
}

/// Dropping the first of well-formed tokens leaves them well-formed.
pub proof fn lemma_well_formed_drop_first(ts: Seq<Seq<char>>)
    requires
        well_formed_tokens(ts),
        ts.len() > 0,
    ensures
        well_formed_tokens(ts.drop_first()),
{
    let rest = ts.drop_first();
    assert forall|j: int| 0 <= j < rest.len() implies is_closed_token(#[trigger] rest[j]) || (j
        == rest.len() - 1 && is_open_escape(rest[j])) by {
        assert(rest[j] == ts[j + 1]);
    }
}

/// `t` is made of whole tokens that show exactly the text `p`.
pub open spec fn shows_as(t: Seq<char>, p: Seq<char>) -> bool {
    exists|ts: Seq<Seq<char>>| #[trigger] all_closed(ts) && concat(ts) == t && visible_text(ts) == p
}

/// A plain string shows as itself.
pub proof fn lemma_shows_plain(p: Seq<char>)
    requires
        is_plain(p),
    ensures
        shows_as(p, p),
{
    lemma_char_tokens(p);
    lemma_char_tokens_text(p);
    assert(all_closed(char_tokens(p)));
}

/// A whole escape sequence shows nothing.
pub proof fn lemma_shows_escape(e: Seq<char>)
    requires
        is_closed_token(e),
        is_escape(e),
    ensures
        shows_as(e, Seq::<char>::empty()),
{
    lemma_single_token(e);
    assert(all_closed(seq![e]));
}

/// What two strings show, one after the other.
pub proof fn lemma_shows_append(a: Seq<char>, p: Seq<char>, b: Seq<char>, q: Seq<char>)
    requires
        shows_as(a, p),
        shows_as(b, q),
    ensures
        shows_as(a + b, p + q),
{
    let sa = choose|ts: Seq<Seq<char>>| #[trigger] all_closed(ts) && concat(ts) == a && visible_text(ts) == p;
    let sb = choose|ts: Seq<Seq<char>>| #[trigger] all_closed(ts) && concat(ts) == b && visible_text(ts) == q;
    lemma_concat_append(sa, sb);
    lemma_visible_text_append(sa, sb);
    assert(all_closed(sa + sb)) by {
        assert forall|j: int| 0 <= j < (sa + sb).len() implies is_closed_token(#[trigger] (sa + sb)[j]) by {
            if j < sa.len() {
                assert((sa + sb)[j] == sa[j]);
            } else {
                assert((sa + sb)[j] == sb[j - sa.len()]);
            }
        }
    }
}

/// A string made of whole tokens, stripped of its escape sequences, is
/// the text it shows.
pub proof fn lemma_shows_strip(t: Seq<char>, p: Seq<char>)
    requires
        shows_as(t, p),
    ensures
        spec_strip_ansi(t) == p,
{
    let ts = choose|ts: Seq<Seq<char>>| #[trigger] all_closed(ts) && concat(ts) == t && visible_text(ts) == p;
    assert(well_formed_tokens(ts));
    lemma_retokenize(ts);
}

/// The terminal width a `COLUMNS` value names: a positive decimal number
/// (with an optional `+`) that fits in `usize`, or nothing.
pub open spec fn spec_width_from_columns(value: Seq<char>) -> Option<usize> {
    match spec_parse_digits(value, 10) {
        Some(v) => if 1 <= v <= usize::MAX {
            Some(v as usize)
        } else {
            None
        },
        None => None,
    }
}

/// Reads a `COLUMNS` value as a terminal width.
pub fn width_from_columns(value: &str) -> (r: Option<usize>)
    ensures
        r == spec_width_from_columns(value@),
{
    let chars = chars_of(value);
    match parse_digits(&chars, 10) {
        Some(v) => if 1 <= v && v <= usize::MAX as u128 {
            Some(v as usize)
        } else {
            None
        },
        None => None,
    }
}

/// Whole tokens in front of a line keep the line's own splitting.
pub proof fn lemma_tokens_after_closed(ts: Seq<Seq<char>>, r: Seq<char>)
    requires
        all_closed(ts),
    ensures
        tokens(concat(ts) + r) == ts + tokens(r),
{
    lemma_tokens_well_formed(r);
    lemma_well_formed_append(ts, tokens(r));
    lemma_retokenize(ts + tokens(r));
    lemma_concat_append(ts, tokens(r));
    lemma_tokens_concat(r);
}

/// A line that starts with a visible character is at least one column
/// wide.
pub proof fn lemma_width_from_visible_start(s: Seq<char>)
    requires
        s.len() > 0,
        s[0] != esc(),
    ensures
        visible_count(tokens(s)) >= 1,
{
    let ts = tokens(s);
    assert(first_token_len(s) == 1);
    assert(ts[0] == s.take(1));
    assert(!is_escape(ts[0]));
}

} // verus!
