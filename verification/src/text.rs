//! Character-sequence helpers shared by the formatters and renderers:
//! conversions between `str`/`String` and `Vec<char>`, numerals in a
//! radix, zero padding, and digit grouping.

use vstd::prelude::*;

verus! {

/// Appends one character to a `String` (`String::push`): the documented
/// effect is that the character is added at the end.
#[verifier::external_body]
pub(crate) fn string_push(s: &mut String, c: char)
    ensures
        final(s)@ == old(s)@.push(c),
{
    s.push(c);
}

/// The characters of a string slice, in order.
pub fn chars_of(s: &str) -> (v: Vec<char>)
    ensures
        v@ == s@,
{
    let mut v: Vec<char> = Vec::new();
    for c in it: s.chars()
        invariant
            v@ == it.seq().take(it.index() as int),
    {
        v.push(c);
    }
    v
}

/// A `String` holding exactly the given characters.
pub fn string_of(chars: &[char]) -> (s: String)
    ensures
        s@ == chars@,
{
    let mut s = String::new();
    let mut i: usize = 0;
    while i < chars.len()
        invariant
            i <= chars@.len(),
            s@ == chars@.take(i as int),
        decreases chars@.len() - i,
    {
        string_push(&mut s, chars[i]);
        assert(chars@.take(i as int + 1) =~= chars@.take(i as int).push(chars@[i as int]));
        i = i + 1;
    }
    assert(chars@.take(i as int) =~= chars@);
    s
}

/// Appends all of `more` to `v`.
pub fn extend_chars(v: &mut Vec<char>, more: &[char])
    ensures
        final(v)@ == old(v)@ + more@,
{
    let mut i: usize = 0;
    while i < more.len()
        invariant
            i <= more@.len(),
            v@ == old(v)@ + more@.take(i as int),
        decreases more@.len() - i,
    {
        v.push(more[i]);
        assert(more@.take(i as int + 1) =~= more@.take(i as int).push(more@[i as int]));
        i = i + 1;
    }
    assert(more@.take(i as int) =~= more@);
}

/// Appends the characters of a string slice to `v`.
pub fn extend_str(v: &mut Vec<char>, more: &str)
    ensures
        final(v)@ == old(v)@ + more@,
{
    let more_chars = chars_of(more);
    extend_chars(v, more_chars.as_slice());
}

/// Whether two string slices hold the same characters.
pub fn str_eq(a: &str, b: &str) -> (r: bool)
    ensures
        r == (a@ == b@),
{
    let x = chars_of(a);
    let y = chars_of(b);
    if x.len() != y.len() {
        return false;
    }
    let mut i: usize = 0;
    while i < x.len()
        invariant
            x@ == a@,
            y@ == b@,
            x@.len() == y@.len(),
            i <= x@.len(),
            forall|j: int| 0 <= j < i ==> x@[j] == y@[j],
        decreases x@.len() - i,
    {
        if x[i] != y[i] {
            return false;
        }
        i = i + 1;
    }
    assert(x@ =~= y@);
    true
}

/// `n` copies of the character `c`.
pub open spec fn repeat_char(c: char, n: nat) -> Seq<char> {
    Seq::new(n, |_i: int| c)
}

/// A vector of `n` copies of `c`.
pub fn repeat(c: char, n: usize) -> (v: Vec<char>)
    ensures
        v@ == repeat_char(c, n as nat),
{
    let mut v: Vec<char> = Vec::new();
    let mut i: usize = 0;
    while i < n
        invariant
            i <= n,
            v@ == repeat_char(c, i as nat),
        decreases n - i,
    {
        v.push(c);
        assert(v@ =~= repeat_char(c, (i + 1) as nat));
        i = i + 1;
    }
    v
}

/// The lowercase digit character for a digit value below 16.
pub open spec fn digit_char(d: nat) -> char {
    if d < 10 {
        (('0' as nat) + d) as char
    } else {
        (('a' as nat) + d - 10) as char
    }
}

/// The numeral of `n` in `base`, most significant digit first, with no
/// leading zeroes ("0" for zero).
pub open spec fn digits_in_base(n: nat, base: nat) -> Seq<char>
    decreases n,
{
    if base < 2 || n < base {
        seq![digit_char(n)]
    } else {
        proof {
            assert(n / base < n) by (nonlinear_arith)
                requires
                    base >= 2,
                    n >= base,
            ;
        }
        digits_in_base(n / base, base).push(digit_char(n % base))
    }
}

/// `s` with zeroes added in front until it is at least `width` long.
pub open spec fn zero_padded(s: Seq<char>, width: nat) -> Seq<char> {
    if s.len() < width {
        repeat_char('0', (width - s.len()) as nat) + s
    } else {
        s
    }
}

/// `s` with an underscore between every group of four characters,
/// counting the groups from the right.
pub open spec fn grouped(s: Seq<char>) -> Seq<char>
    decreases s.len(),
{
    if s.len() <= 4 {
        s
    } else {
        grouped(s.take(s.len() - 4)) + seq!['_'] + s.skip(s.len() - 4)
    }
}

/// The digit character for a value below 16.
pub fn digit_to_char(d: u128) -> (c: char)
    requires
        d < 16,
    ensures
        c == digit_char(d as nat),
{
    match d {
        0 => '0',
        1 => '1',
        2 => '2',
        3 => '3',
        4 => '4',
        5 => '5',
        6 => '6',
        7 => '7',
        8 => '8',
        9 => '9',
        10 => 'a',
        11 => 'b',
        12 => 'c',
        13 => 'd',
        14 => 'e',
        _ => 'f',
    }
}

proof fn lemma_digits_step(n: nat, base: nat)
    requires
        2 <= base,
        n >= base,
    ensures
        digits_in_base(n, base) == digits_in_base(n / base, base).push(digit_char(n % base)),
{
}

/// The numeral of `n` in `base` (2 to 16).
pub fn format_radix(n: u128, base: u128) -> (v: Vec<char>)
    requires
        2 <= base <= 16,
    ensures
        v@ == digits_in_base(n as nat, base as nat),
{
    let mut m = n;
    let mut acc: Vec<char> = Vec::new();
    while m >= base
        invariant
            2 <= base <= 16,
            digits_in_base(n as nat, base as nat) == digits_in_base(m as nat, base as nat) + acc@,
        decreases m,
    {
        proof {
            lemma_digits_step(m as nat, base as nat);
        }
        let d = digit_to_char(m % base);
        let ghost old_acc = acc@;
        acc.insert(0, d);
        assert(acc@ =~= seq![d] + old_acc);
        assert(digits_in_base((m / base) as nat, base as nat).push(d) + old_acc
            =~= digits_in_base((m / base) as nat, base as nat) + acc@);
        assert(m / base < m) by (nonlinear_arith)
            requires
                base >= 2,
                m >= base,
        ;
        m = m / base;
    }
    let d = digit_to_char(m);
    let ghost old_acc = acc@;
    acc.insert(0, d);
    assert(acc@ =~= seq![d] + old_acc);
    assert(digits_in_base(m as nat, base as nat) == seq![d]);
    acc
}

/// `s` padded with leading zeroes to at least `width` characters.
pub fn pad_zeros(s: &Vec<char>, width: usize) -> (v: Vec<char>)
    ensures
        v@ == zero_padded(s@, width as nat),
{
    if s.len() < width {
        let mut v = repeat('0', width - s.len());
        extend_chars(&mut v, s.as_slice());
        v
    } else {
        s.clone()
    }
}

/// The first `end` characters of `s` grouped by four from the right.
fn group_prefix(s: &Vec<char>, end: usize) -> (r: Vec<char>)
    requires
        end <= s@.len(),
    ensures
        r@ == grouped(s@.take(end as int)),
    decreases end,
{
    if end <= 4 {
        let mut r: Vec<char> = Vec::new();
        let mut i: usize = 0;
        while i < end
            invariant
                end <= s@.len(),
                i <= end,
                r@ == s@.take(i as int),
            decreases end - i,
        {
            r.push(s[i]);
            assert(s@.take(i as int + 1) =~= s@.take(i as int).push(s@[i as int]));
            i = i + 1;
        }
        r
    } else {
        let mut r = group_prefix(s, end - 4);
        r.push('_');
        let ghost head = r@;
        let mut i: usize = end - 4;
        while i < end
            invariant
                4 <= end <= s@.len(),
                end - 4 <= i <= end,
                r@ == head + s@.subrange(end - 4, i as int),
            decreases end - i,
        {
            r.push(s[i]);
            assert(s@.subrange(end - 4, i as int + 1) =~= s@.subrange(end - 4, i as int).push(
                s@[i as int],
            ));
            i = i + 1;
        }
        let ghost t = s@.take(end as int);
        assert(t.take(t.len() - 4) =~= s@.take(end - 4));
        assert(t.skip(t.len() - 4) =~= s@.subrange(end - 4, end as int));
        r
    }
}

/// `s` with an underscore between groups of four, counted from the right.
pub fn group_by_four(s: &Vec<char>) -> (r: Vec<char>)
    ensures
        r@ == grouped(s@),
{
    let r = group_prefix(s, s.len());
    assert(s@.take(s@.len() as int) =~= s@);
    r
}

} // verus!

verus! {

/// `base` raised to the power `e`.
pub open spec fn power(base: nat, e: nat) -> nat
    decreases e,
{
    if e == 0 {
        1
    } else {
        base * power(base, (e - 1) as nat)
    }
}

/// A numeral in `base` has at most `k` digits exactly when the number is
/// below `base` to the `k`-th power.
pub proof fn lemma_digits_len(n: nat, base: nat, k: nat)
    requires
        base >= 2,
        k >= 1,
    ensures
        digits_in_base(n, base).len() <= k <==> n < power(base, k),
    decreases k,
{
    let p = power(base, (k - 1) as nat);
    assert(power(base, k) == base * p);
    if k == 1 {
        assert(p == 1);
        assert(base * p == base) by (nonlinear_arith)
            requires
                p == 1,
        ;
        if n >= base {
            lemma_digits_step(n, base);
            lemma_digits_nonempty(n / base, base);
        }
    } else {
        lemma_power_positive(base, (k - 1) as nat);
        if n < base {
            assert(p >= 1);
            assert(base * p >= base) by (nonlinear_arith)
                requires
                    p >= 1,
                    base >= 2,
            ;
        } else {
            lemma_digits_step(n, base);
            lemma_digits_len(n / base, base, (k - 1) as nat);
            assert(n / base < p <==> n < base * p) by (nonlinear_arith)
                requires
                    base >= 2,
            ;
        }
    }
}

/// Powers of a positive base are positive.
pub proof fn lemma_power_positive(base: nat, e: nat)
    requires
        base >= 1,
    ensures
        power(base, e) >= 1,
    decreases e,
{
    if e > 0 {
        lemma_power_positive(base, (e - 1) as nat);
        let p = power(base, (e - 1) as nat);
        assert(base * p >= 1) by (nonlinear_arith)
            requires
                base >= 1,
                p >= 1,
        ;
    }
}

/// Every 128-bit number has at most 32 hexadecimal digits.
pub proof fn lemma_hex_numeral_len(n: u128)
    ensures
        1 <= digits_in_base(n as nat, 16).len() <= 32,
{
    assert(power(16, 32) == 0x1_0000_0000_0000_0000_0000_0000_0000_0000nat) by {
        reveal_with_fuel(power, 33);
    }
    lemma_digits_len(n as nat, 16, 32);
    lemma_digits_nonempty(n as nat, 16);
}

/// A numeral has at least one digit.
pub proof fn lemma_digits_nonempty(n: nat, base: nat)
    ensures
        digits_in_base(n, base).len() >= 1,
    decreases n,
{
    if base >= 2 && n >= base {
        lemma_digits_step(n, base);
        assert(n / base < n) by (nonlinear_arith)
            requires
                base >= 2,
                n >= base,
        ;
        lemma_digits_nonempty(n / base, base);
    }
}

} // verus!

verus! {

/// Appends a line of characters to a list of lines.
pub fn push_line(lines: &mut Vec<Vec<char>>, line: Vec<char>)
    ensures
        final(lines).deep_view() == old(lines).deep_view().push(line@),
{
    let ghost old_v = lines@;
    let ghost old_d = lines.deep_view();
    let ghost line_view = line@;
    lines.push(line);
    assert(lines@ == old_v.push(lines@.last()));
    assert(lines.deep_view() =~= old_d.push(line_view)) by {
        assert forall|k: int| 0 <= k < lines.deep_view().len() implies lines.deep_view()[k]
            == old_d.push(line_view)[k] by {
            if k < old_v.len() {
                assert(lines@[k] == old_v[k]);
            }
        }
    }
}

/// Appends a line to a list of strings.
pub fn push_string(lines: &mut Vec<String>, line: String)
    ensures
        final(lines).deep_view() == old(lines).deep_view().push(line@),
{
    let ghost old_v = lines@;
    let ghost old_d = lines.deep_view();
    let ghost line_view = line@;
    lines.push(line);
    assert(lines@ == old_v.push(lines@.last()));
    assert(lines.deep_view() =~= old_d.push(line_view)) by {
        assert forall|k: int| 0 <= k < lines.deep_view().len() implies lines.deep_view()[k]
            == old_d.push(line_view)[k] by {
            if k < old_v.len() {
                assert(lines@[k] == old_v[k]);
            }
        }
    }
}

/// Lines of characters as strings.
pub fn strings_of(lines: &Vec<Vec<char>>) -> (r: Vec<String>)
    ensures
        r.deep_view() == lines.deep_view(),
        r@.len() == lines@.len(),
{
    let ghost d = lines.deep_view();
    let mut r: Vec<String> = Vec::new();
    let mut i: usize = 0;
    while i < lines.len()
        invariant
            d == lines.deep_view(),
            i <= d.len(),
            r.deep_view() == d.take(i as int),
        decreases d.len() - i,
    {
        assert(d[i as int] == lines@[i as int]@);
        push_string(&mut r, string_of(lines[i].as_slice()));
        assert(d.take(i + 1) =~= d.take(i as int).push(d[i as int]));
        i = i + 1;
    }
    assert(d.take(i as int) =~= d);
    r
}

/// Strings as lines of characters.
pub fn lines_of(strings: &[String]) -> (r: Vec<Vec<char>>)
    ensures
        r.deep_view() == strings@.map_values(|s: String| s@),
{
    let ghost d = strings@.map_values(|s: String| s@);
    let mut r: Vec<Vec<char>> = Vec::new();
    let mut i: usize = 0;
    while i < strings.len()
        invariant
            d == strings@.map_values(|s: String| s@),
            i <= d.len(),
            r.deep_view() == d.take(i as int),
        decreases d.len() - i,
    {
        push_line(&mut r, chars_of(strings[i].as_str()));
        assert(d.take(i + 1) =~= d.take(i as int).push(d[i as int]));
        i = i + 1;
    }
    assert(d.take(i as int) =~= d);
    r
}

} // verus!

verus! {

/// Whether two character sequences are equal.
pub fn chars_eq(a: &[char], b: &[char]) -> (r: bool)
    ensures
        r == (a@ == b@),
{
    if a.len() != b.len() {
        return false;
    }
    let mut i: usize = 0;
    while i < a.len()
        invariant
            a@.len() == b@.len(),
            i <= a@.len(),
            forall|j: int| 0 <= j < i ==> a@[j] == b@[j],
        decreases a@.len() - i,
    {
        if a[i] != b[i] {
            return false;
        }
        i = i + 1;
    }
    assert(a@ =~= b@);
    true
}

} // verus!
