//! Visualize, decode, and inspect unsigned numbers as bits, hexadecimal
//! digits, and common numeric formats.

pub mod text;
pub mod cli;
pub mod format;
pub mod parse;
pub mod terminal;
pub mod output;
pub mod render;
pub mod command;
pub mod properties;
pub mod monochrome;

use vstd::prelude::*;
use crate::format::{Endian, hex_numeral};
use crate::output::{OutputColor, OutputMode, OutputOptions};
use crate::parse::{
    all_digits, char_digit, numeral_value, remove_underscores, spec_parse_unsigned, to_digit_value,
    without_underscores,
};
use crate::text::{chars_of, format_radix, lemma_digits_len, lemma_hex_numeral_len, power};

verus! {

/// The hex digit width written in the input: the number of digits after
/// `0x`, or the binary digits after `0b` rounded up to whole hex digits;
/// underscores are ignored. None for other inputs or invalid digits.
pub open spec fn spec_inferred_hex_digit_width(input: Seq<char>) -> Option<usize> {
    let s = without_underscores(input);
    if s.len() >= 2 && s[0] == '0' && (s[1] == 'x' || s[1] == 'X') {
        let d = s.skip(2);
        if 0 < d.len() <= 32 && all_digits(d, 16) {
            Some(d.len() as usize)
        } else {
            None
        }
    } else if s.len() >= 2 && s[0] == '0' && (s[1] == 'b' || s[1] == 'B') {
        let d = s.skip(2);
        if 0 < d.len() <= 128 && all_digits(d, 2) {
            Some(((d.len() + 3) / 4) as usize)
        } else {
            None
        }
    } else {
        None
    }
}

fn all_digits_from(s: &Vec<char>, start: usize, radix: u32) -> (r: bool)
    requires
        2 <= radix <= 36,
        start <= s@.len(),
    ensures
        r == all_digits(s@.skip(start as int), radix as nat),
{
    let mut i = start;
    while i < s.len()
        invariant
            2 <= radix <= 36,
            start <= i <= s@.len(),
            all_digits(s@.skip(start as int).take(i - start), radix as nat),
        decreases s@.len() - i,
    {
        let ghost d = s@.skip(start as int);
        assert(d[i - start] == s@[i as int]);
        if to_digit_value(s[i], radix).is_none() {
            return false;
        }
        assert(all_digits(d.take(i + 1 - start), radix as nat)) by {
            assert forall|j: int| 0 <= j < i + 1 - start implies (#[trigger] crate::parse::char_digit(
                d.take(i + 1 - start)[j],
                radix as nat,
            )) is Some by {
                if j < i - start {
                    assert(d.take(i + 1 - start)[j] == d.take(i - start)[j]);
                }
            }
        }
        i = i + 1;
    }
    assert(s@.skip(start as int).take(i - start) =~= s@.skip(start as int));
    true
}

/// An inferred width is between 1 and 32.
pub proof fn lemma_inferred_width_bound(input: Seq<char>)
    ensures
        spec_inferred_hex_digit_width(input) matches Some(w) ==> 1 <= w <= 32,
{
}

/// The hex digit width that the input's own digits ask for, if any.
pub fn inferred_hex_digit_width(input: &str) -> (r: Option<usize>)
    ensures
        r == spec_inferred_hex_digit_width(input@),
{
    let chars = chars_of(input);
    let s = remove_underscores(&chars);
    let n = s.len();
    if n >= 2 && s[0] == '0' && (s[1] == 'x' || s[1] == 'X') {
        let len = n - 2;
        if len > 0 && len <= 32 && all_digits_from(&s, 2, 16) {
            Some(len)
        } else {
            None
        }
    } else if n >= 2 && s[0] == '0' && (s[1] == 'b' || s[1] == 'B') {
        let len = n - 2;
        if len > 0 && len <= 128 && all_digits_from(&s, 2, 2) {
            Some((len + 3) / 4)
        } else {
            None
        }
    } else {
        None
    }
}

/// The number of hexadecimal digits of `number` (at least one).
pub fn hex_digit_count(number: u128) -> (r: usize)
    ensures
        r == hex_numeral(number).len(),
        1 <= r <= 32,
{
    proof {
        lemma_hex_numeral_len(number);
    }
    format_radix(number, 16).len()
}

/// Whether `number` can be written with `hex_digits` hexadecimal digits.
pub fn fits_hex_digits(number: u128, hex_digits: usize) -> (r: bool)
    ensures
        r == (hex_numeral(number).len() <= hex_digits),
{
    hex_digit_count(number) <= hex_digits
}

/// A number fits in `w` hexadecimal digits exactly when it is below 16 to
/// the `w`-th power.
pub proof fn law_fits_hex_digits(number: u128, w: usize)
    requires
        w >= 1,
    ensures
        (hex_numeral(number).len() <= w) <==> (number < power(16, w as nat)),
{
    lemma_digits_len(number as nat, 16, w as nat);
}

/// The output options for the command-line flags.
pub open spec fn spec_output_options(
    no_color: bool,
    little_endian: bool,
    compact: bool,
    text_only: bool,
    hex_digits: Option<usize>,
    color_indexes: Option<[u8; 4]>,
) -> OutputOptions {
    OutputOptions {
        color: if no_color {
            OutputColor::NoColor
        } else if let Some(indexes) = color_indexes {
            OutputColor::Ansi256(indexes)
        } else {
            OutputColor::Color
        },
        mode: if text_only {
            OutputMode::TextOnly
        } else if compact {
            OutputMode::Compact
        } else {
            OutputMode::VisualAndText
        },
        hex_digits,
        endian: if little_endian {
            Endian::Little
        } else {
            Endian::Big
        },
    }
}

/// The output options for the command-line flags: `--no-color` wins over
/// `--colors`, `--text-only` over `--compact`.
pub fn output_options(
    no_color: bool,
    little_endian: bool,
    compact: bool,
    text_only: bool,
    hex_digits: Option<usize>,
    color_indexes: Option<[u8; 4]>,
) -> (r: OutputOptions)
    ensures
        r == spec_output_options(no_color, little_endian, compact, text_only, hex_digits, color_indexes),
{
    let color = if no_color {
        OutputColor::NoColor
    } else if let Some(indexes) = color_indexes {
        OutputColor::Ansi256(indexes)
    } else {
        OutputColor::Color
    };
    let mode = if text_only {
        OutputMode::TextOnly
    } else if compact {
        OutputMode::Compact
    } else {
        OutputMode::VisualAndText
    };
    OutputOptions {
        color,
        mode,
        hex_digits,
        endian: if little_endian {
            Endian::Little
        } else {
            Endian::Big
        },
    }
}

/// A numeral of `k` digits in `radix` is below `radix` to the `k`-th
/// power.
proof fn lemma_numeral_value_bound(d: Seq<char>, radix: nat)
    requires
        radix >= 2,
        all_digits(d, radix),
    ensures
        numeral_value(d, radix) < power(radix, d.len()),
    decreases d.len(),
{
    if d.len() > 0 {
        let p = d.drop_last();
        assert(all_digits(p, radix)) by {
            assert forall|i: int| 0 <= i < p.len() implies (#[trigger] char_digit(p[i], radix)) is Some by {
                assert(p[i] == d[i]);
            }
        }
        lemma_numeral_value_bound(p, radix);
        assert(char_digit(d[d.len() - 1], radix) is Some);
        let v = numeral_value(p, radix);
        let x = match char_digit(d.last(), radix) {
            Some(x) => x,
            None => 0,
        };
        assert(x < radix);
        let q = power(radix, p.len());
        assert(power(radix, d.len()) == radix * q);
        assert(v * radix + x < radix * q) by (nonlinear_arith)
            requires
                v < q,
                x < radix,
        ;
    } else {
        assert(power(radix, 0) == 1);
    }
}

/// Powers grow with the exponent.
proof fn lemma_power_monotone(base: nat, a: nat, b: nat)
    requires
        base >= 1,
        a <= b,
    ensures
        power(base, a) <= power(base, b),
    decreases b - a,
{
    if a < b {
        lemma_power_monotone(base, a, (b - 1) as nat);
        crate::text::lemma_power_positive(base, (b - 1) as nat);
        let q = power(base, (b - 1) as nat);
        assert(power(base, b) == base * q);
        assert(q <= base * q) by (nonlinear_arith)
            requires
                base >= 1,
        ;
    }
}

/// Four binary digits are one hexadecimal digit.
proof fn lemma_two_to_four_k(k: nat)
    ensures
        power(2, 4 * k) == power(16, k),
    decreases k,
{
    if k > 0 {
        lemma_two_to_four_k((k - 1) as nat);
        let e = 4 * (k - 1) as nat;
        assert(power(2, e + 4) == 2 * power(2, e + 3));
        assert(power(2, e + 3) == 2 * power(2, e + 2));
        assert(power(2, e + 2) == 2 * power(2, e + 1));
        assert(power(2, e + 1) == 2 * power(2, e));
        assert(4 * k == e + 4);
    }
}

/// 16 to the 32nd power is one more than the largest `u128`.
proof fn lemma_sixteen_to_32()
    ensures
        power(16, 32) == u128::MAX + 1,
{
    assert(power(16, 32) == 0x1_0000_0000_0000_0000_0000_0000_0000_0000) by {
        reveal_with_fuel(power, 33);
    }
}

/// Digits in base 16 or 2 behind their prefix parse to their value.
proof fn lemma_parse_radix_digits(input: Seq<char>, radix: nat)
    requires
        radix == 16 || radix == 2,
        without_underscores(input).len() >= 2,
        crate::parse::spec_split_radix(without_underscores(input)) == (
            without_underscores(input).skip(2),
            radix,
        ),
        without_underscores(input).skip(2).len() >= 1,
        all_digits(without_underscores(input).skip(2), radix),
        numeral_value(without_underscores(input).skip(2), radix) <= u128::MAX,
    ensures
        spec_parse_unsigned(input) == Ok::<u128, Seq<char>>(
            numeral_value(without_underscores(input).skip(2), radix) as u128,
        ),
{
    let d = without_underscores(input).skip(2);
    let v = numeral_value(d, radix);
    assert(char_digit(d[0], radix) is Some);
    assert(char_digit(d[d.len() - 1], radix) is Some);
    assert(d.last() == d[d.len() - 1]);
    assert(char_digit('K', radix) is None && char_digit('k', radix) is None);
    assert(char_digit('M', radix) is None && char_digit('m', radix) is None);
    assert(char_digit('G', radix) is None && char_digit('g', radix) is None);
    assert(char_digit('+', radix) is None);
    assert(crate::parse::spec_split_size_suffix(d) == (d, 1nat));
    assert(crate::parse::spec_parse_digits(d, radix) == Some(v));
    assert(v * 1 == v);
}

/// A width inferred from the input always holds the value the input
/// parses to: the input parses, and its value fits in that many
/// hexadecimal digits.
pub proof fn law_inferred_width_fits(input: Seq<char>)
    ensures
        spec_inferred_hex_digit_width(input) matches Some(w) ==> (1 <= w <= 32 && (spec_parse_unsigned(
            input,
        ) matches Ok(n) && hex_numeral(n).len() <= w)),
{
    if let Some(w) = spec_inferred_hex_digit_width(input) {
        let s = without_underscores(input);
        let d = s.skip(2);
        let radix: nat = if s[1] == 'x' || s[1] == 'X' {
            16
        } else {
            2
        };
        lemma_numeral_value_bound(d, radix);
        let v = numeral_value(d, radix);
        lemma_sixteen_to_32();
        if radix == 16 {
            lemma_power_monotone(16, d.len(), 32);
        } else {
            lemma_two_to_four_k(w as nat);
            lemma_two_to_four_k(32);
            lemma_power_monotone(2, d.len(), 4 * w as nat);
            lemma_power_monotone(2, 4 * w as nat, 128);
        }
        assert(v < power(16, w as nat));
        lemma_parse_radix_digits(input, radix);
        law_fits_hex_digits(v as u128, w);
    }
}

/// The width inferred from the input counts the digits written: after
/// `0x` (or `0X`) it is the number of hexadecimal digits, and after `0b`
/// (or `0B`) the fewest hexadecimal digits that hold the binary digits,
/// four bits each (`0b1010_1010` gives two).
pub proof fn law_inferred_width_counts_written_digits(input: Seq<char>, digits: Seq<char>)
    ensures
        ((without_underscores(input) == "0x"@ + digits || without_underscores(input) == "0X"@ + digits)
            && 1 <= digits.len() <= 32 && all_digits(digits, 16)) ==> spec_inferred_hex_digit_width(input)
            == Some(digits.len() as usize),
        ((without_underscores(input) == "0b"@ + digits || without_underscores(input) == "0B"@ + digits)
            && 1 <= digits.len() <= 128 && all_digits(digits, 2)) ==> (spec_inferred_hex_digit_width(input) matches Some(w)
            && 4 * w >= digits.len() && 4 * (w - 1) < digits.len()),
{
    reveal_strlit("0x");
    reveal_strlit("0X");
    reveal_strlit("0b");
    reveal_strlit("0B");
    let s = without_underscores(input);
    if s == "0x"@ + digits || s == "0X"@ + digits || s == "0b"@ + digits || s == "0B"@ + digits {
        assert(s.skip(2) =~= digits);
        assert(s[0] == '0');
    }
}

} // verus!
