//! Properties that relate several parts of the library: what the text
//! area prints reads back as the same number, fixed widths are exact,
//! underscores only separate digits, letter case does not matter, and
//! no-color output is plain.

use vstd::prelude::*;
use crate::format::{
    Endian, even_padded, hex_digit_value, hex_numeral, hex_to_bits, nibble_bits,
    spec_display_hex_digits, spec_format_bin, spec_format_hex,
};
use crate::parse::{
    all_digits, char_digit, numeral_value, spec_parse_digits, spec_parse_unsigned,
    spec_split_radix, spec_split_size_suffix, without_underscores,
};
use crate::render::hex::ascii_lowercase;
use crate::text::{digit_char, digits_in_base, grouped, power, repeat_char, zero_padded};

verus! {

proof fn lemma_without_underscores_append(a: Seq<char>, b: Seq<char>)
    ensures
        without_underscores(a + b) == without_underscores(a) + without_underscores(b),
    decreases b.len(),
{
    if b.len() == 0 {
        assert(a + b =~= a);
        assert(without_underscores(a) + Seq::<char>::empty() =~= without_underscores(a));
    } else {
        assert((a + b).drop_last() =~= a + b.drop_last());
        assert((a + b).last() == b.last());
        lemma_without_underscores_append(a, b.drop_last());
        if b.last() != '_' {
            assert(without_underscores(a) + without_underscores(b.drop_last()).push(b.last())
                =~= (without_underscores(a) + without_underscores(b.drop_last())).push(b.last()));
        }
    }
}

proof fn lemma_without_underscores_none(s: Seq<char>)
    requires
        forall|i: int| 0 <= i < s.len() ==> s[i] != '_',
    ensures
        without_underscores(s) == s,
    decreases s.len(),
{
    if s.len() > 0 {
        lemma_without_underscores_none(s.drop_last());
        assert(s.drop_last().push(s.last()) =~= s);
    }
}

/// Removing the underscores from digits grouped by four gives the digits.
proof fn lemma_without_underscores_grouped(s: Seq<char>)
    requires
        forall|i: int| 0 <= i < s.len() ==> s[i] != '_',
    ensures
        without_underscores(grouped(s)) == s,
    decreases s.len(),
{
    if s.len() <= 4 {
        lemma_without_underscores_none(s);
    } else {
        let head = s.take(s.len() - 4);
        let tail = s.skip(s.len() - 4);
        lemma_without_underscores_grouped(head);
        lemma_without_underscores_append(grouped(head) + seq!['_'], tail);
        lemma_without_underscores_append(grouped(head), seq!['_']);
        lemma_without_underscores_none(tail);
        assert(without_underscores(seq!['_']) =~= Seq::<char>::empty()) by {
            assert(seq!['_'].drop_last() =~= Seq::<char>::empty());
            assert(without_underscores(Seq::<char>::empty()) == Seq::<char>::empty());
        }
        assert(head + Seq::<char>::empty() + tail =~= s);
    }
}

/// The value of two numerals written one after the other.
pub proof fn lemma_numeral_value_append(a: Seq<char>, b: Seq<char>, radix: nat)
    ensures
        numeral_value(a + b, radix) == numeral_value(a, radix) * power(radix, b.len())
            + numeral_value(b, radix),
    decreases b.len(),
{
    if b.len() == 0 {
        assert(a + b =~= a);
        assert(numeral_value(a, radix) * 1 == numeral_value(a, radix)) by (nonlinear_arith);
    } else {
        assert((a + b).drop_last() =~= a + b.drop_last());
        assert((a + b).last() == b.last());
        lemma_numeral_value_append(a, b.drop_last(), radix);
        let va = numeral_value(a, radix);
        let p = power(radix, (b.len() - 1) as nat);
        let vb = numeral_value(b.drop_last(), radix);
        assert((va * p + vb) * radix == va * (radix * p) + vb * radix) by (nonlinear_arith);
    }
}

/// A digit character reads back as its value.
proof fn lemma_char_digit_of_digit_char(d: nat, radix: nat)
    requires
        d < radix <= 16,
    ensures
        char_digit(digit_char(d), radix) == Some(d),
{
}

/// A numeral reads back as its number, and every character is a digit.
pub proof fn lemma_numeral_round_trip(n: nat, radix: nat)
    requires
        2 <= radix <= 16,
    ensures
        numeral_value(digits_in_base(n, radix), radix) == n,
        all_digits(digits_in_base(n, radix), radix),
        forall|i: int|
            0 <= i < digits_in_base(n, radix).len() ==> (#[trigger] digits_in_base(n, radix)[i])
                != '_' && digits_in_base(n, radix)[i] != '+' && ('0' <= digits_in_base(n, radix)[i]
                <= '9' || 'a' <= digits_in_base(n, radix)[i] <= 'f'),
    decreases n,
{
    let s = digits_in_base(n, radix);
    if n < radix {
        lemma_char_digit_of_digit_char(n, radix);
        assert(s.drop_last() =~= Seq::<char>::empty());
        assert(numeral_value(Seq::<char>::empty(), radix) == 0);
        assert(0 * radix == 0) by (nonlinear_arith);
    } else {
        assert(n / radix < n) by (nonlinear_arith)
            requires
                radix >= 2,
                n >= radix,
        ;
        lemma_numeral_round_trip(n / radix, radix);
        let t = digits_in_base(n / radix, radix);
        assert(s == t.push(digit_char(n % radix)));
        assert(s.drop_last() =~= t);
        lemma_char_digit_of_digit_char(n % radix, radix);
        assert((n / radix) * radix + n % radix == n) by (nonlinear_arith)
            requires
                radix >= 2,
        ;
        assert forall|i: int| 0 <= i < s.len() implies (#[trigger] char_digit(s[i], radix)) is Some by {
            if i < t.len() {
                assert(s[i] == t[i]);
            }
        }
        assert forall|i: int| 0 <= i < s.len() implies (#[trigger] s[i]) != '_' && s[i] != '+' && (
        '0' <= s[i] <= '9' || 'a' <= s[i] <= 'f') by {
            if i < t.len() {
                assert(s[i] == t[i]);
            }
        }
    }
}

/// Leading zeroes do not change a numeral's value.
proof fn lemma_leading_zeros(k: nat, radix: nat)
    ensures
        numeral_value(repeat_char('0', k), radix) == 0,
        all_digits(repeat_char('0', k), radix) || radix == 0,
    decreases k,
{
    if k > 0 {
        lemma_leading_zeros((k - 1) as nat, radix);
        assert(repeat_char('0', k).drop_last() =~= repeat_char('0', (k - 1) as nat));
        assert(0 * radix == 0) by (nonlinear_arith);
    }
}

/// A zero-padded numeral reads back as its number.
proof fn lemma_padded_round_trip(n: nat, radix: nat, width: nat)
    requires
        2 <= radix <= 16,
    ensures
        numeral_value(zero_padded(digits_in_base(n, radix), width), radix) == n,
        all_digits(zero_padded(digits_in_base(n, radix), width), radix),
        zero_padded(digits_in_base(n, radix), width).len() >= 1,
        zero_padded(digits_in_base(n, radix), width).last() == digits_in_base(n, radix).last(),
        forall|i: int|
            0 <= i < zero_padded(digits_in_base(n, radix), width).len() ==> (#[trigger] zero_padded(
                digits_in_base(n, radix),
                width,
            )[i]) != '_' && zero_padded(digits_in_base(n, radix), width)[i] != '+' && ('0'
                <= zero_padded(digits_in_base(n, radix), width)[i] <= '9' || 'a' <= zero_padded(
                digits_in_base(n, radix),
                width,
            )[i] <= 'f'),
{
    let s = digits_in_base(n, radix);
    lemma_numeral_round_trip(n, radix);
    crate::text::lemma_digits_nonempty(n, radix);
    if s.len() < width {
        let z = repeat_char('0', (width - s.len()) as nat);
        lemma_leading_zeros((width - s.len()) as nat, radix);
        lemma_numeral_value_append(z, s, radix);
        let p = power(radix, s.len());
        assert(0 * p == 0) by (nonlinear_arith);
        let padded = z + s;
        assert forall|i: int| 0 <= i < padded.len() implies (#[trigger] char_digit(padded[i], radix))
            is Some by {
            if i >= z.len() {
                assert(padded[i] == s[i - z.len()]);
            }
        }
        assert forall|i: int| 0 <= i < padded.len() implies (#[trigger] padded[i]) != '_'
            && padded[i] != '+' && ('0' <= padded[i] <= '9' || 'a' <= padded[i] <= 'f') by {
            if i >= z.len() {
                assert(padded[i] == s[i - z.len()]);
            }
        }
    }
}

/// The bits of a hexadecimal digit read back as its value.
proof fn lemma_nibble_value(c: char)
    requires
        ('0' <= c <= '9') || ('a' <= c <= 'f'),
    ensures
        numeral_value(nibble_bits(c), 2) == hex_digit_value(c),
        char_digit(c, 16) == Some(hex_digit_value(c)),
        all_digits(nibble_bits(c), 2),
{
    let v = hex_digit_value(c);
    assert(v < 16);
    let b = nibble_bits(c);
    reveal_with_fuel(numeral_value, 5);
    assert(b.drop_last().drop_last().drop_last().drop_last() =~= Seq::<char>::empty());
    assert(b.drop_last().drop_last().drop_last() =~= seq![digit_char(v / 8)]);
    assert(b.drop_last().drop_last() =~= seq![digit_char(v / 8), digit_char((v / 4) % 2)]);
    assert(b.drop_last() =~= seq![digit_char(v / 8), digit_char((v / 4) % 2), digit_char((v / 2) % 2)]);
    lemma_char_digit_of_digit_char(v / 8, 2);
    lemma_char_digit_of_digit_char((v / 4) % 2, 2);
    lemma_char_digit_of_digit_char((v / 2) % 2, 2);
    lemma_char_digit_of_digit_char(v % 2, 2);
    assert(((v / 8) * 2 + (v / 4) % 2) * 2 + (v / 2) % 2 == v / 2) by {
        assert(v < 16);
    }
    assert(b.drop_last().last() == digit_char((v / 2) % 2));
}

/// The binary digits of hexadecimal digits read back as the same number.
proof fn lemma_bits_round_trip(s: Seq<char>)
    requires
        forall|i: int| 0 <= i < s.len() ==> ('0' <= #[trigger] s[i] <= '9' || 'a' <= s[i] <= 'f'),
    ensures
        numeral_value(hex_to_bits(s), 2) == numeral_value(s, 16),
        all_digits(hex_to_bits(s), 2),
        hex_to_bits(s).len() == 4 * s.len(),
        forall|i: int| 0 <= i < hex_to_bits(s).len() ==> (#[trigger] hex_to_bits(s)[i] == '0' || hex_to_bits(s)[i] == '1'),
    decreases s.len(),
{
    if s.len() > 0 {
        let d = s.drop_last();
        assert forall|i: int| 0 <= i < d.len() implies ('0' <= #[trigger] d[i] <= '9' || 'a' <= d[i] <= 'f') by {
            assert(d[i] == s[i]);
        }
        lemma_bits_round_trip(d);
        let c = s.last();
        assert('0' <= c <= '9' || 'a' <= c <= 'f') by {
            assert(c == s[s.len() - 1]);
        }
        lemma_nibble_value(c);
        let a = hex_to_bits(d);
        let b = nibble_bits(c);
        lemma_numeral_value_append(a, b, 2);
        assert(power(2, 4) == 16) by {
            reveal_with_fuel(power, 5);
        }
        let t = a + b;
        assert forall|i: int| 0 <= i < t.len() implies (#[trigger] char_digit(t[i], 2)) is Some by {
            if i < a.len() {
                assert(t[i] == a[i]);
            } else {
                assert(t[i] == b[i - a.len()]);
            }
        }
        assert forall|i: int| 0 <= i < t.len() implies (#[trigger] t[i] == '0' || t[i] == '1') by {
            if i < a.len() {
                assert(t[i] == a[i]);
            } else {
                assert(t[i] == b[i - a.len()]);
                assert(char_digit(b[i - a.len()], 2) is Some);
            }
        }
    } else {
        assert(hex_to_bits(s) =~= Seq::<char>::empty());
    }
}

/// A string of digits in `radix` behind a prefix that names the radix (or
/// no prefix for decimal) reads back as its value.
proof fn lemma_parse_prefixed(prefix: Seq<char>, digits: Seq<char>, radix: nat, input: Seq<char>)
    requires
        digits.len() >= 1,
        all_digits(digits, radix),
        digits[0] != '+',
        digits.last() != 'K' && digits.last() != 'k' && digits.last() != 'M' && digits.last() != 'm'
            && digits.last() != 'G' && digits.last() != 'g',
        without_underscores(input) == prefix + digits,
        spec_split_radix(prefix + digits) == (digits, radix),
        numeral_value(digits, radix) <= u128::MAX,
    ensures
        spec_parse_unsigned(input) == Ok::<u128, Seq<char>>(numeral_value(digits, radix) as u128),
{
    assert(spec_split_size_suffix(digits) == (digits, 1nat));
    assert(spec_parse_digits(digits, radix) == Some(numeral_value(digits, radix)));
    assert(numeral_value(digits, radix) * 1 == numeral_value(digits, radix));
}

proof fn lemma_hex_parses_back(number: u128, hex_digits: Option<usize>)
    ensures
        spec_parse_unsigned(spec_format_hex(number, hex_digits, Endian::Big)) == Ok::<u128, Seq<char>>(
            number,
        ),
{
    reveal_strlit("0x");
    let width: nat = match hex_digits {
        Some(w) => w as nat,
        None => 0,
    };
    lemma_padded_round_trip(number as nat, 16, width);
    let d = spec_display_hex_digits(number, hex_digits, Endian::Big);
    assert(d == zero_padded(hex_numeral(number), width));
    lemma_without_underscores_grouped(d);
    lemma_without_underscores_append("0x"@, grouped(d));
    lemma_without_underscores_none("0x"@);
    assert(("0x"@ + d).skip(2) =~= d);
    lemma_parse_prefixed("0x"@, d, 16, spec_format_hex(number, hex_digits, Endian::Big));
}

proof fn lemma_dec_oct_parse_back(number: u128)
    ensures
        spec_parse_unsigned(digits_in_base(number as nat, 10)) == Ok::<u128, Seq<char>>(number),
        spec_parse_unsigned("0o"@ + digits_in_base(number as nat, 8)) == Ok::<u128, Seq<char>>(
            number,
        ),
{
    let n = number as nat;
    reveal_strlit("0o");
    let dec = digits_in_base(n, 10);
    lemma_numeral_round_trip(n, 10);
    crate::text::lemma_digits_nonempty(n, 10);
    lemma_without_underscores_none(dec);
    assert(Seq::<char>::empty() + dec =~= dec);
    if dec.len() >= 2 {
        assert(char_digit(dec[1], 10) is Some);
    }
    lemma_parse_prefixed(Seq::empty(), dec, 10, dec);
    let oct = digits_in_base(n, 8);
    lemma_numeral_round_trip(n, 8);
    crate::text::lemma_digits_nonempty(n, 8);
    lemma_without_underscores_none(oct);
    lemma_without_underscores_append("0o"@, oct);
    lemma_without_underscores_none("0o"@);
    assert(("0o"@ + oct).skip(2) =~= oct);
    lemma_parse_prefixed("0o"@, oct, 8, "0o"@ + oct);
}

proof fn lemma_bin_parses_back(number: u128, hex_digits: Option<usize>)
    ensures
        spec_parse_unsigned(spec_format_bin(number, hex_digits, Endian::Big)) == Ok::<u128, Seq<char>>(
            number,
        ),
{
    reveal_strlit("0b");
    let width: nat = match hex_digits {
        Some(w) => w as nat,
        None => 0,
    };
    lemma_padded_round_trip(number as nat, 16, width);
    let d = spec_display_hex_digits(number, hex_digits, Endian::Big);
    assert(d == zero_padded(hex_numeral(number), width));
    lemma_bits_round_trip(d);
    let bits = hex_to_bits(d);
    lemma_without_underscores_grouped(bits);
    lemma_without_underscores_append("0b"@, grouped(bits));
    lemma_without_underscores_none("0b"@);
    assert(("0b"@ + bits).skip(2) =~= bits);
    assert(bits.last() == bits[bits.len() - 1]);
    assert(bits[0] == '0' || bits[0] == '1');
    lemma_parse_prefixed("0b"@, bits, 2, spec_format_bin(number, hex_digits, Endian::Big));
}

/// What the text area prints reads back as the number: the HEX line's
/// value (with or without a fixed width), the DEC digits, `0o` and the
/// OCT digits, and the BIN line's value all parse to the number shown,
/// for big-endian display.
pub proof fn law_text_area_parses_back(number: u128, hex_digits: Option<usize>)
    ensures
        spec_parse_unsigned(spec_format_hex(number, hex_digits, Endian::Big)) == Ok::<u128, Seq<char>>(
            number,
        ),
        spec_parse_unsigned(digits_in_base(number as nat, 10)) == Ok::<u128, Seq<char>>(number),
        spec_parse_unsigned("0o"@ + digits_in_base(number as nat, 8)) == Ok::<u128, Seq<char>>(
            number,
        ),
        spec_parse_unsigned(spec_format_bin(number, hex_digits, Endian::Big)) == Ok::<u128, Seq<char>>(
            number,
        ),
{
    lemma_hex_parses_back(number, hex_digits);
    lemma_dec_oct_parse_back(number);
    lemma_bin_parses_back(number, hex_digits);
}

/// A numeral of a positive number does not start with `0`.
proof fn lemma_no_leading_zero(n: nat, base: nat)
    requires
        2 <= base <= 16,
        n >= 1,
    ensures
        digits_in_base(n, base)[0] != '0',
    decreases n,
{
    if n >= base {
        assert(n / base >= 1) by (nonlinear_arith)
            requires
                n >= base,
                base >= 2,
        ;
        assert(n / base < n) by (nonlinear_arith)
            requires
                n >= base,
                base >= 2,
        ;
        lemma_no_leading_zero(n / base, base);
        crate::text::lemma_digits_nonempty(n / base, base);
    }
}

/// Without a fixed width the hexadecimal digits have no leading zero,
/// except for the single `0` of zero.
pub proof fn law_hex_without_leading_zeroes(number: u128)
    ensures
        number > 0 ==> spec_display_hex_digits(number, None, Endian::Big)[0] != '0',
        number == 0 ==> spec_display_hex_digits(number, None, Endian::Big) == seq!['0'],
{
    if number > 0 {
        lemma_no_leading_zero(number as nat, 16);
    }
}

/// With a width the number fits in, the display shows exactly that many
/// hexadecimal digits (a little-endian display rounds up to whole bytes),
/// they read back as the number, and BIN shows four bits for each.
pub proof fn law_fixed_width_is_exact(number: u128, width: usize)
    requires
        hex_numeral(number).len() <= width,
    ensures
        spec_display_hex_digits(number, Some(width), Endian::Big).len() == width,
        numeral_value(spec_display_hex_digits(number, Some(width), Endian::Big), 16) == number,
        hex_to_bits(spec_display_hex_digits(number, Some(width), Endian::Big)).len() == 4 * width,
        spec_display_hex_digits(number, Some(width), Endian::Little).len() == 2 * ((width + 1) / 2),
{
    lemma_padded_round_trip(number as nat, 16, width as nat);
    let d = spec_display_hex_digits(number, Some(width), Endian::Big);
    lemma_bits_round_trip(d);
    assert(even_padded(d).len() == 2 * ((width + 1) / 2));
}

/// Removing underscores twice removes no more than once.
proof fn lemma_without_underscores_idempotent(s: Seq<char>)
    ensures
        without_underscores(without_underscores(s)) == without_underscores(s),
    decreases s.len(),
{
    if s.len() > 0 {
        lemma_without_underscores_idempotent(s.drop_last());
        if s.last() != '_' {
            let w = without_underscores(s.drop_last());
            lemma_without_underscores_append(w, seq![s.last()]);
            let c = seq![s.last()];
            assert(c.drop_last() =~= Seq::<char>::empty());
            assert(without_underscores(c) == without_underscores(c.drop_last()).push(s.last()));
            assert(without_underscores(c) =~= c);
            assert(w.push(s.last()) =~= w + c);
        }
    }
}

/// Underscores only separate digits: an input parses exactly when it
/// parses with its underscores removed, and to the same number.
pub proof fn law_underscores_are_separators(input: Seq<char>)
    ensures
        spec_parse_unsigned(input) is Ok <==> spec_parse_unsigned(without_underscores(input)) is Ok,
        spec_parse_unsigned(input) is Ok ==> spec_parse_unsigned(input) == spec_parse_unsigned(
            without_underscores(input),
        ),
{
    lemma_without_underscores_idempotent(input);
}

/// `s` with its ASCII capital letters made lowercase.
pub open spec fn lowercased(s: Seq<char>) -> Seq<char> {
    s.map_values(|c: char| ascii_lowercase(c))
}

/// The capital form of a lowercase ASCII letter.
pub open spec fn ascii_uppercase(c: char) -> char {
    if 'a' <= c <= 'z' {
        ((c as nat) - 32) as char
    } else {
        c
    }
}

/// A letter is the same digit in either case, and the digits a number is
/// written with read back as their values in either case: in every radix
/// up to 16, `digit_char(d)` and its capital form both read as `d`.
pub proof fn law_digit_case(c: char, radix: nat, d: nat)
    ensures
        char_digit(c, radix) == char_digit(ascii_lowercase(c), radix),
        d < radix <= 16 ==> char_digit(digit_char(d), radix) == Some(d),
        d < radix <= 16 ==> char_digit(ascii_uppercase(digit_char(d)), radix) == Some(d),
{
}

proof fn lemma_lowercased_without_underscores(s: Seq<char>)
    ensures
        without_underscores(lowercased(s)) == lowercased(without_underscores(s)),
    decreases s.len(),
{
    if s.len() > 0 {
        lemma_lowercased_without_underscores(s.drop_last());
        assert(lowercased(s).drop_last() =~= lowercased(s.drop_last()));
        assert(lowercased(s).last() == ascii_lowercase(s.last()));
        let w = without_underscores(s.drop_last());
        assert(lowercased(w.push(s.last())) =~= lowercased(w).push(ascii_lowercase(s.last())));
    } else {
        assert(lowercased(s) =~= s);
    }
}

proof fn lemma_lowercased_numeral(s: Seq<char>, radix: nat)
    ensures
        numeral_value(lowercased(s), radix) == numeral_value(s, radix),
        all_digits(lowercased(s), radix) == all_digits(s, radix),
    decreases s.len(),
{
    if s.len() > 0 {
        lemma_lowercased_numeral(s.drop_last(), radix);
        assert(lowercased(s).drop_last() =~= lowercased(s.drop_last()));
        assert(lowercased(s).last() == ascii_lowercase(s.last()));
        law_digit_case(s.last(), radix, 0);
    }
    let l = lowercased(s);
    assert forall|i: int| 0 <= i < s.len() implies #[trigger] char_digit(l[i], radix) == char_digit(s[i], radix) by {
        law_digit_case(s[i], radix, 0);
    }
    if all_digits(s, radix) {
        assert forall|i: int| 0 <= i < l.len() implies (#[trigger] char_digit(l[i], radix)) is Some by {
            assert(char_digit(s[i], radix) is Some);
        }
    }
    if all_digits(l, radix) {
        assert forall|i: int| 0 <= i < s.len() implies (#[trigger] char_digit(s[i], radix)) is Some by {
            assert(char_digit(l[i], radix) is Some);
        }
    }
}

/// Letter case does not matter to a number: an input parses exactly when
/// its lowercase form does, and to the same number (`0xFF` is `0xff`,
/// `4K` is `4k`, `0B1` is `0b1`).
pub proof fn law_parse_ignores_case(input: Seq<char>)
    ensures
        spec_parse_unsigned(input) is Ok <==> spec_parse_unsigned(lowercased(input)) is Ok,
        spec_parse_unsigned(input) is Ok ==> spec_parse_unsigned(input) == spec_parse_unsigned(lowercased(input)),
{
    let s = without_underscores(input);
    lemma_lowercased_without_underscores(input);
    let t = lowercased(s);
    assert(without_underscores(lowercased(input)) == t);
    assert(t.len() == s.len());
    if s.len() >= 2 {
        assert(t[0] == ascii_lowercase(s[0]) && t[1] == ascii_lowercase(s[1]));
    }
    let (rest, radix) = spec_split_radix(s);
    let (trest, tradix) = spec_split_radix(t);
    assert(tradix == radix);
    assert(trest =~= lowercased(rest));
    let (digits, mult) = spec_split_size_suffix(rest);
    let (tdigits, tmult) = spec_split_size_suffix(trest);
    if rest.len() > 0 {
        assert(trest.last() == ascii_lowercase(rest.last()));
    }
    assert(tmult == mult);
    assert(tdigits =~= lowercased(digits));
    let body = if digits.len() > 1 && digits[0] == '+' {
        digits.drop_first()
    } else {
        digits
    };
    if digits.len() > 0 {
        assert(tdigits[0] == ascii_lowercase(digits[0]));
    }
    let tbody = if tdigits.len() > 1 && tdigits[0] == '+' {
        tdigits.drop_first()
    } else {
        tdigits
    };
    assert(tbody =~= lowercased(body));
    lemma_lowercased_numeral(body, radix);
    assert(spec_parse_digits(tdigits, radix) == spec_parse_digits(digits, radix));
}

} // verus!
