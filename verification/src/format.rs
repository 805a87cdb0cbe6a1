//! Text area formatting: the HEX, DEC, OCT, BIN, and ASC lines.

use vstd::prelude::*;
use crate::text::{
    chars_of, digit_char, digit_to_char, digits_in_base, extend_chars, format_radix, group_by_four,
    grouped, lemma_hex_numeral_len, pad_zeros, string_of, zero_padded,
};

verus! {

/// The order in which the bytes of a value are displayed.
#[derive(Clone, Copy, Debug, PartialEq, Eq, Structural)]
pub enum Endian {
    Big,
    Little,
}

/// The hexadecimal numeral of `n` (lowercase, no leading zeroes).
pub open spec fn hex_numeral(n: u128) -> Seq<char> {
    digits_in_base(n as nat, 16)
}

/// `s` with a `0` in front when its length is odd.
pub open spec fn even_padded(s: Seq<char>) -> Seq<char> {
    if s.len() % 2 == 0 {
        s
    } else {
        seq!['0'] + s
    }
}

/// The two-digit groups (bytes) of `s`, padded to an even length, in
/// reverse order; the digits inside each group keep their order.
pub open spec fn swap_byte_order(s: Seq<char>) -> Seq<char> {
    let p = even_padded(s);
    Seq::new(p.len(), |i: int| p[p.len() - 2 - 2 * (i / 2) + i % 2])
}

/// The hexadecimal digits that the text and visual areas show for
/// `number`: at least `hex_digits` of them when a width is given, bytes
/// reversed for little-endian display.
pub open spec fn spec_display_hex_digits(
    number: u128,
    hex_digits: Option<usize>,
    endian: Endian,
) -> Seq<char> {
    let digits = match hex_digits {
        Some(width) => zero_padded(hex_numeral(number), width as nat),
        None => hex_numeral(number),
    };
    match endian {
        Endian::Big => digits,
        Endian::Little => swap_byte_order(digits),
    }
}

/// The `k`-th least significant byte of `n`.
pub open spec fn byte_of(n: u128, k: nat) -> u8 {
    ((n >> ((8 * k) as u32)) & 0xff) as u8
}

/// How many bytes are displayed: half the fixed hex width rounded up, or
/// the number of significant bytes of `number` (at least one).
pub open spec fn display_byte_count(number: u128, hex_digits: Option<usize>) -> nat {
    match hex_digits {
        Some(width) => ((width as nat) + 1) / 2,
        None => (hex_numeral(number).len() + 1) / 2,
    }
}

/// The displayed bytes, most significant first for big-endian display and
/// least significant first for little-endian display.
pub open spec fn spec_display_bytes(
    number: u128,
    hex_digits: Option<usize>,
    endian: Endian,
) -> Seq<u8> {
    let w = display_byte_count(number, hex_digits);
    match endian {
        Endian::Big => Seq::new(w, |i: int| byte_of(number, (w - 1 - i) as nat)),
        Endian::Little => Seq::new(w, |i: int| byte_of(number, i as nat)),
    }
}

/// A printable ASCII byte as itself, any other byte as `.`.
pub open spec fn ascii_char(b: u8) -> char {
    if 0x20 <= b <= 0x7e {
        b as char
    } else {
        '.'
    }
}

/// The four binary digits of a hexadecimal digit character.
pub open spec fn nibble_bits(c: char) -> Seq<char> {
    let v = hex_digit_value(c);
    seq![digit_char(v / 8), digit_char((v / 4) % 2), digit_char((v / 2) % 2), digit_char(v % 2)]
}

/// The value of a hexadecimal digit character (either case), 0 otherwise.
pub open spec fn hex_digit_value(c: char) -> nat {
    if '0' <= c <= '9' {
        (c as nat - '0' as nat) as nat
    } else if 'a' <= c <= 'f' {
        (c as nat - 'a' as nat + 10) as nat
    } else if 'A' <= c <= 'F' {
        (c as nat - 'A' as nat + 10) as nat
    } else {
        0
    }
}

/// The binary digits of a string of hexadecimal digits, four per digit.
pub open spec fn hex_to_bits(s: Seq<char>) -> Seq<char>
    decreases s.len(),
{
    if s.len() == 0 {
        Seq::empty()
    } else {
        hex_to_bits(s.drop_last()) + nibble_bits(s.last())
    }
}

/// The HEX line's value: `0x` and the displayed digits grouped by four.
pub open spec fn spec_format_hex(number: u128, hex_digits: Option<usize>, endian: Endian) -> Seq<
    char,
> {
    "0x"@ + grouped(spec_display_hex_digits(number, hex_digits, endian))
}

/// The BIN line's value: `0b` and four bits per displayed hex digit,
/// grouped by four.
pub open spec fn spec_format_bin(number: u128, hex_digits: Option<usize>, endian: Endian) -> Seq<
    char,
> {
    "0b"@ + grouped(hex_to_bits(spec_display_hex_digits(number, hex_digits, endian)))
}

/// The ASC line's value: one character per displayed byte.
pub open spec fn spec_format_ascii(number: u128, hex_digits: Option<usize>, endian: Endian) -> Seq<
    char,
> {
    spec_display_bytes(number, hex_digits, endian).map_values(|b: u8| ascii_char(b))
}

/// The five lines of the text area.
pub open spec fn spec_format_lines(number: u128, hex_digits: Option<usize>, endian: Endian) -> Seq<
    Seq<char>,
> {
    seq![
        "HEX: "@ + spec_format_hex(number, hex_digits, endian),
        "DEC: "@ + digits_in_base(number as nat, 10),
        "OCT: 0o"@ + digits_in_base(number as nat, 8),
        "BIN: "@ + spec_format_bin(number, hex_digits, endian),
        "ASC: "@ + spec_format_ascii(number, hex_digits, endian),
    ]
}

/// The text area lines: HEX, DEC, OCT, BIN, and ASC.
pub fn format_lines(number: u128, hex_digits: Option<usize>, endian: Endian) -> (lines: Vec<
    String,
>)
    requires
        hex_digits matches Some(w) ==> w <= 32,
    ensures
        lines.deep_view() == spec_format_lines(number, hex_digits, endian),
{
    let mut hex = chars_of("HEX: ");
    extend_chars(&mut hex, format_hex_chars(number, hex_digits, endian).as_slice());
    let mut dec = chars_of("DEC: ");
    extend_chars(&mut dec, format_radix(number, 10).as_slice());
    let mut oct = chars_of("OCT: 0o");
    extend_chars(&mut oct, format_radix(number, 8).as_slice());
    let mut bin = chars_of("BIN: ");
    extend_chars(&mut bin, format_bin_chars(number, hex_digits, endian).as_slice());
    let mut asc = chars_of("ASC: ");
    extend_chars(&mut asc, format_ascii_chars(number, hex_digits, endian).as_slice());
    let mut lines: Vec<String> = Vec::new();
    lines.push(string_of(hex.as_slice()));
    lines.push(string_of(dec.as_slice()));
    lines.push(string_of(oct.as_slice()));
    lines.push(string_of(bin.as_slice()));
    lines.push(string_of(asc.as_slice()));
    assert(lines.deep_view() =~= spec_format_lines(number, hex_digits, endian));
    lines
}

fn format_hex_chars(number: u128, hex_digits: Option<usize>, endian: Endian) -> (v: Vec<char>)
    ensures
        v@ == spec_format_hex(number, hex_digits, endian),
{
    let digits = display_hex_digits_chars(number, hex_digits, endian);
    let mut formatted = chars_of("0x");
    extend_chars(&mut formatted, group_by_four(&digits).as_slice());
    formatted
}

/// The HEX line's value, e.g. `0x1_2345_6789`.
pub fn format_hex(number: u128, hex_digits: Option<usize>, endian: Endian) -> (s: String)
    ensures
        s@ == spec_format_hex(number, hex_digits, endian),
{
    string_of(format_hex_chars(number, hex_digits, endian).as_slice())
}

/// The four binary digits of one hexadecimal digit.
fn nibble_to_bits(c: char) -> (v: Vec<char>)
    ensures
        v@ == nibble_bits(c),
{
    let d: u128 = if '0' <= c && c <= '9' {
        (c as u32 - '0' as u32) as u128
    } else if 'a' <= c && c <= 'f' {
        (c as u32 - 'a' as u32 + 10) as u128
    } else if 'A' <= c && c <= 'F' {
        (c as u32 - 'A' as u32 + 10) as u128
    } else {
        0
    };
    assert(d == hex_digit_value(c));
    let mut v: Vec<char> = Vec::new();
    v.push(digit_to_char(d / 8));
    v.push(digit_to_char((d / 4) % 2));
    v.push(digit_to_char((d / 2) % 2));
    v.push(digit_to_char(d % 2));
    assert(v@ =~= nibble_bits(c));
    v
}

fn format_bin_chars(number: u128, hex_digits: Option<usize>, endian: Endian) -> (v: Vec<char>)
    ensures
        v@ == spec_format_bin(number, hex_digits, endian),
{
    let digits = display_hex_digits_chars(number, hex_digits, endian);
    let bits = hex_digits_to_bits(&digits);
    let mut formatted = chars_of("0b");
    extend_chars(&mut formatted, group_by_four(&bits).as_slice());
    formatted
}

/// Four binary digits for each hexadecimal digit, in order.
pub fn hex_digits_to_bits(digits: &Vec<char>) -> (bits: Vec<char>)
    ensures
        bits@ == hex_to_bits(digits@),
{
    let mut bits: Vec<char> = Vec::new();
    let mut i: usize = 0;
    while i < digits.len()
        invariant
            i <= digits@.len(),
            bits@ == hex_to_bits(digits@.take(i as int)),
        decreases digits@.len() - i,
    {
        let nibble = nibble_to_bits(digits[i]);
        extend_chars(&mut bits, nibble.as_slice());
        assert(digits@.take(i as int + 1).drop_last() =~= digits@.take(i as int));
        i = i + 1;
    }
    assert(digits@.take(i as int) =~= digits@);
    bits
}

/// The BIN line's value, e.g. `0b0001_0010_0011_0100`.
pub fn format_bin(number: u128, hex_digits: Option<usize>, endian: Endian) -> (s: String)
    ensures
        s@ == spec_format_bin(number, hex_digits, endian),
{
    string_of(format_bin_chars(number, hex_digits, endian).as_slice())
}

fn format_ascii_chars(number: u128, hex_digits: Option<usize>, endian: Endian) -> (v: Vec<char>)
    requires
        hex_digits matches Some(w) ==> w <= 32,
    ensures
        v@ == spec_format_ascii(number, hex_digits, endian),
{
    let bytes = display_bytes(number, hex_digits, endian);
    let mut v: Vec<char> = Vec::new();
    let mut i: usize = 0;
    while i < bytes.len()
        invariant
            i <= bytes@.len(),
            v@ == bytes@.take(i as int).map_values(|b: u8| ascii_char(b)),
        decreases bytes@.len() - i,
    {
        let b = bytes[i];
        let c = if 0x20 <= b && b <= 0x7e {
            b as char
        } else {
            '.'
        };
        v.push(c);
        assert(bytes@.take(i as int + 1).map_values(|b: u8| ascii_char(b)) =~= bytes@.take(
            i as int,
        ).map_values(|b: u8| ascii_char(b)).push(c));
        i = i + 1;
    }
    assert(bytes@.take(i as int) =~= bytes@);
    v
}

/// The ASC line's value: printable ASCII bytes as themselves, others as
/// `.`.
pub fn format_ascii(number: u128, hex_digits: Option<usize>, endian: Endian) -> (s: String)
    requires
        hex_digits matches Some(w) ==> w <= 32,
    ensures
        s@ == spec_format_ascii(number, hex_digits, endian),
{
    string_of(format_ascii_chars(number, hex_digits, endian).as_slice())
}

/// The displayed hexadecimal digits.
pub fn display_hex_digits_chars(number: u128, hex_digits: Option<usize>, endian: Endian) -> (v: Vec<
    char,
>)
    ensures
        v@ == spec_display_hex_digits(number, hex_digits, endian),
{
    let numeral = format_radix(number, 16);
    let digits = match hex_digits {
        Some(width) => pad_zeros(&numeral, width),
        None => numeral,
    };
    match endian {
        Endian::Big => digits,
        Endian::Little => reverse_hex_digit_bytes(&digits),
    }
}

/// The displayed hexadecimal digits as a string.
pub fn display_hex_digits(number: u128, hex_digits: Option<usize>, endian: Endian) -> (s: String)
    ensures
        s@ == spec_display_hex_digits(number, hex_digits, endian),
{
    string_of(display_hex_digits_chars(number, hex_digits, endian).as_slice())
}

/// The displayed bytes of `number`.
pub fn display_bytes(number: u128, hex_digits: Option<usize>, endian: Endian) -> (bytes: Vec<u8>)
    requires
        hex_digits matches Some(w) ==> w <= 32,
    ensures
        bytes@ == spec_display_bytes(number, hex_digits, endian),
{
    let width = match hex_digits {
        Some(w) => (w + 1) / 2,
        None => byte_width(number),
    };
    proof {
        lemma_hex_numeral_len(number);
    }
    assert(width == display_byte_count(number, hex_digits));
    assert(width <= 16);
    let mut bytes: Vec<u8> = Vec::new();
    let mut i: usize = 0;
    while i < width
        invariant
            width <= 16,
            width == display_byte_count(number, hex_digits),
            i <= width,
            bytes@.len() == i,
            forall|j: int|
                0 <= j < i ==> bytes@[j] == match endian {
                    Endian::Big => byte_of(number, (width - 1 - j) as nat),
                    Endian::Little => byte_of(number, j as nat),
                },
        decreases width - i,
    {
        let index = match endian {
            Endian::Big => width - 1 - i,
            Endian::Little => i,
        };
        let b = ((number >> ((index * 8) as u32)) & 0xff) as u8;
        bytes.push(b);
        i = i + 1;
    }
    assert(bytes@ =~= spec_display_bytes(number, hex_digits, endian));
    bytes
}

/// The digits with the two-digit groups in reverse order, after a leading
/// zero is added to an odd number of digits.
pub fn reverse_hex_digit_bytes(digits: &Vec<char>) -> (v: Vec<char>)
    ensures
        v@ == swap_byte_order(digits@),
{
    let padded = if digits.len() % 2 == 0 {
        digits.clone()
    } else {
        let mut p: Vec<char> = Vec::new();
        p.push('0');
        extend_chars(&mut p, digits.as_slice());
        p
    };
    assert(padded@ =~= even_padded(digits@));
    let n = padded.len();
    assert(n % 2 == 0);
    let mut v: Vec<char> = Vec::new();
    let mut k: usize = 0;
    while k < n / 2
        invariant
            padded@ == even_padded(digits@),
            n == padded@.len(),
            n % 2 == 0,
            k <= n / 2,
            v@ == swap_byte_order(digits@).take(2 * k as int),
        decreases n / 2 - k,
    {
        v.push(padded[n - 2 - 2 * k]);
        v.push(padded[n - 1 - 2 * k]);
        assert(v@ =~= swap_byte_order(digits@).take(2 * (k + 1) as int));
        k = k + 1;
    }
    assert(v@ =~= swap_byte_order(digits@));
    v
}

/// The number of significant bytes of `number` (at least one).
pub fn byte_width(number: u128) -> (w: usize)
    ensures
        w == (hex_numeral(number).len() + 1) / 2,
        1 <= w <= 16,
{
    proof {
        lemma_hex_numeral_len(number);
    }
    let digits = format_radix(number, 16);
    (digits.len() + 1) / 2
}

} // verus!

verus! {

/// Little-endian display shows the same bytes as big-endian display, in
/// reverse order.
pub proof fn law_little_endian_reverses_bytes(number: u128, hex_digits: Option<usize>)
    ensures
        spec_display_bytes(number, hex_digits, Endian::Little) == spec_display_bytes(
            number,
            hex_digits,
            Endian::Big,
        ).reverse(),
{
    assert(spec_display_bytes(number, hex_digits, Endian::Little) =~= spec_display_bytes(
        number,
        hex_digits,
        Endian::Big,
    ).reverse());
}

/// Swapping the byte order twice gives back the digits, padded to whole
/// bytes: a little-endian display read as big-endian digits and swapped
/// again is the big-endian display.
pub proof fn law_byte_swap_undoes_itself(s: Seq<char>)
    ensures
        swap_byte_order(swap_byte_order(s)) == even_padded(s),
        swap_byte_order(swap_byte_order(s)).len() == s.len() + s.len() % 2,
{
    let p = even_padded(s);
    let q = swap_byte_order(s);
    let len = p.len() as int;
    assert(len % 2 == 0);
    assert(q.len() == len);
    assert(even_padded(q) == q);
    let r = swap_byte_order(q);
    assert forall|i: int| 0 <= i < len implies #[trigger] r[i] == p[i] by {
        let j = len - 2 - 2 * (i / 2) + i % 2;
        assert(0 <= j < len);
        assert(j / 2 == (len - 2) / 2 - i / 2 && j % 2 == i % 2) by {
            assert(len - 2 - 2 * (i / 2) == 2 * ((len - 2) / 2 - i / 2));
        }
        assert(r[i] == q[j]);
        assert(len - 2 - 2 * (j / 2) + j % 2 == i);
    }
    assert(r =~= p);
}

/// The ASC line has one character per displayed byte: a printable ASCII
/// byte, from the space (0x20) to `~` (0x7e), shows as the character with
/// that code, so a space byte shows as a space; every other byte shows as
/// `.`.
pub proof fn law_ascii_shows_printable_bytes(number: u128, hex_digits: Option<usize>, endian: Endian)
    ensures
        spec_format_ascii(number, hex_digits, endian).len() == spec_display_bytes(number, hex_digits, endian).len(),
        forall|i: int|
            0 <= i < spec_display_bytes(number, hex_digits, endian).len() ==> {
                let b = #[trigger] spec_display_bytes(number, hex_digits, endian)[i];
                let c = spec_format_ascii(number, hex_digits, endian)[i];
                &&& (0x20 <= b <= 0x7e ==> c as int == b as int)
                &&& (b == 0x20 ==> c == ' ')
                &&& (b < 0x20 || b > 0x7e ==> c == '.')
            },
{
}

} // verus!
