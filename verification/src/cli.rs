//! Command-line flags and option values.

use vstd::prelude::*;
use crate::parse::{parse_digits, spec_parse_digits};
use crate::text::{chars_of, digits_in_base, extend_chars, extend_str, format_radix, push_line, str_eq, string_of};

verus! {

/// `-h` or `--help`.
pub fn is_help_flag(input: &str) -> (r: bool)
    ensures
        r == (input@ == "-h"@ || input@ == "--help"@),
{
    str_eq(input, "-h") || str_eq(input, "--help")
}

/// `-v` or `--version`.
pub fn is_version_flag(input: &str) -> (r: bool)
    ensures
        r == (input@ == "-v"@ || input@ == "--version"@),
{
    str_eq(input, "-v") || str_eq(input, "--version")
}

/// `--no-color`.
pub fn is_no_color_flag(input: &str) -> (r: bool)
    ensures
        r == (input@ == "--no-color"@),
{
    str_eq(input, "--no-color")
}

/// `--text-only`.
pub fn is_text_only_flag(input: &str) -> (r: bool)
    ensures
        r == (input@ == "--text-only"@),
{
    str_eq(input, "--text-only")
}

/// `--compact`.
pub fn is_compact_flag(input: &str) -> (r: bool)
    ensures
        r == (input@ == "--compact"@),
{
    str_eq(input, "--compact")
}

/// `--hex-digits`, which takes a value.
pub fn is_hex_digits_flag(input: &str) -> (r: bool)
    ensures
        r == (input@ == "--hex-digits"@),
{
    str_eq(input, "--hex-digits")
}

/// `--little-endian`.
pub fn is_little_endian_flag(input: &str) -> (r: bool)
    ensures
        r == (input@ == "--little-endian"@),
{
    str_eq(input, "--little-endian")
}

/// `--colors`, which takes a value.
pub fn is_colors_flag(input: &str) -> (r: bool)
    ensures
        r == (input@ == "--colors"@),
{
    str_eq(input, "--colors")
}

/// What `parse_hex_digits` gives: a width from 1 to 32, or the message of
/// the error.
pub open spec fn spec_parse_hex_digits(input: Seq<char>) -> Result<usize, Seq<char>> {
    match spec_parse_digits(input, 10) {
        Some(v) => if v > usize::MAX {
            Err("invalid --hex-digits value: "@ + input)
        } else if 1 <= v <= 32 {
            Ok(v as usize)
        } else {
            Err("--hex-digits must be between 1 and 32, got "@ + digits_in_base(v, 10))
        },
        None => Err("invalid --hex-digits value: "@ + input),
    }
}

/// Parses the value of `--hex-digits`: a decimal number from 1 to 32.
pub fn parse_hex_digits(input: &str) -> (r: Result<usize, String>)
    ensures
        match r {
            Ok(v) => spec_parse_hex_digits(input@) == Ok::<usize, Seq<char>>(v),
            Err(m) => spec_parse_hex_digits(input@) == Err::<usize, Seq<char>>(m@),
        },
{
    let chars = chars_of(input);
    let parsed = parse_digits(&chars, 10);
    let value: usize = match parsed {
        Some(v) => {
            if v > usize::MAX as u128 {
                return Err(invalid_value_message("invalid --hex-digits value: ", input));
            }
            v as usize
        },
        None => {
            return Err(invalid_value_message("invalid --hex-digits value: ", input));
        },
    };
    if 1 <= value && value <= 32 {
        Ok(value)
    } else {
        let mut m = chars_of("--hex-digits must be between 1 and 32, got ");
        extend_chars(&mut m, format_radix(value as u128, 10).as_slice());
        Err(string_of(m.as_slice()))
    }
}

fn invalid_value_message(prefix: &str, input: &str) -> (m: String)
    ensures
        m@ == prefix@ + input@,
{
    let mut v = chars_of(prefix);
    extend_str(&mut v, input);
    string_of(v.as_slice())
}

/// The fields of `s` separated by commas.
pub open spec fn comma_fields(s: Seq<char>) -> Seq<Seq<char>>
    decreases s.len(),
{
    if s.len() == 0 {
        seq![Seq::empty()]
    } else {
        let before = comma_fields(s.drop_last());
        if s.last() == ',' {
            before.push(Seq::empty())
        } else {
            before.update(before.len() - 1, before.last().push(s.last()))
        }
    }
}

/// The byte value of a field, if it is a decimal number up to 255.
pub open spec fn field_byte(field: Seq<char>) -> Option<u8> {
    match spec_parse_digits(field, 10) {
        Some(v) => if v <= 255 {
            Some(v as u8)
        } else {
            None
        },
        None => None,
    }
}

/// What `parse_colors` gives: four 256-color palette indexes, or the
/// message of the error.
pub open spec fn spec_parse_colors(input: Seq<char>) -> Result<Seq<u8>, Seq<char>> {
    let fields = comma_fields(input);
    if fields.len() == 4 && (forall|i: int| 0 <= i < 4 ==> (#[trigger] field_byte(fields[i])) is Some) {
        Ok(Seq::new(4, |i: int| field_byte(fields[i]).unwrap()))
    } else {
        Err("invalid --colors value: "@ + input)
    }
}

proof fn lemma_comma_fields_nonempty(s: Seq<char>)
    ensures
        comma_fields(s).len() >= 1,
    decreases s.len(),
{
    if s.len() > 0 {
        lemma_comma_fields_nonempty(s.drop_last());
    }
}

fn split_commas(s: &Vec<char>) -> (fields: Vec<Vec<char>>)
    ensures
        fields.deep_view() == comma_fields(s@),
{
    let mut fields: Vec<Vec<char>> = Vec::new();
    let mut current: Vec<char> = Vec::new();
    let mut i: usize = 0;
    while i < s.len()
        invariant
            i <= s@.len(),
            fields.deep_view().push(current@) == comma_fields(s@.take(i as int)),
        decreases s@.len() - i,
    {
        let ghost prev = comma_fields(s@.take(i as int));
        assert(s@.take(i + 1).drop_last() =~= s@.take(i as int));
        proof {
            lemma_comma_fields_nonempty(s@.take(i as int));
        }
        if s[i] == ',' {
            push_line(&mut fields, current);
            current = Vec::new();
            assert(fields.deep_view().push(current@) =~= comma_fields(s@.take(i + 1)));
        } else {
            current.push(s[i]);
            assert(fields.deep_view().push(current@) =~= comma_fields(s@.take(i + 1)));
        }
        i = i + 1;
    }
    assert(s@.take(i as int) =~= s@);
    push_line(&mut fields, current);
    fields
}

/// Parses the value of `--colors`: four comma-separated 256-color palette
/// indexes, e.g. `196,46,21,226`.
pub fn parse_colors(input: &str) -> (r: Result<[u8; 4], String>)
    ensures
        match r {
            Ok(v) => spec_parse_colors(input@) == Ok::<Seq<u8>, Seq<char>>(v@),
            Err(m) => spec_parse_colors(input@) == Err::<Seq<u8>, Seq<char>>(m@),
        },
{
    let chars = chars_of(input);
    let fields = split_commas(&chars);
    let ghost f = fields.deep_view();
    if fields.len() != 4 {
        return Err(invalid_value_message("invalid --colors value: ", input));
    }
    let mut values: [u8; 4] = [0; 4];
    let mut i: usize = 0;
    while i < 4
        invariant
            f == fields.deep_view(),
            f == comma_fields(input@),
            f.len() == 4,
            i <= 4,
            forall|j: int| 0 <= j < i ==> (#[trigger] field_byte(f[j])) == Some(values@[j]),
        decreases 4 - i,
    {
        assert(f[i as int] == fields@[i as int]@);
        match parse_digits(&fields[i], 10) {
            Some(v) => {
                if v > 255 {
                    assert(field_byte(f[i as int]) is None);
                    return Err(invalid_value_message("invalid --colors value: ", input));
                }
                values[i] = v as u8;
            },
            None => {
                assert(field_byte(f[i as int]) is None);
                return Err(invalid_value_message("invalid --colors value: ", input));
            },
        }
        i = i + 1;
    }
    assert(Seq::new(4, |i: int| field_byte(f[i]).unwrap()) =~= values@);
    Ok(values)
}

} // verus!

verus! {

/// The help text before the first use of the program name.
pub open spec fn help_head() -> Seq<char> {
    "bitruler - visualize, decode, and inspect binary data\n\nUsage:\n  "@
}

/// The rest of the usage line after the program name.
pub open spec fn help_usage() -> Seq<char> {
    " [--no-color] [--little-endian] [--compact | --text-only] [--hex-digits <N>] <unsigned-number>\n  "@
}

/// The text between the help and version usage lines.
pub open spec fn help_help_line() -> Seq<char> {
    " --help / -h\n  "@
}

/// The text after the version usage line and before the examples.
pub open spec fn help_body() -> Seq<char> {
    " --version / -v\n\nArguments:\n  <unsigned-number>    Unsigned 128-bit integer to inspect\n\nOptions:\n  --no-color           Disable ANSI colors in the visual output\n  --compact            Print Hex, Bit, and Position areas plus text output\n  --text-only          Print only HEX, DEC, OCT, BIN, and ASC lines\n  --hex-digits <N>     Render with exactly N hex digits, from 1 to 32\n  --little-endian      Display HEX, BIN, ASC, and visual bytes least-significant first\n\nAccepted input formats:\n  Hexadecimal          0x1234\n  Decimal              4660\n  Octal                0o11064\n  Binary               0b0001_0010_0011_0100\n\nNotes:\n  - Underscores are allowed as digit separators\n  - Maximum value is 340282366920938463463374607431768211455\n  - Maximum hexadecimal value is 0xffff_ffff_ffff_ffff_ffff_ffff_ffff_ffff\n\nExamples:\n  "@
}

/// The help text for a program name.
pub open spec fn spec_help_text(program: Seq<char>) -> Seq<char> {
    help_head() + program + help_usage() + program + help_help_line() + program + help_body()
        + program + " 4660\n  "@ + program + " 0x1234\n  "@ + program
        + " 0b0001_0010_0011_0100"@
}

/// The help text, with the program name in the usage lines and examples.
pub fn help_text(program_name: &str) -> (text: String)
    ensures
        text@ == spec_help_text(program_name@),
{
    let mut v = chars_of("bitruler - visualize, decode, and inspect binary data\n\nUsage:\n  ");
    extend_str(&mut v, program_name);
    extend_str(&mut v, " [--no-color] [--little-endian] [--compact | --text-only] [--hex-digits <N>] <unsigned-number>\n  ");
    extend_str(&mut v, program_name);
    extend_str(&mut v, " --help / -h\n  ");
    extend_str(&mut v, program_name);
    extend_str(&mut v, " --version / -v\n\nArguments:\n  <unsigned-number>    Unsigned 128-bit integer to inspect\n\nOptions:\n  --no-color           Disable ANSI colors in the visual output\n  --compact            Print Hex, Bit, and Position areas plus text output\n  --text-only          Print only HEX, DEC, OCT, BIN, and ASC lines\n  --hex-digits <N>     Render with exactly N hex digits, from 1 to 32\n  --little-endian      Display HEX, BIN, ASC, and visual bytes least-significant first\n\nAccepted input formats:\n  Hexadecimal          0x1234\n  Decimal              4660\n  Octal                0o11064\n  Binary               0b0001_0010_0011_0100\n\nNotes:\n  - Underscores are allowed as digit separators\n  - Maximum value is 340282366920938463463374607431768211455\n  - Maximum hexadecimal value is 0xffff_ffff_ffff_ffff_ffff_ffff_ffff_ffff\n\nExamples:\n  ");
    extend_str(&mut v, program_name);
    extend_str(&mut v, " 4660\n  ");
    extend_str(&mut v, program_name);
    extend_str(&mut v, " 0x1234\n  ");
    extend_str(&mut v, program_name);
    extend_str(&mut v, " 0b0001_0010_0011_0100");
    assert(v@ =~= spec_help_text(program_name@));
    string_of(v.as_slice())
}

} // verus!
