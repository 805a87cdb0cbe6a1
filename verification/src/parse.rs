//! Input number parsing for all accepted radix prefixes and size suffixes.

use vstd::prelude::*;
use crate::text::{chars_of, extend_str, string_of};

verus! {

/// The value of `c` as a digit in `radix` (`0`-`9`, then letters of
/// either case), if it is one.
pub open spec fn char_digit(c: char, radix: nat) -> Option<nat> {
    let d: int = if '0' <= c <= '9' {
        c as int - '0' as int
    } else if 'a' <= c <= 'z' {
        c as int - 'a' as int + 10
    } else if 'A' <= c <= 'Z' {
        c as int - 'A' as int + 10
    } else {
        radix as int
    };
    if 0 <= d < radix {
        Some(d as nat)
    } else {
        None
    }
}

/// The value of a string of digits in `radix`, most significant first.
pub open spec fn numeral_value(s: Seq<char>, radix: nat) -> nat
    decreases s.len(),
{
    if s.len() == 0 {
        0
    } else {
        numeral_value(s.drop_last(), radix) * radix + match char_digit(s.last(), radix) {
            Some(d) => d,
            None => 0,
        }
    }
}

/// Every character of `s` is a digit in `radix`.
pub open spec fn all_digits(s: Seq<char>, radix: nat) -> bool {
    forall|i: int| 0 <= i < s.len() ==> (#[trigger] char_digit(s[i], radix)) is Some
}

/// The value denoted by an optional `+` followed by at least one digit in
/// `radix`, if `s` has that form.
pub open spec fn spec_parse_digits(s: Seq<char>, radix: nat) -> Option<nat> {
    let body = if s.len() > 1 && s[0] == '+' {
        s.drop_first()
    } else {
        s
    };
    if body.len() > 0 && all_digits(body, radix) {
        Some(numeral_value(body, radix))
    } else {
        None
    }
}

/// `s` without its underscores.
pub open spec fn without_underscores(s: Seq<char>) -> Seq<char>
    decreases s.len(),
{
    if s.len() == 0 {
        s
    } else if s.last() == '_' {
        without_underscores(s.drop_last())
    } else {
        without_underscores(s.drop_last()).push(s.last())
    }
}

/// The digits after a radix prefix (`0x`/`0X`, `0o`/`0O`, `0b`/`0B`) and
/// the radix it names; decimal when there is no prefix.
pub open spec fn spec_split_radix(s: Seq<char>) -> (Seq<char>, nat) {
    if s.len() >= 2 && s[0] == '0' && (s[1] == 'x' || s[1] == 'X') {
        (s.skip(2), 16)
    } else if s.len() >= 2 && s[0] == '0' && (s[1] == 'o' || s[1] == 'O') {
        (s.skip(2), 8)
    } else if s.len() >= 2 && s[0] == '0' && (s[1] == 'b' || s[1] == 'B') {
        (s.skip(2), 2)
    } else {
        (s, 10)
    }
}

/// The digits before a binary size suffix (`K`, `M`, `G`, either case)
/// and the multiplier it names; 1 without a suffix.
pub open spec fn spec_split_size_suffix(s: Seq<char>) -> (Seq<char>, nat) {
    if s.len() == 0 {
        (s, 1)
    } else if s.last() == 'K' || s.last() == 'k' {
        (s.drop_last(), 1024)
    } else if s.last() == 'M' || s.last() == 'm' {
        (s.drop_last(), 1024 * 1024)
    } else if s.last() == 'G' || s.last() == 'g' {
        (s.drop_last(), 1024 * 1024 * 1024)
    } else {
        (s, 1)
    }
}

/// What `parse_unsigned` gives for `input`: the value, or the message of
/// the error.
pub open spec fn spec_parse_unsigned(input: Seq<char>) -> Result<u128, Seq<char>> {
    let normalized = without_underscores(input);
    if normalized.len() == 0 {
        Err("number is empty"@)
    } else {
        let (rest, radix) = spec_split_radix(normalized);
        let (digits, multiplier) = spec_split_size_suffix(rest);
        if digits.len() == 0 {
            Err("number has no digits"@)
        } else {
            match spec_parse_digits(digits, radix) {
                Some(v) => if v * multiplier <= u128::MAX {
                    Ok((v * multiplier) as u128)
                } else {
                    Err("invalid unsigned number: "@ + input)
                },
                None => Err("invalid unsigned number: "@ + input),
            }
        }
    }
}

/// The value of `c` as a digit in `radix`, if it is one.
pub fn to_digit_value(c: char, radix: u32) -> (d: Option<u32>)
    requires
        radix <= 36,
    ensures
        d matches Some(v) ==> char_digit(c, radix as nat) == Some(v as nat),
        d is None ==> char_digit(c, radix as nat) is None,
{
    let v: u32 = if '0' <= c && c <= '9' {
        c as u32 - '0' as u32
    } else if 'a' <= c && c <= 'z' {
        c as u32 - 'a' as u32 + 10
    } else if 'A' <= c && c <= 'Z' {
        c as u32 - 'A' as u32 + 10
    } else {
        radix
    };
    if v < radix {
        Some(v)
    } else {
        None
    }
}

/// A numeral's value never shrinks as digits are added.
proof fn lemma_numeral_value_prefix(s: Seq<char>, radix: nat, i: int)
    requires
        radix >= 1,
        0 <= i <= s.len(),
    ensures
        numeral_value(s.take(i), radix) <= numeral_value(s, radix),
    decreases s.len() - i,
{
    if i < s.len() {
        lemma_numeral_value_prefix(s, radix, i + 1);
        let t = s.take(i + 1);
        assert(t.drop_last() =~= s.take(i));
        let v = numeral_value(s.take(i), radix);
        assert(v * radix >= v) by (nonlinear_arith)
            requires
                radix >= 1,
        ;
    } else {
        assert(s.take(i) =~= s);
    }
}

/// The value of a numeral that fits in `u128`, if `s` is one.
pub fn parse_digits(s: &Vec<char>, radix: u32) -> (r: Option<u128>)
    requires
        2 <= radix <= 36,
    ensures
        r matches Some(v) ==> spec_parse_digits(s@, radix as nat) == Some(v as nat),
        r is None ==> (spec_parse_digits(s@, radix as nat) matches Some(v) ==> v > u128::MAX),
{
    let start: usize = if s.len() > 1 && s[0] == '+' {
        1
    } else {
        0
    };
    let ghost body = if s@.len() > 1 && s@[0] == '+' {
        s@.drop_first()
    } else {
        s@
    };
    assert(body =~= s@.skip(start as int));
    assert(spec_parse_digits(s@, radix as nat) matches Some(v) ==> v == numeral_value(
        body,
        radix as nat,
    ) && all_digits(body, radix as nat));
    if start == s.len() {
        assert(body.len() == 0);
        return None;
    }
    let mut value: u128 = 0;
    let mut i: usize = start;
    while i < s.len()
        invariant
            2 <= radix <= 36,
            start <= i <= s@.len(),
            body == s@.skip(start as int),
            spec_parse_digits(s@, radix as nat) matches Some(v) ==> v == numeral_value(
                body,
                radix as nat,
            ) && all_digits(body, radix as nat),
            all_digits(body.take(i - start), radix as nat),
            value as nat == numeral_value(body.take(i - start), radix as nat),
        decreases s@.len() - i,
    {
        let ghost k = i - start;
        assert(body[k] == s@[i as int]);
        match to_digit_value(s[i], radix) {
            None => {
                assert(!all_digits(body, radix as nat)) by {
                    assert(char_digit(body[k], radix as nat) is None);
                }
                return None;
            },
            Some(d) => {
                assert(body.take(k + 1).drop_last() =~= body.take(k));
                assert(body.take(k + 1).last() == body[k]);
                let next = match value.checked_mul(radix as u128) {
                    Some(m) => m.checked_add(d as u128),
                    None => None,
                };
                match next {
                    None => {
                        proof {
                            assert(numeral_value(body.take(k + 1), radix as nat) > u128::MAX) by {
                                if value as nat * radix as nat <= u128::MAX {
                                }
                            }
                            lemma_numeral_value_prefix(body, radix as nat, k + 1);
                        }
                        return None;
                    },
                    Some(n) => {
                        assert(all_digits(body.take(k + 1), radix as nat)) by {
                            assert forall|j: int| 0 <= j < k + 1 implies (#[trigger] char_digit(
                                body.take(k + 1)[j],
                                radix as nat,
                            )) is Some by {
                                if j < k {
                                    assert(body.take(k + 1)[j] == body.take(k)[j]);
                                }
                            }
                        }
                        value = n;
                    },
                }
            },
        }
        i = i + 1;
    }
    assert(body.take(i - start) =~= body);
    Some(value)
}

/// `s` without its underscores.
pub fn remove_underscores(s: &Vec<char>) -> (r: Vec<char>)
    ensures
        r@ == without_underscores(s@),
{
    let mut r: Vec<char> = Vec::new();
    let mut i: usize = 0;
    while i < s.len()
        invariant
            i <= s@.len(),
            r@ == without_underscores(s@.take(i as int)),
        decreases s@.len() - i,
    {
        let ghost t = s@.take(i as int + 1);
        assert(t.drop_last() =~= s@.take(i as int));
        if s[i] != '_' {
            r.push(s[i]);
        }
        i = i + 1;
    }
    assert(s@.take(i as int) =~= s@);
    r
}

/// The digits after the radix prefix and the radix.
pub fn split_radix(normalized: &Vec<char>) -> (r: (Vec<char>, u32))
    ensures
        (r.0@, r.1 as nat) == spec_split_radix(normalized@),
{
    let n = normalized.len();
    let radix: u32 = if n >= 2 && normalized[0] == '0' && (normalized[1] == 'x' || normalized[1]
        == 'X') {
        16
    } else if n >= 2 && normalized[0] == '0' && (normalized[1] == 'o' || normalized[1] == 'O') {
        8
    } else if n >= 2 && normalized[0] == '0' && (normalized[1] == 'b' || normalized[1] == 'B') {
        2
    } else {
        10
    };
    let start: usize = if radix == 10 {
        0
    } else {
        2
    };
    let mut digits: Vec<char> = Vec::new();
    let mut i: usize = start;
    while i < n
        invariant
            n == normalized@.len(),
            start <= i <= n,
            digits@ == normalized@.subrange(start as int, i as int),
        decreases n - i,
    {
        digits.push(normalized[i]);
        assert(normalized@.subrange(start as int, i + 1) =~= normalized@.subrange(
            start as int,
            i as int,
        ).push(normalized@[i as int]));
        i = i + 1;
    }
    assert(normalized@.subrange(start as int, n as int) =~= normalized@.skip(start as int));
    assert(normalized@.skip(0) =~= normalized@);
    (digits, radix)
}

/// The digits before a size suffix and the multiplier.
pub fn split_size_suffix(digits: &Vec<char>) -> (r: (Vec<char>, u128))
    ensures
        (r.0@, r.1 as nat) == spec_split_size_suffix(digits@),
{
    let n = digits.len();
    if n == 0 {
        return (Vec::new(), 1);
    }
    let last = digits[n - 1];
    let multiplier: u128 = if last == 'K' || last == 'k' {
        1024
    } else if last == 'M' || last == 'm' {
        1024 * 1024
    } else if last == 'G' || last == 'g' {
        1024 * 1024 * 1024
    } else {
        1
    };
    let end = if multiplier == 1 {
        n
    } else {
        n - 1
    };
    let mut kept: Vec<char> = Vec::new();
    let mut i: usize = 0;
    while i < end
        invariant
            end <= n == digits@.len(),
            i <= end,
            kept@ == digits@.take(i as int),
        decreases end - i,
    {
        kept.push(digits[i]);
        assert(digits@.take(i + 1) =~= digits@.take(i as int).push(digits@[i as int]));
        i = i + 1;
    }
    assert(digits@.take(n as int) =~= digits@);
    assert(digits@.take(n - 1) =~= digits@.drop_last());
    (kept, multiplier)
}

/// Parses an unsigned 128-bit number written in hexadecimal (`0x`),
/// octal (`0o`), binary (`0b`), or decimal, with optional underscores and
/// an optional `K`, `M`, or `G` binary size suffix.
pub fn parse_unsigned(input: &str) -> (r: Result<u128, String>)
    ensures
        match r {
            Ok(v) => spec_parse_unsigned(input@) == Ok::<u128, Seq<char>>(v),
            Err(m) => spec_parse_unsigned(input@) == Err::<u128, Seq<char>>(m@),
        },
{
    let chars = chars_of(input);
    let normalized = remove_underscores(&chars);
    if normalized.len() == 0 {
        return Err(String::from_str("number is empty"));
    }
    let (rest, radix) = split_radix(&normalized);
    let (digits, multiplier) = split_size_suffix(&rest);
    if digits.len() == 0 {
        return Err(String::from_str("number has no digits"));
    }
    let ghost normalized_spec = without_underscores(input@);
    assert(normalized@ == normalized_spec);
    assert(spec_split_radix(normalized_spec) == (rest@, radix as nat));
    assert(spec_split_size_suffix(rest@) == (digits@, multiplier as nat));
    match parse_digits(&digits, radix) {
        Some(v) => match v.checked_mul(multiplier) {
            Some(product) => {
                assert(product == v * multiplier);
                assert(spec_parse_digits(digits@, radix as nat) == Some(v as nat));
                assert(normalized_spec.len() != 0);
                assert(digits@.len() != 0);
                assert(spec_parse_unsigned(input@) == Ok::<u128, Seq<char>>(product));
                Ok(product)
            },
            None => {
                let m = invalid_number_message(input);
                assert(spec_parse_unsigned(input@) == Err::<u128, Seq<char>>(m@));
                Err(m)
            },
        },
        None => {
            let m = invalid_number_message(input);
            proof {
                if let Some(w) = spec_parse_digits(digits@, radix as nat) {
                    assert(w * multiplier >= w) by (nonlinear_arith)
                        requires
                            multiplier >= 1,
                    ;
                }
            }
            assert(spec_parse_unsigned(input@) == Err::<u128, Seq<char>>(m@));
            Err(m)
        },
    }
}

fn invalid_number_message(input: &str) -> (m: String)
    ensures
        m@ == "invalid unsigned number: "@ + input@,
{
    let mut v = chars_of("invalid unsigned number: ");
    extend_str(&mut v, input);
    string_of(v.as_slice())
}

} // verus!
