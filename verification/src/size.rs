//! Byte counts written by people: `4KiB`, `2MiB`, `512`.

use vstd::prelude::*;
use vstd::string::StringExecFns;

verus! {

/// Why a size could not be read.
#[derive(Debug, Clone, Copy, PartialEq, Eq)]
pub enum SizeError {
    /// The digits are missing, are not all `0` to `9`, or spell a number too
    /// large for this machine.
    Number,
    /// The unit is none of `TiB`, `GiB`, `MiB`, `KiB` and `B`.
    Unit,
    /// The number of bytes is too large for this machine.
    TooLarge,
}

/// What `char::is_numeric` answers for `c`: whether Unicode classes the
/// character as a number.
pub uninterp spec fn numeric(c: char) -> bool;

/// `char::is_numeric` of the standard library. Its answer depends on the
/// character alone and is referred to as `numeric`.
pub assume_specification[ char::is_numeric ](c: char) -> (b: bool)
    ensures
        b == numeric(c),
;

/// `String::push` of the standard library appends the character to the end of
/// the string.
pub assume_specification[ String::push ](s: &mut String, c: char)
    ensures
        final(s)@ == old(s)@.push(c),
;

/// The characters of `s` that are numeric (`want`) or that are not
/// (`!want`), in their order.
pub open spec fn kept(s: Seq<char>, want: bool) -> Seq<char>
    decreases s.len(),
{
    if s.len() == 0 {
        Seq::empty()
    } else {
        let front = kept(s.drop_last(), want);
        if numeric(s.last()) == want {
            front.push(s.last())
        } else {
            front
        }
    }
}

/// Whether `c` is one of `0` to `9`.
pub open spec fn is_digit(c: char) -> bool {
    48 <= c as u32 <= 57
}

/// Whether `s` holds nothing but the digits `0` to `9`.
pub open spec fn all_digits(s: Seq<char>) -> bool {
    forall|i: int| 0 <= i < s.len() ==> is_digit(#[trigger] s[i])
}

/// The number that the decimal digits `s` spell; zero for no digits.
pub open spec fn digits_value(s: Seq<char>) -> nat
    decreases s.len(),
{
    if s.len() == 0 {
        0
    } else {
        digits_value(s.drop_last()) * 10 + (s.last() as u32 - 48) as nat
    }
}

/// The number of bytes that one of `unit` stands for. A missing unit means
/// bytes.
pub open spec fn unit_factor(unit: Seq<char>) -> Option<nat> {
    if unit.len() == 0 || unit == seq!['B'] {
        Some(1)
    } else if unit == seq!['K', 'i', 'B'] {
        Some(1024)
    } else if unit == seq!['M', 'i', 'B'] {
        Some(1024 * 1024)
    } else if unit == seq!['G', 'i', 'B'] {
        Some(1024 * 1024 * 1024)
    } else if unit == seq!['T', 'i', 'B'] {
        Some(1024 * 1024 * 1024 * 1024)
    } else {
        None
    }
}

/// The size that `digits` and `unit` denote together, or why they denote
/// none. The number is judged before the unit.
pub open spec fn size_of_parts(digits: Seq<char>, unit: Seq<char>) -> Result<usize, SizeError> {
    if digits.len() == 0 || !all_digits(digits) || digits_value(digits) > usize::MAX {
        Err(SizeError::Number)
    } else {
        match unit_factor(unit) {
            None => Err(SizeError::Unit),
            Some(factor) => if digits_value(digits) * factor > usize::MAX {
                Err(SizeError::TooLarge)
            } else {
                Ok((digits_value(digits) * factor) as usize)
            },
        }
    }
}

/// The character for the decimal digit `d`.
pub open spec fn digit_char(d: nat) -> char {
    ((48 + d) as u8) as char
}

/// `n` written in decimal, without leading zeros.
pub open spec fn decimal(n: nat) -> Seq<char>
    decreases n,
{
    if n < 10 {
        seq![digit_char(n)]
    } else {
        decimal(n / 10).push(digit_char(n % 10))
    }
}

/// A size as shown to people: in whole MiB above one MiB, in whole KiB above
/// one KiB, always followed by the exact number of bytes.
pub open spec fn size_text(size: nat) -> Seq<char> {
    if size > 1024 * 1024 {
        decimal(size / (1024 * 1024)) + " MiB ("@ + decimal(size) + " bytes)"@
    } else if size > 1024 {
        decimal(size / 1024) + " KiB ("@ + decimal(size) + " bytes)"@
    } else {
        decimal(size) + " bytes"@
    }
}

/// A prefix of a digit string never spells a larger number than the whole.
proof fn lemma_value_grows(s: Seq<char>, i: int)
    requires
        all_digits(s),
        0 <= i <= s.len(),
    ensures
        digits_value(s.take(i)) <= digits_value(s),
    decreases s.len() - i,
{
    if i == s.len() {
        assert(s.take(i) == s);
    } else {
        lemma_value_grows(s, i + 1);
        assert(s.take(i + 1).drop_last() == s.take(i));
        assert(is_digit(s[i]));
    }
}

fn unit_matches(unit: &Vec<char>, first: char) -> (b: bool)
    ensures
        b == (unit@ == seq![first, 'i', 'B']),
{
    let b = unit.len() == 3 && unit[0] == first && unit[1] == 'i' && unit[2] == 'B';
    proof {
        if b {
            assert(unit@ =~= seq![first, 'i', 'B']);
        } else if unit@ == seq![first, 'i', 'B'] {
            assert(seq![first, 'i', 'B'].len() == 3);
            assert(seq![first, 'i', 'B'][0] == first);
            assert(seq![first, 'i', 'B'][1] == 'i');
            assert(seq![first, 'i', 'B'][2] == 'B');
        }
    }
    b
}

fn factor_of(unit: &Vec<char>) -> (f: Option<u64>)
    ensures
        match f {
            Some(v) => unit_factor(unit@) == Some(v as nat) && v <= 0x100_0000_0000,
            None => unit_factor(unit@) is None,
        },
{
    if unit.len() == 0 {
        Some(1)
    } else if unit.len() == 1 && unit[0] == 'B' {
        assert(unit@ =~= seq!['B']);
        Some(1)
    } else {
        proof {
            assert(seq!['B'].len() == 1);
            assert(seq!['B'][0] == 'B');
        }
        if unit_matches(unit, 'K') {
            Some(1024)
        } else if unit_matches(unit, 'M') {
            Some(1024 * 1024)
        } else if unit_matches(unit, 'G') {
            Some(1024 * 1024 * 1024)
        } else if unit_matches(unit, 'T') {
            Some(1024 * 1024 * 1024 * 1024)
        } else {
            None
        }
    }
}

/// Reads a size from its digits and its unit, given apart.
///
/// The digits must be a decimal number that fits the machine; the unit must
/// be empty or one of `B`, `KiB`, `MiB`, `GiB` and `TiB`; and the product must
/// fit the machine as well.
pub fn size_from_parts(digits: &Vec<char>, unit: &Vec<char>) -> (r: Result<usize, SizeError>)
    ensures
        r == size_of_parts(digits@, unit@),
{
    if digits.len() == 0 {
        return Err(SizeError::Number);
    }
    let mut value: usize = 0;
    let mut i: usize = 0;
    while i < digits.len()
        invariant
            i <= digits.len(),
            all_digits(digits@.take(i as int)),
            value == digits_value(digits@.take(i as int)),
        decreases digits.len() - i,
    {
        let c = digits[i];
        let code = c as u32;
        if code < 48 || code > 57 {
            assert(!is_digit(digits@[i as int]));
            return Err(SizeError::Number);
        }
        let d = (code - 48) as usize;
        proof {
            assert(digits@.take(i + 1).drop_last() == digits@.take(i as int));
            assert(digits@.take(i + 1).last() == c);
        }
        let next = match value.checked_mul(10) {
            Some(v) => v.checked_add(d),
            None => None,
        };
        match next {
            Some(v) => {
                value = v;
            },
            None => {
                proof {
                    if all_digits(digits@) {
                        lemma_value_grows(digits@, i + 1);
                    }
                }
                return Err(SizeError::Number);
            },
        }
        i = i + 1;
    }
    assert(digits@.take(i as int) == digits@);
    match factor_of(unit) {
        None => Err(SizeError::Unit),
        Some(factor) => {
            assert(value * factor <= 0x1_0000_0000_0000_0000 * 0x100_0000_0000) by (nonlinear_arith)
                requires
                    value <= 0x1_0000_0000_0000_0000,
                    factor <= 0x100_0000_0000,
            ;
            let product = value as u128 * factor as u128;
            if product > usize::MAX as u128 {
                Err(SizeError::TooLarge)
            } else {
                Ok(product as usize)
            }
        },
    }
}

/// Reads a size such as `4KiB`.
///
/// The numeric characters of `size_str`, wherever they stand, are its number
/// and the remaining characters are its unit.
pub fn parse_size(size_str: &str) -> (r: Result<usize, SizeError>)
    ensures
        r == size_of_parts(kept(size_str@, true), kept(size_str@, false)),
{
    let mut digits: Vec<char> = Vec::new();
    let mut unit: Vec<char> = Vec::new();
    let len = size_str.unicode_len();
    let mut i: usize = 0;
    while i < len
        invariant
            i <= len,
            len == size_str@.len(),
            digits@ == kept(size_str@.take(i as int), true),
            unit@ == kept(size_str@.take(i as int), false),
        decreases len - i,
    {
        let c = size_str.get_char(i);
        proof {
            assert(size_str@.take(i + 1).drop_last() == size_str@.take(i as int));
        }
        if c.is_numeric() {
            digits.push(c);
        } else {
            unit.push(c);
        }
        i = i + 1;
    }
    assert(size_str@.take(i as int) == size_str@);
    size_from_parts(&digits, &unit)
}

fn push_decimal(out: &mut String, n: usize)
    ensures
        final(out)@ == old(out)@ + decimal(n as nat),
    decreases n,
{
    if n >= 10 {
        push_decimal(out, n / 10);
    }
    let d = (n % 10) as u8;
    out.push((48u8 + d) as char);
    proof {
        if n < 10 {
            assert(out@ =~= old(out)@ + decimal(n as nat));
        } else {
            assert(out@ =~= old(out)@ + decimal(n as nat));
        }
    }
}

/// Shows a size to people: `3 MiB (3145729 bytes)`, `2 KiB (2048 bytes)`,
/// `1024 bytes`.
pub fn size_to_str(size: &usize) -> (s: String)
    ensures
        s@ == size_text(*size as nat),
{
    let size = *size;
    let mut s = String::new();
    if size > 1024 * 1024 {
        push_decimal(&mut s, size / (1024 * 1024));
        s.append(" MiB (");
        push_decimal(&mut s, size);
        s.append(" bytes)");
    } else if size > 1024 {
        push_decimal(&mut s, size / 1024);
        s.append(" KiB (");
        push_decimal(&mut s, size);
        s.append(" bytes)");
    } else {
        push_decimal(&mut s, size);
        s.append(" bytes");
    }
    assert(s@ =~= size_text(size as nat));
    s
}

} // verus!
