//! Reading a numeric literal: what its text is worth as a float, as an
//! unsigned integer and as a signed integer, and which of them counts.

use crate::grammar::is_digit;
use crate::parser::to_chars;
use crate::value::{float_exponent, Json, Number, Value, EXPONENT_SPAN, FRACTION_SPAN};
use vstd::prelude::*;

verus! {

/// Whether `text` is one digit or more.
pub open spec fn is_digits(text: Seq<char>) -> bool {
    text.len() > 0 && forall|i: int| 0 <= i < text.len() ==> is_digit(#[trigger] text[i])
}

/// What a digit is worth.
pub open spec fn digit_value(c: char) -> nat {
    (c as int - '0' as int) as nat
}

/// What digits are worth in base ten.
pub open spec fn decimal(digits: Seq<char>) -> nat
    decreases digits.len(),
{
    if digits.len() == 0 {
        0
    } else {
        decimal(digits.drop_last()) * 10 + digit_value(digits.last())
    }
}

/// Whether a sign stands at the start of `text`.
pub open spec fn has_sign(text: Seq<char>, sign: char) -> bool {
    text.len() > 0 && text[0] == sign
}

/// The text without the sign at its start, if it has one of the two.
pub open spec fn unsigned_part(text: Seq<char>, minus_too: bool) -> Seq<char> {
    if has_sign(text, '+') || (minus_too && has_sign(text, '-')) {
        text.skip(1)
    } else {
        text
    }
}

/// The text read as an unsigned 64-bit integer: digits, with `+` before them
/// or without, that are worth no more than the largest such integer.
pub open spec fn read_u64(text: Seq<char>) -> Option<u64> {
    let digits = unsigned_part(text, false);
    if is_digits(digits) && decimal(digits) <= u64::MAX {
        Some(decimal(digits) as u64)
    } else {
        None
    }
}

/// The text read as a signed 64-bit integer: digits, with `+` or `-` before
/// them or without, that are worth an integer of that range.
pub open spec fn read_i64(text: Seq<char>) -> Option<i64> {
    let digits = unsigned_part(text, true);
    if !is_digits(digits) {
        None
    } else if has_sign(text, '-') {
        if decimal(digits) <= -(i64::MIN as int) {
            Some((-(decimal(digits) as int)) as i64)
        } else {
            None
        }
    } else {
        if decimal(digits) <= i64::MAX {
            Some(decimal(digits) as i64)
        } else {
            None
        }
    }
}

/// Whether a binary64 bit pattern encodes a finite number.
pub open spec fn float_is_finite(bits: u64) -> bool {
    float_exponent(bits) != EXPONENT_SPAN - 1
}

/// The JSON value of a float: a number where it is finite, `Null` where it
/// is not.
pub open spec fn float_value(bits: u64) -> Json {
    if float_is_finite(bits) {
        Json::Number(Number::Float(bits))
    } else {
        Json::Null
    }
}

/// The JSON value of a signed integer.
pub open spec fn signed_value(n: i64) -> Json {
    if n < 0 {
        Json::Number(Number::NegInt(n))
    } else {
        Json::Number(Number::PosInt(n as u64))
    }
}

/// The value of a numeric literal, where `float` holds the bits of the text
/// read as a float, if it can be read as one. The text is tried as a float,
/// then as an unsigned integer, then as a signed integer, and the first that
/// it can be read as counts; if there is none, the literal has no value.
pub open spec fn literal_number(text: Seq<char>, float: Option<u64>) -> Option<Json> {
    match float {
        Some(bits) => Some(float_value(bits)),
        None => match read_u64(text) {
            Some(n) => Some(Json::Number(Number::PosInt(n))),
            None => match read_i64(text) {
                Some(n) => Some(signed_value(n)),
                None => None,
            },
        },
    }
}

/// Digits are worth at least what any of them in front are worth.
pub proof fn lemma_decimal_grows(digits: Seq<char>, n: int)
    requires
        0 <= n <= digits.len(),
    ensures
        decimal(digits.take(n)) <= decimal(digits),
    decreases digits.len() - n,
{
    if n < digits.len() {
        lemma_decimal_grows(digits, n + 1);
        assert(digits.take(n + 1).drop_last() =~= digits.take(n));
    } else {
        assert(digits.take(n) =~= digits);
    }
}

/// What the digits of `chars` from `from` on are worth, if that is no more
/// than `limit`; `None` where a character is no digit, where there is no
/// digit at all, and where they are worth more.
fn read_digits(chars: &Vec<char>, from: usize, limit: u64) -> (r: Option<u64>)
    requires
        from <= chars.len(),
    ensures
        r == (if is_digits(chars@.skip(from as int)) && decimal(chars@.skip(from as int)) <= limit {
            Some(decimal(chars@.skip(from as int)) as u64)
        } else {
            None
        }),
{
    let ghost digits = chars@.skip(from as int);
    if from == chars.len() {
        return None;
    }
    let mut value: u64 = 0;
    let mut i: usize = from;
    while i < chars.len()
        invariant
            from <= i <= chars.len(),
            digits == chars@.skip(from as int),
            forall|k: int| 0 <= k < i - from ==> is_digit(#[trigger] digits[k]),
            value == decimal(digits.take(i - from)),
            value <= limit,
        decreases chars.len() - i,
    {
        let c = chars[i];
        assert(c == digits[i - from]);
        if !('0' <= c && c <= '9') {
            return None;
        }
        let d: u64 = (c as u32 - '0' as u32) as u64;
        proof {
            assert(digits.take(i - from + 1).drop_last() =~= digits.take(i - from));
            assert(digits.take(i - from + 1).last() == c);
            lemma_decimal_grows(digits, i - from + 1);
        }
        if d > limit || value > (limit - d) / 10 {
            return None;
        }
        value = value * 10 + d;
        i = i + 1;
    }
    assert(digits.take(i - from) =~= digits);
    Some(value)
}

/// The characters read as an unsigned 64-bit integer.
fn parse_u64(chars: &Vec<char>) -> (r: Option<u64>)
    ensures
        r == read_u64(chars@),
{
    if chars.len() > 0 && chars[0] == '+' {
        read_digits(chars, 1, u64::MAX)
    } else {
        assert(chars@.skip(0) =~= chars@);
        read_digits(chars, 0, u64::MAX)
    }
}

/// The characters read as a signed 64-bit integer.
fn parse_i64(chars: &Vec<char>) -> (r: Option<i64>)
    ensures
        r == read_i64(chars@),
{
    if chars.len() > 0 && chars[0] == '-' {
        match read_digits(chars, 1, 0x8000_0000_0000_0000) {
            Some(magnitude) => {
                if magnitude == 0x8000_0000_0000_0000 {
                    Some(i64::MIN)
                } else {
                    Some(-(magnitude as i64))
                }
            },
            None => None,
        }
    } else if chars.len() > 0 && chars[0] == '+' {
        match read_digits(chars, 1, 0x7fff_ffff_ffff_ffff) {
            Some(magnitude) => Some(magnitude as i64),
            None => None,
        }
    } else {
        assert(chars@.skip(0) =~= chars@);
        match read_digits(chars, 0, 0x7fff_ffff_ffff_ffff) {
            Some(magnitude) => Some(magnitude as i64),
            None => None,
        }
    }
}

/// The value of a numeric literal, where `float` holds the bits of the text
/// read as a float, if it can be read as one.
pub fn number_of(text: &str, float: Option<u64>) -> (r: Option<Value>)
    ensures
        match r {
            Some(v) => literal_number(text@, float) == Some(v@),
            None => literal_number(text@, float) is None,
        },
{
    match float {
        Some(bits) => {
            if (bits / FRACTION_SPAN) % EXPONENT_SPAN != EXPONENT_SPAN - 1 {
                Some(Value::Number(Number::Float(bits)))
            } else {
                Some(Value::Null)
            }
        },
        None => {
            let chars = to_chars(text);
            match parse_u64(&chars) {
                Some(n) => Some(Value::Number(Number::PosInt(n))),
                None => match parse_i64(&chars) {
                    Some(n) => {
                        if n < 0 {
                            Some(Value::Number(Number::NegInt(n)))
                        } else {
                            Some(Value::Number(Number::PosInt(n as u64)))
                        }
                    },
                    None => None,
                },
            }
        },
    }
}

} // verus!
