//! Numeric literals: what their text denotes and how it is checked.

use vstd::prelude::*;

verus! {

/// Why the text of an integer literal denotes no 64-bit signed integer.
#[derive(Debug, Clone, Copy, PartialEq, Eq, Hash)]
pub enum IntErrorKind {
    /// The text holds no digit, or a character that is no digit.
    InvalidDigit,
    /// The number is larger than `i64::MAX`.
    PosOverflow,
    /// The number is smaller than `i64::MIN`.
    NegOverflow,
}

pub open spec fn is_digit(c: char) -> bool {
    '0' <= c <= '9'
}

pub open spec fn all_digits(digits: Seq<char>) -> bool {
    forall|i: int| 0 <= i < digits.len() ==> is_digit(#[trigger] digits[i])
}

/// The number that a sequence of decimal digits denotes, leading zeros allowed.
pub open spec fn digits_value(digits: Seq<char>) -> int
    decreases digits.len(),
{
    if digits.len() == 0 {
        0
    } else {
        digits_value(digits.drop_last()) * 10 + (digits.last() as int - '0' as int)
    }
}

pub open spec fn is_negative(text: Seq<char>) -> bool {
    text.len() > 0 && text[0] == '-'
}

/// The text of a literal without its sign.
pub open spec fn unsigned_part(text: Seq<char>) -> Seq<char> {
    if is_negative(text) {
        text.drop_first()
    } else {
        text
    }
}

/// The integer that a literal denotes: an optional `-` and at least one digit,
/// within the range of `i64`.
pub open spec fn int_literal(text: Seq<char>) -> Result<i64, IntErrorKind> {
    let digits = unsigned_part(text);
    if digits.len() == 0 || !all_digits(digits) {
        Err(IntErrorKind::InvalidDigit)
    } else if is_negative(text) {
        if -digits_value(digits) < i64::MIN {
            Err(IntErrorKind::NegOverflow)
        } else {
            Ok((-digits_value(digits)) as i64)
        }
    } else {
        if digits_value(digits) > i64::MAX {
            Err(IntErrorKind::PosOverflow)
        } else {
            Ok(digits_value(digits) as i64)
        }
    }
}

/// A floating-point literal: an optional `-`, then digits around exactly one
/// `.`, with a digit on at least one side of it.
pub open spec fn is_float_literal(text: Seq<char>) -> bool {
    let body = unsigned_part(text);
    body.len() >= 2 && exists|dot: int|
        0 <= dot < body.len() && #[trigger] body[dot] == '.' && forall|i: int|
            0 <= i < body.len() && i != dot ==> is_digit(#[trigger] body[i])
}

/// The character of a decimal digit.
pub open spec fn digit_char(digit: int) -> char {
    if digit == 0 {
        '0'
    } else if digit == 1 {
        '1'
    } else if digit == 2 {
        '2'
    } else if digit == 3 {
        '3'
    } else if digit == 4 {
        '4'
    } else if digit == 5 {
        '5'
    } else if digit == 6 {
        '6'
    } else if digit == 7 {
        '7'
    } else if digit == 8 {
        '8'
    } else {
        '9'
    }
}

/// The decimal digits of a natural number, without leading zeros.
pub open spec fn decimal_digits(n: nat) -> Seq<char>
    decreases n,
{
    if n < 10 {
        seq![digit_char(n as int)]
    } else {
        decimal_digits(n / 10).push(digit_char((n % 10) as int))
    }
}

/// The decimal text of an integer: a `-` for a negative one, then the digits.
pub open spec fn decimal(value: int) -> Seq<char> {
    if value < 0 {
        seq!['-'] + decimal_digits((-value) as nat)
    } else {
        decimal_digits(value as nat)
    }
}

/// The decimal digits of a number are digits, and they denote the number.
pub proof fn lemma_decimal_digits(n: nat)
    ensures
        decimal_digits(n).len() >= 1,
        all_digits(decimal_digits(n)),
        digits_value(decimal_digits(n)) == n,
    decreases n,
{
    let digits = decimal_digits(n);
    if n < 10 {
        assert(digits.drop_last() =~= Seq::<char>::empty());
        assert(digits_value(digits.drop_last()) == 0);
    } else {
        lemma_decimal_digits(n / 10);
        let front = decimal_digits(n / 10);
        assert(digits.drop_last() =~= front);
        assert forall|i: int| 0 <= i < digits.len() implies is_digit(#[trigger] digits[i]) by {
            if i < front.len() {
                assert(digits[i] == front[i]);
            }
        }
    }
}

/// The decimal text of a 64-bit integer is an integer literal, and it
/// denotes that integer.
pub proof fn law_decimal_is_read_back(value: i64)
    ensures
        int_literal(decimal(value as int)) == Ok::<i64, IntErrorKind>(value),
        decimal(value as int).len() >= 1,
        is_digit(decimal(value as int)[0]) || decimal(value as int)[0] == '-',
        forall|i: int| 1 <= i < decimal(value as int).len() ==> is_digit(
            #[trigger] decimal(value as int)[i],
        ),
{
    let text = decimal(value as int);
    if value < 0 {
        let digits = decimal_digits((-value) as nat);
        lemma_decimal_digits((-value) as nat);
        assert(text.drop_first() =~= digits);
        assert forall|i: int| 1 <= i < text.len() implies is_digit(#[trigger] text[i]) by {
            assert(text[i] == digits[i - 1]);
        }
    } else {
        lemma_decimal_digits(value as nat);
        assert(is_digit(text[0]));
    }
}

pub proof fn lemma_digits_value_nonnegative(digits: Seq<char>)
    requires
        all_digits(digits),
    ensures
        0 <= digits_value(digits),
    decreases digits.len(),
{
    if digits.len() > 0 {
        lemma_digits_value_nonnegative(digits.drop_last());
    }
}

pub fn is_digit_char(c: char) -> (yes: bool)
    ensures
        yes == is_digit(c),
{
    '0' <= c && c <= '9'
}

/// Reads the integer literal that stands in `chars` from `start` up to `end`.
pub fn parse_int(chars: &Vec<char>, start: usize, end: usize) -> (value: Result<i64, IntErrorKind>)
    requires
        start <= end <= chars.len(),
    ensures
        value == int_literal(chars@.subrange(start as int, end as int)),
{
    let ghost text = chars@.subrange(start as int, end as int);
    let negative = start < end && chars[start] == '-';
    let first = if negative {
        start + 1
    } else {
        start
    };
    let ghost digits = unsigned_part(text);
    assert(digits == chars@.subrange(first as int, end as int));
    if first == end {
        return Err(IntErrorKind::InvalidDigit);
    }
    let bound: u64 = if negative {
        9223372036854775808
    } else {
        9223372036854775807
    };
    let mut acc: u64 = 0;
    let mut overflow = false;
    let mut i: usize = first;
    while i < end
        invariant
            start <= first <= i <= end <= chars.len(),
            text == chars@.subrange(start as int, end as int),
            digits == unsigned_part(text),
            digits == chars@.subrange(first as int, end as int),
            all_digits(digits.take(i - first)),
            bound == 9223372036854775808 || bound == 9223372036854775807,
            !overflow ==> acc == digits_value(digits.take(i - first)) && acc <= bound,
            overflow ==> digits_value(digits.take(i - first)) > bound,
        decreases end - i,
    {
        let c = chars[i];
        let ghost longer = digits.take(i - first + 1);
        proof {
            assert(longer.drop_last() == digits.take(i - first));
            assert(longer.last() == c);
        }
        if !is_digit_char(c) {
            proof {
                assert(digits[i - first] == c);
            }
            return Err(IntErrorKind::InvalidDigit);
        }
        proof {
            assert forall|j: int| 0 <= j < longer.len() implies is_digit(#[trigger] longer[j]) by {
                if j < i - first {
                    assert(longer[j] == digits.take(i - first)[j]);
                }
            }
            lemma_digits_value_nonnegative(digits.take(i - first));
        }
        let d: u64 = (c as u64) - 48;
        if !overflow {
            if acc > (bound - d) / 10 {
                overflow = true;
            } else {
                acc = acc * 10 + d;
            }
        }
        i += 1;
    }
    proof {
        assert(digits.take(i - first) == digits);
    }
    if overflow {
        if negative {
            Err(IntErrorKind::NegOverflow)
        } else {
            Err(IntErrorKind::PosOverflow)
        }
    } else if negative {
        if acc == 9223372036854775808 {
            Ok(i64::MIN)
        } else {
            Ok(-(acc as i64))
        }
    } else {
        Ok(acc as i64)
    }
}

/// Tells whether the text in `chars` from `start` up to `end` is a
/// floating-point literal.
pub fn check_float(chars: &Vec<char>, start: usize, end: usize) -> (yes: bool)
    requires
        start <= end <= chars.len(),
    ensures
        yes == is_float_literal(chars@.subrange(start as int, end as int)),
{
    let ghost text = chars@.subrange(start as int, end as int);
    let negative = start < end && chars[start] == '-';
    let first = if negative {
        start + 1
    } else {
        start
    };
    let ghost body = unsigned_part(text);
    assert(body == chars@.subrange(first as int, end as int));
    if end - first < 2 {
        return false;
    }
    let mut dot: Option<usize> = None;
    let mut i: usize = first;
    while i < end
        invariant
            start <= first <= i <= end <= chars.len(),
            text == chars@.subrange(start as int, end as int),
            body == unsigned_part(text),
            body == chars@.subrange(first as int, end as int),
            dot matches Some(at) ==> first <= at < i && chars@[at as int] == '.',
            forall|j: int|
                first <= j < i && dot != Some(j as usize) ==> is_digit(#[trigger] chars@[j]),
        decreases end - i,
    {
        let c = chars[i];
        if c == '.' {
            if let Some(at) = dot {
                proof {
                    assert(body[at - first] == '.');
                    assert(body[i - first] == '.');
                }
                return false;
            }
            dot = Some(i);
        } else if !is_digit_char(c) {
            proof {
                assert(body[i - first] == c);
            }
            return false;
        }
        i += 1;
    }
    match dot {
        Some(at) => {
            proof {
                assert(body[at - first] == '.');
                assert forall|j: int| 0 <= j < body.len() && j != at - first implies is_digit(
                    #[trigger] body[j],
                ) by {
                    assert(body[j] == chars@[first + j]);
                }
            }
            true
        },
        None => {
            proof {
                assert forall|at: int| 0 <= at < body.len() implies #[trigger] body[at] != '.' by {
                    assert(body[at] == chars@[first + at]);
                }
            }
            false
        },
    }
}

} // verus!
