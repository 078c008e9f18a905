//! Decimal integers: reading a word as a 32-bit number and writing a
//! number as text.

use vstd::prelude::*;
use crate::chars::{
    char_digit_value, char_is_digit, digit_char, digit_to_char, digit_value, is_digit,
    lemma_digit_char, to_chars,
};

verus! {

/// Whether every character of `s` is a decimal digit.
pub open spec fn all_digits(s: Seq<char>) -> bool {
    forall|i: int| 0 <= i < s.len() ==> is_digit(#[trigger] s[i])
}

/// The number that a run of decimal digits stands for, the most
/// significant digit first.
pub open spec fn digits_value(s: Seq<char>) -> nat
    decreases s.len(),
{
    if s.len() == 0 {
        0
    } else {
        digits_value(s.drop_last()) * 10 + digit_value(s.last())
    }
}

/// The integer that `word` writes: an optional sign, `+` or `-`, and then
/// one or more decimal digits. `None` for any other word.
pub open spec fn written_integer(word: Seq<char>) -> Option<int> {
    if word.len() > 0 && (word[0] == '-' || word[0] == '+') {
        let digits = word.drop_first();
        if digits.len() > 0 && all_digits(digits) {
            if word[0] == '-' {
                Some(-(digits_value(digits) as int))
            } else {
                Some(digits_value(digits) as int)
            }
        } else {
            None
        }
    } else if word.len() > 0 && all_digits(word) {
        Some(digits_value(word) as int)
    } else {
        None
    }
}

/// The 32-bit signed number that `word` writes, if it writes an integer
/// and that integer fits.
pub open spec fn number_of(word: Seq<char>) -> Option<int> {
    match written_integer(word) {
        Some(v) => if i32::MIN <= v <= i32::MAX {
            Some(v)
        } else {
            None
        },
        None => None,
    }
}

/// The decimal digits of `n`, without leading zeros.
pub open spec fn decimal(n: nat) -> Seq<char>
    decreases n,
{
    if n < 10 {
        seq![digit_char(n)]
    } else {
        decimal(n / 10).push(digit_char(n % 10))
    }
}

/// The text of the integer `v`: its decimal digits, after a `-` if it is
/// negative.
pub open spec fn int_text(v: int) -> Seq<char> {
    if v < 0 {
        seq!['-'] + decimal((-v) as nat)
    } else {
        decimal(v as nat)
    }
}

/// One more digit at the end multiplies the value by ten and adds the digit.
pub proof fn lemma_digits_value_push(s: Seq<char>, c: char)
    ensures
        digits_value(s.push(c)) == digits_value(s) * 10 + digit_value(c),
{
    assert(s.push(c).drop_last() == s);
}

/// The digits of `n` are digits, there is at least one, and they stand
/// for `n`.
pub proof fn lemma_decimal_value(n: nat)
    ensures
        decimal(n).len() > 0,
        all_digits(decimal(n)),
        digits_value(decimal(n)) == n,
    decreases n,
{
    if n < 10 {
        lemma_digit_char(n);
        lemma_digits_value_push(Seq::<char>::empty(), digit_char(n));
        assert(Seq::<char>::empty().push(digit_char(n)) == decimal(n));
    } else {
        lemma_decimal_value(n / 10);
        lemma_digit_char(n % 10);
        lemma_digits_value_push(decimal(n / 10), digit_char(n % 10));
    }
}

/// Reading the text of a 32-bit number gives that number back.
pub proof fn lemma_number_of_int_text(v: int)
    requires
        i32::MIN <= v <= i32::MAX,
    ensures
        number_of(int_text(v)) == Some(v),
{
    if v < 0 {
        let n = (-v) as nat;
        lemma_decimal_value(n);
        assert(int_text(v).drop_first() == decimal(n));
    } else {
        lemma_decimal_value(v as nat);
        assert(is_digit(decimal(v as nat)[0]));
    }
}

/// Reads the characters of `chars` from `start` up to `end` as a 32-bit
/// signed number.
pub fn parse_number(chars: &Vec<char>, start: usize, end: usize) -> (r: Option<i32>)
    requires
        start <= end <= chars.len(),
    ensures
        match r {
            Some(v) => number_of(chars@.subrange(start as int, end as int)) == Some(v as int),
            None => number_of(chars@.subrange(start as int, end as int)) is None,
        },
{
    let ghost word = chars@.subrange(start as int, end as int);
    if start == end {
        return None;
    }
    let first = chars[start];
    assert(first == word[0]);
    let signed = first == '-' || first == '+';
    let from: usize = if signed {
        start + 1
    } else {
        start
    };
    let ghost digits = chars@.subrange(from as int, end as int);
    proof {
        if signed {
            assert(digits == word.drop_first());
        } else {
            assert(digits == word);
        }
    }
    if from == end {
        return None;
    }
    let limit: u64 = 2147483648;
    let mut value: u64 = 0;
    let mut large = false;
    let mut i: usize = from;
    while i < end
        invariant
            from <= i <= end <= chars.len(),
            word == chars@.subrange(start as int, end as int),
            word.len() > 0,
            signed == (word[0] == '-' || word[0] == '+'),
            digits == if signed {
                word.drop_first()
            } else {
                word
            },
            digits == chars@.subrange(from as int, end as int),
            all_digits(digits.take(i - from)),
            limit == 2147483648,
            !large ==> value == digits_value(digits.take(i - from)) && value <= limit,
            large ==> digits_value(digits.take(i - from)) > limit,
        decreases end - i,
    {
        let c = chars[i];
        assert(c == digits[i - from]);
        if !char_is_digit(c) {
            return None;
        }
        let d = char_digit_value(c);
        proof {
            assert(digits.take(i - from + 1) == digits.take(i - from).push(c));
            lemma_digits_value_push(digits.take(i - from), c);
        }
        if !large {
            value = value * 10 + d as u64;
            if value > limit {
                large = true;
            }
        }
        i += 1;
    }
    assert(digits.take(end - from) == digits);
    if large {
        None
    } else if first == '-' {
        if value == limit {
            Some(i32::MIN)
        } else {
            Some(-(value as i32))
        }
    } else if value < limit {
        Some(value as i32)
    } else {
        None
    }
}

/// Whether `word` writes a 32-bit signed number.
pub fn is_numeric(word: &str) -> (r: bool)
    ensures
        r == number_of(word@).is_some(),
{
    let chars = to_chars(word);
    assert(chars@.subrange(0, chars.len() as int) == chars@);
    parse_number(&chars, 0, chars.len()).is_some()
}

/// Appends the decimal digits of `n` to `out`.
fn push_decimal(out: &mut String, n: u32)
    ensures
        final(out)@ == old(out)@ + decimal(n as nat),
    decreases n,
{
    if n < 10 {
        out.push(digit_to_char(n as u8));
        assert(old(out)@.push(digit_char(n as nat)) == old(out)@ + decimal(n as nat));
    } else {
        push_decimal(out, n / 10);
        out.push(digit_to_char((n % 10) as u8));
        assert((old(out)@ + decimal((n / 10) as nat)).push(digit_char((n % 10) as nat))
            == old(out)@ + decimal(n as nat));
    }
}

/// The text of `v` in decimal.
pub fn format_number(v: i32) -> (text: String)
    ensures
        text@ == int_text(v as int),
{
    let mut text = String::new();
    if v < 0 {
        text.push('-');
        let magnitude: u32 = if v == i32::MIN {
            2147483648
        } else {
            (-v) as u32
        };
        push_decimal(&mut text, magnitude);
    } else {
        push_decimal(&mut text, v as u32);
        assert(Seq::<char>::empty() + decimal(v as nat) == decimal(v as nat));
    }
    text
}

} // verus!
