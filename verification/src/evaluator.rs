//! Evaluation of a postfix expression on a stack of 32-bit numbers.

use vstd::prelude::*;
use crate::chars::{char_is_space, is_space, to_chars};
use crate::errors::CalcError;
use crate::number::{number_of, parse_number};
use crate::token::Operator;

verus! {

/// The quotient of `first` by `second`, rounded toward zero.
pub open spec fn quotient(first: int, second: int) -> int
    recommends
        second != 0,
{
    if first >= 0 {
        if second > 0 {
            first / second
        } else {
            -(first / (-second))
        }
    } else {
        if second > 0 {
            -((-first) / second)
        } else {
            (-first) / (-second)
        }
    }
}

/// `v` if it fits in 32 bits, and an overflow if it does not.
pub open spec fn in_range(v: int) -> Result<int, CalcError> {
    if i32::MIN <= v <= i32::MAX {
        Ok(v)
    } else {
        Err(CalcError::NumericOverflow)
    }
}

/// What `op` makes of `first` and `second`: their sum, difference, product
/// or quotient rounded toward zero, if it fits in 32 bits. A division by
/// zero fails as such.
pub open spec fn apply(op: Operator, first: int, second: int) -> Result<int, CalcError> {
    match op {
        Operator::Add => in_range(first + second),
        Operator::Sub => in_range(first - second),
        Operator::Mul => in_range(first * second),
        Operator::Div => if second == 0 {
            Err(CalcError::DivisionByZero)
        } else {
            in_range(quotient(first, second))
        },
    }
}

/// The stack after `op` has taken its two operands from the top, the
/// second one first, and left its result there. With fewer than two
/// values on the stack the expression is malformed.
pub open spec fn reduce(op: Operator, stack: Seq<int>) -> Result<Seq<int>, CalcError> {
    if stack.len() < 2 {
        Err(CalcError::MalformedExpression)
    } else {
        match apply(op, stack[stack.len() - 2], stack[stack.len() - 1]) {
            Ok(v) => Ok(stack.take(stack.len() - 2).push(v)),
            Err(e) => Err(e),
        }
    }
}

/// The operator that `word` writes: a word of one character that is an
/// operator's symbol.
pub open spec fn operator_of(word: Seq<char>) -> Option<Operator> {
    if word.len() == 1 {
        Operator::of_char(word[0])
    } else {
        None
    }
}

/// The stack after `word` has been read: a number is pushed, an operator
/// is applied, and any other word is not recognized.
pub open spec fn step(word: Seq<char>, stack: Seq<int>) -> Result<Seq<int>, CalcError> {
    match number_of(word) {
        Some(v) => Ok(stack.push(v)),
        None => match operator_of(word) {
            Some(op) => reduce(op, stack),
            None => Err(CalcError::UnrecognizedToken),
        },
    }
}

/// The value that is left when `words` have been read one after the other,
/// starting from `stack`. The first failure ends the evaluation; at the
/// end exactly one value must be left.
pub open spec fn eval_words(words: Seq<Seq<char>>, stack: Seq<int>) -> Result<int, CalcError>
    decreases words.len(),
{
    if words.len() == 0 {
        if stack.len() == 1 {
            Ok(stack[0])
        } else {
            Err(CalcError::MalformedExpression)
        }
    } else {
        match step(words[0], stack) {
            Ok(next) => eval_words(words.drop_first(), next),
            Err(e) => Err(e),
        }
    }
}

/// The length of the longest run of characters other than white space
/// that `s` starts with.
pub open spec fn chunk_len(s: Seq<char>) -> nat
    decreases s.len(),
{
    if s.len() > 0 && !is_space(s[0]) {
        1 + chunk_len(s.drop_first())
    } else {
        0
    }
}

/// The words of `s`: the longest runs of characters other than white
/// space, from left to right.
pub open spec fn split_words(s: Seq<char>) -> Seq<Seq<char>>
    decreases s.len(),
    via split_words_decreases
{
    if s.len() == 0 {
        Seq::empty()
    } else if is_space(s[0]) {
        split_words(s.drop_first())
    } else {
        seq![s.take(chunk_len(s) as int)] + split_words(s.skip(chunk_len(s) as int))
    }
}

#[via_fn]
proof fn split_words_decreases(s: Seq<char>) {
    if s.len() > 0 && !is_space(s[0]) {
        lemma_chunk_len_bound(s);
    }
}

/// The value of the postfix expression `postfix`, or the reason why it has
/// none.
pub open spec fn evaluate(postfix: Seq<char>) -> Result<int, CalcError> {
    eval_words(split_words(postfix), Seq::empty())
}

/// The numbers of `stack` as integers.
pub open spec fn ints(stack: Seq<i32>) -> Seq<int> {
    Seq::new(stack.len(), |k: int| stack[k] as int)
}

/// The stack once an operator has taken its operands from it: without its
/// two topmost numbers, or as it is if it holds fewer than two.
pub open spec fn without_operands(stack: Seq<i32>) -> Seq<i32> {
    if stack.len() < 2 {
        stack
    } else {
        stack.take(stack.len() - 2)
    }
}

/// A run of characters is no longer than the text it starts.
pub proof fn lemma_chunk_len_bound(s: Seq<char>)
    ensures
        chunk_len(s) <= s.len(),
        s.len() > 0 && !is_space(s[0]) ==> chunk_len(s) >= 1,
    decreases s.len(),
{
    if s.len() > 0 && !is_space(s[0]) {
        lemma_chunk_len_bound(s.drop_first());
    }
}

/// If none of the first `n` characters of `s` is white space and the next
/// one, if there is one, is, the run has length `n`.
pub proof fn lemma_chunk_len_is(s: Seq<char>, n: nat)
    requires
        n <= s.len(),
        forall|k: int| 0 <= k < n ==> !is_space(#[trigger] s[k]),
        n < s.len() ==> is_space(s[n as int]),
    ensures
        chunk_len(s) == n,
    decreases n,
{
    if n > 0 {
        let rest = s.drop_first();
        assert forall|k: int| 0 <= k < n - 1 implies !is_space(#[trigger] rest[k]) by {
            assert(rest[k] == s[k + 1]);
        }
        lemma_chunk_len_is(rest, (n - 1) as nat);
    }
}

/// An evaluation never fails for mismatched parentheses: a postfix
/// expression has none.
pub proof fn lemma_eval_words_failure(words: Seq<Seq<char>>, stack: Seq<int>)
    ensures
        eval_words(words, stack) != Err::<int, CalcError>(CalcError::MismatchedParentheses),
    decreases words.len(),
{
    if words.len() > 0 {
        if let Ok(next) = step(words[0], stack) {
            lemma_eval_words_failure(words.drop_first(), next);
        }
    }
}

/// The index at which the word that begins at `start` ends.
pub fn chunk_end(chars: &Vec<char>, start: usize) -> (end: usize)
    requires
        start <= chars.len(),
    ensures
        start <= end <= chars.len(),
        end - start == chunk_len(chars@.skip(start as int)),
{
    let ghost s = chars@.skip(start as int);
    let mut end: usize = start;
    while end < chars.len() && !char_is_space(chars[end])
        invariant
            start <= end <= chars.len(),
            s == chars@.skip(start as int),
            forall|k: int| 0 <= k < end - start ==> !is_space(#[trigger] s[k]),
        decreases chars.len() - end,
    {
        end += 1;
    }
    proof {
        lemma_chunk_len_is(s, (end - start) as nat);
    }
    end
}

/// Applies `op` to `first` and `second`.
pub fn apply_operator(op: Operator, first: i32, second: i32) -> (r: Result<i32, CalcError>)
    ensures
        match r {
            Ok(v) => apply(op, first as int, second as int) == Ok::<int, CalcError>(v as int),
            Err(e) => apply(op, first as int, second as int) == Err::<int, CalcError>(e),
        },
{
    let value = match op {
        Operator::Add => first.checked_add(second),
        Operator::Sub => first.checked_sub(second),
        Operator::Mul => first.checked_mul(second),
        Operator::Div => {
            if second == 0 {
                return Err(CalcError::DivisionByZero);
            }
            first.checked_div(second)
        },
    };
    match value {
        Some(v) => Ok(v),
        None => Err(CalcError::NumericOverflow),
    }
}

/// Takes the two topmost numbers from `stack`: the one pushed earlier
/// first, the one pushed later second. With fewer than two numbers the
/// stack stays as it is.
pub fn get_two_nums_from_stack(stack: &mut Vec<i32>) -> (r: Option<(i32, i32)>)
    ensures
        old(stack).len() < 2 ==> r is None && final(stack)@ == old(stack)@,
        old(stack).len() >= 2 ==> r == Some(
            (old(stack)@[old(stack).len() - 2], old(stack)@[old(stack).len() - 1]),
        ) && final(stack)@ == old(stack)@.take(old(stack).len() - 2),
{
    if stack.len() < 2 {
        return None;
    }
    let second = stack.pop().unwrap();
    let first = stack.pop().unwrap();
    assert(stack@ == old(stack)@.take(old(stack).len() - 2));
    Some((first, second))
}

/// Takes the operands of `op` from `stack` and puts its result there.
fn reduce_stack(op: Operator, stack: &mut Vec<i32>) -> (r: Result<i32, CalcError>)
    ensures
        match r {
            Ok(v) => reduce(op, ints(old(stack)@)) == Ok::<Seq<int>, CalcError>(ints(final(stack)@))
                && final(stack)@ == old(stack)@.take(old(stack).len() - 2).push(v),
            Err(e) => reduce(op, ints(old(stack)@)) == Err::<Seq<int>, CalcError>(e)
                && final(stack)@ == without_operands(old(stack)@),
        },
{
    match get_two_nums_from_stack(stack) {
        None => Err(CalcError::MalformedExpression),
        Some((first, second)) => match apply_operator(op, first, second) {
            Ok(v) => {
                stack.push(v);
                assert(ints(stack@) == ints(old(stack)@).take(old(stack).len() - 2).push(
                    v as int,
                ));
                Ok(v)
            },
            Err(e) => Err(e),
        },
    }
}

/// Replaces the two topmost numbers of `stack` by their sum, and returns
/// it.
pub fn sum_two_nums(stack: &mut Vec<i32>) -> (r: Result<i32, CalcError>)
    ensures
        match r {
            Ok(v) => reduce(Operator::Add, ints(old(stack)@)) == Ok::<Seq<int>, CalcError>(
                ints(final(stack)@),
            ) && final(stack)@ == old(stack)@.take(old(stack).len() - 2).push(v),
            Err(e) => reduce(Operator::Add, ints(old(stack)@)) == Err::<Seq<int>, CalcError>(e)
                && final(stack)@ == without_operands(old(stack)@),
        },
{
    reduce_stack(Operator::Add, stack)
}

/// Replaces the two topmost numbers of `stack` by the earlier one less the
/// later one, and returns it.
pub fn minus_two_nums(stack: &mut Vec<i32>) -> (r: Result<i32, CalcError>)
    ensures
        match r {
            Ok(v) => reduce(Operator::Sub, ints(old(stack)@)) == Ok::<Seq<int>, CalcError>(
                ints(final(stack)@),
            ) && final(stack)@ == old(stack)@.take(old(stack).len() - 2).push(v),
            Err(e) => reduce(Operator::Sub, ints(old(stack)@)) == Err::<Seq<int>, CalcError>(e)
                && final(stack)@ == without_operands(old(stack)@),
        },
{
    reduce_stack(Operator::Sub, stack)
}

/// Replaces the two topmost numbers of `stack` by their product, and
/// returns it.
pub fn multiply_two_numbers(stack: &mut Vec<i32>) -> (r: Result<i32, CalcError>)
    ensures
        match r {
            Ok(v) => reduce(Operator::Mul, ints(old(stack)@)) == Ok::<Seq<int>, CalcError>(
                ints(final(stack)@),
            ) && final(stack)@ == old(stack)@.take(old(stack).len() - 2).push(v),
            Err(e) => reduce(Operator::Mul, ints(old(stack)@)) == Err::<Seq<int>, CalcError>(e)
                && final(stack)@ == without_operands(old(stack)@),
        },
{
    reduce_stack(Operator::Mul, stack)
}

/// Replaces the two topmost numbers of `stack` by the earlier one divided
/// by the later one, rounded toward zero, and returns it.
pub fn divide_two_numbers(stack: &mut Vec<i32>) -> (r: Result<i32, CalcError>)
    ensures
        match r {
            Ok(v) => reduce(Operator::Div, ints(old(stack)@)) == Ok::<Seq<int>, CalcError>(
                ints(final(stack)@),
            ) && final(stack)@ == old(stack)@.take(old(stack).len() - 2).push(v),
            Err(e) => reduce(Operator::Div, ints(old(stack)@)) == Err::<Seq<int>, CalcError>(e)
                && final(stack)@ == without_operands(old(stack)@),
        },
{
    reduce_stack(Operator::Div, stack)
}

/// The value of the postfix expression `chars`.
pub fn evaluate_chars(chars: &Vec<char>) -> (r: Result<i32, CalcError>)
    ensures
        match r {
            Ok(v) => evaluate(chars@) == Ok::<int, CalcError>(v as int),
            Err(e) => evaluate(chars@) == Err::<int, CalcError>(e),
        },
{
    let mut stack: Vec<i32> = Vec::new();
    let mut i: usize = 0;
    proof {
        assert(chars@.skip(0) == chars@);
        assert(ints(stack@) == Seq::<int>::empty());
    }
    while i < chars.len()
        invariant
            i <= chars.len(),
            evaluate(chars@) == eval_words(split_words(chars@.skip(i as int)), ints(stack@)),
        decreases chars.len() - i,
    {
        let ghost here = chars@.skip(i as int);
        proof {
            assert(here[0] == chars@[i as int]);
            assert(here.drop_first() == chars@.skip(i + 1));
        }
        if char_is_space(chars[i]) {
            i += 1;
        } else {
            let end = chunk_end(chars, i);
            let ghost word = chars@.subrange(i as int, end as int);
            let ghost before = ints(stack@);
            proof {
                lemma_chunk_len_bound(here);
                assert(here.take(end - i) == word);
                assert(here.skip(end - i) == chars@.skip(end as int));
                assert(split_words(here)[0] == word);
                assert(split_words(here).drop_first() == split_words(chars@.skip(end as int)));
                assert(word.len() == end - i);
                assert(word[0] == chars@[i as int]);
            }
            match parse_number(chars, i, end) {
                Some(v) => {
                    stack.push(v);
                    assert(ints(stack@) == before.push(v as int));
                },
                None => {
                    let op = if end - i == 1 {
                        Operator::from_char(chars[i])
                    } else {
                        None
                    };
                    assert(op == operator_of(word));
                    let reduced = match op {
                        Some(Operator::Add) => sum_two_nums(&mut stack),
                        Some(Operator::Sub) => minus_two_nums(&mut stack),
                        Some(Operator::Mul) => multiply_two_numbers(&mut stack),
                        Some(Operator::Div) => divide_two_numbers(&mut stack),
                        None => {
                            return Err(CalcError::UnrecognizedToken);
                        },
                    };
                    if let Err(e) = reduced {
                        return Err(e);
                    }
                },
            }
            i = end;
        }
    }
    assert(chars@.skip(chars.len() as int) == Seq::<char>::empty());
    if stack.len() == 1 {
        Ok(stack[0])
    } else {
        Err(CalcError::MalformedExpression)
    }
}

/// Evaluates the postfix expression `postfix`: numbers and the operators
/// `+ - * /`, separated by white space. Each operator applies to the two
/// values before it.
pub fn evaluate_postfix(postfix: &str) -> (r: Result<i32, CalcError>)
    ensures
        match r {
            Ok(v) => evaluate(postfix@) == Ok::<int, CalcError>(v as int),
            Err(e) => evaluate(postfix@) == Err::<int, CalcError>(e),
        },
{
    let chars = to_chars(postfix);
    evaluate_chars(&chars)
}

} // verus!
