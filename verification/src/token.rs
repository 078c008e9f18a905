//! The tokens of an infix expression and how a text divides into them.

use vstd::prelude::*;
use crate::chars::{char_is_space, is_space};

verus! {

/// One of the four binary operators.
#[derive(Clone, Copy, Debug, PartialEq, Eq, Structural)]
pub enum Operator {
    /// `+`
    Add,
    /// `-`
    Sub,
    /// `*`
    Mul,
    /// `/`
    Div,
}

impl Operator {
    /// The character that writes this operator.
    pub open spec fn symbol(self) -> char {
        match self {
            Operator::Add => '+',
            Operator::Sub => '-',
            Operator::Mul => '*',
            Operator::Div => '/',
        }
    }

    /// How tightly the operator binds: `*` and `/` bind tighter than `+`
    /// and `-`.
    pub open spec fn precedence(self) -> nat {
        match self {
            Operator::Add | Operator::Sub => 1,
            Operator::Mul | Operator::Div => 2,
        }
    }

    /// The operator that `c` writes, if it writes one.
    pub open spec fn of_char(c: char) -> Option<Operator> {
        if c == '+' {
            Some(Operator::Add)
        } else if c == '-' {
            Some(Operator::Sub)
        } else if c == '*' {
            Some(Operator::Mul)
        } else if c == '/' {
            Some(Operator::Div)
        } else {
            None
        }
    }

    /// The character that writes this operator.
    pub fn to_char(self) -> (c: char)
        ensures
            c == self.symbol(),
    {
        match self {
            Operator::Add => '+',
            Operator::Sub => '-',
            Operator::Mul => '*',
            Operator::Div => '/',
        }
    }

    /// How tightly the operator binds.
    pub fn binding(self) -> (p: u8)
        ensures
            p as nat == self.precedence(),
    {
        match self {
            Operator::Add | Operator::Sub => 1,
            Operator::Mul | Operator::Div => 2,
        }
    }

    /// The operator that `c` writes, if it writes one.
    pub fn from_char(c: char) -> (r: Option<Operator>)
        ensures
            r == Operator::of_char(c),
    {
        if c == '+' {
            Some(Operator::Add)
        } else if c == '-' {
            Some(Operator::Sub)
        } else if c == '*' {
            Some(Operator::Mul)
        } else if c == '/' {
            Some(Operator::Div)
        } else {
            None
        }
    }
}

/// A token of an expression. An operand keeps its characters as they were
/// written: whether they write a number is decided when it is evaluated.
pub enum Token {
    /// A run of characters that are neither white space, operators nor
    /// parentheses.
    Operand(Seq<char>),
    /// One of `+ - * /`.
    Operator(Operator),
    /// `(`
    LeftParen,
    /// `)`
    RightParen,
}

impl Token {
    /// The characters that write this token.
    pub open spec fn text(self) -> Seq<char> {
        match self {
            Token::Operand(word) => word,
            Token::Operator(op) => seq![op.symbol()],
            Token::LeftParen => seq!['('],
            Token::RightParen => seq![')'],
        }
    }
}

/// The operands among `tokens`, in their order.
pub open spec fn operands(tokens: Seq<Token>) -> Seq<Seq<char>>
    decreases tokens.len(),
{
    if tokens.len() == 0 {
        Seq::empty()
    } else {
        match tokens[0] {
            Token::Operand(word) => seq![word] + operands(tokens.drop_first()),
            _ => operands(tokens.drop_first()),
        }
    }
}

/// How many times the operator `op` stands among `tokens`.
pub open spec fn occurrences(tokens: Seq<Token>, op: Operator) -> nat
    decreases tokens.len(),
{
    if tokens.len() == 0 {
        0
    } else if tokens[0] == Token::Operator(op) {
        1 + occurrences(tokens.drop_first(), op)
    } else {
        occurrences(tokens.drop_first(), op)
    }
}

/// Whether the parentheses among `tokens` match, where `open` of them are
/// open already: every `)` closes a `(` that is open, and none is left
/// open at the end.
pub open spec fn parentheses_match(tokens: Seq<Token>, open: nat) -> bool
    decreases tokens.len(),
{
    if tokens.len() == 0 {
        open == 0
    } else {
        match tokens[0] {
            Token::LeftParen => parentheses_match(tokens.drop_first(), open + 1),
            Token::RightParen => open > 0 && parentheses_match(
                tokens.drop_first(),
                (open - 1) as nat,
            ),
            _ => parentheses_match(tokens.drop_first(), open),
        }
    }
}

/// Whether `c` is a token by itself: an operator or a parenthesis.
pub open spec fn is_symbol(c: char) -> bool {
    c == '(' || c == ')' || Operator::of_char(c) is Some
}

/// The token that the symbol `c` writes.
pub open spec fn symbol_token(c: char) -> Token
    recommends
        is_symbol(c),
{
    if c == '(' {
        Token::LeftParen
    } else if c == ')' {
        Token::RightParen
    } else {
        Token::Operator(Operator::of_char(c)->0)
    }
}

/// Whether `c` can stand in an operand.
pub open spec fn is_word_char(c: char) -> bool {
    !is_space(c) && !is_symbol(c)
}

/// The length of the longest run of operand characters that `s` starts
/// with.
pub open spec fn word_len(s: Seq<char>) -> nat
    decreases s.len(),
{
    if s.len() > 0 && is_word_char(s[0]) {
        1 + word_len(s.drop_first())
    } else {
        0
    }
}

/// The tokens of `s`, from left to right. White space separates tokens and
/// is no token; an operator or a parenthesis is a token by itself; every
/// longest run of other characters is one operand.
pub open spec fn lex(s: Seq<char>) -> Seq<Token>
    decreases s.len(),
    via lex_decreases
{
    if s.len() == 0 {
        Seq::empty()
    } else if is_space(s[0]) {
        lex(s.drop_first())
    } else if is_symbol(s[0]) {
        seq![symbol_token(s[0])] + lex(s.drop_first())
    } else {
        seq![Token::Operand(s.take(word_len(s) as int))] + lex(s.skip(word_len(s) as int))
    }
}

#[via_fn]
proof fn lex_decreases(s: Seq<char>) {
    if s.len() > 0 && !is_space(s[0]) && !is_symbol(s[0]) {
        lemma_word_len_bound(s);
    }
}

/// A run of operand characters is no longer than the text it starts.
pub proof fn lemma_word_len_bound(s: Seq<char>)
    ensures
        word_len(s) <= s.len(),
        s.len() > 0 && is_word_char(s[0]) ==> word_len(s) >= 1,
    decreases s.len(),
{
    if s.len() > 0 && is_word_char(s[0]) {
        lemma_word_len_bound(s.drop_first());
    }
}

/// If the first `n` characters of `s` are operand characters and the next
/// one, if there is one, is not, the run has length `n`.
pub proof fn lemma_word_len_is(s: Seq<char>, n: nat)
    requires
        n <= s.len(),
        forall|k: int| 0 <= k < n ==> is_word_char(#[trigger] s[k]),
        n < s.len() ==> !is_word_char(s[n as int]),
    ensures
        word_len(s) == n,
    decreases n,
{
    if n > 0 {
        let rest = s.drop_first();
        assert forall|k: int| 0 <= k < n - 1 implies is_word_char(#[trigger] rest[k]) by {
            assert(rest[k] == s[k + 1]);
        }
        lemma_word_len_is(rest, (n - 1) as nat);
    }
}

/// Tests whether `c` is an operator or a parenthesis.
pub fn char_is_symbol(c: char) -> (r: bool)
    ensures
        r == is_symbol(c),
{
    c == '(' || c == ')' || c == '+' || c == '-' || c == '*' || c == '/'
}

/// The index at which the run of operand characters that begins at
/// `start` ends.
pub fn word_end(chars: &Vec<char>, start: usize) -> (end: usize)
    requires
        start <= chars.len(),
    ensures
        start <= end <= chars.len(),
        end - start == word_len(chars@.skip(start as int)),
{
    let ghost s = chars@.skip(start as int);
    let mut end: usize = start;
    while end < chars.len() && !char_is_space(chars[end]) && !char_is_symbol(chars[end])
        invariant
            start <= end <= chars.len(),
            s == chars@.skip(start as int),
            forall|k: int| 0 <= k < end - start ==> is_word_char(#[trigger] s[k]),
        decreases chars.len() - end,
    {
        end += 1;
    }
    proof {
        lemma_word_len_is(s, (end - start) as nat);
    }
    end
}

} // verus!
