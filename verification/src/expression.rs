//! Expressions as trees, and what the converter and the evaluator make of
//! the tokens of a tree.

use vstd::prelude::*;
use crate::converter::{
    lemma_prepend_twice, prepend, render, shunt, to_postfix, yields_to, Pending,
};
use crate::errors::CalcError;
use crate::evaluator::{apply, eval_words, evaluate, operator_of};
use crate::number::number_of;
use crate::text::{all_plain, is_word, lemma_split_words_render, texts};
use crate::token::{is_word_char, Operator, Token};

verus! {

/// An expression: an operand, two expressions joined by an operator, or an
/// expression in parentheses.
pub enum Expr {
    /// An operand, by the characters that write it.
    Operand(Seq<char>),
    /// An operator between its left and its right operand.
    Binary(Operator, Box<Expr>, Box<Expr>),
    /// An expression in parentheses.
    Group(Box<Expr>),
}

impl Expr {
    /// The tokens of the expression as it is written, operators between
    /// their operands.
    pub open spec fn infix(self) -> Seq<Token>
        decreases self,
    {
        match self {
            Expr::Operand(word) => seq![Token::Operand(word)],
            Expr::Binary(op, left, right) => left.infix() + seq![Token::Operator(op)]
                + right.infix(),
            Expr::Group(inner) => seq![Token::LeftParen] + inner.infix() + seq![
                Token::RightParen,
            ],
        }
    }

    /// The tokens of the expression in postfix order: each operator after
    /// its two operands, and no parentheses.
    pub open spec fn postfix(self) -> Seq<Token>
        decreases self,
    {
        match self {
            Expr::Operand(word) => seq![Token::Operand(word)],
            Expr::Binary(op, left, right) => left.postfix() + right.postfix() + seq![
                Token::Operator(op),
            ],
            Expr::Group(inner) => inner.postfix(),
        }
    }

    /// The value of the expression in 32-bit arithmetic. The left operand
    /// is evaluated before the right one, and the first failure is that of
    /// the whole.
    pub open spec fn value(self) -> Result<int, CalcError>
        decreases self,
    {
        match self {
            Expr::Operand(word) => match number_of(word) {
                Some(v) => Ok(v),
                None => Err(CalcError::UnrecognizedToken),
            },
            Expr::Binary(op, left, right) => match left.value() {
                Ok(first) => match right.value() {
                    Ok(second) => apply(op, first, second),
                    Err(e) => Err(e),
                },
                Err(e) => Err(e),
            },
            Expr::Group(inner) => inner.value(),
        }
    }

    /// How tightly the expression holds together when it stands beside an
    /// operator: as its operator binds, and tighter than any operator if
    /// it is an operand or stands in parentheses.
    pub open spec fn level(self) -> nat {
        match self {
            Expr::Binary(op, _, _) => op.precedence(),
            _ => 3,
        }
    }

    /// Whether the tree is the one that its tokens are read as: every
    /// operand is a word, a left operand binds at least as tightly as its
    /// operator, and a right operand binds tighter.
    pub open spec fn well_formed(self) -> bool
        decreases self,
    {
        match self {
            Expr::Operand(word) => is_word(word),
            Expr::Binary(op, left, right) => {
                &&& left.well_formed()
                &&& right.well_formed()
                &&& left.level() >= op.precedence()
                &&& right.level() > op.precedence()
            },
            Expr::Group(inner) => inner.well_formed(),
        }
    }

    /// What has been emitted when the last token of the expression has
    /// been read.
    pub open spec fn emitted(self) -> Seq<Token>
        decreases self,
    {
        match self {
            Expr::Binary(op, left, right) => left.postfix() + right.emitted(),
            _ => self.postfix(),
        }
    }

    /// The operators of the expression that are still on the stack when
    /// its last token has been read, the top last.
    pub open spec fn pending(self) -> Seq<Pending>
        decreases self,
    {
        match self {
            Expr::Binary(op, left, right) => seq![Pending::Operator(op)] + right.pending(),
            _ => Seq::empty(),
        }
    }
}

/// The operators of `ops` as tokens, from the top of the stack down.
pub open spec fn flushed(ops: Seq<Pending>) -> Seq<Token>
    decreases ops.len(),
{
    if ops.len() == 0 {
        Seq::empty()
    } else {
        match ops.last() {
            Pending::Operator(op) => seq![Token::Operator(op)] + flushed(ops.drop_last()),
            Pending::LeftParen => flushed(ops.drop_last()),
        }
    }
}

/// Whether every entry of `ops` is an operator that binds at least as
/// tightly as `level`.
pub open spec fn all_bind(ops: Seq<Pending>, level: nat) -> bool {
    forall|k: int|
        0 <= k < ops.len() ==> match #[trigger] ops[k] {
            Pending::Operator(op) => op.precedence() >= level,
            Pending::LeftParen => false,
        }
}

/// Whether the next token sends out every operator that binds at least as
/// tightly as `level`: the tokens are at their end, or the next one is `)`
/// or an operator that binds no tighter than `level`.
pub open spec fn drains(tokens: Seq<Token>, level: nat) -> bool {
    tokens.len() == 0 || match tokens[0] {
        Token::RightParen => true,
        Token::Operator(op) => op.precedence() <= level,
        _ => false,
    }
}

/// Whether the top of `ops` stays where it is when an operator that binds
/// as tightly as `level` arrives.
pub open spec fn quiet(ops: Seq<Pending>, level: nat) -> bool {
    ops.len() == 0 || match ops.last() {
        Pending::Operator(top) => top.precedence() < level,
        Pending::LeftParen => true,
    }
}

/// Operators on top of the stack that the next token sends out leave in
/// order, from the top down, before anything else happens.
pub proof fn lemma_drain(tokens: Seq<Token>, ops: Seq<Pending>, top: Seq<Pending>, level: nat)
    requires
        all_bind(top, level),
        drains(tokens, level),
    ensures
        shunt(tokens, ops + top) == prepend(flushed(top), shunt(tokens, ops)),
    decreases top.len(),
{
    if top.len() == 0 {
        assert(ops + top == ops);
        if let Ok(rest) = shunt(tokens, ops) {
            assert(flushed(top) + rest == rest);
        }
    } else {
        let last = top.last();
        let below = top.drop_last();
        assert((ops + top).last() == last);
        assert((ops + top).drop_last() == ops + below);
        assert(top[top.len() - 1] == last);
        let op = last->Operator_0;
        assert(last == Pending::Operator(op));
        assert(all_bind(below, level)) by {
            assert forall|k: int| 0 <= k < below.len() implies match #[trigger] below[k] {
                Pending::Operator(o) => o.precedence() >= level,
                Pending::LeftParen => false,
            } by {
                assert(below[k] == top[k]);
            }
        }
        lemma_drain(tokens, ops, below, level);
        assert(shunt(tokens, ops + top) == prepend(
            seq![Token::Operator(op)],
            shunt(tokens, ops + below),
        ));
        lemma_prepend_twice(seq![Token::Operator(op)], flushed(below), shunt(tokens, ops));
    }
}

/// The operators that an expression leaves on the stack bind at least as
/// tightly as the expression.
pub proof fn lemma_pending_binds(e: Expr)
    requires
        e.well_formed(),
    ensures
        all_bind(e.pending(), e.level()),
    decreases e,
{
    match e {
        Expr::Binary(op, left, right) => {
            lemma_pending_binds(*right);
            let rest = right.pending();
            assert forall|k: int| 0 <= k < e.pending().len() implies match #[trigger] e.pending()[k] {
                Pending::Operator(o) => o.precedence() >= e.level(),
                Pending::LeftParen => false,
            } by {
                if k > 0 {
                    assert(e.pending()[k] == rest[k - 1]);
                }
            }
        },
        _ => {},
    }
}

/// An operator at the bottom of the stack leaves last.
pub proof fn lemma_flushed_bottom(op: Operator, above: Seq<Pending>)
    ensures
        flushed(seq![Pending::Operator(op)] + above) == flushed(above) + seq![Token::Operator(op)],
    decreases above.len(),
{
    let all = seq![Pending::Operator(op)] + above;
    if above.len() == 0 {
        assert(all.drop_last() == Seq::<Pending>::empty());
        assert(flushed(all) == seq![Token::Operator(op)] + flushed(all.drop_last()));
        assert(flushed(all) == flushed(above) + seq![Token::Operator(op)]);
    } else {
        assert(all.last() == above.last());
        assert(all.drop_last() == seq![Pending::Operator(op)] + above.drop_last());
        lemma_flushed_bottom(op, above.drop_last());
        match above.last() {
            Pending::Operator(top) => {
                assert(seq![Token::Operator(top)] + (flushed(above.drop_last()) + seq![
                    Token::Operator(op),
                ]) == (seq![Token::Operator(top)] + flushed(above.drop_last())) + seq![
                    Token::Operator(op),
                ]);
            },
            Pending::LeftParen => {},
        }
    }
}

/// What an expression has emitted at its last token, and then the
/// operators it left on the stack, are its tokens in postfix order.
pub proof fn lemma_emitted_then_flushed(e: Expr)
    ensures
        e.emitted() + flushed(e.pending()) == e.postfix(),
    decreases e,
{
    match e {
        Expr::Binary(op, left, right) => {
            lemma_emitted_then_flushed(*right);
            lemma_flushed_bottom(op, right.pending());
            assert(left.postfix() + right.emitted() + (flushed(right.pending()) + seq![
                Token::Operator(op),
            ]) == left.postfix() + (right.emitted() + flushed(right.pending())) + seq![
                Token::Operator(op),
            ]);
        },
        _ => {
            assert(e.postfix() + Seq::<Token>::empty() == e.postfix());
        },
    }
}

/// Reading the tokens of a well-formed expression emits what the
/// expression emits and adds to the stack what it leaves pending, whatever
/// follows and whatever lies below on the stack, as long as the top of the
/// stack stays put.
pub proof fn lemma_shunt_expr(e: Expr, rest: Seq<Token>, ops: Seq<Pending>)
    requires
        e.well_formed(),
        quiet(ops, e.level()),
    ensures
        shunt(e.infix() + rest, ops) == prepend(e.emitted(), shunt(rest, ops + e.pending())),
    decreases e,
{
    let tokens = e.infix() + rest;
    match e {
        Expr::Operand(word) => {
            assert(tokens[0] == Token::Operand(word));
            assert(tokens.drop_first() == rest);
            assert(ops + e.pending() == ops);
        },
        Expr::Group(inner) => {
            let closing = seq![Token::RightParen] + rest;
            let opened = ops.push(Pending::LeftParen);
            assert(tokens[0] == Token::LeftParen);
            assert(tokens.drop_first() == inner.infix() + closing);
            lemma_shunt_expr(*inner, closing, opened);
            lemma_pending_binds(*inner);
            lemma_drain(closing, opened, inner.pending(), inner.level());
            assert(closing[0] == Token::RightParen);
            assert(closing.drop_first() == rest);
            assert(opened.drop_last() == ops);
            assert(shunt(closing, opened) == shunt(rest, ops));
            lemma_prepend_twice(inner.emitted(), flushed(inner.pending()), shunt(rest, ops));
            lemma_emitted_then_flushed(*inner);
            assert(ops + e.pending() == ops);
        },
        Expr::Binary(op, left, right) => {
            let after = seq![Token::Operator(op)] + right.infix() + rest;
            let pushed = ops.push(Pending::Operator(op));
            assert(tokens == left.infix() + after);
            lemma_shunt_expr(*left, after, ops);
            lemma_pending_binds(*left);
            assert(after[0] == Token::Operator(op));
            lemma_drain(after, ops, left.pending(), left.level());
            lemma_prepend_twice(left.emitted(), flushed(left.pending()), shunt(after, ops));
            lemma_emitted_then_flushed(*left);
            assert(after.drop_first() == right.infix() + rest);
            assert(!yields_to(ops, op));
            assert(shunt(after, ops) == shunt(right.infix() + rest, pushed));
            lemma_shunt_expr(*right, rest, pushed);
            assert(pushed + right.pending() == ops + e.pending());
            lemma_prepend_twice(
                left.postfix(),
                right.emitted(),
                shunt(rest, ops + e.pending()),
            );
        },
    }
}

/// The converter puts the tokens of a well-formed expression in postfix
/// order: each operator after its two operands, operands in the order in
/// which they were written, no parentheses.
pub proof fn lemma_to_postfix_expr(e: Expr)
    requires
        e.well_formed(),
    ensures
        to_postfix(e.infix()) == Ok::<Seq<Token>, CalcError>(e.postfix()),
{
    let none = Seq::<Token>::empty();
    let bottom = Seq::<Pending>::empty();
    assert(e.infix() + none == e.infix());
    lemma_shunt_expr(e, none, bottom);
    lemma_pending_binds(e);
    lemma_drain(none, bottom, e.pending(), e.level());
    assert(shunt(none, bottom) == Ok::<Seq<Token>, CalcError>(none));
    assert(flushed(e.pending()) + none == flushed(e.pending()));
    lemma_emitted_then_flushed(e);
}

/// Every operand among the postfix tokens of a well-formed expression is
/// a word.
pub proof fn lemma_postfix_plain(e: Expr)
    requires
        e.well_formed(),
    ensures
        all_plain(e.postfix()),
    decreases e,
{
    match e {
        Expr::Operand(word) => {},
        Expr::Binary(op, left, right) => {
            lemma_postfix_plain(*left);
            lemma_postfix_plain(*right);
            let l = left.postfix();
            let r = right.postfix();
            assert forall|k: int| 0 <= k < e.postfix().len() implies match #[trigger] e.postfix()[k] {
                Token::Operand(word) => is_word(word),
                _ => true,
            } by {
                if k < l.len() {
                    assert(e.postfix()[k] == l[k]);
                } else if k < l.len() + r.len() {
                    assert(e.postfix()[k] == r[k - l.len()]);
                }
            }
        },
        Expr::Group(inner) => {
            lemma_postfix_plain(*inner);
        },
    }
}

/// Every operand among the infix tokens of a well-formed expression is a
/// word.
pub proof fn lemma_infix_plain(e: Expr)
    requires
        e.well_formed(),
    ensures
        all_plain(e.infix()),
    decreases e,
{
    match e {
        Expr::Operand(word) => {},
        Expr::Binary(op, left, right) => {
            lemma_infix_plain(*left);
            lemma_infix_plain(*right);
            let l = left.infix();
            let r = right.infix();
            assert forall|k: int| 0 <= k < e.infix().len() implies match #[trigger] e.infix()[k] {
                Token::Operand(word) => is_word(word),
                _ => true,
            } by {
                if k < l.len() {
                    assert(e.infix()[k] == l[k]);
                } else if k > l.len() {
                    assert(e.infix()[k] == r[k - l.len() - 1]);
                }
            }
        },
        Expr::Group(inner) => {
            lemma_infix_plain(*inner);
            let i = inner.infix();
            assert forall|k: int| 0 <= k < e.infix().len() implies match #[trigger] e.infix()[k] {
                Token::Operand(word) => is_word(word),
                _ => true,
            } by {
                if 0 < k <= i.len() {
                    assert(e.infix()[k] == i[k - 1]);
                }
            }
        },
    }
}

/// Reading the postfix words of a well-formed expression leaves its value
/// on top of the stack, whatever lies below and whatever follows; if the
/// expression has no value, the evaluation fails as the expression does.
pub proof fn lemma_eval_expr(e: Expr, rest: Seq<Seq<char>>, stack: Seq<int>)
    requires
        e.well_formed(),
    ensures
        eval_words(texts(e.postfix()) + rest, stack) == match e.value() {
            Ok(v) => eval_words(rest, stack.push(v)),
            Err(err) => Err(err),
        },
    decreases e,
{
    let words = texts(e.postfix()) + rest;
    match e {
        Expr::Operand(word) => {
            assert(words[0] == word);
            assert(words.drop_first() == rest);
            assert(is_word_char(word[0]));
        },
        Expr::Group(inner) => {
            lemma_eval_expr(*inner, rest, stack);
        },
        Expr::Binary(op, left, right) => {
            let sign = seq![seq![op.symbol()]] + rest;
            let after = texts(right.postfix()) + sign;
            assert(words == texts(left.postfix()) + after);
            lemma_eval_expr(*left, after, stack);
            if let Ok(first) = left.value() {
                let one = stack.push(first);
                lemma_eval_expr(*right, sign, one);
                if let Ok(second) = right.value() {
                    let two = one.push(second);
                    assert(sign[0] == seq![op.symbol()]);
                    assert(sign.drop_first() == rest);
                    assert(number_of(sign[0]) is None);
                    assert(operator_of(sign[0]) == Some(op));
                    if let Ok(v) = apply(op, first, second) {
                        assert(two.take(two.len() - 2).push(v) == stack.push(v));
                    }
                }
            }
        },
    }
}

/// Evaluating the postfix form of a well-formed expression, written out
/// with single spaces, gives the value of the expression.
pub proof fn lemma_evaluate_postfix_expr(e: Expr)
    requires
        e.well_formed(),
    ensures
        evaluate(render(e.postfix())) == e.value(),
{
    lemma_postfix_plain(e);
    lemma_split_words_render(e.postfix());
    let none = Seq::<Seq<char>>::empty();
    assert(texts(e.postfix()) + none == texts(e.postfix()));
    lemma_eval_expr(e, none, Seq::<int>::empty());
}

} // verus!
