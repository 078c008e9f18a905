//! From infix to postfix order: the operator stack and what it emits.

use vstd::prelude::*;
use crate::chars::{char_is_space, to_chars, to_text};
use crate::errors::CalcError;
use crate::token::{
    char_is_symbol, lemma_word_len_bound, lex, occurrences, operands, parentheses_match,
    symbol_token, word_end, Operator, Token,
};

verus! {

/// What waits on the operator stack: an operator whose right operand is
/// still being read, or a parenthesis that is still open.
#[derive(Clone, Copy, Debug, PartialEq, Eq, Structural)]
pub enum Pending {
    /// An operator.
    Operator(Operator),
    /// `(`
    LeftParen,
}

/// `tail` with `head` put in front of what it emits; a failure stays the
/// failure it is.
pub open spec fn prepend(head: Seq<Token>, tail: Result<Seq<Token>, CalcError>) -> Result<
    Seq<Token>,
    CalcError,
> {
    match tail {
        Ok(tokens) => Ok(head + tokens),
        Err(e) => Err(e),
    }
}

/// What is emitted from here on, with `tokens` still to read and `ops` on
/// the operator stack, its top last.
///
/// An operand is emitted as it is read. An operator first sends out every
/// operator on top of the stack that binds at least as tightly, and is
/// then pushed. `(` is pushed. `)` sends out the operators above the
/// nearest `(` and removes that `(`; without one the parentheses are
/// mismatched. At the end of the tokens the stack is emitted from the top
/// down; a `(` left on it is mismatched too.
pub open spec fn shunt(tokens: Seq<Token>, ops: Seq<Pending>) -> Result<Seq<Token>, CalcError>
    decreases tokens.len(), ops.len(),
{
    if tokens.len() == 0 {
        if ops.len() == 0 {
            Ok(Seq::empty())
        } else {
            match ops.last() {
                Pending::LeftParen => Err(CalcError::MismatchedParentheses),
                Pending::Operator(top) => prepend(
                    seq![Token::Operator(top)],
                    shunt(tokens, ops.drop_last()),
                ),
            }
        }
    } else {
        match tokens[0] {
            Token::Operand(word) => prepend(
                seq![Token::Operand(word)],
                shunt(tokens.drop_first(), ops),
            ),
            Token::LeftParen => shunt(tokens.drop_first(), ops.push(Pending::LeftParen)),
            Token::Operator(op) => {
                if yields_to(ops, op) {
                    prepend(seq![Token::Operator(ops.last()->Operator_0)], shunt(tokens, ops.drop_last()))
                } else {
                    shunt(tokens.drop_first(), ops.push(Pending::Operator(op)))
                }
            },
            Token::RightParen => {
                if ops.len() == 0 {
                    Err(CalcError::MismatchedParentheses)
                } else {
                    match ops.last() {
                        Pending::LeftParen => shunt(tokens.drop_first(), ops.drop_last()),
                        Pending::Operator(top) => prepend(
                            seq![Token::Operator(top)],
                            shunt(tokens, ops.drop_last()),
                        ),
                    }
                }
            },
        }
    }
}

/// Whether the top of the stack is an operator that leaves before `op` is
/// pushed: one that binds at least as tightly as `op`, so that operators
/// of equal precedence apply from left to right.
pub open spec fn yields_to(ops: Seq<Pending>, op: Operator) -> bool {
    ops.len() > 0 && match ops.last() {
        Pending::Operator(top) => top.precedence() >= op.precedence(),
        Pending::LeftParen => false,
    }
}

/// How many times the operator `op` waits on the stack `ops`.
pub open spec fn waiting(ops: Seq<Pending>, op: Operator) -> nat
    decreases ops.len(),
{
    if ops.len() == 0 {
        0
    } else if ops.last() == Pending::Operator(op) {
        1 + waiting(ops.drop_last(), op)
    } else {
        waiting(ops.drop_last(), op)
    }
}

/// How many parentheses are open on the stack `ops`.
pub open spec fn open_parens(ops: Seq<Pending>) -> nat
    decreases ops.len(),
{
    if ops.len() == 0 {
        0
    } else if ops.last() == Pending::LeftParen {
        1 + open_parens(ops.drop_last())
    } else {
        open_parens(ops.drop_last())
    }
}

/// The tokens of an infix expression in postfix order.
pub open spec fn to_postfix(tokens: Seq<Token>) -> Result<Seq<Token>, CalcError> {
    shunt(tokens, Seq::empty())
}

/// The texts of `tokens` with one space between neighbours.
pub open spec fn render(tokens: Seq<Token>) -> Seq<char>
    decreases tokens.len(),
{
    if tokens.len() == 0 {
        Seq::empty()
    } else if tokens.len() == 1 {
        tokens[0].text()
    } else {
        render(tokens.drop_last()) + seq![' '] + tokens.last().text()
    }
}

/// The postfix form of the infix expression `expr`, as text, or the reason
/// why it has none.
pub open spec fn postfix_text(expr: Seq<char>) -> Result<Seq<char>, CalcError> {
    match to_postfix(lex(expr)) {
        Ok(tokens) => Ok(render(tokens)),
        Err(e) => Err(e),
    }
}

/// Whether the text of every token of `tokens` has at least one character.
pub open spec fn all_written(tokens: Seq<Token>) -> bool {
    forall|k: int| 0 <= k < tokens.len() ==> (#[trigger] tokens[k]).text().len() > 0
}

/// Putting tokens in front of a result twice is putting them in front
/// once, together.
pub proof fn lemma_prepend_twice(a: Seq<Token>, b: Seq<Token>, tail: Result<Seq<Token>, CalcError>)
    ensures
        prepend(a, prepend(b, tail)) == prepend(a + b, tail),
{
    if let Ok(tokens) = tail {
        assert(a + (b + tokens) == (a + b) + tokens);
    }
}

/// The text of one more token, written after that of the others.
pub proof fn lemma_render_push(tokens: Seq<Token>, token: Token)
    requires
        all_written(tokens),
    ensures
        tokens.len() == 0 ==> render(tokens.push(token)) == token.text(),
        tokens.len() > 0 ==> render(tokens.push(token)) == render(tokens) + seq![' ']
            + token.text(),
        tokens.len() > 0 ==> render(tokens).len() > 0,
    decreases tokens.len(),
{
    assert(tokens.push(token).drop_last() == tokens);
    if tokens.len() > 1 {
        lemma_render_push(tokens.drop_last(), tokens.last());
    } else if tokens.len() == 1 {
        assert(tokens[0].text().len() > 0);
    }
}

/// Whether `tokens` are operands and operators only.
pub open spec fn no_parentheses(tokens: Seq<Token>) -> bool {
    forall|k: int|
        0 <= k < tokens.len() ==> (#[trigger] tokens[k] is Operand || tokens[k] is Operator)
}

/// What the operator stack and the rest of the tokens come to. If the
/// parentheses that are still to come match those that are open on the
/// stack, the conversion succeeds; what it emits holds no parenthesis, the
/// operands that are still to come in their order, and every operator as
/// often as it is still to come or waits on the stack. If they do not
/// match, it fails for mismatched parentheses.
pub proof fn lemma_shunt_keeps_tokens(tokens: Seq<Token>, ops: Seq<Pending>, op: Operator)
    ensures
        match shunt(tokens, ops) {
            Ok(out) => {
                &&& parentheses_match(tokens, open_parens(ops))
                &&& no_parentheses(out)
                &&& operands(out) == operands(tokens)
                &&& occurrences(out, op) == occurrences(tokens, op) + waiting(ops, op)
            },
            Err(e) => e == CalcError::MismatchedParentheses && !parentheses_match(
                tokens,
                open_parens(ops),
            ),
        },
    decreases tokens.len(), ops.len(),
{
    if tokens.len() == 0 {
        if ops.len() > 0 {
            if let Pending::Operator(top) = ops.last() {
                lemma_shunt_keeps_tokens(tokens, ops.drop_last(), op);
                lemma_emitted_operator(top, shunt(tokens, ops.drop_last()), op);
            }
        }
    } else {
        let rest = tokens.drop_first();
        match tokens[0] {
            Token::Operand(word) => {
                lemma_shunt_keeps_tokens(rest, ops, op);
                if let Ok(out) = shunt(rest, ops) {
                    let all = seq![Token::Operand(word)] + out;
                    assert(all[0] == Token::Operand(word));
                    assert(all.drop_first() == out);
                }
            },
            Token::LeftParen => {
                let pushed = ops.push(Pending::LeftParen);
                assert(pushed.drop_last() == ops);
                lemma_shunt_keeps_tokens(rest, pushed, op);
            },
            Token::Operator(next) => {
                if yields_to(ops, next) {
                    let top = ops.last()->Operator_0;
                    lemma_shunt_keeps_tokens(tokens, ops.drop_last(), op);
                    lemma_emitted_operator(top, shunt(tokens, ops.drop_last()), op);
                } else {
                    let pushed = ops.push(Pending::Operator(next));
                    assert(pushed.drop_last() == ops);
                    lemma_shunt_keeps_tokens(rest, pushed, op);
                }
            },
            Token::RightParen => {
                if ops.len() > 0 {
                    match ops.last() {
                        Pending::LeftParen => {
                            lemma_shunt_keeps_tokens(rest, ops.drop_last(), op);
                        },
                        Pending::Operator(top) => {
                            lemma_shunt_keeps_tokens(tokens, ops.drop_last(), op);
                            lemma_emitted_operator(top, shunt(tokens, ops.drop_last()), op);
                        },
                    }
                }
            },
        }
    }
}

/// An operator in front of what is emitted is no parenthesis and no
/// operand, and counts once among the operators.
proof fn lemma_emitted_operator(top: Operator, tail: Result<Seq<Token>, CalcError>, op: Operator)
    ensures
        match tail {
            Ok(out) => {
                let all = seq![Token::Operator(top)] + out;
                &&& no_parentheses(out) ==> no_parentheses(all)
                &&& operands(all) == operands(out)
                &&& occurrences(all, op) == occurrences(out, op) + if top == op {
                    1nat
                } else {
                    0nat
                }
            },
            Err(e) => true,
        },
{
    if let Ok(out) = tail {
        let all = seq![Token::Operator(top)] + out;
        assert(all[0] == Token::Operator(top));
        assert(all.drop_first() == out);
        if no_parentheses(out) {
            assert forall|k: int| 0 <= k < all.len() implies (#[trigger] all[k] is Operand
                || all[k] is Operator) by {
                if k > 0 {
                    assert(all[k] == out[k - 1]);
                }
            }
        }
    }
}

/// The conversion succeeds exactly when the parentheses match, and fails
/// for mismatched parentheses when they do not. The postfix form holds no
/// parenthesis; it holds the operands as they were written and in the
/// order in which they were written, and every operator as often as it
/// was written.
pub proof fn lemma_postfix_keeps_tokens(tokens: Seq<Token>, op: Operator)
    ensures
        match to_postfix(tokens) {
            Ok(out) => {
                &&& parentheses_match(tokens, 0)
                &&& no_parentheses(out)
                &&& operands(out) == operands(tokens)
                &&& occurrences(out, op) == occurrences(tokens, op)
            },
            Err(e) => e == CalcError::MismatchedParentheses && !parentheses_match(tokens, 0),
        },
{
    lemma_shunt_keeps_tokens(tokens, Seq::empty(), op);
}

/// Writes `op` at the end of `out`, after a space if `out` holds text.
fn emit_operator(out: &mut Vec<char>, op: Operator, Ghost(emitted): Ghost<Seq<Token>>)
    requires
        all_written(emitted),
        old(out)@ == render(emitted),
    ensures
        all_written(emitted.push(Token::Operator(op))),
        final(out)@ == render(emitted.push(Token::Operator(op))),
{
    proof {
        lemma_render_push(emitted, Token::Operator(op));
    }
    if out.len() > 0 {
        out.push(' ');
    }
    out.push(op.to_char());
}

/// Writes the characters of `chars` from `start` up to `end` at the end of
/// `out`, after a space if `out` holds text.
fn emit_operand(
    out: &mut Vec<char>,
    chars: &Vec<char>,
    start: usize,
    end: usize,
    Ghost(emitted): Ghost<Seq<Token>>,
)
    requires
        start < end <= chars.len(),
        all_written(emitted),
        old(out)@ == render(emitted),
    ensures
        all_written(emitted.push(Token::Operand(chars@.subrange(start as int, end as int)))),
        final(out)@ == render(
            emitted.push(Token::Operand(chars@.subrange(start as int, end as int))),
        ),
{
    let ghost word = chars@.subrange(start as int, end as int);
    proof {
        lemma_render_push(emitted, Token::Operand(word));
    }
    if out.len() > 0 {
        out.push(' ');
    }
    let ghost before = out@;
    let mut i: usize = start;
    while i < end
        invariant
            start <= i <= end <= chars.len(),
            word == chars@.subrange(start as int, end as int),
            out@ == before + word.take(i - start),
        decreases end - i,
    {
        out.push(chars[i]);
        i += 1;
        assert(word.take(i - start) == word.take(i - start - 1).push(chars@[i - 1]));
    }
    assert(word.take(end - start) == word);
}

/// The postfix form of the infix expression `chars`.
pub fn postfix_chars(chars: &Vec<char>) -> (r: Result<Vec<char>, CalcError>)
    ensures
        match r {
            Ok(out) => postfix_text(chars@) == Ok::<Seq<char>, CalcError>(out@),
            Err(e) => postfix_text(chars@) == Err::<Seq<char>, CalcError>(e),
        },
{
    let mut out: Vec<char> = Vec::new();
    let mut ops: Vec<Pending> = Vec::new();
    let ghost whole = to_postfix(lex(chars@));
    let ghost mut emitted: Seq<Token> = Seq::empty();
    let mut i: usize = 0;
    proof {
        assert(chars@.skip(0) == chars@);
        if let Ok(tokens) = whole {
            assert(emitted + tokens == tokens);
        }
    }
    while i < chars.len()
        invariant
            i <= chars.len(),
            whole == to_postfix(lex(chars@)),
            whole == prepend(emitted, shunt(lex(chars@.skip(i as int)), ops@)),
            all_written(emitted),
            out@ == render(emitted),
        decreases chars.len() - i,
    {
        let c = chars[i];
        let ghost here = chars@.skip(i as int);
        let ghost tokens = lex(here);
        proof {
            assert(here[0] == c);
            assert(here.drop_first() == chars@.skip(i + 1));
        }
        if char_is_space(c) {
            i += 1;
        } else if !char_is_symbol(c) {
            let end = word_end(chars, i);
            proof {
                lemma_word_len_bound(here);
                let word = chars@.subrange(i as int, end as int);
                assert(here.take(end - i) == word);
                assert(here.skip(end - i) == chars@.skip(end as int));
                assert(tokens[0] == Token::Operand(word));
                assert(tokens.drop_first() == lex(chars@.skip(end as int)));
                lemma_prepend_twice(
                    emitted,
                    seq![Token::Operand(word)],
                    shunt(tokens.drop_first(), ops@),
                );
                assert(emitted + seq![Token::Operand(word)] == emitted.push(Token::Operand(word)));
            }
            emit_operand(&mut out, chars, i, end, Ghost(emitted));
            proof {
                emitted = emitted.push(Token::Operand(chars@.subrange(i as int, end as int)));
            }
            i = end;
        } else {
            proof {
                assert(tokens[0] == symbol_token(c));
                assert(tokens.drop_first() == lex(chars@.skip(i + 1)));
            }
            if c == '(' {
                ops.push(Pending::LeftParen);
            } else if c == ')' {
                let mut open = false;
                while !open
                    invariant
                        i < chars.len(),
                        whole == to_postfix(lex(chars@)),
                        tokens.len() > 0,
                        tokens[0] == Token::RightParen,
                        tokens.drop_first() == lex(chars@.skip(i + 1)),
                        whole == prepend(
                            emitted,
                            if open {
                                shunt(tokens.drop_first(), ops@)
                            } else {
                                shunt(tokens, ops@)
                            },
                        ),
                        all_written(emitted),
                        out@ == render(emitted),
                    decreases
                        if open {
                            0
                        } else {
                            ops.len() + 1
                        },
                {
                    let ghost before = ops@;
                    match ops.pop() {
                        None => {
                            return Err(CalcError::MismatchedParentheses);
                        },
                        Some(Pending::LeftParen) => {
                            assert(ops@ == before.drop_last());
                            open = true;
                        },
                        Some(Pending::Operator(top)) => {
                            proof {
                                assert(ops@ == before.drop_last());
                                lemma_prepend_twice(
                                    emitted,
                                    seq![Token::Operator(top)],
                                    shunt(tokens, ops@),
                                );
                                assert(emitted + seq![Token::Operator(top)] == emitted.push(
                                    Token::Operator(top),
                                ));
                            }
                            emit_operator(&mut out, top, Ghost(emitted));
                            proof {
                                emitted = emitted.push(Token::Operator(top));
                            }
                        },
                    }
                }
            } else {
                let op = Operator::from_char(c).unwrap();
                let level = op.binding();
                let mut settled = false;
                while !settled
                    invariant
                        i < chars.len(),
                        whole == to_postfix(lex(chars@)),
                        tokens.len() > 0,
                        tokens[0] == Token::Operator(op),
                        tokens.drop_first() == lex(chars@.skip(i + 1)),
                        level as nat == op.precedence(),
                        whole == prepend(
                            emitted,
                            if settled {
                                shunt(tokens.drop_first(), ops@)
                            } else {
                                shunt(tokens, ops@)
                            },
                        ),
                        all_written(emitted),
                        out@ == render(emitted),
                    decreases
                        if settled {
                            0
                        } else {
                            ops.len() + 1
                        },
                {
                    let ghost before = ops@;
                    let leaving: Option<Operator> = if ops.len() == 0 {
                        None
                    } else {
                        match ops[ops.len() - 1] {
                            Pending::Operator(top) => if top.binding() >= level {
                                Some(top)
                            } else {
                                None
                            },
                            Pending::LeftParen => None,
                        }
                    };
                    match leaving {
                        Some(top) => {
                            ops.pop();
                            proof {
                                assert(ops@ == before.drop_last());
                                lemma_prepend_twice(
                                    emitted,
                                    seq![Token::Operator(top)],
                                    shunt(tokens, ops@),
                                );
                                assert(emitted + seq![Token::Operator(top)] == emitted.push(
                                    Token::Operator(top),
                                ));
                            }
                            emit_operator(&mut out, top, Ghost(emitted));
                            proof {
                                emitted = emitted.push(Token::Operator(top));
                            }
                        },
                        None => {
                            ops.push(Pending::Operator(op));
                            settled = true;
                        },
                    }
                }
            }
            i += 1;
        }
    }
    assert(chars@.skip(chars.len() as int) == Seq::<char>::empty());
    let ghost none = Seq::<Token>::empty();
    while ops.len() > 0
        invariant
            whole == to_postfix(lex(chars@)),
            whole == prepend(emitted, shunt(none, ops@)),
            none == Seq::<Token>::empty(),
            all_written(emitted),
            out@ == render(emitted),
        decreases ops.len(),
    {
        let ghost before = ops@;
        match ops.pop() {
            None => {},
            Some(Pending::LeftParen) => {
                return Err(CalcError::MismatchedParentheses);
            },
            Some(Pending::Operator(top)) => {
                proof {
                    assert(ops@ == before.drop_last());
                    lemma_prepend_twice(emitted, seq![Token::Operator(top)], shunt(none, ops@));
                    assert(emitted + seq![Token::Operator(top)] == emitted.push(
                        Token::Operator(top),
                    ));
                }
                emit_operator(&mut out, top, Ghost(emitted));
                proof {
                    emitted = emitted.push(Token::Operator(top));
                }
            },
        }
    }
    proof {
        assert(emitted + Seq::<Token>::empty() == emitted);
    }
    Ok(out)
}

/// Rewrites the infix expression `expr` in postfix order: the operands as
/// they were written and the operators, one space between neighbours.
/// Fails if the parentheses of `expr` do not match.
pub fn convert_infix_to_postfix(expr: &str) -> (r: Result<String, CalcError>)
    ensures
        match r {
            Ok(text) => postfix_text(expr@) == Ok::<Seq<char>, CalcError>(text@),
            Err(e) => postfix_text(expr@) == Err::<Seq<char>, CalcError>(e),
        },
        r is Ok <==> parentheses_match(lex(expr@), 0),
        r is Err ==> r == Err::<String, CalcError>(CalcError::MismatchedParentheses),
{
    let chars = to_chars(expr);
    proof {
        lemma_postfix_keeps_tokens(lex(expr@), Operator::Add);
    }
    match postfix_chars(&chars) {
        Ok(out) => Ok(to_text(&out)),
        Err(e) => Err(e),
    }
}

} // verus!
