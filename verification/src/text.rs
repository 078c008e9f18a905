//! Tokens written out with single spaces, read back as tokens and as
//! words.

use vstd::prelude::*;
use crate::chars::is_space;
use crate::converter::{all_written, render};
use crate::evaluator::{chunk_len, lemma_chunk_len_bound, lemma_chunk_len_is, split_words};
use crate::token::{
    is_symbol, is_word_char, lemma_word_len_bound, lemma_word_len_is, lex, symbol_token, word_len,
    Token,
};

verus! {

/// Whether `word` can be an operand: it has a character, and none of its
/// characters is white space, an operator or a parenthesis.
pub open spec fn is_word(word: Seq<char>) -> bool {
    word.len() > 0 && forall|k: int| 0 <= k < word.len() ==> is_word_char(#[trigger] word[k])
}

/// Whether every operand among `tokens` is a word.
pub open spec fn all_plain(tokens: Seq<Token>) -> bool {
    forall|k: int|
        0 <= k < tokens.len() ==> match #[trigger] tokens[k] {
            Token::Operand(word) => is_word(word),
            _ => true,
        }
}

/// The texts of `tokens`, one word for each.
pub open spec fn texts(tokens: Seq<Token>) -> Seq<Seq<char>> {
    Seq::new(tokens.len(), |k: int| tokens[k].text())
}

/// A space ends a run of characters: what follows it does not change the
/// length of the run before it.
pub proof fn lemma_chunk_len_before_space(s: Seq<char>, t: Seq<char>)
    ensures
        chunk_len(s + seq![' '] + t) == chunk_len(s),
    decreases s.len(),
{
    let whole = s + seq![' '] + t;
    if s.len() > 0 {
        assert(whole[0] == s[0]);
        assert(whole.drop_first() == s.drop_first() + seq![' '] + t);
        lemma_chunk_len_before_space(s.drop_first(), t);
    } else {
        assert(whole[0] == ' ');
    }
}

/// The words of two texts with a space between them are the words of the
/// first and then those of the second.
pub proof fn lemma_split_words_join(s: Seq<char>, t: Seq<char>)
    ensures
        split_words(s + seq![' '] + t) == split_words(s) + split_words(t),
    decreases s.len(),
{
    let whole = s + seq![' '] + t;
    if s.len() == 0 {
        assert(whole[0] == ' ');
        assert(whole.drop_first() == t);
        assert(split_words(s) + split_words(t) == split_words(t));
    } else if is_space(s[0]) {
        assert(whole[0] == s[0]);
        assert(whole.drop_first() == s.drop_first() + seq![' '] + t);
        lemma_split_words_join(s.drop_first(), t);
    } else {
        assert(whole[0] == s[0]);
        let n = chunk_len(s) as int;
        lemma_chunk_len_before_space(s, t);
        lemma_chunk_len_bound(s);
        assert(whole.take(n) == s.take(n));
        assert(whole.skip(n) == s.skip(n) + seq![' '] + t);
        lemma_split_words_join(s.skip(n), t);
        assert(seq![s.take(n)] + (split_words(s.skip(n)) + split_words(t)) == (seq![s.take(n)]
            + split_words(s.skip(n))) + split_words(t));
    }
}

/// A text without white space is one word.
pub proof fn lemma_split_words_one(word: Seq<char>)
    requires
        word.len() > 0,
        forall|k: int| 0 <= k < word.len() ==> !is_space(#[trigger] word[k]),
    ensures
        split_words(word) == seq![word],
{
    lemma_chunk_len_is(word, word.len());
    assert(word.take(word.len() as int) == word);
    assert(word.skip(word.len() as int) == Seq::<char>::empty());
    assert(split_words(word.skip(word.len() as int)) == Seq::<Seq<char>>::empty());
    assert(seq![word] + Seq::<Seq<char>>::empty() == seq![word]);
}

/// The text of a token whose operand is a word has a character and no
/// white space.
pub proof fn lemma_plain_text(token: Token)
    requires
        match token {
            Token::Operand(word) => is_word(word),
            _ => true,
        },
    ensures
        token.text().len() > 0,
        forall|k: int| 0 <= k < token.text().len() ==> !is_space(#[trigger] token.text()[k]),
{
}

/// The words of tokens written out with single spaces are the texts of
/// the tokens.
pub proof fn lemma_split_words_render(tokens: Seq<Token>)
    requires
        all_plain(tokens),
    ensures
        all_written(tokens),
        split_words(render(tokens)) == texts(tokens),
    decreases tokens.len(),
{
    assert forall|k: int| 0 <= k < tokens.len() implies (#[trigger] tokens[k]).text().len()
        > 0 by {
        lemma_plain_text(tokens[k]);
    }
    if tokens.len() == 0 {
        assert(texts(tokens) == Seq::<Seq<char>>::empty());
    } else {
        let front = tokens.drop_last();
        let last = tokens.last();
        assert(tokens == front.push(last));
        lemma_plain_text(last);
        lemma_split_words_one(last.text());
        if front.len() == 0 {
            assert(texts(tokens) == seq![last.text()]);
        } else {
            lemma_split_words_render(front);
            lemma_split_words_join(render(front), last.text());
            assert(texts(tokens) == texts(front) + seq![last.text()]);
        }
    }
}

/// A space ends an operand: what follows it does not change the length
/// of the operand before it.
pub proof fn lemma_word_len_before_space(s: Seq<char>, t: Seq<char>)
    ensures
        word_len(s + seq![' '] + t) == word_len(s),
    decreases s.len(),
{
    let whole = s + seq![' '] + t;
    if s.len() > 0 {
        assert(whole[0] == s[0]);
        assert(whole.drop_first() == s.drop_first() + seq![' '] + t);
        lemma_word_len_before_space(s.drop_first(), t);
    } else {
        assert(whole[0] == ' ');
    }
}

/// The tokens of two texts with a space between them are the tokens of
/// the first and then those of the second.
pub proof fn lemma_lex_join(s: Seq<char>, t: Seq<char>)
    ensures
        lex(s + seq![' '] + t) == lex(s) + lex(t),
    decreases s.len(),
{
    let whole = s + seq![' '] + t;
    if s.len() == 0 {
        assert(whole[0] == ' ');
        assert(whole.drop_first() == t);
        assert(lex(s) + lex(t) == lex(t));
    } else {
        assert(whole[0] == s[0]);
        if is_space(s[0]) {
            assert(whole.drop_first() == s.drop_first() + seq![' '] + t);
            lemma_lex_join(s.drop_first(), t);
        } else if is_symbol(s[0]) {
            assert(whole.drop_first() == s.drop_first() + seq![' '] + t);
            lemma_lex_join(s.drop_first(), t);
            assert(seq![symbol_token(s[0])] + (lex(s.drop_first()) + lex(t)) == (seq![
                symbol_token(s[0]),
            ] + lex(s.drop_first())) + lex(t));
        } else {
            let n = word_len(s) as int;
            lemma_word_len_before_space(s, t);
            lemma_word_len_bound(s);
            assert(whole.take(n) == s.take(n));
            assert(whole.skip(n) == s.skip(n) + seq![' '] + t);
            lemma_lex_join(s.skip(n), t);
            assert(seq![Token::Operand(s.take(n))] + (lex(s.skip(n)) + lex(t)) == (seq![
                Token::Operand(s.take(n)),
            ] + lex(s.skip(n))) + lex(t));
        }
    }
}

/// The text of a token whose operand is a word reads as that token.
pub proof fn lemma_lex_one(token: Token)
    requires
        match token {
            Token::Operand(word) => is_word(word),
            _ => true,
        },
    ensures
        lex(token.text()) == seq![token],
{
    let text = token.text();
    let none = Seq::<char>::empty();
    assert(lex(none) == Seq::<Token>::empty());
    match token {
        Token::Operand(word) => {
            lemma_word_len_is(word, word.len());
            assert(word.take(word.len() as int) == word);
            assert(word.skip(word.len() as int) == none);
            assert(seq![token] + Seq::<Token>::empty() == seq![token]);
        },
        _ => {
            assert(text.drop_first() == none);
            assert(is_symbol(text[0]));
            assert(symbol_token(text[0]) == token);
            assert(seq![token] + Seq::<Token>::empty() == seq![token]);
        },
    }
}

/// Tokens written out with single spaces read back as the same tokens.
pub proof fn lemma_lex_render(tokens: Seq<Token>)
    requires
        all_plain(tokens),
    ensures
        lex(render(tokens)) == tokens,
    decreases tokens.len(),
{
    if tokens.len() > 0 {
        let front = tokens.drop_last();
        let last = tokens.last();
        assert(tokens == front.push(last));
        lemma_lex_one(last);
        if front.len() > 0 {
            lemma_lex_render(front);
            lemma_lex_join(render(front), last.text());
        }
    }
}

} // verus!
