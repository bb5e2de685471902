//! Laws of the lexer's tables: each keyword, operator and mark of punctuation is a token kind
//! of its own, spelled one way.
use crate::tokenize::{
    char_at_is, is_ascii_digit, is_word, keyword_of, lemma_lex_token, lex, line_run, next_token,
    word_run, TokenImpl,
};
use vstd::prelude::*;

verus! {

/// The text of token `k` of `cs`: from where the token before it ends to where it ends.
pub open spec fn token_chars(cs: Seq<char>, k: int) -> Seq<char> {
    cs.subrange(if k == 0 { 0 } else { lex(cs)[k - 1].1 }, lex(cs)[k].1)
}

/// No keyword is spelled by a text that does not start with a letter.
proof fn lemma_keyword_starts_with_letter(text: Seq<char>)
    requires
        text.len() > 0,
        !('a' <= text[0] <= 'z'),
    ensures
        keyword_of(text) is None,
        text != seq!['p', 'u', 'b'],
        text != seq!['t', 'r', 'u', 'e'],
        text != seq!['f', 'a', 'l', 's', 'e'],
        text != seq!['l', 'e', 't'],
        text != seq!['c', 'o', 'n', 's', 't'],
        text != seq!['f', 'n'],
        text != seq!['s', 't', 'r', 'u', 'c', 't'],
        text != seq!['c', 'o', 'm', 'p', 't', 'i', 'm', 'e'],
        text != seq!['i', 'f'],
        text != seq!['e', 'l', 's', 'e'],
        text != seq!['i', '3', '2'],
        text != seq!['t', 'y', 'p', 'e'],
{
}

/// The token at `i` is a keyword exactly when its text is that keyword's spelling.
#[verifier::rlimit(30)]
proof fn lemma_next_token_keyword(cs: Seq<char>, i: int)
    requires
        0 <= i < cs.len(),
        1 <= next_token(cs, i).1 <= cs.len() - i,
    ensures
        next_token(cs, i).0 == TokenImpl::Pub <==> cs.subrange(i, i + next_token(cs, i).1) == seq!['p', 'u', 'b'],
        next_token(cs, i).0 == TokenImpl::True <==> cs.subrange(i, i + next_token(cs, i).1) == seq!['t', 'r', 'u', 'e'],
        next_token(cs, i).0 == TokenImpl::False <==> cs.subrange(i, i + next_token(cs, i).1) == seq!['f', 'a', 'l', 's', 'e'],
        next_token(cs, i).0 == TokenImpl::Let <==> cs.subrange(i, i + next_token(cs, i).1) == seq!['l', 'e', 't'],
        next_token(cs, i).0 == TokenImpl::Const <==> cs.subrange(i, i + next_token(cs, i).1) == seq!['c', 'o', 'n', 's', 't'],
        next_token(cs, i).0 == TokenImpl::Fn <==> cs.subrange(i, i + next_token(cs, i).1) == seq!['f', 'n'],
        next_token(cs, i).0 == TokenImpl::Struct <==> cs.subrange(i, i + next_token(cs, i).1) == seq!['s', 't', 'r', 'u', 'c', 't'],
        next_token(cs, i).0 == TokenImpl::Comptime <==> cs.subrange(i, i + next_token(cs, i).1) == seq!['c', 'o', 'm', 'p', 't', 'i', 'm', 'e'],
        next_token(cs, i).0 == TokenImpl::If <==> cs.subrange(i, i + next_token(cs, i).1) == seq!['i', 'f'],
        next_token(cs, i).0 == TokenImpl::Else <==> cs.subrange(i, i + next_token(cs, i).1) == seq!['e', 'l', 's', 'e'],
        next_token(cs, i).0 == TokenImpl::I32Keyword <==> cs.subrange(i, i + next_token(cs, i).1) == seq!['i', '3', '2'],
        next_token(cs, i).0 == TokenImpl::TypeKeyword <==> cs.subrange(i, i + next_token(cs, i).1) == seq!['t', 'y', 'p', 'e'],
{
    let c = cs[i];
    let text = cs.subrange(i, i + next_token(cs, i).1);
    assert(text[0] == c);
    if is_ascii_digit(c) {
        lemma_keyword_starts_with_letter(text);
    } else if is_word(c) {
        let w = word_run(cs, i);
        assert(text == cs.subrange(i, i + w));
    } else {
        assert(!('a' <= c <= 'z'));
        lemma_keyword_starts_with_letter(text);
    }
}

/// Each keyword is one token kind of its own: a token is that keyword exactly when its text is
/// the keyword's spelling.
pub proof fn lemma_keyword_tokens(cs: Seq<char>, k: int)
    requires
        0 <= k < lex(cs).len(),
    ensures
        lex(cs)[k].0 == TokenImpl::Pub <==> token_chars(cs, k) == seq!['p', 'u', 'b'],
        lex(cs)[k].0 == TokenImpl::True <==> token_chars(cs, k) == seq!['t', 'r', 'u', 'e'],
        lex(cs)[k].0 == TokenImpl::False <==> token_chars(cs, k) == seq!['f', 'a', 'l', 's', 'e'],
        lex(cs)[k].0 == TokenImpl::Let <==> token_chars(cs, k) == seq!['l', 'e', 't'],
        lex(cs)[k].0 == TokenImpl::Const <==> token_chars(cs, k) == seq!['c', 'o', 'n', 's', 't'],
        lex(cs)[k].0 == TokenImpl::Fn <==> token_chars(cs, k) == seq!['f', 'n'],
        lex(cs)[k].0 == TokenImpl::Struct <==> token_chars(cs, k) == seq!['s', 't', 'r', 'u', 'c', 't'],
        lex(cs)[k].0 == TokenImpl::Comptime <==> token_chars(cs, k) == seq!['c', 'o', 'm', 'p', 't', 'i', 'm', 'e'],
        lex(cs)[k].0 == TokenImpl::If <==> token_chars(cs, k) == seq!['i', 'f'],
        lex(cs)[k].0 == TokenImpl::Else <==> token_chars(cs, k) == seq!['e', 'l', 's', 'e'],
        lex(cs)[k].0 == TokenImpl::I32Keyword <==> token_chars(cs, k) == seq!['i', '3', '2'],
        lex(cs)[k].0 == TokenImpl::TypeKeyword <==> token_chars(cs, k) == seq!['t', 'y', 'p', 'e'],
{
    lemma_lex_token(cs, k);
    let start = if k == 0 {
        0
    } else {
        lex(cs)[k - 1].1
    };
    lemma_next_token_keyword(cs, start);
    assert(token_chars(cs, k) == cs.subrange(start, start + next_token(cs, start).1));
}

/// The token at `i` is an operator or a mark of punctuation exactly when its text is that
/// token's spelling.
#[verifier::rlimit(30)]
proof fn lemma_next_token_punct(cs: Seq<char>, i: int)
    requires
        0 <= i < cs.len(),
        1 <= next_token(cs, i).1 <= cs.len() - i,
    ensures
        next_token(cs, i).0 == TokenImpl::OpenBrace <==> (
            cs.subrange(i, i + next_token(cs, i).1).len() == 1
            && cs.subrange(i, i + next_token(cs, i).1)[0] == '{'
        ),
        next_token(cs, i).0 == TokenImpl::CloseBrace <==> (
            cs.subrange(i, i + next_token(cs, i).1).len() == 1
            && cs.subrange(i, i + next_token(cs, i).1)[0] == '}'
        ),
        next_token(cs, i).0 == TokenImpl::OpenParen <==> (
            cs.subrange(i, i + next_token(cs, i).1).len() == 1
            && cs.subrange(i, i + next_token(cs, i).1)[0] == '('
        ),
        next_token(cs, i).0 == TokenImpl::CloseParen <==> (
            cs.subrange(i, i + next_token(cs, i).1).len() == 1
            && cs.subrange(i, i + next_token(cs, i).1)[0] == ')'
        ),
        next_token(cs, i).0 == TokenImpl::Dot <==> (
            cs.subrange(i, i + next_token(cs, i).1).len() == 1
            && cs.subrange(i, i + next_token(cs, i).1)[0] == '.'
        ),
        next_token(cs, i).0 == TokenImpl::Comma <==> (
            cs.subrange(i, i + next_token(cs, i).1).len() == 1
            && cs.subrange(i, i + next_token(cs, i).1)[0] == ','
        ),
        next_token(cs, i).0 == TokenImpl::Colon <==> (
            cs.subrange(i, i + next_token(cs, i).1).len() == 1
            && cs.subrange(i, i + next_token(cs, i).1)[0] == ':'
        ),
        next_token(cs, i).0 == TokenImpl::Semi <==> (
            cs.subrange(i, i + next_token(cs, i).1).len() == 1
            && cs.subrange(i, i + next_token(cs, i).1)[0] == ';'
        ),
        next_token(cs, i).0 == TokenImpl::Plus <==> (
            cs.subrange(i, i + next_token(cs, i).1).len() == 1
            && cs.subrange(i, i + next_token(cs, i).1)[0] == '+'
        ),
        next_token(cs, i).0 == TokenImpl::Dash <==> (
            cs.subrange(i, i + next_token(cs, i).1).len() == 1
            && cs.subrange(i, i + next_token(cs, i).1)[0] == '-'
        ),
        next_token(cs, i).0 == TokenImpl::Star <==> (
            cs.subrange(i, i + next_token(cs, i).1).len() == 1
            && cs.subrange(i, i + next_token(cs, i).1)[0] == '*'
        ),
        next_token(cs, i).0 == TokenImpl::Slash <==> (
            cs.subrange(i, i + next_token(cs, i).1).len() == 1
            && cs.subrange(i, i + next_token(cs, i).1)[0] == '/'
        ),
        next_token(cs, i).0 == TokenImpl::Eq <==> (
            cs.subrange(i, i + next_token(cs, i).1).len() == 1
            && cs.subrange(i, i + next_token(cs, i).1)[0] == '='
        ),
        next_token(cs, i).0 == TokenImpl::EqEq <==> (
            cs.subrange(i, i + next_token(cs, i).1).len() == 2
            && cs.subrange(i, i + next_token(cs, i).1)[0] == '='
            && cs.subrange(i, i + next_token(cs, i).1)[1] == '='
        ),
        next_token(cs, i).0 == TokenImpl::RArrow <==> (
            cs.subrange(i, i + next_token(cs, i).1).len() == 2
            && cs.subrange(i, i + next_token(cs, i).1)[0] == '-'
            && cs.subrange(i, i + next_token(cs, i).1)[1] == '>'
        ),
        next_token(cs, i).0 == TokenImpl::Bang <==> (
            cs.subrange(i, i + next_token(cs, i).1).len() == 1
            && cs.subrange(i, i + next_token(cs, i).1)[0] == '!'
        ),
        next_token(cs, i).0 == TokenImpl::Ampersand <==> (
            cs.subrange(i, i + next_token(cs, i).1).len() == 1
            && cs.subrange(i, i + next_token(cs, i).1)[0] == '@'
        ),
{
    let c = cs[i];
    let text = cs.subrange(i, i + next_token(cs, i).1);
    assert(text[0] == c);
    if next_token(cs, i).1 >= 2 {
        assert(text[1] == cs[i + 1]);
    }
    if is_ascii_digit(c) {
        lemma_keyword_starts_with_letter(text);
    } else if is_word(c) {
        let w = word_run(cs, i);
        assert(text == cs.subrange(i, i + w));
        lemma_keyword_of_kinds(text);
    } else if c == '/' {
        lemma_line_run_nonneg(cs, i + 2);
    }
}

/// A run to the end of the line is never negative.
proof fn lemma_line_run_nonneg(cs: Seq<char>, i: int)
    ensures
        line_run(cs, i) >= 0,
    decreases cs.len() - i,
{
    if 0 <= i < cs.len() && cs[i] != '\n' {
        lemma_line_run_nonneg(cs, i + 1);
    }
}

/// What the keyword table gives is a keyword.
proof fn lemma_keyword_of_kinds(text: Seq<char>)
    ensures
        keyword_of(text) is None || keyword_of(text) == Some(TokenImpl::Pub) || keyword_of(text) == Some(
            TokenImpl::True,
        ) || keyword_of(text) == Some(TokenImpl::False) || keyword_of(text) == Some(TokenImpl::Let)
            || keyword_of(text) == Some(TokenImpl::Const) || keyword_of(text) == Some(TokenImpl::Fn)
            || keyword_of(text) == Some(TokenImpl::Struct) || keyword_of(text) == Some(
            TokenImpl::Comptime,
        ) || keyword_of(text) == Some(TokenImpl::If) || keyword_of(text) == Some(TokenImpl::Else)
            || keyword_of(text) == Some(TokenImpl::I32Keyword) || keyword_of(text) == Some(
            TokenImpl::TypeKeyword,
        ),
{
}

/// Each operator and mark of punctuation is one token kind of its own: a token is of that kind
/// exactly when its text is the kind's spelling.
pub proof fn lemma_punct_tokens(cs: Seq<char>, k: int)
    requires
        0 <= k < lex(cs).len(),
    ensures
        lex(cs)[k].0 == TokenImpl::OpenBrace <==> (
            token_chars(cs, k).len() == 1
            && token_chars(cs, k)[0] == '{'
        ),
        lex(cs)[k].0 == TokenImpl::CloseBrace <==> (
            token_chars(cs, k).len() == 1
            && token_chars(cs, k)[0] == '}'
        ),
        lex(cs)[k].0 == TokenImpl::OpenParen <==> (
            token_chars(cs, k).len() == 1
            && token_chars(cs, k)[0] == '('
        ),
        lex(cs)[k].0 == TokenImpl::CloseParen <==> (
            token_chars(cs, k).len() == 1
            && token_chars(cs, k)[0] == ')'
        ),
        lex(cs)[k].0 == TokenImpl::Dot <==> (
            token_chars(cs, k).len() == 1
            && token_chars(cs, k)[0] == '.'
        ),
        lex(cs)[k].0 == TokenImpl::Comma <==> (
            token_chars(cs, k).len() == 1
            && token_chars(cs, k)[0] == ','
        ),
        lex(cs)[k].0 == TokenImpl::Colon <==> (
            token_chars(cs, k).len() == 1
            && token_chars(cs, k)[0] == ':'
        ),
        lex(cs)[k].0 == TokenImpl::Semi <==> (
            token_chars(cs, k).len() == 1
            && token_chars(cs, k)[0] == ';'
        ),
        lex(cs)[k].0 == TokenImpl::Plus <==> (
            token_chars(cs, k).len() == 1
            && token_chars(cs, k)[0] == '+'
        ),
        lex(cs)[k].0 == TokenImpl::Dash <==> (
            token_chars(cs, k).len() == 1
            && token_chars(cs, k)[0] == '-'
        ),
        lex(cs)[k].0 == TokenImpl::Star <==> (
            token_chars(cs, k).len() == 1
            && token_chars(cs, k)[0] == '*'
        ),
        lex(cs)[k].0 == TokenImpl::Slash <==> (
            token_chars(cs, k).len() == 1
            && token_chars(cs, k)[0] == '/'
        ),
        lex(cs)[k].0 == TokenImpl::Eq <==> (
            token_chars(cs, k).len() == 1
            && token_chars(cs, k)[0] == '='
        ),
        lex(cs)[k].0 == TokenImpl::EqEq <==> (
            token_chars(cs, k).len() == 2
            && token_chars(cs, k)[0] == '='
            && token_chars(cs, k)[1] == '='
        ),
        lex(cs)[k].0 == TokenImpl::RArrow <==> (
            token_chars(cs, k).len() == 2
            && token_chars(cs, k)[0] == '-'
            && token_chars(cs, k)[1] == '>'
        ),
        lex(cs)[k].0 == TokenImpl::Bang <==> (
            token_chars(cs, k).len() == 1
            && token_chars(cs, k)[0] == '!'
        ),
        lex(cs)[k].0 == TokenImpl::Ampersand <==> (
            token_chars(cs, k).len() == 1
            && token_chars(cs, k)[0] == '@'
        ),
{
    lemma_lex_token(cs, k);
    let start = if k == 0 {
        0
    } else {
        lex(cs)[k - 1].1
    };
    lemma_next_token_punct(cs, start);
    assert(token_chars(cs, k) == cs.subrange(start, start + next_token(cs, start).1));
}

} // verus!
