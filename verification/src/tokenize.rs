//! The tokenizer: splits source text into tokens and records where each one ends.
use crate::index::{Idx, MAX_INDEX};
use crate::span::{
    char_utf8_width, chars_of, lemma_prefix_char_boundary, lemma_utf8_len_prefix_le,
    lemma_utf8_len_take, utf8_len, Byte, Span,
};
use vstd::prelude::*;
use vstd::string::StringSliceAdditionalSpecFns;
use vstd::utf8::*;

verus! {

/// A token index.
#[derive(Copy, Clone, Debug, Default, PartialEq, Eq, Structural, Hash, PartialOrd, Ord)]
pub struct Token(pub u32);

impl Idx for Token {
    proof fn lemma_index_determines(a: Self, b: Self) {
        assert(a.0 == b.0);
    }

    open spec fn spec_index(self) -> nat {
        self.0 as nat
    }

    fn from_usize(i: usize) -> (r: Self) {
        Token(i as u32)
    }

    fn index(self) -> (r: usize) {
        self.0 as usize
    }
}

impl Token {
    /// A token index given by its numeric value.
    pub fn new(i: usize) -> (r: Self)
        requires
            i <= MAX_INDEX,
        ensures
            r.0 == i,
    {
        Token(i as u32)
    }
}

/// The kinds of token.
#[derive(Copy, Clone, Debug, PartialEq, Eq, Structural, Hash)]
pub enum TokenImpl {
    /// Integers, or anything that might look like one.
    IntLit,
    /// Identifiers.
    Ident,
    /// Strings like `"hello world"`.
    StrLit,
    /// Fully escaped raw string, running to the end of the line.
    RawStrLit,
    /// A string that the line or the input ends before it is closed.
    UnterminatedStrLit,
    OpenBrace,
    CloseBrace,
    OpenParen,
    CloseParen,
    Dot,
    Comma,
    Colon,
    Semi,
    Plus,
    Dash,
    Star,
    Slash,
    Eq,
    EqEq,
    RArrow,
    Bang,
    Ampersand,
    Pub,
    True,
    False,
    Let,
    Const,
    Fn,
    Struct,
    Comptime,
    If,
    Else,
    I32Keyword,
    TypeKeyword,
    Comment,
    Newline,
    Whitespace,
    /// A character that starts no token.
    Unrecognized,
}

/// Whether `c` is in the Unicode `\w` class, as `regex_syntax::is_word_character` computes it.
pub uninterp spec fn unicode_word_char(c: char) -> bool;

/// Calls `regex_syntax::is_word_character`, the Unicode word class (`\w`, UTS#18 Annex C) that
/// regular expressions are compiled with. Claimed: the result is `unicode_word_char(c)`, a fixed
/// function of `c`; which characters are word characters is not stated.
#[verifier::external_body]
fn is_word_character(c: char) -> (r: bool)
    ensures
        r == unicode_word_char(c),
{
    regex_syntax::is_word_character(c)
}

pub open spec fn is_ascii_digit(c: char) -> bool {
    '0' <= c <= '9'
}

pub open spec fn is_ascii_word(c: char) -> bool {
    ||| '0' <= c <= '9'
    ||| 'a' <= c <= 'z'
    ||| 'A' <= c <= 'Z'
    ||| c == '_'
}

/// Characters of identifiers: `\w`.
pub open spec fn is_word(c: char) -> bool {
    if (c as u32) < 0x80 {
        is_ascii_word(c)
    } else {
        unicode_word_char(c)
    }
}

/// Characters of whitespace tokens: `[ \t\r\f]`.
pub open spec fn is_space(c: char) -> bool {
    c == ' ' || c == '\t' || c == '\r' || c == '\x0c'
}

/// Number of word characters starting at `i`.
pub open spec fn word_run(cs: Seq<char>, i: int) -> int
    decreases cs.len() - i,
{
    if 0 <= i < cs.len() && is_word(cs[i]) {
        1 + word_run(cs, i + 1)
    } else {
        0
    }
}

/// Number of ASCII word characters (`[a-zA-Z0-9_]`) starting at `i`.
pub open spec fn ascii_word_run(cs: Seq<char>, i: int) -> int
    decreases cs.len() - i,
{
    if 0 <= i < cs.len() && is_ascii_word(cs[i]) {
        1 + ascii_word_run(cs, i + 1)
    } else {
        0
    }
}

/// Number of whitespace characters starting at `i`.
pub open spec fn space_run(cs: Seq<char>, i: int) -> int
    decreases cs.len() - i,
{
    if 0 <= i < cs.len() && is_space(cs[i]) {
        1 + space_run(cs, i + 1)
    } else {
        0
    }
}

/// Number of characters from `i` up to the next newline or the end.
pub open spec fn line_run(cs: Seq<char>, i: int) -> int
    decreases cs.len() - i,
{
    if 0 <= i < cs.len() && cs[i] != '\n' {
        1 + line_run(cs, i + 1)
    } else {
        0
    }
}

/// The body of a string literal starting at `i` (after the opening quote): how many characters
/// it takes, and whether a closing quote ends it. A newline or the end of the input ends it
/// unclosed; a backslash escapes the character after it.
pub open spec fn string_body(cs: Seq<char>, i: int, escaped: bool) -> (int, bool)
    decreases cs.len() - i,
{
    if i < 0 || i >= cs.len() || cs[i] == '\n' {
        (0, false)
    } else if escaped {
        let rest = string_body(cs, i + 1, false);
        (1 + rest.0, rest.1)
    } else if cs[i] == '"' {
        (1, true)
    } else {
        let rest = string_body(cs, i + 1, cs[i] == '\\');
        (1 + rest.0, rest.1)
    }
}

/// The keyword spelled by `text`, if any.
pub open spec fn keyword_of(text: Seq<char>) -> Option<TokenImpl> {
    if text == seq!['p', 'u', 'b'] {
        Some(TokenImpl::Pub)
    } else if text == seq!['t', 'r', 'u', 'e'] {
        Some(TokenImpl::True)
    } else if text == seq!['f', 'a', 'l', 's', 'e'] {
        Some(TokenImpl::False)
    } else if text == seq!['l', 'e', 't'] {
        Some(TokenImpl::Let)
    } else if text == seq!['c', 'o', 'n', 's', 't'] {
        Some(TokenImpl::Const)
    } else if text == seq!['f', 'n'] {
        Some(TokenImpl::Fn)
    } else if text == seq!['s', 't', 'r', 'u', 'c', 't'] {
        Some(TokenImpl::Struct)
    } else if text == seq!['c', 'o', 'm', 'p', 't', 'i', 'm', 'e'] {
        Some(TokenImpl::Comptime)
    } else if text == seq!['i', 'f'] {
        Some(TokenImpl::If)
    } else if text == seq!['e', 'l', 's', 'e'] {
        Some(TokenImpl::Else)
    } else if text == seq!['i', '3', '2'] {
        Some(TokenImpl::I32Keyword)
    } else if text == seq!['t', 'y', 'p', 'e'] {
        Some(TokenImpl::TypeKeyword)
    } else {
        None
    }
}

/// The token made of the single character `c`, if any.
pub open spec fn single_char_token(c: char) -> Option<TokenImpl> {
    if c == '{' {
        Some(TokenImpl::OpenBrace)
    } else if c == '}' {
        Some(TokenImpl::CloseBrace)
    } else if c == '(' {
        Some(TokenImpl::OpenParen)
    } else if c == ')' {
        Some(TokenImpl::CloseParen)
    } else if c == '.' {
        Some(TokenImpl::Dot)
    } else if c == ',' {
        Some(TokenImpl::Comma)
    } else if c == ':' {
        Some(TokenImpl::Colon)
    } else if c == ';' {
        Some(TokenImpl::Semi)
    } else if c == '+' {
        Some(TokenImpl::Plus)
    } else if c == '*' {
        Some(TokenImpl::Star)
    } else if c == '!' {
        Some(TokenImpl::Bang)
    } else if c == '@' {
        Some(TokenImpl::Ampersand)
    } else {
        None
    }
}

/// Whether the character at `i` is `c`.
pub open spec fn char_at_is(cs: Seq<char>, i: int, c: char) -> bool {
    0 <= i < cs.len() && cs[i] == c
}

/// The token starting at character `i`, and its length in characters: the longest match among
/// the token rules, ties going to integer literals over identifiers and to keywords over
/// identifiers. Strings, comments and raw strings then extend as far as their rules say.
pub open spec fn next_token(cs: Seq<char>, i: int) -> (TokenImpl, int) {
    let c = cs[i];
    if is_ascii_digit(c) {
        let w = word_run(cs, i);
        let a = ascii_word_run(cs, i);
        if w > a {
            (TokenImpl::Ident, w)
        } else {
            (TokenImpl::IntLit, a)
        }
    } else if is_word(c) {
        let w = word_run(cs, i);
        match keyword_of(cs.subrange(i, i + w)) {
            Some(k) => (k, w),
            None => (TokenImpl::Ident, w),
        }
    } else if c == '"' {
        let body = string_body(cs, i + 1, false);
        (if body.1 { TokenImpl::StrLit } else { TokenImpl::UnterminatedStrLit }, 1 + body.0)
    } else if c == '\\' {
        if char_at_is(cs, i + 1, '\\') {
            (TokenImpl::RawStrLit, 2 + line_run(cs, i + 2))
        } else {
            (TokenImpl::Unrecognized, 1)
        }
    } else if c == '/' {
        if char_at_is(cs, i + 1, '/') {
            (TokenImpl::Comment, 2 + line_run(cs, i + 2))
        } else {
            (TokenImpl::Slash, 1)
        }
    } else if c == '=' {
        if char_at_is(cs, i + 1, '=') {
            (TokenImpl::EqEq, 2)
        } else {
            (TokenImpl::Eq, 1)
        }
    } else if c == '-' {
        if char_at_is(cs, i + 1, '>') {
            (TokenImpl::RArrow, 2)
        } else {
            (TokenImpl::Dash, 1)
        }
    } else if c == '\n' {
        (TokenImpl::Newline, 1)
    } else if is_space(c) {
        (TokenImpl::Whitespace, space_run(cs, i))
    } else {
        match single_char_token(c) {
            Some(k) => (k, 1),
            None => (TokenImpl::Unrecognized, 1),
        }
    }
}

/// The tokens of `cs` from character `i` on, each with the character index where it ends.
pub open spec fn lex_from(cs: Seq<char>, i: int) -> Seq<(TokenImpl, int)>
    decreases cs.len() - i,
{
    if i < 0 || i >= cs.len() {
        seq![]
    } else {
        let (kind, n) = next_token(cs, i);
        if n < 1 || i + n > cs.len() {
            seq![]
        } else {
            seq![(kind, i + n)] + lex_from(cs, i + n)
        }
    }
}

/// The tokens of `cs`, each with the character index where it ends.
pub open spec fn lex(cs: Seq<char>) -> Seq<(TokenImpl, int)> {
    lex_from(cs, 0)
}

} // verus!

verus! {

/// Every rule's run stays inside the input.
proof fn lemma_runs_bounded(cs: Seq<char>, i: int)
    requires
        0 <= i <= cs.len(),
    ensures
        0 <= word_run(cs, i) <= cs.len() - i,
        0 <= ascii_word_run(cs, i) <= word_run(cs, i),
        0 <= space_run(cs, i) <= cs.len() - i,
        0 <= line_run(cs, i) <= cs.len() - i,
        0 <= string_body(cs, i, false).0 <= cs.len() - i,
        0 <= string_body(cs, i, true).0 <= cs.len() - i,
    decreases cs.len() - i,
{
    if i < cs.len() {
        lemma_runs_bounded(cs, i + 1);
    }
}

/// A token is at least one character long and ends inside the input.
pub proof fn lemma_next_token_len(cs: Seq<char>, i: int)
    requires
        0 <= i < cs.len(),
    ensures
        1 <= next_token(cs, i).1 <= cs.len() - i,
{
    lemma_runs_bounded(cs, i);
    lemma_runs_bounded(cs, i + 1);
    if i + 2 <= cs.len() {
        lemma_runs_bounded(cs, i + 2);
    }
}

/// The text of every token is the input, in order: token `k` ends where token `k + 1` starts,
/// the ends increase strictly, and the last token ends at the end of the input.
pub proof fn lemma_lex_from_covers(cs: Seq<char>, i: int)
    requires
        0 <= i <= cs.len(),
    ensures
        forall|k: int|
            0 <= k < lex_from(cs, i).len() ==> i < #[trigger] lex_from(cs, i)[k].1 <= cs.len(),
        forall|k: int|
            0 <= k < lex_from(cs, i).len() - 1 ==> #[trigger] lex_from(cs, i)[k].1
                < lex_from(cs, i)[k + 1].1,
        forall|k: int|
            0 <= k < lex_from(cs, i).len() ==> (#[trigger] lex_from(cs, i)[k]).0 == next_token(
                cs,
                if k == 0 { i } else { lex_from(cs, i)[k - 1].1 },
            ).0 && lex_from(cs, i)[k].1 == (if k == 0 { i } else { lex_from(cs, i)[k - 1].1 })
                + next_token(cs, if k == 0 { i } else { lex_from(cs, i)[k - 1].1 }).1,
        lex_from(cs, i).len() == 0 <==> i == cs.len(),
        lex_from(cs, i).len() > 0 ==> lex_from(cs, i).last().1 == cs.len(),
    decreases cs.len() - i,
{
    if i < cs.len() {
        lemma_next_token_len(cs, i);
        let n = next_token(cs, i).1;
        lemma_lex_from_covers(cs, i + n);
        let rest = lex_from(cs, i + n);
        let all = lex_from(cs, i);
        assert(all =~= seq![(next_token(cs, i).0, i + n)] + rest);
        assert forall|k: int| 0 <= k < all.len() - 1 implies #[trigger] all[k].1 < all[k + 1].1 by {
            if k > 0 {
                assert(all[k] == rest[k - 1]);
                assert(all[k + 1] == rest[k]);
            }
        }
        assert forall|k: int| 0 <= k < all.len() implies (#[trigger] all[k]).0 == next_token(
            cs,
            if k == 0 { i } else { all[k - 1].1 },
        ).0 && all[k].1 == (if k == 0 { i } else { all[k - 1].1 }) + next_token(
            cs,
            if k == 0 { i } else { all[k - 1].1 },
        ).1 by {
            if k > 1 {
                assert(all[k] == rest[k - 1]);
                assert(all[k - 1] == rest[k - 2]);
            } else if k == 1 {
                assert(all[1] == rest[0]);
            }
        }
        if rest.len() > 0 {
            assert(all.last() == rest.last());
        }
    }
}

/// Token `k` of `cs` is the token that starts where token `k - 1` ends (or at 0), and ends that
/// token's length later, inside `cs`.
pub proof fn lemma_lex_token(cs: Seq<char>, k: int)
    requires
        0 <= k < lex(cs).len(),
    ensures
        ({
            let start = if k == 0 { 0 } else { lex(cs)[k - 1].1 };
            &&& 0 <= start < cs.len()
            &&& 1 <= next_token(cs, start).1 <= cs.len() - start
            &&& lex(cs)[k].0 == next_token(cs, start).0
            &&& lex(cs)[k].1 == start + next_token(cs, start).1
        }),
{
    lemma_lex_from_covers(cs, 0);
    let start = if k == 0 {
        0
    } else {
        lex(cs)[k - 1].1
    };
    if k > 0 {
        assert(0 < lex(cs)[k - 1].1);
    }
    let all = lex_from(cs, 0);
    assert(all[k].0 == next_token(cs, start).0 && all[k].1 == start + next_token(cs, start).1);
    lemma_next_token_len(cs, start);
}

/// Whether `c` is a word character.
fn word_char(c: char) -> (r: bool)
    ensures
        r == is_word(c),
{
    if (c as u32) < 0x80 {
        ascii_word_char(c)
    } else {
        is_word_character(c)
    }
}

fn ascii_word_char(c: char) -> (r: bool)
    ensures
        r == is_ascii_word(c),
{
    ('0' <= c && c <= '9') || ('a' <= c && c <= 'z') || ('A' <= c && c <= 'Z') || c == '_'
}

fn space_char(c: char) -> (r: bool)
    ensures
        r == is_space(c),
{
    c == ' ' || c == '\t' || c == '\r' || c == '\x0c'
}

fn exec_word_run(cs: &Vec<char>, i: usize) -> (r: usize)
    requires
        i <= cs@.len(),
    ensures
        r == word_run(cs@, i as int),
{
    let mut j = i;
    while j < cs.len() && word_char(cs[j])
        invariant
            i <= j <= cs@.len(),
            word_run(cs@, i as int) == (j - i) + word_run(cs@, j as int),
        decreases cs@.len() - j,
    {
        j = j + 1;
    }
    j - i
}

fn exec_ascii_word_run(cs: &Vec<char>, i: usize) -> (r: usize)
    requires
        i <= cs@.len(),
    ensures
        r == ascii_word_run(cs@, i as int),
{
    let mut j = i;
    while j < cs.len() && ascii_word_char(cs[j])
        invariant
            i <= j <= cs@.len(),
            ascii_word_run(cs@, i as int) == (j - i) + ascii_word_run(cs@, j as int),
        decreases cs@.len() - j,
    {
        j = j + 1;
    }
    j - i
}

fn exec_space_run(cs: &Vec<char>, i: usize) -> (r: usize)
    requires
        i <= cs@.len(),
    ensures
        r == space_run(cs@, i as int),
{
    let mut j = i;
    while j < cs.len() && space_char(cs[j])
        invariant
            i <= j <= cs@.len(),
            space_run(cs@, i as int) == (j - i) + space_run(cs@, j as int),
        decreases cs@.len() - j,
    {
        j = j + 1;
    }
    j - i
}

/// Moves to the end of the line: the number of characters from `i` to the next newline or the
/// end of the input.
fn advance_to_end_of_line(cs: &Vec<char>, i: usize) -> (r: usize)
    requires
        i <= cs@.len(),
    ensures
        r == line_run(cs@, i as int),
{
    let mut j = i;
    while j < cs.len() && cs[j] != '\n'
        invariant
            i <= j <= cs@.len(),
            line_run(cs@, i as int) == (j - i) + line_run(cs@, j as int),
        decreases cs@.len() - j,
    {
        j = j + 1;
    }
    j - i
}

/// Moves to the end of the string or the end of the line, whichever comes first: the number of
/// characters of the string's body from `i`, and whether a closing quote ends it.
fn tokenize_string(cs: &Vec<char>, i: usize) -> (r: (usize, bool))
    requires
        i <= cs@.len(),
    ensures
        r.0 == string_body(cs@, i as int, false).0,
        r.1 == string_body(cs@, i as int, false).1,
{
    let mut j = i;
    let mut escaped = false;
    loop
        invariant
            i <= j <= cs@.len(),
            string_body(cs@, i as int, false).0 == (j - i) + string_body(
                cs@,
                j as int,
                escaped,
            ).0,
            string_body(cs@, i as int, false).1 == string_body(cs@, j as int, escaped).1,
        decreases cs@.len() - j,
    {
        if j >= cs.len() || cs[j] == '\n' {
            return (j - i, false);
        }
        if escaped {
            escaped = false;
        } else {
            if cs[j] == '"' {
                return (j - i + 1, true);
            }
            escaped = cs[j] == '\\';
        }
        j = j + 1;
    }
}

/// Whether the characters `cs[start..start + len]` spell `word`.
fn text_is(cs: &Vec<char>, start: usize, len: usize, word: &[char]) -> (r: bool)
    requires
        start + len <= cs@.len(),
    ensures
        r == (cs@.subrange(start as int, start + len) == word@),
{
    if len != word.len() {
        return false;
    }
    let mut k: usize = 0;
    while k < len
        invariant
            k <= len,
            len == word@.len(),
            start + len <= cs.len(),
            forall|m: int| 0 <= m < k ==> cs@[start + m] == word@[m],
        decreases len - k,
    {
        if cs[start + k] != word[k] {
            assert(cs@.subrange(start as int, start + len)[k as int] != word@[k as int]);
            return false;
        }
        k = k + 1;
    }
    assert(cs@.subrange(start as int, start + len) =~= word@);
    true
}

/// The keyword spelled by `cs[start..start + len]`, if any.
fn keyword(cs: &Vec<char>, start: usize, len: usize) -> (r: Option<TokenImpl>)
    requires
        start + len <= cs@.len(),
    ensures
        r == keyword_of(cs@.subrange(start as int, start + len)),
{
    if text_is(cs, start, len, &['p', 'u', 'b']) {
        Some(TokenImpl::Pub)
    } else if text_is(cs, start, len, &['t', 'r', 'u', 'e']) {
        Some(TokenImpl::True)
    } else if text_is(cs, start, len, &['f', 'a', 'l', 's', 'e']) {
        Some(TokenImpl::False)
    } else if text_is(cs, start, len, &['l', 'e', 't']) {
        Some(TokenImpl::Let)
    } else if text_is(cs, start, len, &['c', 'o', 'n', 's', 't']) {
        Some(TokenImpl::Const)
    } else if text_is(cs, start, len, &['f', 'n']) {
        Some(TokenImpl::Fn)
    } else if text_is(cs, start, len, &['s', 't', 'r', 'u', 'c', 't']) {
        Some(TokenImpl::Struct)
    } else if text_is(cs, start, len, &['c', 'o', 'm', 'p', 't', 'i', 'm', 'e']) {
        Some(TokenImpl::Comptime)
    } else if text_is(cs, start, len, &['i', 'f']) {
        Some(TokenImpl::If)
    } else if text_is(cs, start, len, &['e', 'l', 's', 'e']) {
        Some(TokenImpl::Else)
    } else if text_is(cs, start, len, &['i', '3', '2']) {
        Some(TokenImpl::I32Keyword)
    } else if text_is(cs, start, len, &['t', 'y', 'p', 'e']) {
        Some(TokenImpl::TypeKeyword)
    } else {
        None
    }
}

fn single_char(c: char) -> (r: Option<TokenImpl>)
    ensures
        r == single_char_token(c),
{
    if c == '{' {
        Some(TokenImpl::OpenBrace)
    } else if c == '}' {
        Some(TokenImpl::CloseBrace)
    } else if c == '(' {
        Some(TokenImpl::OpenParen)
    } else if c == ')' {
        Some(TokenImpl::CloseParen)
    } else if c == '.' {
        Some(TokenImpl::Dot)
    } else if c == ',' {
        Some(TokenImpl::Comma)
    } else if c == ':' {
        Some(TokenImpl::Colon)
    } else if c == ';' {
        Some(TokenImpl::Semi)
    } else if c == '+' {
        Some(TokenImpl::Plus)
    } else if c == '*' {
        Some(TokenImpl::Star)
    } else if c == '!' {
        Some(TokenImpl::Bang)
    } else if c == '@' {
        Some(TokenImpl::Ampersand)
    } else {
        None
    }
}

fn next_is(cs: &Vec<char>, i: usize, c: char) -> (r: bool)
    ensures
        r == char_at_is(cs@, i as int, c),
{
    i < cs.len() && cs[i] == c
}

/// The token starting at character `i` and its length in characters.
fn lex_token(cs: &Vec<char>, i: usize) -> (r: (TokenImpl, usize))
    requires
        i < cs@.len(),
    ensures
        r.0 == next_token(cs@, i as int).0,
        r.1 == next_token(cs@, i as int).1,
{
    proof {
        lemma_runs_bounded(cs@, i as int);
        lemma_runs_bounded(cs@, i + 1);
    }
    let _ = cs.len();
    let c = cs[i];
    if '0' <= c && c <= '9' {
        let w = exec_word_run(cs, i);
        let a = exec_ascii_word_run(cs, i);
        if w > a {
            (TokenImpl::Ident, w)
        } else {
            (TokenImpl::IntLit, a)
        }
    } else if word_char(c) {
        let w = exec_word_run(cs, i);
        match keyword(cs, i, w) {
            Some(k) => (k, w),
            None => (TokenImpl::Ident, w),
        }
    } else if c == '"' {
        let (n, closed) = tokenize_string(cs, i + 1);
        assert(n <= cs@.len() - (i + 1));
        (if closed { TokenImpl::StrLit } else { TokenImpl::UnterminatedStrLit }, 1 + n)
    } else if c == '\\' {
        if next_is(cs, i + 1, '\\') {
            proof {
                lemma_runs_bounded(cs@, i + 2);
            }
            (TokenImpl::RawStrLit, 2 + advance_to_end_of_line(cs, i + 2))
        } else {
            (TokenImpl::Unrecognized, 1)
        }
    } else if c == '/' {
        if next_is(cs, i + 1, '/') {
            proof {
                lemma_runs_bounded(cs@, i + 2);
            }
            (TokenImpl::Comment, 2 + advance_to_end_of_line(cs, i + 2))
        } else {
            (TokenImpl::Slash, 1)
        }
    } else if c == '=' {
        if next_is(cs, i + 1, '=') {
            (TokenImpl::EqEq, 2)
        } else {
            (TokenImpl::Eq, 1)
        }
    } else if c == '-' {
        if next_is(cs, i + 1, '>') {
            (TokenImpl::RArrow, 2)
        } else {
            (TokenImpl::Dash, 1)
        }
    } else if c == '\n' {
        (TokenImpl::Newline, 1)
    } else if space_char(c) {
        (TokenImpl::Whitespace, exec_space_run(cs, i))
    } else {
        match single_char(c) {
            Some(k) => (k, 1),
            None => (TokenImpl::Unrecognized, 1),
        }
    }
}

} // verus!

verus! {

/// Where each token ends.
#[derive(Clone, Debug)]
pub struct Spans {
    /// `ends[t]` is the byte offset just after token `t`.
    pub ends: Vec<Byte>,
}

/// Tokens of some source text, and where they lie in it.
#[derive(Clone, Debug)]
pub struct Tokenize {
    pub tokens: Vec<TokenImpl>,
    pub spans: Spans,
}

/// The span of token `token` given where every token ends: from the end of the previous
/// token (or 0) to its own end.
pub open spec fn spec_span(token: int, ends: Seq<Byte>) -> Span<Byte> {
    Span { start: if token == 0 { Byte(0) } else { ends[token - 1] }, end: ends[token] }
}

/// Every token's span lies inside `bytes`, in order, on character boundaries, so that it
/// can slice the source.
pub open spec fn spans_fit(ends: Seq<Byte>, bytes: Seq<u8>) -> bool {
    &&& valid_utf8(bytes)
    &&& forall|k: int|
        0 <= k < ends.len() ==> {
            let s = #[trigger] spec_span(k, ends);
            &&& s.start.0 <= s.end.0 <= bytes.len()
            &&& is_char_boundary(bytes, s.start.0 as int)
            &&& is_char_boundary(bytes, s.end.0 as int)
        }
}

/// Each token's span holds at least one byte.
pub open spec fn spans_nonempty(ends: Seq<Byte>) -> bool {
    forall|k: int| 0 <= k < ends.len() ==> (#[trigger] spec_span(k, ends)).start.0 < spec_span(k, ends).end.0
}

/// The source bytes of token `k`.
pub open spec fn span_text(k: int, ends: Seq<Byte>, bytes: Seq<u8>) -> Seq<u8> {
    bytes.subrange(spec_span(k, ends).start.0 as int, spec_span(k, ends).end.0 as int)
}

/// The span of `token`, given where every token ends.
pub fn span(token: Token, ends: &[Byte]) -> (r: Span<Byte>)
    requires
        (token.0 as int) < ends@.len(),
    ensures
        r == spec_span(token.0 as int, ends@),
{
    let i = token.0 as usize;
    let start = if i == 0 {
        Byte(0)
    } else {
        ends[i - 1]
    };
    Span { start, end: ends[i] }
}

impl Spans {
    /// The span of `token`.
    pub fn to_span(&self, token: Token) -> (r: Span<Byte>)
        requires
            (token.0 as int) < self.ends@.len(),
        ensures
            r == spec_span(token.0 as int, self.ends@),
    {
        span(token, self.ends.as_slice())
    }
}

/// Number of UTF-8 bytes that encode `c`.
fn utf8_width(c: char) -> (r: u32)
    ensures
        r == char_utf8_width(c),
{
    let u = c as u32;
    if u < 0x80 {
        1
    } else if u < 0x800 {
        2
    } else if u < 0x10000 {
        3
    } else {
        4
    }
}

/// Longer prefixes take more bytes.
pub proof fn lemma_utf8_len_prefix_lt(cs: Seq<char>, j: int, k: int)
    requires
        0 <= j < k <= cs.len(),
    ensures
        utf8_len(cs.take(j)) < utf8_len(cs.take(k)),
    decreases k - j,
{
    lemma_utf8_len_take(cs, j);
    if j + 1 < k {
        lemma_utf8_len_prefix_lt(cs, j + 1, k);
    }
}

/// Token ends that sit where prefixes of `cs` end in bytes give spans that fit the encoding of
/// `cs`.
proof fn lemma_ends_fit(cs: Seq<char>, done: Seq<(TokenImpl, int)>, ends: Seq<Byte>)
    requires
        ends.len() == done.len(),
        forall|k: int| 0 <= k < done.len() ==> 0 <= #[trigger] done[k].1 <= cs.len(),
        forall|k: int| 0 <= k < done.len() ==> (#[trigger] ends[k]).0 == utf8_len(cs.take(done[k].1)),
        forall|k: int| 0 <= k < ends.len() - 1 ==> (#[trigger] ends[k]).0 < ends[k + 1].0,
    ensures
        spans_fit(ends, encode_utf8(cs)),
{
    broadcast use encode_utf8_valid_utf8;

    assert forall|k: int| 0 <= k < ends.len() implies {
        let s = #[trigger] spec_span(k, ends);
        &&& s.start.0 <= s.end.0 <= encode_utf8(cs).len()
        &&& is_char_boundary(encode_utf8(cs), s.start.0 as int)
        &&& is_char_boundary(encode_utf8(cs), s.end.0 as int)
    } by {
        lemma_prefix_char_boundary(cs, done[k].1);
        lemma_utf8_len_prefix_le(cs, done[k].1);
        if k > 0 {
            assert(ends[k - 1].0 < ends[k].0);
            lemma_prefix_char_boundary(cs, done[k - 1].1);
        } else {
            assert(cs.take(0) =~= Seq::<char>::empty());
            lemma_prefix_char_boundary(cs, 0);
        }
    }
}

/// Ends that sit where the tokens of `cs` end, in bytes, increase strictly, fit the encoding of
/// `cs`, hold a byte each, and reach the end of `cs`.
proof fn lemma_token_ends(cs: Seq<char>, ends: Seq<Byte>)
    requires
        ends.len() == lex(cs).len(),
        forall|k: int|
            0 <= k < lex(cs).len() ==> (#[trigger] ends[k]).0 == utf8_len(cs.take(lex(cs)[k].1)),
    ensures
        forall|k: int| 0 <= k < ends.len() - 1 ==> (#[trigger] ends[k]).0 < ends[k + 1].0,
        ends.len() == 0 <==> cs.len() == 0,
        ends.len() > 0 ==> ends.last().0 == utf8_len(cs),
        spans_fit(ends, encode_utf8(cs)),
        spans_nonempty(ends),
{
    let done = lex(cs);
    lemma_lex_from_covers(cs, 0);
    assert forall|k: int| 0 <= k < ends.len() - 1 implies (#[trigger] ends[k]).0 < ends[k + 1].0 by {
        lemma_utf8_len_prefix_lt(cs, done[k].1, done[k + 1].1);
    }
    if done.len() > 0 {
        assert(cs.take(cs.len() as int) =~= cs);
    }
    lemma_ends_fit(cs, done, ends);
    if done.len() > 0 {
        assert(cs.take(0) =~= Seq::<char>::empty());
        assert(encode_utf8(Seq::<char>::empty()) =~= Seq::<u8>::empty());
        lemma_utf8_len_prefix_lt(cs, 0, done[0].1);
    }
}

/// Splits `input` into tokens. Token `k` is the `k`-th token of [`lex`], and ends at the byte
/// offset where that token's last character ends. The tokens cover the input: each one ends
/// after the previous one, and the last one ends at the end of the input.
pub fn tokenize(input: &str) -> (r: Tokenize)
    requires
        utf8_len(input@) <= MAX_INDEX,
    ensures
        r.tokens@.len() == lex(input@).len(),
        r.spans.ends@.len() == lex(input@).len(),
        forall|k: int|
            0 <= k < lex(input@).len() ==> r.tokens@[k] == (#[trigger] lex(input@)[k]).0
                && r.spans.ends@[k].0 == utf8_len(input@.take(lex(input@)[k].1)),
        forall|k: int|
            0 <= k < r.spans.ends@.len() - 1 ==> (#[trigger] r.spans.ends@[k]).0
                < r.spans.ends@[k + 1].0,
        r.tokens@.len() == 0 <==> input@.len() == 0,
        r.tokens@.len() > 0 ==> r.spans.ends@.last().0 == utf8_len(input@),
        spans_fit(r.spans.ends@, input.spec_bytes()),
        spans_nonempty(r.spans.ends@),
{
    let cs = chars_of(input);
    let mut tokens: Vec<TokenImpl> = Vec::new();
    let mut ends: Vec<Byte> = Vec::new();
    let mut i: usize = 0;
    let mut b: u32 = 0;
    let ghost mut done: Seq<(TokenImpl, int)> = Seq::empty();
    proof {
        assert(cs@.take(0) =~= Seq::<char>::empty());
        assert(lex(cs@) =~= done + lex_from(cs@, 0));
    }
    while i < cs.len()
        invariant
            i <= cs@.len(),
            cs@ == input@,
            utf8_len(cs@) <= MAX_INDEX,
            lex(cs@) == done + lex_from(cs@, i as int),
            tokens@.len() == done.len(),
            ends@.len() == done.len(),
            forall|k: int|
                0 <= k < done.len() ==> tokens@[k] == (#[trigger] done[k]).0 && ends@[k].0
                    == utf8_len(cs@.take(done[k].1)),
            b == utf8_len(cs@.take(i as int)),
        decreases cs@.len() - i,
    {
        let (kind, n) = lex_token(&cs, i);
        proof {
            lemma_next_token_len(cs@, i as int);
        }
        assert(i + n <= cs.len());
        let mut j = i;
        while j < i + n
            invariant
                i <= j <= i + n <= cs.len(),
                utf8_len(cs@) <= MAX_INDEX,
                b == utf8_len(cs@.take(j as int)),
            decreases i + n - j,
        {
            proof {
                lemma_utf8_len_take(cs@, j as int);
                lemma_utf8_len_prefix_le(cs@, j + 1);
            }
            b = b + utf8_width(cs[j]);
            j = j + 1;
        }
        tokens.push(kind);
        ends.push(Byte(b));
        proof {
            let next = (kind, i + n);
            assert(lex_from(cs@, i as int) =~= seq![next] + lex_from(cs@, i + n));
            assert(done + lex_from(cs@, i as int) =~= done.push(next) + lex_from(cs@, i + n));
            done = done.push(next);
        }
        i = i + n;
    }
    proof {
        assert(lex_from(cs@, i as int) =~= Seq::<(TokenImpl, int)>::empty());
        assert(done =~= lex(cs@));
        lemma_token_ends(cs@, ends@);
    }
    Tokenize { tokens, spans: Spans { ends } }
}

} // verus!
