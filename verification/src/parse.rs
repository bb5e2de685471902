//! The parser: turns tokens into a flat sequence of nodes, in the order a stack machine would
//! evaluate them.
use crate::analysis::file_kind;
use crate::index::{Counter, Idx, MAX_INDEX};
use crate::parse_node::{NodeImpl, NodeKind, SynRef};
use crate::pprint::{depth_after, depth_change};
use crate::resolve::{spec_classify, Inst};
use crate::tokenize::{Token, TokenImpl};
use vstd::prelude::*;

verus! {

/// What the parser expected, and what it found instead.
#[derive(Clone, Debug)]
pub struct Error {
    pub expected: Expected,
    pub actual: Option<TokenImpl>,
}

#[derive(Copy, Clone, Debug)]
pub enum Expected {
    Just(TokenImpl),
    OneOf(&'static [TokenImpl]),
}

/// The parser's state, as the model sees it: the position of the cursor, the nodes pushed so
/// far, and the next syntactic reference to hand out.
pub struct PState {
    pub pos: int,
    pub nodes: Seq<NodeImpl>,
    pub syn: int,
}

impl PState {
    pub open spec fn at(self, pos: int) -> PState {
        PState { pos, nodes: self.nodes, syn: self.syn }
    }

    pub open spec fn push(self, token: int, kind: NodeKind) -> PState {
        PState {
            pos: self.pos,
            nodes: self.nodes.push(NodeImpl { token: Token(token as u32), kind }),
            syn: self.syn,
        }
    }
}

/// Tokens the parser skips between the tokens it reads.
pub open spec fn is_trivia(t: TokenImpl) -> bool {
    t == TokenImpl::Comment || t == TokenImpl::Whitespace || t == TokenImpl::Newline
}

/// Number of trivia tokens starting at `p`.
pub open spec fn trivia_run(toks: Seq<TokenImpl>, p: int) -> nat
    decreases toks.len() - p,
{
    if 0 <= p < toks.len() && is_trivia(toks[p]) {
        1 + trivia_run(toks, p + 1)
    } else {
        0
    }
}

/// The first non-trivia position at or after `p`.
pub open spec fn skip_trivia(toks: Seq<TokenImpl>, p: int) -> int {
    p + trivia_run(toks, p)
}

/// The position after moving past the token at `p` and the trivia after it.
pub open spec fn advance(toks: Seq<TokenImpl>, p: int) -> int {
    skip_trivia(toks, p + 1)
}

/// The token at `p`, if any.
pub open spec fn peek(toks: Seq<TokenImpl>, p: int) -> Option<TokenImpl> {
    if 0 <= p < toks.len() {
        Some(toks[p])
    } else {
        None
    }
}

/// Moves past the token at `p` if it is `t`, else reports what was expected.
pub open spec fn eat(toks: Seq<TokenImpl>, p: int, t: TokenImpl) -> Result<int, Error> {
    if peek(toks, p) == Some(t) {
        Ok(advance(toks, p))
    } else {
        Err(Error { expected: Expected::Just(t), actual: peek(toks, p) })
    }
}

/// How many tokens remain from `p`.
pub open spec fn rem(toks: Seq<TokenImpl>, p: int) -> nat {
    (if p < toks.len() {
        toks.len() - p
    } else {
        0
    }) as nat
}

/// The outcome of a parse step that cannot happen: the parser always moves forward before it
/// parses the same rule again.
pub open spec fn stuck(st: PState) -> (PState, Result<(), Error>) {
    (st, Err(Error { expected: Expected::Just(TokenImpl::Unrecognized), actual: None }))
}

/// The tokens that may start an atom.
pub open spec fn atom_expected() -> Expected {
    Expected::OneOf(&[TokenImpl::OpenBrace, TokenImpl::Ident, TokenImpl::IntLit, TokenImpl::Struct, TokenImpl::StrLit])
}

/// An optional `pub`.
pub open spec fn p_visibility(toks: Seq<TokenImpl>, st: PState) -> PState {
    if peek(toks, st.pos) == Some(TokenImpl::Pub) {
        st.push(st.pos, NodeKind::Pub).at(advance(toks, st.pos))
    } else {
        st
    }
}

/// The items of a struct body (or of the whole file).
pub open spec fn p_struct_body(toks: Seq<TokenImpl>, st: PState) -> (PState, Result<(), Error>)
    decreases rem(toks, st.pos), 10nat,
{
    let st1 = p_visibility(toks, st.at(skip_trivia(toks, st.pos)));
    p_items(toks, st1)
}

/// Items, until a token that starts none.
pub open spec fn p_items(toks: Seq<TokenImpl>, st: PState) -> (PState, Result<(), Error>)
    decreases rem(toks, st.pos), 9nat,
{
    let item = if peek(toks, st.pos) == Some(TokenImpl::Fn) {
        Some(p_fn(toks, st))
    } else if peek(toks, st.pos) == Some(TokenImpl::Ident) {
        Some(p_field_decl(toks, st))
    } else if peek(toks, st.pos) == Some(TokenImpl::Const) {
        Some(p_const(toks, st))
    } else {
        None
    };
    match item {
        None => (st, Ok(())),
        Some((s1, Err(e))) => (s1, Err(e)),
        Some((s1, Ok(_))) => if rem(toks, s1.pos) < rem(toks, st.pos) {
            p_items(toks, s1)
        } else {
            stuck(s1)
        },
    }
}

/// `struct { ... }`.
pub open spec fn p_struct(toks: Seq<TokenImpl>, st: PState) -> (PState, Result<(), Error>)
    decreases rem(toks, st.pos), 2nat,
{
    match eat(toks, st.pos, TokenImpl::Struct) {
        Err(e) => (st, Err(e)),
        Ok(p1) => {
            let s1 = st.push(st.pos, NodeKind::Struct).at(p1);
            match eat(toks, p1, TokenImpl::OpenBrace) {
                Err(e) => (s1, Err(e)),
                Ok(p2) => {
                    let (s3, r3) = p_struct_body(toks, s1.push(p1, NodeKind::StructBodyBegin).at(p2));
                    match r3 {
                        Err(e) => (s3, Err(e)),
                        Ok(_) => match eat(toks, s3.pos, TokenImpl::CloseBrace) {
                            Err(e) => (s3, Err(e)),
                            Ok(p4) => (s3.push(s3.pos, NodeKind::StructBodyEnd).at(p4), Ok(())),
                        },
                    }
                },
            }
        },
    }
}

/// `fn name(params) { body }`.
pub open spec fn p_fn(toks: Seq<TokenImpl>, st: PState) -> (PState, Result<(), Error>)
    decreases rem(toks, st.pos), 8nat,
{
    match eat(toks, st.pos, TokenImpl::Fn) {
        Err(e) => (st, Err(e)),
        Ok(p1) => {
            let s1 = st.push(st.pos, NodeKind::Fn).at(p1);
            match eat(toks, p1, TokenImpl::Ident) {
                Err(e) => (s1, Err(e)),
                Ok(p2) => {
                    let (s3, r3) = p_fn_params(toks, s1.push(p1, NodeKind::FnIdent).at(p2));
                    match r3 {
                        Err(e) => (s3, Err(e)),
                        Ok(_) => match eat(toks, s3.pos, TokenImpl::OpenBrace) {
                            Err(e) => (s3, Err(e)),
                            Ok(p4) => {
                                let s4 = s3.push(s3.pos, NodeKind::FnBodyBegin).at(p4);
                                if rem(toks, p4) < rem(toks, st.pos) {
                                    let (s5, r5) = p_block_body(toks, s4);
                                    match r5 {
                                        Err(e) => (s5, Err(e)),
                                        Ok(_) => match eat(toks, s5.pos, TokenImpl::CloseBrace) {
                                            Err(e) => (s5, Err(e)),
                                            Ok(p6) => (
                                                s5.push(s5.pos, NodeKind::FnBodyEnd).at(p6),
                                                Ok(()),
                                            ),
                                        },
                                    }
                                } else {
                                    stuck(s4)
                                }
                            },
                        },
                    }
                },
            }
        },
    }
}

/// `( param, param, ... )`.
pub open spec fn p_fn_params(toks: Seq<TokenImpl>, st: PState) -> (PState, Result<(), Error>)
    decreases rem(toks, st.pos), 1nat,
{
    match eat(toks, st.pos, TokenImpl::OpenParen) {
        Err(e) => (st, Err(e)),
        Ok(p1) => p_params(toks, st.push(st.pos, NodeKind::FnParams).at(p1), false),
    }
}

/// The parameters after `(`, up to and including `)`; a comma is accepted only after a
/// parameter.
pub open spec fn p_params(toks: Seq<TokenImpl>, st: PState, accept_comma: bool) -> (
    PState,
    Result<(), Error>,
)
    decreases rem(toks, st.pos), 2nat,
{
    if peek(toks, st.pos) == Some(TokenImpl::CloseParen) {
        (st.push(st.pos, NodeKind::FnParamsEnd).at(advance(toks, st.pos)), Ok(()))
    } else if peek(toks, st.pos) == Some(TokenImpl::Comma) && accept_comma {
        p_params(toks, st.at(advance(toks, st.pos)), false)
    } else {
        let (s1, r1) = p_fn_param(toks, st);
        match r1 {
            Err(e) => (s1, Err(e)),
            Ok(_) => if rem(toks, s1.pos) < rem(toks, st.pos) {
                p_params(toks, s1, true)
            } else {
                stuck(s1)
            },
        }
    }
}

/// `name: type`.
pub open spec fn p_fn_param(toks: Seq<TokenImpl>, st: PState) -> (PState, Result<(), Error>)
    decreases rem(toks, st.pos), 1nat,
{
    match eat(toks, st.pos, TokenImpl::Ident) {
        Err(e) => (st, Err(e)),
        Ok(p1) => {
            let s1 = st.push(st.pos, NodeKind::FnParamsIdent).at(p1);
            match eat(toks, p1, TokenImpl::Colon) {
                Err(e) => (s1, Err(e)),
                Ok(p2) => p_expr(toks, s1.at(p2)),
            }
        },
    }
}

/// `let`s, then an optional final expression, up to (not including) `}`.
pub open spec fn p_block_body(toks: Seq<TokenImpl>, st: PState) -> (PState, Result<(), Error>)
    decreases rem(toks, st.pos), 7nat,
{
    if peek(toks, st.pos) == Some(TokenImpl::Let) {
        let (s1, r1) = p_let(toks, st);
        match r1 {
            Err(e) => (s1, Err(e)),
            Ok(_) => if rem(toks, s1.pos) < rem(toks, st.pos) {
                p_block_body(toks, s1)
            } else {
                stuck(s1)
            },
        }
    } else if peek(toks, st.pos) == Some(TokenImpl::CloseBrace) {
        (st, Ok(()))
    } else {
        p_expr(toks, st)
    }
}

/// `let name = expr;`, the `let` being at the cursor.
pub open spec fn p_let(toks: Seq<TokenImpl>, st: PState) -> (PState, Result<(), Error>)
    decreases rem(toks, st.pos), 2nat,
{
    if !(0 <= st.pos < toks.len()) {
        stuck(st)
    } else {
        let p1 = advance(toks, st.pos);
        let s1 = st.push(st.pos, NodeKind::Let).at(p1);
        match eat(toks, p1, TokenImpl::Ident) {
            Err(e) => (s1, Err(e)),
            Ok(p2) => {
                let s2 = s1.push(p1, NodeKind::LetIdent).at(p2);
                match eat(toks, p2, TokenImpl::Eq) {
                    Err(e) => (s2, Err(e)),
                    Ok(p3) => {
                        let (s4, r4) = p_expr(toks, s2.push(p2, NodeKind::LetEq).at(p3));
                        match r4 {
                            Err(e) => (s4, Err(e)),
                            Ok(_) => match eat(toks, s4.pos, TokenImpl::Semi) {
                                Err(e) => (s4, Err(e)),
                                Ok(p5) => (s4.push(s4.pos, NodeKind::LetSemi).at(p5), Ok(())),
                            },
                        }
                    },
                }
            },
        }
    }
}

/// `const name = expr;`, the `const` being at the cursor.
pub open spec fn p_const(toks: Seq<TokenImpl>, st: PState) -> (PState, Result<(), Error>)
    decreases rem(toks, st.pos), 2nat,
{
    if !(0 <= st.pos < toks.len()) {
        stuck(st)
    } else {
        let p1 = advance(toks, st.pos);
        let s1 = st.push(st.pos, NodeKind::Const).at(p1);
        match eat(toks, p1, TokenImpl::Ident) {
            Err(e) => (s1, Err(e)),
            Ok(p2) => {
                let s2 = s1.push(p1, NodeKind::ConstIdent).at(p2);
                match eat(toks, p2, TokenImpl::Eq) {
                    Err(e) => (s2, Err(e)),
                    Ok(p3) => {
                        let (s4, r4) = p_expr(toks, s2.push(p2, NodeKind::ConstEq).at(p3));
                        match r4 {
                            Err(e) => (s4, Err(e)),
                            Ok(_) => match eat(toks, s4.pos, TokenImpl::Semi) {
                                Err(e) => (s4, Err(e)),
                                Ok(p5) => (s4.push(s4.pos, NodeKind::ConstSemi).at(p5), Ok(())),
                            },
                        }
                    },
                }
            },
        }
    }
}

/// Terms joined by `+` and `-`, left to right.
pub open spec fn p_expr(toks: Seq<TokenImpl>, st: PState) -> (PState, Result<(), Error>)
    decreases rem(toks, st.pos), 6nat,
{
    let (s1, r1) = p_term(toks, st);
    match r1 {
        Err(e) => (s1, Err(e)),
        Ok(_) => if rem(toks, s1.pos) <= rem(toks, st.pos) {
            p_expr_rest(toks, s1)
        } else {
            stuck(s1)
        },
    }
}

/// The `+ term` and `- term` parts of an expression; each operator node follows its right
/// operand.
pub open spec fn p_expr_rest(toks: Seq<TokenImpl>, st: PState) -> (PState, Result<(), Error>)
    decreases rem(toks, st.pos), 1nat,
{
    let kind = if peek(toks, st.pos) == Some(TokenImpl::Plus) {
        Some(NodeKind::ExprAdd)
    } else if peek(toks, st.pos) == Some(TokenImpl::Dash) {
        Some(NodeKind::ExprSub)
    } else {
        None
    };
    match kind {
        None => (st, Ok(())),
        Some(kind) => {
            let (s2, r2) = p_term(toks, st.at(advance(toks, st.pos)));
            match r2 {
                Err(e) => (s2, Err(e)),
                Ok(_) => {
                    let s3 = s2.push(st.pos, kind);
                    if rem(toks, s3.pos) < rem(toks, st.pos) {
                        p_expr_rest(toks, s3)
                    } else {
                        stuck(s3)
                    }
                },
            }
        },
    }
}

/// Factors joined by `*` and `/`, left to right.
pub open spec fn p_term(toks: Seq<TokenImpl>, st: PState) -> (PState, Result<(), Error>)
    decreases rem(toks, st.pos), 5nat,
{
    let (s1, r1) = p_factor(toks, st);
    match r1 {
        Err(e) => (s1, Err(e)),
        Ok(_) => if rem(toks, s1.pos) <= rem(toks, st.pos) {
            p_term_rest(toks, s1)
        } else {
            stuck(s1)
        },
    }
}

/// The `* factor` and `/ factor` parts of a term.
pub open spec fn p_term_rest(toks: Seq<TokenImpl>, st: PState) -> (PState, Result<(), Error>)
    decreases rem(toks, st.pos), 1nat,
{
    let kind = if peek(toks, st.pos) == Some(TokenImpl::Star) {
        Some(NodeKind::ExprMul)
    } else if peek(toks, st.pos) == Some(TokenImpl::Slash) {
        Some(NodeKind::ExprDiv)
    } else {
        None
    };
    match kind {
        None => (st, Ok(())),
        Some(kind) => {
            let (s2, r2) = p_factor(toks, st.at(advance(toks, st.pos)));
            match r2 {
                Err(e) => (s2, Err(e)),
                Ok(_) => {
                    let s3 = s2.push(st.pos, kind);
                    if rem(toks, s3.pos) < rem(toks, st.pos) {
                        p_term_rest(toks, s3)
                    } else {
                        stuck(s3)
                    }
                },
            }
        },
    }
}

/// A prefix `!` or `-` applied to a factor, or an atom. After a prefixed factor another atom
/// is parsed.
pub open spec fn p_factor(toks: Seq<TokenImpl>, st: PState) -> (PState, Result<(), Error>)
    decreases rem(toks, st.pos), 4nat,
{
    let kind = if peek(toks, st.pos) == Some(TokenImpl::Bang) {
        Some(NodeKind::ExprNot)
    } else if peek(toks, st.pos) == Some(TokenImpl::Dash) {
        Some(NodeKind::ExprNeg)
    } else {
        None
    };
    match kind {
        None => p_atom(toks, st),
        Some(kind) => {
            let (s2, r2) = p_factor(toks, st.at(advance(toks, st.pos)));
            match r2 {
                Err(e) => (s2, Err(e)),
                Ok(_) => {
                    let s3 = s2.push(st.pos, kind);
                    if rem(toks, s3.pos) < rem(toks, st.pos) {
                        p_atom(toks, s3)
                    } else {
                        stuck(s3)
                    }
                },
            }
        },
    }
}

/// A block, name, integer, struct, string, `i32` or `type` keyword, or builtin `@name`, then its
/// field accesses and calls.
pub open spec fn p_atom(toks: Seq<TokenImpl>, st: PState) -> (PState, Result<(), Error>)
    decreases rem(toks, st.pos), 3nat,
{
    let head: (PState, Result<(), Error>) = if peek(toks, st.pos) == Some(TokenImpl::OpenBrace) {
        let (s2, r2) = p_block_body(
            toks,
            st.push(st.pos, NodeKind::ExprBlock).at(advance(toks, st.pos)),
        );
        match r2 {
            Err(e) => (s2, Err(e)),
            Ok(_) => match eat(toks, s2.pos, TokenImpl::CloseBrace) {
                Err(e) => (s2, Err(e)),
                Ok(p3) => (s2.push(s2.pos, NodeKind::ExprBlockEnd).at(p3), Ok(())),
            },
        }
    } else if peek(toks, st.pos) == Some(TokenImpl::Ident) {
        let s1 = st.push(st.pos, NodeKind::ExprIdent(SynRef(st.syn as u32))).at(
            advance(toks, st.pos),
        );
        (PState { pos: s1.pos, nodes: s1.nodes, syn: st.syn + 1 }, Ok(()))
    } else if peek(toks, st.pos) == Some(TokenImpl::IntLit) {
        (st.push(st.pos, NodeKind::ExprInt).at(advance(toks, st.pos)), Ok(()))
    } else if peek(toks, st.pos) == Some(TokenImpl::Struct) {
        p_struct(toks, st)
    } else if peek(toks, st.pos) == Some(TokenImpl::StrLit) {
        (st.push(st.pos, NodeKind::ExprStr).at(advance(toks, st.pos)), Ok(()))
    } else if peek(toks, st.pos) == Some(TokenImpl::I32Keyword) {
        (st.push(st.pos, NodeKind::ExprI32Keyword).at(advance(toks, st.pos)), Ok(()))
    } else if peek(toks, st.pos) == Some(TokenImpl::TypeKeyword) {
        (st.push(st.pos, NodeKind::ExprTypeKeyword).at(advance(toks, st.pos)), Ok(()))
    } else if peek(toks, st.pos) == Some(TokenImpl::Ampersand) {
        let p1 = advance(toks, st.pos);
        let s1 = st.push(st.pos, NodeKind::BuiltinAmpersand).at(p1);
        match eat(toks, p1, TokenImpl::Ident) {
            Err(e) => (s1, Err(e)),
            Ok(p2) => (s1.push(p1, NodeKind::BuiltinIdent).at(p2), Ok(())),
        }
    } else {
        (st, Err(Error { expected: atom_expected(), actual: peek(toks, st.pos) }))
    };
    match head {
        (s1, Err(e)) => (s1, Err(e)),
        (s1, Ok(_)) => if rem(toks, s1.pos) < rem(toks, st.pos) {
            p_postfix(toks, s1)
        } else {
            stuck(s1)
        },
    }
}

/// Field accesses `.name` and calls `(args)` after an atom.
pub open spec fn p_postfix(toks: Seq<TokenImpl>, st: PState) -> (PState, Result<(), Error>)
    decreases rem(toks, st.pos), 1nat,
{
    if peek(toks, st.pos) == Some(TokenImpl::Dot) {
        let p1 = advance(toks, st.pos);
        let s1 = st.push(st.pos, NodeKind::ExprDot).at(p1);
        match eat(toks, p1, TokenImpl::Ident) {
            Err(e) => (s1, Err(e)),
            Ok(p2) => p_postfix(toks, s1.push(p1, NodeKind::ExprField).at(p2)),
        }
    } else if peek(toks, st.pos) == Some(TokenImpl::OpenParen) {
        let (s2, r2) = p_args(
            toks,
            st.push(st.pos, NodeKind::ExprCall).at(advance(toks, st.pos)),
            false,
        );
        match r2 {
            Err(e) => (s2, Err(e)),
            Ok(_) => if rem(toks, s2.pos) < rem(toks, st.pos) {
                p_postfix(toks, s2)
            } else {
                stuck(s2)
            },
        }
    } else {
        (st, Ok(()))
    }
}

/// The arguments after `(`, up to and including `)`; a comma is accepted only after an
/// argument.
pub open spec fn p_args(toks: Seq<TokenImpl>, st: PState, accept_comma: bool) -> (
    PState,
    Result<(), Error>,
)
    decreases rem(toks, st.pos), 7nat,
{
    if peek(toks, st.pos) == Some(TokenImpl::CloseParen) {
        (st.push(st.pos, NodeKind::ExprCallEnd).at(advance(toks, st.pos)), Ok(()))
    } else if peek(toks, st.pos) == Some(TokenImpl::Comma) && accept_comma {
        p_args(toks, st.push(st.pos, NodeKind::ExprCallComma).at(advance(toks, st.pos)), false)
    } else {
        let (s1, r1) = p_expr(toks, st);
        match r1 {
            Err(e) => (s1, Err(e)),
            Ok(_) => if rem(toks, s1.pos) < rem(toks, st.pos) {
                p_args(toks, s1, true)
            } else {
                stuck(s1)
            },
        }
    }
}

/// `name: type,` in a struct body.
pub open spec fn p_field_decl(toks: Seq<TokenImpl>, st: PState) -> (PState, Result<(), Error>)
    decreases rem(toks, st.pos), 8nat,
{
    match eat(toks, st.pos, TokenImpl::Ident) {
        Err(e) => (st, Err(e)),
        Ok(p1) => {
            let s1 = st.push(st.pos, NodeKind::StructFieldIdent).at(p1);
            match eat(toks, p1, TokenImpl::Colon) {
                Err(e) => (s1, Err(e)),
                Ok(p2) => {
                    let (s3, r3) = p_expr(toks, s1.at(p2));
                    match r3 {
                        Err(e) => (s3, Err(e)),
                        Ok(_) => match eat(toks, s3.pos, TokenImpl::Comma) {
                            Err(e) => (s3, Err(e)),
                            Ok(p4) => (s3.push(s3.pos, NodeKind::StructFieldComma).at(p4), Ok(())),
                        },
                    }
                },
            }
        },
    }
}

/// The parse of a whole token sequence: the items of a struct body, from the first token.
pub open spec fn spec_parse(toks: Seq<TokenImpl>) -> (PState, Result<(), Error>) {
    p_struct_body(toks, PState { pos: 0, nodes: Seq::empty(), syn: 0 })
}

} // verus!

verus! {

/// A position in a token sequence that skips trivia.
pub(crate) struct Cursor<'a> {
    pub(crate) tokens: &'a [TokenImpl],
    pub(crate) index: Token,
}

impl<'a> Cursor<'a> {
    pub(crate) open spec fn pos(&self) -> int {
        self.index.0 as int
    }

    pub(crate) open spec fn wf(&self) -> bool {
        &&& self.index.0 <= self.tokens@.len()
        &&& self.tokens@.len() < MAX_INDEX
    }

    pub(crate) fn new(tokens: &'a [TokenImpl]) -> (r: Self)
        requires
            tokens@.len() < MAX_INDEX,
        ensures
            r.wf(),
            r.tokens == tokens,
            r.pos() == 0,
    {
        Cursor { tokens, index: Token::new(0) }
    }

    fn eat(&mut self, token: TokenImpl) -> (r: Result<Token, Error>)
        requires
            old(self).wf(),
        ensures
            final(self).wf(),
            final(self).tokens == old(self).tokens,
            match eat(old(self).tokens@, old(self).pos(), token) {
                Ok(p) => r == Ok::<Token, Error>(old(self).index) && final(self).pos() == p,
                Err(e) => r == Err::<Token, Error>(e) && final(self).pos() == old(self).pos(),
            },
            r is Ok ==> r.unwrap().0 < old(self).tokens@.len() && old(self).tokens@[r.unwrap().0 as int] == token,
    {
        if self.peek() == Some(token) {
            Ok(self.advance_1())
        } else {
            Err(Error { expected: Expected::Just(token), actual: self.peek() })
        }
    }

    pub(crate) fn peek(&self) -> (r: Option<TokenImpl>)
        requires
            self.wf(),
        ensures
            r == peek(self.tokens@, self.pos()),
    {
        let i = self.index.0 as usize;
        if i < self.tokens.len() {
            Some(self.tokens[i])
        } else {
            None
        }
    }

    pub(crate) fn advance_1(&mut self) -> (r: Token)
        requires
            old(self).wf(),
            old(self).pos() < old(self).tokens@.len(),
        ensures
            final(self).wf(),
            final(self).tokens == old(self).tokens,
            r == old(self).index,
            r.0 < old(self).tokens@.len(),
            final(self).pos() == advance(old(self).tokens@, old(self).pos()),
    {
        let index = self.index;
        self.index = Token(self.index.0 + 1);
        self.skip_whitespace();
        index
    }

    pub(crate) fn skip_whitespace(&mut self)
        requires
            old(self).wf(),
        ensures
            final(self).wf(),
            final(self).tokens == old(self).tokens,
            final(self).pos() == skip_trivia(old(self).tokens@, old(self).pos()),
    {
        let ghost target = skip_trivia(self.tokens@, self.pos());
        loop
            invariant
                self.wf(),
                self.tokens == old(self).tokens,
                skip_trivia(self.tokens@, self.pos()) == target,
                target == skip_trivia(old(self).tokens@, old(self).pos()),
            decreases self.tokens@.len() - self.pos(),
        {
            match self.peek() {
                Some(TokenImpl::Comment) | Some(TokenImpl::Whitespace) | Some(
                    TokenImpl::Newline,
                ) => {
                    self.index = Token(self.index.0 + 1);
                },
                _ => {
                    assert(trivia_run(self.tokens@, self.pos()) == 0);
                    return ;
                },
            }
        }
    }
}

} // verus!

verus! {

/// The token each node kind is made from: a node stands for one token of that kind.
#[verifier::opaque]
pub open spec fn kind_token(kind: NodeKind) -> TokenImpl {
    match kind {
        NodeKind::Pub => TokenImpl::Pub,
        NodeKind::Struct => TokenImpl::Struct,
        NodeKind::StructBodyBegin => TokenImpl::OpenBrace,
        NodeKind::StructFieldIdent => TokenImpl::Ident,
        NodeKind::StructFieldComma => TokenImpl::Comma,
        NodeKind::StructBodyEnd => TokenImpl::CloseBrace,
        NodeKind::Fn => TokenImpl::Fn,
        NodeKind::FnIdent => TokenImpl::Ident,
        NodeKind::FnParams => TokenImpl::OpenParen,
        NodeKind::FnParamsIdent => TokenImpl::Ident,
        NodeKind::FnParamsEnd => TokenImpl::CloseParen,
        NodeKind::FnBodyBegin => TokenImpl::OpenBrace,
        NodeKind::FnBodyEnd => TokenImpl::CloseBrace,
        NodeKind::Let => TokenImpl::Let,
        NodeKind::LetIdent => TokenImpl::Ident,
        NodeKind::LetEq => TokenImpl::Eq,
        NodeKind::LetSemi => TokenImpl::Semi,
        NodeKind::Const => TokenImpl::Const,
        NodeKind::ConstIdent => TokenImpl::Ident,
        NodeKind::ConstEq => TokenImpl::Eq,
        NodeKind::ConstSemi => TokenImpl::Semi,
        NodeKind::ExprAdd => TokenImpl::Plus,
        NodeKind::ExprSub => TokenImpl::Dash,
        NodeKind::ExprMul => TokenImpl::Star,
        NodeKind::ExprDiv => TokenImpl::Slash,
        NodeKind::ExprNot => TokenImpl::Bang,
        NodeKind::ExprNeg => TokenImpl::Dash,
        NodeKind::ExprBlock => TokenImpl::OpenBrace,
        NodeKind::ExprBlockEnd => TokenImpl::CloseBrace,
        NodeKind::ExprIdent(_) => TokenImpl::Ident,
        NodeKind::ExprInt => TokenImpl::IntLit,
        NodeKind::ExprDot => TokenImpl::Dot,
        NodeKind::ExprField => TokenImpl::Ident,
        NodeKind::ExprCall => TokenImpl::OpenParen,
        NodeKind::ExprCallComma => TokenImpl::Comma,
        NodeKind::ExprCallEnd => TokenImpl::CloseParen,
        NodeKind::ExprStr => TokenImpl::StrLit,
        NodeKind::ExprI32Keyword => TokenImpl::I32Keyword,
        NodeKind::ExprTypeKeyword => TokenImpl::TypeKeyword,
        NodeKind::BuiltinAmpersand => TokenImpl::Ampersand,
        NodeKind::BuiltinIdent => TokenImpl::Ident,
    }
}

/// The tables of `kind_token`, `depth_change` and `scope_change`, one kind at a time.
proof fn lemma_kind_tables()
    ensures
        kind_token(NodeKind::Pub) == TokenImpl::Pub,
        kind_token(NodeKind::Struct) == TokenImpl::Struct,
        kind_token(NodeKind::StructBodyBegin) == TokenImpl::OpenBrace,
        kind_token(NodeKind::StructFieldIdent) == TokenImpl::Ident,
        kind_token(NodeKind::StructFieldComma) == TokenImpl::Comma,
        kind_token(NodeKind::StructBodyEnd) == TokenImpl::CloseBrace,
        kind_token(NodeKind::Fn) == TokenImpl::Fn,
        kind_token(NodeKind::FnIdent) == TokenImpl::Ident,
        kind_token(NodeKind::FnParams) == TokenImpl::OpenParen,
        kind_token(NodeKind::FnParamsIdent) == TokenImpl::Ident,
        kind_token(NodeKind::FnParamsEnd) == TokenImpl::CloseParen,
        kind_token(NodeKind::FnBodyBegin) == TokenImpl::OpenBrace,
        kind_token(NodeKind::FnBodyEnd) == TokenImpl::CloseBrace,
        kind_token(NodeKind::Let) == TokenImpl::Let,
        kind_token(NodeKind::LetIdent) == TokenImpl::Ident,
        kind_token(NodeKind::LetEq) == TokenImpl::Eq,
        kind_token(NodeKind::LetSemi) == TokenImpl::Semi,
        kind_token(NodeKind::Const) == TokenImpl::Const,
        kind_token(NodeKind::ConstIdent) == TokenImpl::Ident,
        kind_token(NodeKind::ConstEq) == TokenImpl::Eq,
        kind_token(NodeKind::ConstSemi) == TokenImpl::Semi,
        kind_token(NodeKind::ExprAdd) == TokenImpl::Plus,
        kind_token(NodeKind::ExprSub) == TokenImpl::Dash,
        kind_token(NodeKind::ExprMul) == TokenImpl::Star,
        kind_token(NodeKind::ExprDiv) == TokenImpl::Slash,
        kind_token(NodeKind::ExprNot) == TokenImpl::Bang,
        kind_token(NodeKind::ExprNeg) == TokenImpl::Dash,
        kind_token(NodeKind::ExprBlock) == TokenImpl::OpenBrace,
        kind_token(NodeKind::ExprBlockEnd) == TokenImpl::CloseBrace,
        forall|s: SynRef| #[trigger] kind_token(NodeKind::ExprIdent(s)) == TokenImpl::Ident,
        kind_token(NodeKind::ExprInt) == TokenImpl::IntLit,
        kind_token(NodeKind::ExprDot) == TokenImpl::Dot,
        kind_token(NodeKind::ExprField) == TokenImpl::Ident,
        kind_token(NodeKind::ExprCall) == TokenImpl::OpenParen,
        kind_token(NodeKind::ExprCallComma) == TokenImpl::Comma,
        kind_token(NodeKind::ExprCallEnd) == TokenImpl::CloseParen,
        kind_token(NodeKind::ExprStr) == TokenImpl::StrLit,
        kind_token(NodeKind::ExprI32Keyword) == TokenImpl::I32Keyword,
        kind_token(NodeKind::ExprTypeKeyword) == TokenImpl::TypeKeyword,
        kind_token(NodeKind::BuiltinAmpersand) == TokenImpl::Ampersand,
        kind_token(NodeKind::BuiltinIdent) == TokenImpl::Ident,
        depth_change(NodeKind::Pub) == 0,
        scope_change(NodeKind::Pub) == 0,
        depth_change(NodeKind::Struct) == 1,
        scope_change(NodeKind::Struct) == 0,
        depth_change(NodeKind::StructBodyBegin) == 0,
        scope_change(NodeKind::StructBodyBegin) == 1,
        depth_change(NodeKind::StructFieldIdent) == 1,
        scope_change(NodeKind::StructFieldIdent) == 0,
        depth_change(NodeKind::StructFieldComma) == -1,
        scope_change(NodeKind::StructFieldComma) == 0,
        depth_change(NodeKind::StructBodyEnd) == -1,
        scope_change(NodeKind::StructBodyEnd) == -1,
        depth_change(NodeKind::Fn) == 1,
        scope_change(NodeKind::Fn) == 0,
        depth_change(NodeKind::FnIdent) == 0,
        scope_change(NodeKind::FnIdent) == 0,
        depth_change(NodeKind::FnParams) == 1,
        scope_change(NodeKind::FnParams) == 1,
        depth_change(NodeKind::FnParamsIdent) == 0,
        scope_change(NodeKind::FnParamsIdent) == 0,
        depth_change(NodeKind::FnParamsEnd) == -1,
        scope_change(NodeKind::FnParamsEnd) == 0,
        depth_change(NodeKind::FnBodyBegin) == 0,
        scope_change(NodeKind::FnBodyBegin) == 0,
        depth_change(NodeKind::FnBodyEnd) == -1,
        scope_change(NodeKind::FnBodyEnd) == -1,
        depth_change(NodeKind::Let) == 0,
        scope_change(NodeKind::Let) == 0,
        depth_change(NodeKind::LetIdent) == 0,
        scope_change(NodeKind::LetIdent) == 0,
        depth_change(NodeKind::LetEq) == 0,
        scope_change(NodeKind::LetEq) == 0,
        depth_change(NodeKind::LetSemi) == 0,
        scope_change(NodeKind::LetSemi) == 0,
        depth_change(NodeKind::Const) == 0,
        scope_change(NodeKind::Const) == 0,
        depth_change(NodeKind::ConstIdent) == 0,
        scope_change(NodeKind::ConstIdent) == 0,
        depth_change(NodeKind::ConstEq) == 0,
        scope_change(NodeKind::ConstEq) == 0,
        depth_change(NodeKind::ConstSemi) == 0,
        scope_change(NodeKind::ConstSemi) == 0,
        depth_change(NodeKind::ExprAdd) == 0,
        scope_change(NodeKind::ExprAdd) == 0,
        depth_change(NodeKind::ExprSub) == 0,
        scope_change(NodeKind::ExprSub) == 0,
        depth_change(NodeKind::ExprMul) == 0,
        scope_change(NodeKind::ExprMul) == 0,
        depth_change(NodeKind::ExprDiv) == 0,
        scope_change(NodeKind::ExprDiv) == 0,
        depth_change(NodeKind::ExprNot) == 0,
        scope_change(NodeKind::ExprNot) == 0,
        depth_change(NodeKind::ExprNeg) == 0,
        scope_change(NodeKind::ExprNeg) == 0,
        depth_change(NodeKind::ExprBlock) == 1,
        scope_change(NodeKind::ExprBlock) == 1,
        depth_change(NodeKind::ExprBlockEnd) == -1,
        scope_change(NodeKind::ExprBlockEnd) == -1,
        depth_change(NodeKind::ExprInt) == 0,
        scope_change(NodeKind::ExprInt) == 0,
        depth_change(NodeKind::ExprDot) == 0,
        scope_change(NodeKind::ExprDot) == 0,
        depth_change(NodeKind::ExprField) == 0,
        scope_change(NodeKind::ExprField) == 0,
        depth_change(NodeKind::ExprCall) == 1,
        scope_change(NodeKind::ExprCall) == 0,
        depth_change(NodeKind::ExprCallComma) == 0,
        scope_change(NodeKind::ExprCallComma) == 0,
        depth_change(NodeKind::ExprCallEnd) == -1,
        scope_change(NodeKind::ExprCallEnd) == 0,
        depth_change(NodeKind::ExprStr) == 0,
        scope_change(NodeKind::ExprStr) == 0,
        depth_change(NodeKind::ExprI32Keyword) == 0,
        scope_change(NodeKind::ExprI32Keyword) == 0,
        depth_change(NodeKind::ExprTypeKeyword) == 0,
        scope_change(NodeKind::ExprTypeKeyword) == 0,
        depth_change(NodeKind::BuiltinAmpersand) == 0,
        scope_change(NodeKind::BuiltinAmpersand) == 0,
        depth_change(NodeKind::BuiltinIdent) == 0,
        scope_change(NodeKind::BuiltinIdent) == 0,
        forall|x: SynRef| #[trigger] depth_change(NodeKind::ExprIdent(x)) == 0,
        forall|x: SynRef| #[trigger] scope_change(NodeKind::ExprIdent(x)) == 0,
{
    reveal(kind_token);
    reveal(depth_change);
    reveal(scope_change);
}

/// Each of `nodes` stands for a token of `toks` of the kind it is made from.
#[verifier::opaque]
pub open spec fn made_from(toks: Seq<TokenImpl>, nodes: Seq<NodeImpl>) -> bool {
    forall|i: int|
        0 <= i < nodes.len() ==> 0 <= #[trigger] nodes[i].token.0 < toks.len() && toks[nodes[i].token.0 as int]
            == kind_token(nodes[i].kind)
}

/// How a node changes the nesting of the scopes that name resolution sees: a node that opens
/// a scope there adds one, one that closes a scope takes one away.
#[verifier::opaque]
pub open spec fn scope_change(kind: NodeKind) -> int {
    match spec_classify(file_kind(kind)) {
        Some(Inst::Open) => 1,
        Some(Inst::Close) => -1,
        _ => 0,
    }
}

/// How many scopes of names are open after the first `n` nodes.
pub open spec fn scope_depth(nodes: Seq<NodeImpl>, n: int) -> int
    decreases n,
{
    if n <= 0 {
        0
    } else {
        scope_depth(nodes, n - 1) + scope_change(nodes[n - 1].kind)
    }
}

/// No prefix of `nodes` closes more than it opened: neither the nesting of the tree (as it is
/// indented) nor that of the scopes of names ever drops below zero.
#[verifier::opaque]
pub open spec fn never_below_zero(nodes: Seq<NodeImpl>) -> bool {
    &&& forall|j: int| 0 <= j <= nodes.len() ==> #[trigger] depth_after(nodes, j) >= 0
    &&& forall|j: int| 0 <= j <= nodes.len() ==> #[trigger] scope_depth(nodes, j) >= 0
}

/// Appending a node leaves the depths of the earlier prefixes as they were.
proof fn lemma_depths_push(nodes: Seq<NodeImpl>, x: NodeImpl, j: int)
    requires
        0 <= j <= nodes.len(),
    ensures
        depth_after(nodes.push(x), j) == depth_after(nodes, j),
        scope_depth(nodes.push(x), j) == scope_depth(nodes, j),
    decreases j,
{
    if j > 0 {
        lemma_depths_push(nodes, x, j - 1);
        assert(nodes.push(x)[j - 1] == nodes[j - 1]);
    }
}

/// How many of `nodes` are uses of a name.
pub open spec fn count_uses(nodes: Seq<NodeImpl>) -> nat
    decreases nodes.len(),
{
    if nodes.len() == 0 {
        0
    } else {
        count_uses(nodes.drop_last()) + if nodes.last().kind is ExprIdent {
            1nat
        } else {
            0nat
        }
    }
}

/// The uses of names among `nodes` carry the syntactic references 0, 1, 2, ... in order.
pub open spec fn uses_numbered(nodes: Seq<NodeImpl>) -> bool {
    forall|i: int|
        0 <= i < nodes.len() && (#[trigger] nodes[i]).kind is ExprIdent ==> nodes[i].kind->ExprIdent_0.0
            == count_uses(nodes.take(i))
}

struct Parser<'a> {
    cursor: Cursor<'a>,
    nodes: Vec<NodeImpl>,
    syn_refs: Counter<SynRef>,
}

impl<'a> Parser<'a> {
    spec fn toks(self) -> Seq<TokenImpl> {
        self.cursor.tokens@
    }

    spec fn st(self) -> PState {
        PState { pos: self.cursor.pos(), nodes: self.nodes@, syn: self.syn_refs.next.0 as int }
    }

    spec fn wf(self) -> bool {
        &&& self.cursor.wf()
        &&& self.syn_refs.next.0 <= self.cursor.index.0
        &&& self.syn_refs.next.0 == count_uses(self.nodes@)
        &&& uses_numbered(self.nodes@)
        &&& made_from(self.cursor.tokens@, self.nodes@)
        &&& forall|i: int|
            0 <= i < self.nodes@.len() ==> #[trigger] self.nodes@[i].token.0 < self.cursor.index.0
        &&& self.nesting() >= 0
        &&& self.scopes() >= 0
        &&& never_below_zero(self.nodes@)
    }

    /// How deep the tree is nested after the nodes so far.
    spec fn nesting(self) -> int {
        depth_after(self.nodes@, self.nodes@.len() as int)
    }

    /// How many scopes of names are open after the nodes so far.
    spec fn scopes(self) -> int {
        scope_depth(self.nodes@, self.nodes@.len() as int)
    }

    /// Since `before`, the nesting changed by `dn` and the open scopes by `ds`.
    spec fn shifted(self, before: Self, dn: int, ds: int) -> bool {
        &&& self.nesting() == before.nesting() + dn
        &&& self.scopes() == before.scopes() + ds
    }

    /// `self` is `before` after a parse step whose outcome in the model is `out`, returning `r`.
    spec fn lands(self, before: Self, out: (PState, Result<(), Error>), r: Result<(), Error>) -> bool {
        &&& self.wf()
        &&& self.cursor.tokens == before.cursor.tokens
        &&& self.st() == out.0
        &&& r == out.1
        &&& self.cursor.pos() >= before.cursor.pos()
    }

    fn new(tokens: &'a [TokenImpl]) -> (r: Self)
        requires
            tokens@.len() < MAX_INDEX,
        ensures
            r.wf(),
            r.cursor.tokens == tokens,
            r.st() == (PState { pos: 0, nodes: Seq::empty(), syn: 0 }),
    {
        proof {
            reveal(made_from);
            reveal(never_below_zero);
        }
        Parser {
            cursor: Cursor::new(tokens),
            nodes: Vec::with_capacity(tokens.len()),
            syn_refs: Counter::new(),
        }
    }

    fn push(&mut self, token: Token, kind: NodeKind)
        requires
            0 <= token.0 < old(self).cursor.tokens@.len(),
            old(self).cursor.tokens@[token.0 as int] == kind_token(kind),
            old(self).nesting() + depth_change(kind) >= 0,
            old(self).scopes() + scope_change(kind) >= 0,
        ensures
            final(self).shifted(*old(self), depth_change(kind), scope_change(kind)),
            never_below_zero(old(self).nodes@) ==> never_below_zero(final(self).nodes@),
            made_from(old(self).cursor.tokens@, old(self).nodes@) ==> made_from(
                final(self).cursor.tokens@,
                final(self).nodes@,
            ),
            final(self).cursor == old(self).cursor,
            final(self).syn_refs == old(self).syn_refs,
            final(self).nodes@ == old(self).nodes@.push(NodeImpl { token, kind }),
            count_uses(final(self).nodes@) == count_uses(old(self).nodes@) + if kind is ExprIdent {
                1nat
            } else {
                0nat
            },
            uses_numbered(old(self).nodes@) && (kind is ExprIdent ==> kind->ExprIdent_0.0
                == count_uses(old(self).nodes@)) ==> uses_numbered(final(self).nodes@),
    {
        let ghost before = self.nodes@;
        self.nodes.push(NodeImpl { token, kind });
        proof {
            let after = self.nodes@;
            let n = before.len() as int;
            lemma_depths_push(before, NodeImpl { token, kind }, n);
            assert(after[n] == NodeImpl { token, kind });
            reveal(never_below_zero);
            if never_below_zero(before) {
                assert forall|j: int| 0 <= j <= after.len() implies #[trigger] depth_after(after, j) >= 0 by {
                    if j <= n {
                        lemma_depths_push(before, NodeImpl { token, kind }, j);
                    }
                }
                assert forall|j: int| 0 <= j <= after.len() implies #[trigger] scope_depth(after, j) >= 0 by {
                    if j <= n {
                        lemma_depths_push(before, NodeImpl { token, kind }, j);
                    }
                }
            }
            reveal(made_from);
            if made_from(self.cursor.tokens@, before) {
                assert forall|i: int| 0 <= i < after.len() implies 0 <= #[trigger] after[i].token.0
                    < self.cursor.tokens@.len() && self.cursor.tokens@[after[i].token.0 as int]
                    == kind_token(after[i].kind) by {
                    if i < before.len() {
                        assert(after[i] == before[i]);
                    }
                }
            }
            assert(after.drop_last() =~= before);
            assert forall|i: int|
                0 <= i < after.len() && (#[trigger] after[i]).kind is ExprIdent
                    && uses_numbered(before) && (kind is ExprIdent ==> kind->ExprIdent_0.0
                    == count_uses(before)) implies after[i].kind->ExprIdent_0.0 == count_uses(
                after.take(i),
            ) by {
                if i < before.len() {
                    assert(after.take(i) =~= before.take(i));
                    assert(after[i] == before[i]);
                } else {
                    assert(after.take(i) =~= before);
                }
            }
        }
    }

    fn parse_struct_body(&mut self) -> (r: Result<(), Error>)
        requires
            old(self).wf(),
        ensures
            r is Ok ==> final(self).shifted(*old(self), 0, 0),
            final(self).lands(*old(self), p_struct_body(old(self).toks(), old(self).st()), r),
        decreases rem(old(self).toks(), old(self).cursor.pos()), 10nat,
    {
        proof {
            lemma_kind_tables();
        }
        self.cursor.skip_whitespace();
        self.parse_visibility()?;
        let ghost start = self.st();
        loop
            invariant
                self.shifted(*old(self), 0, 0),
                self.wf(),
                self.cursor.tokens == old(self).cursor.tokens,
                self.cursor.pos() >= old(self).cursor.pos(),
                p_items(self.toks(), self.st()) == p_items(self.toks(), start),
                p_struct_body(old(self).toks(), old(self).st()) == p_items(self.toks(), start),
            decreases rem(self.toks(), self.cursor.pos()),
        {
            proof {
                lemma_kind_tables();
            }
            let next = self.cursor.peek();
            if next == Some(TokenImpl::Fn) {
                self.parse_fn()?;
            } else if next == Some(TokenImpl::Ident) {
                self.parse_field_decl()?;
            } else if next == Some(TokenImpl::Const) {
                self.parse_const()?;
            } else {
                return Ok(());
            }
        }
    }

    fn parse_visibility(&mut self) -> (r: Result<(), Error>)
        requires
            old(self).wf(),
        ensures
            final(self).shifted(*old(self), 0, 0),
            final(self).lands(*old(self), (p_visibility(old(self).toks(), old(self).st()), Ok(())), r),
    {
        proof {
            lemma_kind_tables();
        }
        if let Some(TokenImpl::Pub) = self.cursor.peek() {
            let token = self.cursor.advance_1();
            self.push(token, NodeKind::Pub);
        }
        Ok(())
    }

    fn parse_struct(&mut self) -> (r: Result<(), Error>)
        requires
            old(self).wf(),
        ensures
            r is Ok ==> final(self).shifted(*old(self), 0, 0),
            final(self).lands(*old(self), p_struct(old(self).toks(), old(self).st()), r),
            r is Ok ==> final(self).cursor.pos() > old(self).cursor.pos(),
        decreases rem(old(self).toks(), old(self).cursor.pos()), 2nat,
    {
        proof {
            lemma_kind_tables();
        }
        let token = self.cursor.eat(TokenImpl::Struct)?;
        self.push(token, NodeKind::Struct);
        let token = self.cursor.eat(TokenImpl::OpenBrace)?;
        self.push(token, NodeKind::StructBodyBegin);
        self.parse_struct_body()?;
        let token = self.cursor.eat(TokenImpl::CloseBrace)?;
        self.push(token, NodeKind::StructBodyEnd);
        Ok(())
    }

    fn parse_fn(&mut self) -> (r: Result<(), Error>)
        requires
            old(self).wf(),
        ensures
            r is Ok ==> final(self).shifted(*old(self), 0, 0),
            final(self).lands(*old(self), p_fn(old(self).toks(), old(self).st()), r),
            r is Ok ==> final(self).cursor.pos() > old(self).cursor.pos(),
        decreases rem(old(self).toks(), old(self).cursor.pos()), 8nat,
    {
        proof {
            lemma_kind_tables();
        }
        let token = self.cursor.eat(TokenImpl::Fn)?;
        self.push(token, NodeKind::Fn);
        let token = self.cursor.eat(TokenImpl::Ident)?;
        self.push(token, NodeKind::FnIdent);
        self.parse_fn_params()?;
        let token = self.cursor.eat(TokenImpl::OpenBrace)?;
        self.push(token, NodeKind::FnBodyBegin);
        self.parse_block_body()?;
        let token = self.cursor.eat(TokenImpl::CloseBrace)?;
        self.push(token, NodeKind::FnBodyEnd);
        Ok(())
    }

    #[verifier::rlimit(40)]
    fn parse_fn_params(&mut self) -> (r: Result<(), Error>)
        requires
            old(self).wf(),
        ensures
            r is Ok ==> final(self).shifted(*old(self), 0, 1),
            final(self).lands(*old(self), p_fn_params(old(self).toks(), old(self).st()), r),
        decreases rem(old(self).toks(), old(self).cursor.pos()), 3nat,
    {
        proof {
            lemma_kind_tables();
        }
        let token = self.cursor.eat(TokenImpl::OpenParen)?;
        self.push(token, NodeKind::FnParams);
        let mut accept_comma = false;
        let ghost start = self.st();
        loop
            invariant
                self.shifted(*old(self), 1, 1),
                old(self).nesting() >= 0,
                self.wf(),
                self.cursor.tokens == old(self).cursor.tokens,
                self.cursor.pos() > old(self).cursor.pos(),
                p_params(self.toks(), self.st(), accept_comma) == p_params(self.toks(), start, false),
                p_fn_params(old(self).toks(), old(self).st()) == p_params(self.toks(), start, false),
            decreases rem(self.toks(), self.cursor.pos()),
        {
            proof {
                lemma_kind_tables();
            }
            let next = self.cursor.peek();
            if next == Some(TokenImpl::CloseParen) {
                let token = self.cursor.advance_1();
                self.push(token, NodeKind::FnParamsEnd);
                return Ok(());
            } else if next == Some(TokenImpl::Comma) && accept_comma {
                self.cursor.advance_1();
                accept_comma = false;
            } else {
                self.parse_fn_param()?;
                accept_comma = true;
            }
        }
    }

    fn parse_fn_param(&mut self) -> (r: Result<(), Error>)
        requires
            old(self).wf(),
        ensures
            r is Ok ==> final(self).shifted(*old(self), 0, 0),
            final(self).lands(*old(self), p_fn_param(old(self).toks(), old(self).st()), r),
            r is Ok ==> final(self).cursor.pos() > old(self).cursor.pos(),
        decreases rem(old(self).toks(), old(self).cursor.pos()), 1nat,
    {
        proof {
            lemma_kind_tables();
        }
        let token = self.cursor.eat(TokenImpl::Ident)?;
        self.push(token, NodeKind::FnParamsIdent);
        self.cursor.eat(TokenImpl::Colon)?;
        self.parse_expr()?;
        Ok(())
    }

    fn parse_block_body(&mut self) -> (r: Result<(), Error>)
        requires
            old(self).wf(),
        ensures
            r is Ok ==> final(self).shifted(*old(self), 0, 0),
            final(self).lands(*old(self), p_block_body(old(self).toks(), old(self).st()), r),
        decreases rem(old(self).toks(), old(self).cursor.pos()), 7nat,
    {
        proof {
            lemma_kind_tables();
        }
        loop
            invariant
                self.shifted(*old(self), 0, 0),
                self.wf(),
                self.cursor.tokens == old(self).cursor.tokens,
                self.cursor.pos() >= old(self).cursor.pos(),
                p_block_body(self.toks(), self.st()) == p_block_body(
                    old(self).toks(),
                    old(self).st(),
                ),
            decreases rem(self.toks(), self.cursor.pos()),
        {
            proof {
                lemma_kind_tables();
            }
            let next = self.cursor.peek();
            if next == Some(TokenImpl::Let) {
                self.parse_let()?;
            } else if next == Some(TokenImpl::CloseBrace) {
                return Ok(());
            } else {
                return self.parse_expr();
            }
        }
    }

    fn parse_let(&mut self) -> (r: Result<(), Error>)
        requires
            old(self).wf(),
            old(self).cursor.pos() < old(self).toks().len(),
            old(self).toks()[old(self).cursor.pos()] == TokenImpl::Let,
        ensures
            r is Ok ==> final(self).shifted(*old(self), 0, 0),
            final(self).lands(*old(self), p_let(old(self).toks(), old(self).st()), r),
            final(self).cursor.pos() > old(self).cursor.pos(),
        decreases rem(old(self).toks(), old(self).cursor.pos()), 2nat,
    {
        proof {
            lemma_kind_tables();
        }
        let token = self.cursor.advance_1();
        self.push(token, NodeKind::Let);
        let token = self.cursor.eat(TokenImpl::Ident)?;
        self.push(token, NodeKind::LetIdent);
        let token = self.cursor.eat(TokenImpl::Eq)?;
        self.push(token, NodeKind::LetEq);
        self.parse_expr()?;
        let token = self.cursor.eat(TokenImpl::Semi)?;
        self.push(token, NodeKind::LetSemi);
        Ok(())
    }

    fn parse_const(&mut self) -> (r: Result<(), Error>)
        requires
            old(self).wf(),
            old(self).cursor.pos() < old(self).toks().len(),
            old(self).toks()[old(self).cursor.pos()] == TokenImpl::Const,
        ensures
            r is Ok ==> final(self).shifted(*old(self), 0, 0),
            final(self).lands(*old(self), p_const(old(self).toks(), old(self).st()), r),
            final(self).cursor.pos() > old(self).cursor.pos(),
        decreases rem(old(self).toks(), old(self).cursor.pos()), 2nat,
    {
        proof {
            lemma_kind_tables();
        }
        let token = self.cursor.advance_1();
        self.push(token, NodeKind::Const);
        let token = self.cursor.eat(TokenImpl::Ident)?;
        self.push(token, NodeKind::ConstIdent);
        let token = self.cursor.eat(TokenImpl::Eq)?;
        self.push(token, NodeKind::ConstEq);
        self.parse_expr()?;
        let token = self.cursor.eat(TokenImpl::Semi)?;
        self.push(token, NodeKind::ConstSemi);
        Ok(())
    }

    fn parse_expr(&mut self) -> (r: Result<(), Error>)
        requires
            old(self).wf(),
        ensures
            r is Ok ==> final(self).shifted(*old(self), 0, 0),
            final(self).lands(*old(self), p_expr(old(self).toks(), old(self).st()), r),
            r is Ok ==> final(self).cursor.pos() > old(self).cursor.pos(),
        decreases rem(old(self).toks(), old(self).cursor.pos()), 6nat,
    {
        proof {
            lemma_kind_tables();
        }
        self.parse_term()?;
        let ghost start = self.st();
        loop
            invariant
                self.shifted(*old(self), 0, 0),
                self.wf(),
                self.cursor.tokens == old(self).cursor.tokens,
                self.cursor.pos() > old(self).cursor.pos(),
                p_expr_rest(self.toks(), self.st()) == p_expr_rest(self.toks(), start),
                p_expr(old(self).toks(), old(self).st()) == p_expr_rest(self.toks(), start),
            decreases rem(self.toks(), self.cursor.pos()),
        {
            proof {
                lemma_kind_tables();
            }
            let next = self.cursor.peek();
            let kind = if next == Some(TokenImpl::Plus) {
                NodeKind::ExprAdd
            } else if next == Some(TokenImpl::Dash) {
                NodeKind::ExprSub
            } else {
                return Ok(());
            };
            let token = self.cursor.advance_1();
            self.parse_term()?;
            self.push(token, kind);
        }
    }

    fn parse_term(&mut self) -> (r: Result<(), Error>)
        requires
            old(self).wf(),
        ensures
            r is Ok ==> final(self).shifted(*old(self), 0, 0),
            final(self).lands(*old(self), p_term(old(self).toks(), old(self).st()), r),
            r is Ok ==> final(self).cursor.pos() > old(self).cursor.pos(),
        decreases rem(old(self).toks(), old(self).cursor.pos()), 5nat,
    {
        proof {
            lemma_kind_tables();
        }
        self.parse_factor()?;
        let ghost start = self.st();
        loop
            invariant
                self.shifted(*old(self), 0, 0),
                self.wf(),
                self.cursor.tokens == old(self).cursor.tokens,
                self.cursor.pos() > old(self).cursor.pos(),
                p_term_rest(self.toks(), self.st()) == p_term_rest(self.toks(), start),
                p_term(old(self).toks(), old(self).st()) == p_term_rest(self.toks(), start),
            decreases rem(self.toks(), self.cursor.pos()),
        {
            proof {
                lemma_kind_tables();
            }
            let next = self.cursor.peek();
            let kind = if next == Some(TokenImpl::Star) {
                NodeKind::ExprMul
            } else if next == Some(TokenImpl::Slash) {
                NodeKind::ExprDiv
            } else {
                return Ok(());
            };
            let token = self.cursor.advance_1();
            self.parse_factor()?;
            self.push(token, kind);
        }
    }

    fn parse_factor(&mut self) -> (r: Result<(), Error>)
        requires
            old(self).wf(),
        ensures
            r is Ok ==> final(self).shifted(*old(self), 0, 0),
            final(self).lands(*old(self), p_factor(old(self).toks(), old(self).st()), r),
            r is Ok ==> final(self).cursor.pos() > old(self).cursor.pos(),
        decreases rem(old(self).toks(), old(self).cursor.pos()), 4nat,
    {
        proof {
            lemma_kind_tables();
        }
        let next = self.cursor.peek();
        let kind = if next == Some(TokenImpl::Bang) {
            NodeKind::ExprNot
        } else if next == Some(TokenImpl::Dash) {
            NodeKind::ExprNeg
        } else {
            return self.parse_atom();
        };
        let token = self.cursor.advance_1();
        self.parse_factor()?;
        self.push(token, kind);
        self.parse_atom()
    }

    fn parse_field_decl(&mut self) -> (r: Result<(), Error>)
        requires
            old(self).wf(),
        ensures
            r is Ok ==> final(self).shifted(*old(self), 0, 0),
            final(self).lands(*old(self), p_field_decl(old(self).toks(), old(self).st()), r),
            r is Ok ==> final(self).cursor.pos() > old(self).cursor.pos(),
        decreases rem(old(self).toks(), old(self).cursor.pos()), 8nat,
    {
        proof {
            lemma_kind_tables();
        }
        let token = self.cursor.eat(TokenImpl::Ident)?;
        self.push(token, NodeKind::StructFieldIdent);
        self.cursor.eat(TokenImpl::Colon)?;
        self.parse_expr()?;
        let token = self.cursor.eat(TokenImpl::Comma)?;
        self.push(token, NodeKind::StructFieldComma);
        Ok(())
    }
}

} // verus!

verus! {

impl<'a> Parser<'a> {
    fn parse_atom(&mut self) -> (r: Result<(), Error>)
        requires
            old(self).wf(),
        ensures
            r is Ok ==> final(self).shifted(*old(self), 0, 0),
            final(self).lands(*old(self), p_atom(old(self).toks(), old(self).st()), r),
            r is Ok ==> final(self).cursor.pos() > old(self).cursor.pos(),
        decreases rem(old(self).toks(), old(self).cursor.pos()), 3nat,
    {
        proof {
            lemma_kind_tables();
        }
        let next = self.cursor.peek();
        if next == Some(TokenImpl::OpenBrace) {
            let token = self.cursor.advance_1();
            self.push(token, NodeKind::ExprBlock);
            self.parse_block_body()?;
            let token = self.cursor.eat(TokenImpl::CloseBrace)?;
            self.push(token, NodeKind::ExprBlockEnd);
        } else if next == Some(TokenImpl::Ident) {
            let token = self.cursor.advance_1();
            let syn_ref = self.syn_refs.next();
            self.push(token, NodeKind::ExprIdent(syn_ref));
        } else if next == Some(TokenImpl::IntLit) {
            let token = self.cursor.advance_1();
            self.push(token, NodeKind::ExprInt);
        } else if next == Some(TokenImpl::Struct) {
            self.parse_struct()?;
        } else if next == Some(TokenImpl::StrLit) {
            let token = self.cursor.advance_1();
            self.push(token, NodeKind::ExprStr);
        } else if next == Some(TokenImpl::I32Keyword) {
            let token = self.cursor.advance_1();
            self.push(token, NodeKind::ExprI32Keyword);
        } else if next == Some(TokenImpl::TypeKeyword) {
            let token = self.cursor.advance_1();
            self.push(token, NodeKind::ExprTypeKeyword);
        } else if next == Some(TokenImpl::Ampersand) {
            let token = self.cursor.advance_1();
            self.push(token, NodeKind::BuiltinAmpersand);
            let token = self.cursor.eat(TokenImpl::Ident)?;
            self.push(token, NodeKind::BuiltinIdent);
        } else {
            return Err(
                Error {
                    expected: Expected::OneOf(
                        &[
                            TokenImpl::OpenBrace,
                            TokenImpl::Ident,
                            TokenImpl::IntLit,
                            TokenImpl::Struct,
                            TokenImpl::StrLit,
                        ],
                    ),
                    actual: next,
                },
            );
        }
        let ghost start = self.st();
        loop
            invariant
                self.shifted(*old(self), 0, 0),
                self.wf(),
                self.cursor.tokens == old(self).cursor.tokens,
                self.cursor.pos() > old(self).cursor.pos(),
                p_postfix(self.toks(), self.st()) == p_postfix(self.toks(), start),
                p_atom(old(self).toks(), old(self).st()) == p_postfix(self.toks(), start),
            decreases rem(self.toks(), self.cursor.pos()),
        {
            proof {
                lemma_kind_tables();
            }
            let next = self.cursor.peek();
            if next == Some(TokenImpl::Dot) {
                let token = self.cursor.advance_1();
                self.push(token, NodeKind::ExprDot);
                let token = self.cursor.eat(TokenImpl::Ident)?;
                self.push(token, NodeKind::ExprField);
            } else if next == Some(TokenImpl::OpenParen) {
                let token = self.cursor.advance_1();
                self.push(token, NodeKind::ExprCall);
                self.parse_call_args()?;
            } else {
                return Ok(());
            }
        }
    }

    /// The arguments of a call, after its `(`, up to and including its `)`.
    fn parse_call_args(&mut self) -> (r: Result<(), Error>)
        requires
            old(self).wf(),
            old(self).nesting() >= 1,
        ensures
            r is Ok ==> final(self).shifted(*old(self), -1, 0),
            final(self).lands(*old(self), p_args(old(self).toks(), old(self).st(), false), r),
            r is Ok ==> final(self).cursor.pos() > old(self).cursor.pos(),
        decreases rem(old(self).toks(), old(self).cursor.pos()), 7nat,
    {
        proof {
            lemma_kind_tables();
        }
        let mut accept_comma = false;
        loop
            invariant
                self.shifted(*old(self), 0, 0),
                old(self).nesting() >= 1,
                self.wf(),
                self.cursor.tokens == old(self).cursor.tokens,
                self.cursor.pos() >= old(self).cursor.pos(),
                p_args(self.toks(), self.st(), accept_comma) == p_args(
                    old(self).toks(),
                    old(self).st(),
                    false,
                ),
            decreases rem(self.toks(), self.cursor.pos()),
        {
            proof {
                lemma_kind_tables();
            }
            let next = self.cursor.peek();
            if next == Some(TokenImpl::CloseParen) {
                let token = self.cursor.advance_1();
                self.push(token, NodeKind::ExprCallEnd);
                return Ok(());
            } else if next == Some(TokenImpl::Comma) && accept_comma {
                let token = self.cursor.advance_1();
                self.push(token, NodeKind::ExprCallComma);
                accept_comma = false;
            } else {
                self.parse_expr()?;
                accept_comma = true;
            }
        }
    }
}

/// The result of parsing a token sequence.
#[derive(Debug)]
pub struct Parse {
    pub nodes: Vec<NodeImpl>,
    pub syn_refs: Counter<SynRef>,
    pub ok: Result<(), Error>,
}

/// Parses `tokens` as the items of a struct body. The nodes, the next syntactic reference and
/// the outcome are those of [`spec_parse`].
/// Each node stands for a token of the kind it is made from (see [`kind_token`]). No prefix of
/// the nodes closes more than it opened, in the nesting of the tree or in the scopes of names,
/// and a successful parse closes all that it opened.
pub fn parse(tokens: &[TokenImpl]) -> (r: Parse)
    requires
        tokens@.len() < MAX_INDEX,
    ensures
        r.nodes@ == spec_parse(tokens@).0.nodes,
        r.syn_refs.next.0 == spec_parse(tokens@).0.syn,
        r.ok == spec_parse(tokens@).1,
        r.syn_refs.next.0 == count_uses(r.nodes@),
        uses_numbered(r.nodes@),
        forall|i: int| 0 <= i < r.nodes@.len() ==> #[trigger] r.nodes@[i].token.0 < tokens@.len(),
        made_from(tokens@, r.nodes@),
        never_below_zero(r.nodes@),
        r.ok is Ok ==> depth_after(r.nodes@, r.nodes@.len() as int) == 0 && scope_depth(
            r.nodes@,
            r.nodes@.len() as int,
        ) == 0,
{
    let mut parser = Parser::new(tokens);
    let ok = parser.parse_struct_body();
    Parse { nodes: parser.nodes, syn_refs: parser.syn_refs, ok }
}

} // verus!
