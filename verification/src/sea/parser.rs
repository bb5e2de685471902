//! Parser for Sea: builds the nodes in evaluation order, each terminator recording the size of
//! the subtree it closes.
use crate::index::{Counter, MAX_INDEX};
use crate::parse::{advance, peek, rem, skip_trivia, Cursor};
use crate::sea::node::{Node, NodeImpl, NodeKind, Nominal, SemRef, SubtreeSize, SynDef, SynRef};
use crate::tokenize::{Token, TokenImpl};
use vstd::prelude::*;

verus! {

/// What the parser expected, and what it found instead.
#[derive(Clone, Debug)]
pub struct Error {
    pub expected: Expected,
    pub actual: Option<TokenImpl>,
}

#[derive(Copy, Clone, Debug)]
pub enum Expected {
    Just(TokenImpl),
    OneOf(&'static [TokenImpl]),
}

/// The terminators, each of which records the size of the subtree it closes.
#[derive(Copy, Clone, Debug, PartialEq, Eq, Structural)]
pub enum Terminator {
    StructFieldComma,
    StructBodyEnd,
    FnParamsEnd,
    FnBodyEnd,
    ExprBlockEnd,
    ExprCallEnd,
}

/// The node kind of a terminator closing a subtree of the given size.
pub open spec fn terminator_kind(t: Terminator, size: SubtreeSize) -> NodeKind {
    match t {
        Terminator::StructFieldComma => NodeKind::StructFieldComma(size),
        Terminator::StructBodyEnd => NodeKind::StructBodyEnd(size),
        Terminator::FnParamsEnd => NodeKind::FnParamsEnd(size),
        Terminator::FnBodyEnd => NodeKind::FnBodyEnd(size),
        Terminator::ExprBlockEnd => NodeKind::ExprBlockEnd(size),
        Terminator::ExprCallEnd => NodeKind::ExprCallEnd(size),
    }
}

impl Terminator {
    fn kind(self, size: SubtreeSize) -> (r: NodeKind)
        ensures
            r == terminator_kind(self, size),
    {
        match self {
            Terminator::StructFieldComma => NodeKind::StructFieldComma(size),
            Terminator::StructBodyEnd => NodeKind::StructBodyEnd(size),
            Terminator::FnParamsEnd => NodeKind::FnParamsEnd(size),
            Terminator::FnBodyEnd => NodeKind::FnBodyEnd(size),
            Terminator::ExprBlockEnd => NodeKind::ExprBlockEnd(size),
            Terminator::ExprCallEnd => NodeKind::ExprCallEnd(size),
        }
    }
}

/// The parser's state, as the model sees it: the cursor, the nodes so far, the subtree sizes
/// counted so far for the open subtrees (the file's first), and the next index of each kind.
pub struct SState {
    pub pos: int,
    pub nodes: Seq<NodeImpl>,
    pub sizes: Seq<u32>,
    pub nominals: int,
    pub syn_defs: int,
    pub syn_refs: int,
    pub sem_refs: int,
}

/// Counts one more entry in the innermost open subtree.
pub open spec fn bump_last(sizes: Seq<u32>) -> Seq<u32> {
    sizes.update(sizes.len() - 1, (sizes.last() + 1) as u32)
}

impl SState {
    pub open spec fn at(self, pos: int) -> SState {
        SState { pos, ..self }
    }

    /// A node inside the current subtree.
    pub open spec fn push(self, token: int, kind: NodeKind) -> SState {
        SState {
            nodes: self.nodes.push(NodeImpl { token: Token(token as u32), kind }),
            sizes: bump_last(self.sizes),
            ..self
        }
    }

    /// A node that opens a subtree.
    pub open spec fn open(self, token: int, kind: NodeKind) -> SState {
        SState {
            nodes: self.nodes.push(NodeImpl { token: Token(token as u32), kind }),
            sizes: self.sizes.push(1),
            ..self
        }
    }

    /// A node that closes the innermost subtree, recording its size.
    pub open spec fn close(self, token: int, t: Terminator) -> SState {
        SState {
            nodes: self.nodes.push(
                NodeImpl {
                    token: Token(token as u32),
                    kind: terminator_kind(t, SubtreeSize(self.sizes.last())),
                },
            ),
            sizes: bump_last(self.sizes.drop_last()),
            ..self
        }
    }
}

pub open spec fn s_eat(toks: Seq<TokenImpl>, p: int, t: TokenImpl) -> Result<int, Error> {
    if peek(toks, p) == Some(t) {
        Ok(advance(toks, p))
    } else {
        Err(Error { expected: Expected::Just(t), actual: peek(toks, p) })
    }
}

pub open spec fn s_stuck(st: SState) -> (SState, Result<(), Error>) {
    (st, Err(Error { expected: Expected::Just(TokenImpl::Unrecognized), actual: None }))
}

/// The tokens that may start an atom.
pub open spec fn atom_expected() -> Expected {
    Expected::OneOf(&[TokenImpl::OpenBrace, TokenImpl::Ident, TokenImpl::IntLit])
}

/// Items of a struct (or of the whole file).
pub open spec fn q_items(toks: Seq<TokenImpl>, st: SState) -> (SState, Result<(), Error>)
    decreases rem(toks, st.pos), 11nat,
{
    q_items_rest(toks, st.at(skip_trivia(toks, st.pos)))
}

pub open spec fn q_items_rest(toks: Seq<TokenImpl>, st: SState) -> (SState, Result<(), Error>)
    decreases rem(toks, st.pos), 10nat,
{
    let item = if peek(toks, st.pos) == Some(TokenImpl::Fn) {
        Some(q_fn(toks, st))
    } else if peek(toks, st.pos) == Some(TokenImpl::Struct) {
        Some(q_struct(toks, st))
    } else if peek(toks, st.pos) == Some(TokenImpl::Ident) {
        Some(q_field_decl(toks, st))
    } else {
        None
    };
    match item {
        None => (st, Ok(())),
        Some((s1, Err(e))) => (s1, Err(e)),
        Some((s1, Ok(_))) => if rem(toks, s1.pos) < rem(toks, st.pos) {
            q_items_rest(toks, s1)
        } else {
            s_stuck(s1)
        },
    }
}

/// `struct Name { items }`.
pub open spec fn q_struct(toks: Seq<TokenImpl>, st: SState) -> (SState, Result<(), Error>)
    decreases rem(toks, st.pos), 8nat,
{
    match s_eat(toks, st.pos, TokenImpl::Struct) {
        Err(e) => (st, Err(e)),
        Ok(p1) => {
            let s1 = SState {
                nominals: st.nominals + 1,
                ..st.open(st.pos, NodeKind::Struct(Nominal(st.nominals as u32))).at(p1)
            };
            match s_eat(toks, p1, TokenImpl::Ident) {
                Err(e) => (s1, Err(e)),
                Ok(p2) => {
                    let s2 = SState {
                        syn_defs: s1.syn_defs + 1,
                        ..s1.push(p1, NodeKind::StructIdent(SynDef(s1.syn_defs as u32))).at(p2)
                    };
                    match s_eat(toks, p2, TokenImpl::OpenBrace) {
                        Err(e) => (s2, Err(e)),
                        Ok(p3) => {
                            let (s4, r4) = q_items(toks, s2.push(p2, NodeKind::StructBody).at(p3));
                            match r4 {
                                Err(e) => (s4, Err(e)),
                                Ok(_) => match s_eat(toks, s4.pos, TokenImpl::CloseBrace) {
                                    Err(e) => (s4, Err(e)),
                                    Ok(p5) => if s4.sizes.len() >= 2 {
                                        (s4.close(s4.pos, Terminator::StructBodyEnd).at(p5), Ok(()))
                                    } else {
                                        s_stuck(s4)
                                    },
                                },
                            }
                        },
                    }
                },
            }
        },
    }
}

/// `fn name(params) { body }`.
pub open spec fn q_fn(toks: Seq<TokenImpl>, st: SState) -> (SState, Result<(), Error>)
    decreases rem(toks, st.pos), 8nat,
{
    match s_eat(toks, st.pos, TokenImpl::Fn) {
        Err(e) => (st, Err(e)),
        Ok(p1) => {
            let s1 = st.open(st.pos, NodeKind::Fn).at(p1);
            match s_eat(toks, p1, TokenImpl::Ident) {
                Err(e) => (s1, Err(e)),
                Ok(p2) => {
                    let s2 = SState {
                        syn_defs: s1.syn_defs + 1,
                        ..s1.push(p1, NodeKind::FnIdent(SynDef(s1.syn_defs as u32))).at(p2)
                    };
                    let (s3, r3) = q_fn_params(toks, s2);
                    match r3 {
                        Err(e) => (s3, Err(e)),
                        Ok(_) => match s_eat(toks, s3.pos, TokenImpl::OpenBrace) {
                            Err(e) => (s3, Err(e)),
                            Ok(p4) => {
                                let s4 = s3.push(s3.pos, NodeKind::FnBody).at(p4);
                                if rem(toks, p4) < rem(toks, st.pos) {
                                    let (s5, r5) = q_body(toks, s4);
                                    match r5 {
                                        Err(e) => (s5, Err(e)),
                                        Ok(_) => match s_eat(toks, s5.pos, TokenImpl::CloseBrace) {
                                            Err(e) => (s5, Err(e)),
                                            Ok(p6) => if s5.sizes.len() >= 2 {
                                                (s5.close(s5.pos, Terminator::FnBodyEnd).at(p6), Ok(()))
                                            } else {
                                                s_stuck(s5)
                                            },
                                        },
                                    }
                                } else {
                                    s_stuck(s4)
                                }
                            },
                        },
                    }
                },
            }
        },
    }
}

/// `( param, param, ... )`.
pub open spec fn q_fn_params(toks: Seq<TokenImpl>, st: SState) -> (SState, Result<(), Error>)
    decreases rem(toks, st.pos), 1nat,
{
    match s_eat(toks, st.pos, TokenImpl::OpenParen) {
        Err(e) => (st, Err(e)),
        Ok(p1) => q_params(toks, st.open(st.pos, NodeKind::FnParams).at(p1), false),
    }
}

/// The parameters after `(`, up to and including `)`.
pub open spec fn q_params(toks: Seq<TokenImpl>, st: SState, accept_comma: bool) -> (
    SState,
    Result<(), Error>,
)
    decreases rem(toks, st.pos), 2nat,
{
    if peek(toks, st.pos) == Some(TokenImpl::CloseParen) {
        if st.sizes.len() >= 2 {
            (st.close(st.pos, Terminator::FnParamsEnd).at(advance(toks, st.pos)), Ok(()))
        } else {
            s_stuck(st)
        }
    } else if peek(toks, st.pos) == Some(TokenImpl::Comma) && accept_comma {
        q_params(toks, st.at(advance(toks, st.pos)), false)
    } else {
        let (s1, r1) = q_fn_param(toks, st);
        match r1 {
            Err(e) => (s1, Err(e)),
            Ok(_) => if rem(toks, s1.pos) < rem(toks, st.pos) {
                q_params(toks, s1, true)
            } else {
                s_stuck(s1)
            },
        }
    }
}

/// `name: type`; the parameter's node follows its type.
pub open spec fn q_fn_param(toks: Seq<TokenImpl>, st: SState) -> (SState, Result<(), Error>)
    decreases rem(toks, st.pos), 1nat,
{
    match s_eat(toks, st.pos, TokenImpl::Ident) {
        Err(e) => (st, Err(e)),
        Ok(p1) => {
            let kind = NodeKind::FnParamsParam(SynDef(st.syn_defs as u32));
            let s1 = SState { syn_defs: st.syn_defs + 1, ..st.at(p1) };
            match s_eat(toks, p1, TokenImpl::Colon) {
                Err(e) => (s1, Err(e)),
                Ok(p2) => {
                    let (s3, r3) = q_expr(toks, s1.at(p2));
                    match r3 {
                        Err(e) => (s3, Err(e)),
                        Ok(_) => (s3.push(st.pos, kind), Ok(())),
                    }
                },
            }
        },
    }
}

/// Functions, structs and `let`s, then an optional final expression, up to (not including)
/// `}`.
pub open spec fn q_body(toks: Seq<TokenImpl>, st: SState) -> (SState, Result<(), Error>)
    decreases rem(toks, st.pos), 10nat,
{
    if peek(toks, st.pos) == Some(TokenImpl::CloseBrace) {
        (st, Ok(()))
    } else {
        let item = if peek(toks, st.pos) == Some(TokenImpl::Fn) {
            Some(q_fn(toks, st))
        } else if peek(toks, st.pos) == Some(TokenImpl::Struct) {
            Some(q_struct(toks, st))
        } else if peek(toks, st.pos) == Some(TokenImpl::Let) {
            Some(q_let(toks, st))
        } else {
            None
        };
        match item {
            None => q_expr(toks, st),
            Some((s1, Err(e))) => (s1, Err(e)),
            Some((s1, Ok(_))) => if rem(toks, s1.pos) < rem(toks, st.pos) {
                q_body(toks, s1)
            } else {
                s_stuck(s1)
            },
        }
    }
}

/// `let name = expr;`, the `let` being at the cursor. The name's node follows the expression,
/// so the name is not in scope in its own definition.
pub open spec fn q_let(toks: Seq<TokenImpl>, st: SState) -> (SState, Result<(), Error>)
    decreases rem(toks, st.pos), 2nat,
{
    if !(0 <= st.pos < toks.len()) {
        s_stuck(st)
    } else {
        let p1 = advance(toks, st.pos);
        let s1 = st.push(st.pos, NodeKind::Let).at(p1);
        match s_eat(toks, p1, TokenImpl::Ident) {
            Err(e) => (s1, Err(e)),
            Ok(p2) => match s_eat(toks, p2, TokenImpl::Eq) {
                Err(e) => (s1.at(p2), Err(e)),
                Ok(p3) => {
                    let (s4, r4) = q_expr(toks, s1.at(p3));
                    match r4 {
                        Err(e) => (s4, Err(e)),
                        Ok(_) => {
                            let s5 = s4.push(p2, NodeKind::LetEq);
                            let s6 = SState {
                                syn_defs: s5.syn_defs + 1,
                                ..s5.push(p1, NodeKind::LetIdent(SynDef(s5.syn_defs as u32)))
                            };
                            match s_eat(toks, s6.pos, TokenImpl::Semi) {
                                Err(e) => (s6, Err(e)),
                                Ok(p7) => (s6.push(s6.pos, NodeKind::LetSemi).at(p7), Ok(())),
                            }
                        },
                    }
                },
            },
        }
    }
}

/// Terms joined by `+` and `-`.
pub open spec fn q_expr(toks: Seq<TokenImpl>, st: SState) -> (SState, Result<(), Error>)
    decreases rem(toks, st.pos), 6nat,
{
    let (s1, r1) = q_term(toks, st);
    match r1 {
        Err(e) => (s1, Err(e)),
        Ok(_) => if rem(toks, s1.pos) <= rem(toks, st.pos) {
            q_expr_rest(toks, s1)
        } else {
            s_stuck(s1)
        },
    }
}

pub open spec fn q_expr_rest(toks: Seq<TokenImpl>, st: SState) -> (SState, Result<(), Error>)
    decreases rem(toks, st.pos), 1nat,
{
    let kind = if peek(toks, st.pos) == Some(TokenImpl::Plus) {
        Some(NodeKind::ExprAdd)
    } else if peek(toks, st.pos) == Some(TokenImpl::Dash) {
        Some(NodeKind::ExprSub)
    } else {
        None
    };
    match kind {
        None => (st, Ok(())),
        Some(kind) => {
            let (s2, r2) = q_term(toks, st.at(advance(toks, st.pos)));
            match r2 {
                Err(e) => (s2, Err(e)),
                Ok(_) => {
                    let s3 = s2.push(st.pos, kind);
                    if rem(toks, s3.pos) < rem(toks, st.pos) {
                        q_expr_rest(toks, s3)
                    } else {
                        s_stuck(s3)
                    }
                },
            }
        },
    }
}

/// Factors joined by `*` and `/`.
pub open spec fn q_term(toks: Seq<TokenImpl>, st: SState) -> (SState, Result<(), Error>)
    decreases rem(toks, st.pos), 5nat,
{
    let (s1, r1) = q_factor(toks, st);
    match r1 {
        Err(e) => (s1, Err(e)),
        Ok(_) => if rem(toks, s1.pos) <= rem(toks, st.pos) {
            q_term_rest(toks, s1)
        } else {
            s_stuck(s1)
        },
    }
}

pub open spec fn q_term_rest(toks: Seq<TokenImpl>, st: SState) -> (SState, Result<(), Error>)
    decreases rem(toks, st.pos), 1nat,
{
    let kind = if peek(toks, st.pos) == Some(TokenImpl::Star) {
        Some(NodeKind::ExprMul)
    } else if peek(toks, st.pos) == Some(TokenImpl::Slash) {
        Some(NodeKind::ExprDiv)
    } else {
        None
    };
    match kind {
        None => (st, Ok(())),
        Some(kind) => {
            let (s2, r2) = q_factor(toks, st.at(advance(toks, st.pos)));
            match r2 {
                Err(e) => (s2, Err(e)),
                Ok(_) => {
                    let s3 = s2.push(st.pos, kind);
                    if rem(toks, s3.pos) < rem(toks, st.pos) {
                        q_term_rest(toks, s3)
                    } else {
                        s_stuck(s3)
                    }
                },
            }
        },
    }
}

/// A prefix `!` or `-` applied to a factor (another atom is parsed after it), or an atom.
pub open spec fn q_factor(toks: Seq<TokenImpl>, st: SState) -> (SState, Result<(), Error>)
    decreases rem(toks, st.pos), 4nat,
{
    let kind = if peek(toks, st.pos) == Some(TokenImpl::Bang) {
        Some(NodeKind::ExprNot)
    } else if peek(toks, st.pos) == Some(TokenImpl::Dash) {
        Some(NodeKind::ExprNeg)
    } else {
        None
    };
    match kind {
        None => q_atom(toks, st),
        Some(kind) => {
            let (s2, r2) = q_factor(toks, st.at(advance(toks, st.pos)));
            match r2 {
                Err(e) => (s2, Err(e)),
                Ok(_) => {
                    let s3 = s2.push(st.pos, kind);
                    if rem(toks, s3.pos) < rem(toks, st.pos) {
                        q_atom(toks, s3)
                    } else {
                        s_stuck(s3)
                    }
                },
            }
        },
    }
}

/// A block, name or integer, then field accesses, and at most one call, which ends the atom.
pub open spec fn q_atom(toks: Seq<TokenImpl>, st: SState) -> (SState, Result<(), Error>)
    decreases rem(toks, st.pos), 3nat,
{
    let head: (SState, Result<(), Error>) = if peek(toks, st.pos) == Some(TokenImpl::OpenBrace) {
        let (s2, r2) = q_body(toks, st.open(st.pos, NodeKind::ExprBlock).at(advance(toks, st.pos)));
        match r2 {
            Err(e) => (s2, Err(e)),
            Ok(_) => match s_eat(toks, s2.pos, TokenImpl::CloseBrace) {
                Err(e) => (s2, Err(e)),
                Ok(p3) => if s2.sizes.len() >= 2 {
                    (s2.close(s2.pos, Terminator::ExprBlockEnd).at(p3), Ok(()))
                } else {
                    s_stuck(s2)
                },
            },
        }
    } else if peek(toks, st.pos) == Some(TokenImpl::Ident) {
        (
            SState {
                syn_refs: st.syn_refs + 1,
                ..st.push(st.pos, NodeKind::ExprIdent(SynRef(st.syn_refs as u32))).at(
                    advance(toks, st.pos),
                )
            },
            Ok(()),
        )
    } else if peek(toks, st.pos) == Some(TokenImpl::IntLit) {
        (st.push(st.pos, NodeKind::ExprInt).at(advance(toks, st.pos)), Ok(()))
    } else {
        (st, Err(Error { expected: atom_expected(), actual: peek(toks, st.pos) }))
    };
    match head {
        (s1, Err(e)) => (s1, Err(e)),
        (s1, Ok(_)) => if rem(toks, s1.pos) < rem(toks, st.pos) {
            q_postfix(toks, s1)
        } else {
            s_stuck(s1)
        },
    }
}

/// Field accesses `.name`, then optionally a call, after an atom.
pub open spec fn q_postfix(toks: Seq<TokenImpl>, st: SState) -> (SState, Result<(), Error>)
    decreases rem(toks, st.pos), 1nat,
{
    if peek(toks, st.pos) == Some(TokenImpl::Dot) {
        let p1 = advance(toks, st.pos);
        let s1 = st.push(st.pos, NodeKind::ExprDot).at(p1);
        match s_eat(toks, p1, TokenImpl::Ident) {
            Err(e) => (s1, Err(e)),
            Ok(p2) => q_postfix(
                toks,
                SState {
                    sem_refs: s1.sem_refs + 1,
                    ..s1.push(p1, NodeKind::ExprField(SemRef(s1.sem_refs as u32))).at(p2)
                },
            ),
        }
    } else if peek(toks, st.pos) == Some(TokenImpl::OpenParen) {
        q_args(toks, st.open(st.pos, NodeKind::ExprCall).at(advance(toks, st.pos)), false)
    } else {
        (st, Ok(()))
    }
}

/// The arguments after `(`, up to and including `)`.
pub open spec fn q_args(toks: Seq<TokenImpl>, st: SState, accept_comma: bool) -> (
    SState,
    Result<(), Error>,
)
    decreases rem(toks, st.pos), 7nat,
{
    if peek(toks, st.pos) == Some(TokenImpl::CloseParen) {
        if st.sizes.len() >= 2 {
            (st.close(st.pos, Terminator::ExprCallEnd).at(advance(toks, st.pos)), Ok(()))
        } else {
            s_stuck(st)
        }
    } else if peek(toks, st.pos) == Some(TokenImpl::Comma) && accept_comma {
        q_args(toks, st.push(st.pos, NodeKind::ExprCallComma).at(advance(toks, st.pos)), false)
    } else {
        let (s1, r1) = q_expr(toks, st);
        match r1 {
            Err(e) => (s1, Err(e)),
            Ok(_) => if rem(toks, s1.pos) < rem(toks, st.pos) {
                q_args(toks, s1, true)
            } else {
                s_stuck(s1)
            },
        }
    }
}

/// `name: type,` in a struct.
pub open spec fn q_field_decl(toks: Seq<TokenImpl>, st: SState) -> (SState, Result<(), Error>)
    decreases rem(toks, st.pos), 8nat,
{
    match s_eat(toks, st.pos, TokenImpl::Ident) {
        Err(e) => (st, Err(e)),
        Ok(p1) => {
            let s1 = st.open(st.pos, NodeKind::StructFieldIdent).at(p1);
            match s_eat(toks, p1, TokenImpl::Colon) {
                Err(e) => (s1, Err(e)),
                Ok(p2) => {
                    let (s3, r3) = q_expr(toks, s1.push(p1, NodeKind::StructFieldColon).at(p2));
                    match r3 {
                        Err(e) => (s3, Err(e)),
                        Ok(_) => match s_eat(toks, s3.pos, TokenImpl::Comma) {
                            Err(e) => (s3, Err(e)),
                            Ok(p4) => if s3.sizes.len() >= 2 {
                                (s3.close(s3.pos, Terminator::StructFieldComma).at(p4), Ok(()))
                            } else {
                                s_stuck(s3)
                            },
                        },
                    }
                },
            }
        },
    }
}

/// The parse of a whole token sequence.
pub open spec fn spec_parse(toks: Seq<TokenImpl>) -> (SState, Result<(), Error>) {
    q_items(
        toks,
        SState {
            pos: 0,
            nodes: Seq::empty(),
            sizes: seq![0u32],
            nominals: 0,
            syn_defs: 0,
            syn_refs: 0,
            sem_refs: 0,
        },
    )
}

} // verus!

verus! {

/// The token each node kind is made from: a node stands for one token of that kind.
#[verifier::opaque]
pub open spec fn kind_token(kind: NodeKind) -> TokenImpl {
    match kind {
        NodeKind::Struct(_) => TokenImpl::Struct,
        NodeKind::StructIdent(_) => TokenImpl::Ident,
        NodeKind::StructBody => TokenImpl::OpenBrace,
        NodeKind::StructFieldIdent => TokenImpl::Ident,
        NodeKind::StructFieldColon => TokenImpl::Colon,
        NodeKind::StructFieldComma(_) => TokenImpl::Comma,
        NodeKind::StructBodyEnd(_) => TokenImpl::CloseBrace,
        NodeKind::Fn => TokenImpl::Fn,
        NodeKind::FnIdent(_) => TokenImpl::Ident,
        NodeKind::FnParams => TokenImpl::OpenParen,
        NodeKind::FnParamsParam(_) => TokenImpl::Ident,
        NodeKind::FnParamsEnd(_) => TokenImpl::CloseParen,
        NodeKind::FnBody => TokenImpl::OpenBrace,
        NodeKind::FnBodyEnd(_) => TokenImpl::CloseBrace,
        NodeKind::Let => TokenImpl::Let,
        NodeKind::LetIdent(_) => TokenImpl::Ident,
        NodeKind::LetEq => TokenImpl::Eq,
        NodeKind::LetSemi => TokenImpl::Semi,
        NodeKind::ExprAdd => TokenImpl::Plus,
        NodeKind::ExprSub => TokenImpl::Dash,
        NodeKind::ExprMul => TokenImpl::Star,
        NodeKind::ExprDiv => TokenImpl::Slash,
        NodeKind::ExprNot => TokenImpl::Bang,
        NodeKind::ExprNeg => TokenImpl::Dash,
        NodeKind::ExprBlock => TokenImpl::OpenBrace,
        NodeKind::ExprBlockEnd(_) => TokenImpl::CloseBrace,
        NodeKind::ExprIdent(_) => TokenImpl::Ident,
        NodeKind::ExprInt => TokenImpl::IntLit,
        NodeKind::ExprDot => TokenImpl::Dot,
        NodeKind::ExprField(_) => TokenImpl::Ident,
        NodeKind::ExprCall => TokenImpl::OpenParen,
        NodeKind::ExprCallComma => TokenImpl::Comma,
        NodeKind::ExprCallEnd(_) => TokenImpl::CloseParen,
    }
}

/// The table of `kind_token`, one kind at a time.
proof fn lemma_kind_token()
    ensures
        forall|x: Nominal| #[trigger] kind_token(NodeKind::Struct(x)) == TokenImpl::Struct,
        forall|x: SynDef| #[trigger] kind_token(NodeKind::StructIdent(x)) == TokenImpl::Ident,
        kind_token(NodeKind::StructBody) == TokenImpl::OpenBrace,
        kind_token(NodeKind::StructFieldIdent) == TokenImpl::Ident,
        kind_token(NodeKind::StructFieldColon) == TokenImpl::Colon,
        forall|x: SubtreeSize| #[trigger] kind_token(NodeKind::StructFieldComma(x)) == TokenImpl::Comma,
        forall|x: SubtreeSize| #[trigger] kind_token(NodeKind::StructBodyEnd(x)) == TokenImpl::CloseBrace,
        kind_token(NodeKind::Fn) == TokenImpl::Fn,
        forall|x: SynDef| #[trigger] kind_token(NodeKind::FnIdent(x)) == TokenImpl::Ident,
        kind_token(NodeKind::FnParams) == TokenImpl::OpenParen,
        forall|x: SynDef| #[trigger] kind_token(NodeKind::FnParamsParam(x)) == TokenImpl::Ident,
        forall|x: SubtreeSize| #[trigger] kind_token(NodeKind::FnParamsEnd(x)) == TokenImpl::CloseParen,
        kind_token(NodeKind::FnBody) == TokenImpl::OpenBrace,
        forall|x: SubtreeSize| #[trigger] kind_token(NodeKind::FnBodyEnd(x)) == TokenImpl::CloseBrace,
        kind_token(NodeKind::Let) == TokenImpl::Let,
        forall|x: SynDef| #[trigger] kind_token(NodeKind::LetIdent(x)) == TokenImpl::Ident,
        kind_token(NodeKind::LetEq) == TokenImpl::Eq,
        kind_token(NodeKind::LetSemi) == TokenImpl::Semi,
        kind_token(NodeKind::ExprAdd) == TokenImpl::Plus,
        kind_token(NodeKind::ExprSub) == TokenImpl::Dash,
        kind_token(NodeKind::ExprMul) == TokenImpl::Star,
        kind_token(NodeKind::ExprDiv) == TokenImpl::Slash,
        kind_token(NodeKind::ExprNot) == TokenImpl::Bang,
        kind_token(NodeKind::ExprNeg) == TokenImpl::Dash,
        kind_token(NodeKind::ExprBlock) == TokenImpl::OpenBrace,
        forall|x: SubtreeSize| #[trigger] kind_token(NodeKind::ExprBlockEnd(x)) == TokenImpl::CloseBrace,
        forall|x: SynRef| #[trigger] kind_token(NodeKind::ExprIdent(x)) == TokenImpl::Ident,
        kind_token(NodeKind::ExprInt) == TokenImpl::IntLit,
        kind_token(NodeKind::ExprDot) == TokenImpl::Dot,
        forall|x: SemRef| #[trigger] kind_token(NodeKind::ExprField(x)) == TokenImpl::Ident,
        kind_token(NodeKind::ExprCall) == TokenImpl::OpenParen,
        kind_token(NodeKind::ExprCallComma) == TokenImpl::Comma,
        forall|x: SubtreeSize| #[trigger] kind_token(NodeKind::ExprCallEnd(x)) == TokenImpl::CloseParen,
{
    reveal(kind_token);
}

/// Each of `nodes` stands for a token of `toks` of the kind it is made from.
#[verifier::opaque]
pub open spec fn made_from(toks: Seq<TokenImpl>, nodes: Seq<NodeImpl>) -> bool {
    forall|i: int|
        0 <= i < nodes.len() ==> 0 <= #[trigger] nodes[i].token.0 < toks.len() && toks[nodes[i].token.0 as int]
            == kind_token(nodes[i].kind)
}

/// Nodes so far, and the sizes counted so far of the open subtrees (the file's first).
struct ParseTree {
    nodes: Vec<NodeImpl>,
    subtree_sizes: Vec<u32>,
}

impl ParseTree {
    fn with_capacity(capacity: usize) -> (r: Self)
        ensures
            r.nodes@ == Seq::<NodeImpl>::empty(),
            r.subtree_sizes@ == seq![0u32],
    {
        // We start off with an entry, which tracks the number of nodes in the whole file.
        ParseTree { nodes: Vec::with_capacity(capacity), subtree_sizes: vec![0] }
    }

    fn increment_current_subtree_size(&mut self)
        requires
            old(self).subtree_sizes@.len() >= 1,
            old(self).subtree_sizes@.last() < u32::MAX,
        ensures
            final(self).nodes == old(self).nodes,
            final(self).subtree_sizes@ == bump_last(old(self).subtree_sizes@),
    {
        let last = self.subtree_sizes.len() - 1;
        self.subtree_sizes[last] += 1;
    }

    fn push(&mut self, token: Token, kind: NodeKind)
        requires
            old(self).subtree_sizes@.len() >= 1,
            old(self).subtree_sizes@.last() < u32::MAX,
        ensures
            final(self).nodes@ == old(self).nodes@.push(NodeImpl { token, kind }),
            final(self).subtree_sizes@ == bump_last(old(self).subtree_sizes@),
    {
        self.increment_current_subtree_size();
        self.nodes.push(NodeImpl { token, kind });
    }

    fn push_introducer(&mut self, token: Token, kind: NodeKind)
        ensures
            final(self).nodes@ == old(self).nodes@.push(NodeImpl { token, kind }),
            final(self).subtree_sizes@ == old(self).subtree_sizes@.push(1),
    {
        self.subtree_sizes.push(1);
        self.nodes.push(NodeImpl { token, kind });
    }

    fn push_terminator(&mut self, token: Token, kind: Terminator)
        requires
            old(self).subtree_sizes@.len() >= 2,
            old(self).subtree_sizes@.drop_last().last() < u32::MAX,
        ensures
            final(self).nodes@ == old(self).nodes@.push(
                NodeImpl {
                    token,
                    kind: terminator_kind(kind, SubtreeSize(old(self).subtree_sizes@.last())),
                },
            ),
            final(self).subtree_sizes@ == bump_last(old(self).subtree_sizes@.drop_last()),
    {
        let subtree_size = self.subtree_sizes.pop().expect("Unmatched terminator");
        self.increment_current_subtree_size();
        self.nodes.push(NodeImpl { token, kind: kind.kind(SubtreeSize(subtree_size)) });
    }
}

struct Parser<'a> {
    cursor: Cursor<'a>,
    parse_tree: ParseTree,
    syn_defs: Counter<SynDef>,
    syn_refs: Counter<SynRef>,
    sem_refs: Counter<SemRef>,
    nominals: Counter<Nominal>,
}

impl<'a> Parser<'a> {
    spec fn toks(self) -> Seq<TokenImpl> {
        self.cursor.tokens@
    }

    spec fn st(self) -> SState {
        SState {
            pos: self.cursor.pos(),
            nodes: self.parse_tree.nodes@,
            sizes: self.parse_tree.subtree_sizes@,
            nominals: self.nominals.next.0 as int,
            syn_defs: self.syn_defs.next.0 as int,
            syn_refs: self.syn_refs.next.0 as int,
            sem_refs: self.sem_refs.next.0 as int,
        }
    }

    spec fn wf(self) -> bool {
        &&& self.cursor.wf()
        &&& self.nominals.next.0 <= self.cursor.index.0
        &&& self.syn_defs.next.0 <= self.cursor.index.0
        &&& self.syn_refs.next.0 <= self.cursor.index.0
        &&& self.sem_refs.next.0 <= self.cursor.index.0
        &&& self.parse_tree.subtree_sizes@.len() >= 1
        &&& self.parse_tree.nodes@.len() <= self.cursor.index.0
        &&& forall|i: int|
            0 <= i < self.parse_tree.subtree_sizes@.len() ==> #[trigger] self.parse_tree.subtree_sizes@[i]
                <= self.parse_tree.nodes@.len()
        &&& forall|i: int|
            0 <= i < self.parse_tree.nodes@.len() ==> #[trigger] self.parse_tree.nodes@[i].token.0
                < self.cursor.index.0
        &&& forall|i: int|
            0 <= i < self.parse_tree.nodes@.len() && (#[trigger] self.parse_tree.nodes@[i]).kind is ExprIdent
                ==> self.parse_tree.nodes@[i].kind->ExprIdent_0.0 < self.syn_refs.next.0
        &&& forall|i: int, j: int|
            0 <= i < j < self.parse_tree.nodes@.len() && (#[trigger] self.parse_tree.nodes@[i]).kind is ExprIdent
                && (#[trigger] self.parse_tree.nodes@[j]).kind is ExprIdent
                ==> self.parse_tree.nodes@[i].kind->ExprIdent_0 != self.parse_tree.nodes@[j].kind->ExprIdent_0
        &&& made_from(self.cursor.tokens@, self.parse_tree.nodes@)
    }

    /// `self` is `before` after a parse step whose outcome in the model is `out`, returning `r`;
    /// the step adds no more nodes than it reads tokens.
    spec fn lands(self, before: Self, out: (SState, Result<(), Error>), r: Result<(), Error>) -> bool {
        &&& self.wf()
        &&& self.cursor.tokens == before.cursor.tokens
        &&& self.st() == out.0
        &&& r == out.1
        &&& self.grew_within(before)
    }

    /// Since `before`, the cursor moved forward, and no more nodes, nominals, syntactic
    /// definitions, references or semantic references were added than tokens were read.
    spec fn grew_within(self, before: Self) -> bool {
        let read = self.cursor.pos() - before.cursor.pos();
        &&& read >= 0
        &&& self.parse_tree.nodes@.len() - before.parse_tree.nodes@.len() <= read
        &&& self.nominals.next.0 - before.nominals.next.0 <= read
        &&& self.syn_defs.next.0 - before.syn_defs.next.0 <= read
        &&& self.syn_refs.next.0 - before.syn_refs.next.0 <= read
        &&& self.sem_refs.next.0 - before.sem_refs.next.0 <= read
    }

    spec fn depth(self) -> int {
        self.parse_tree.subtree_sizes@.len() as int
    }

    fn new(tokens: &'a [TokenImpl]) -> (r: Self)
        requires
            tokens@.len() < MAX_INDEX,
        ensures
            r.wf(),
            r.cursor.tokens == tokens,
            r.st() == (SState {
                pos: 0,
                nodes: Seq::empty(),
                sizes: seq![0u32],
                nominals: 0,
                syn_defs: 0,
                syn_refs: 0,
                sem_refs: 0,
            }),
    {
        proof {
            reveal(made_from);
        }
        Parser {
            cursor: Cursor::new(tokens),
            parse_tree: ParseTree::with_capacity(tokens.len()),
            syn_defs: Counter::new(),
            syn_refs: Counter::new(),
            sem_refs: Counter::new(),
            nominals: Counter::new(),
        }
    }

    fn eat(&mut self, token: TokenImpl) -> (r: Result<Token, Error>)
        requires
            old(self).wf(),
        ensures
            final(self).wf(),
            final(self).parse_tree == old(self).parse_tree,
            final(self).syn_defs == old(self).syn_defs,
            final(self).syn_refs == old(self).syn_refs,
            final(self).sem_refs == old(self).sem_refs,
            final(self).nominals == old(self).nominals,
            final(self).cursor.tokens == old(self).cursor.tokens,
            match s_eat(old(self).toks(), old(self).cursor.pos(), token) {
                Ok(p) => r == Ok::<Token, Error>(old(self).cursor.index) && final(self).cursor.pos()
                    == p && p > old(self).cursor.pos(),
                Err(e) => r == Err::<Token, Error>(e) && final(self).cursor.pos() == old(
                    self,
                ).cursor.pos(),
            },
            r is Ok ==> r.unwrap().0 < old(self).toks().len() && old(self).toks()[r.unwrap().0 as int] == token,
    {
        if self.cursor.peek() == Some(token) {
            Ok(self.cursor.advance_1())
        } else {
            Err(Error { expected: Expected::Just(token), actual: self.cursor.peek() })
        }
    }

    fn advance_1(&mut self) -> (r: Token)
        requires
            old(self).wf(),
            old(self).cursor.pos() < old(self).toks().len(),
        ensures
            final(self).wf(),
            final(self).parse_tree == old(self).parse_tree,
            final(self).syn_defs == old(self).syn_defs,
            final(self).syn_refs == old(self).syn_refs,
            final(self).sem_refs == old(self).sem_refs,
            final(self).nominals == old(self).nominals,
            final(self).cursor.tokens == old(self).cursor.tokens,
            r == old(self).cursor.index,
            r.0 < old(self).toks().len(),
            final(self).cursor.pos() == advance(old(self).toks(), old(self).cursor.pos()),
            final(self).cursor.pos() > old(self).cursor.pos(),
    {
        self.cursor.advance_1()
    }
}

} // verus!

verus! {

impl<'a> Parser<'a> {
    /// Adds a node inside the current subtree, for a token read earlier.
    fn push(&mut self, token: Token, kind: NodeKind)
        requires
            old(self).wf(),
            token.0 < old(self).cursor.index.0,
            old(self).toks()[token.0 as int] == kind_token(kind),
            kind is ExprIdent ==> kind->ExprIdent_0.0 < old(self).syn_refs.next.0,
            kind is ExprIdent ==> forall|i: int|
                0 <= i < old(self).parse_tree.nodes@.len() && (#[trigger] old(self).parse_tree.nodes@[i]).kind is ExprIdent
                    ==> old(self).parse_tree.nodes@[i].kind->ExprIdent_0.0 < kind->ExprIdent_0.0,
            old(self).parse_tree.nodes@.len() < old(self).cursor.index.0,
        ensures
            final(self).wf(),
            final(self).cursor == old(self).cursor,
            final(self).st() == old(self).st().push(token.0 as int, kind),
            final(self).depth() == old(self).depth(),
            final(self).parse_tree.nodes@.len() == old(self).parse_tree.nodes@.len() + 1,
    {
        self.parse_tree.push(token, kind);
        proof {
            reveal(made_from);
            let before = old(self).parse_tree.nodes@;
            let after = self.parse_tree.nodes@;
            assert forall|i: int| 0 <= i < after.len() implies 0 <= #[trigger] after[i].token.0
                < self.cursor.tokens@.len() && self.cursor.tokens@[after[i].token.0 as int]
                == kind_token(after[i].kind) by {
                if i < before.len() {
                    assert(after[i] == before[i]);
                }
            }
        }
        assert(Token((token.0 as int) as u32) == token);
        assert forall|i: int|
            0 <= i < self.parse_tree.subtree_sizes@.len() implies #[trigger] self.parse_tree.subtree_sizes@[i]
                <= self.parse_tree.nodes@.len() by {
            if 0 <= i < self.parse_tree.subtree_sizes@.len() {
                assert(old(self).parse_tree.subtree_sizes@[i] <= old(self).parse_tree.nodes@.len());
            }
        }
    }

    /// Adds a node that opens a subtree, for a token read earlier.
    fn open(&mut self, token: Token, kind: NodeKind)
        requires
            old(self).wf(),
            token.0 < old(self).cursor.index.0,
            old(self).toks()[token.0 as int] == kind_token(kind),
            !(kind is ExprIdent),
            old(self).parse_tree.nodes@.len() < old(self).cursor.index.0,
        ensures
            final(self).wf(),
            final(self).cursor == old(self).cursor,
            final(self).st() == old(self).st().open(token.0 as int, kind),
            final(self).depth() == old(self).depth() + 1,
            final(self).parse_tree.nodes@.len() == old(self).parse_tree.nodes@.len() + 1,
    {
        self.parse_tree.push_introducer(token, kind);
        proof {
            reveal(made_from);
            let before = old(self).parse_tree.nodes@;
            let after = self.parse_tree.nodes@;
            assert forall|i: int| 0 <= i < after.len() implies 0 <= #[trigger] after[i].token.0
                < self.cursor.tokens@.len() && self.cursor.tokens@[after[i].token.0 as int]
                == kind_token(after[i].kind) by {
                if i < before.len() {
                    assert(after[i] == before[i]);
                }
            }
        }
        assert(Token((token.0 as int) as u32) == token);
        assert forall|i: int|
            0 <= i < self.parse_tree.subtree_sizes@.len() implies #[trigger] self.parse_tree.subtree_sizes@[i]
                <= self.parse_tree.nodes@.len() by {
            if 0 <= i < self.parse_tree.subtree_sizes@.len() - 1 {
                assert(old(self).parse_tree.subtree_sizes@[i] <= old(self).parse_tree.nodes@.len());
            }
        }
    }

    /// Adds a node that closes the innermost subtree, for a token read earlier.
    fn close(&mut self, token: Token, t: Terminator)
        requires
            old(self).wf(),
            token.0 < old(self).cursor.index.0,
            old(self).toks()[token.0 as int] == kind_token(terminator_kind(t, SubtreeSize(old(self).parse_tree.subtree_sizes@.last()))),
            old(self).depth() >= 2,
            old(self).parse_tree.nodes@.len() < old(self).cursor.index.0,
        ensures
            final(self).wf(),
            final(self).cursor == old(self).cursor,
            final(self).st() == old(self).st().close(token.0 as int, t),
            final(self).depth() == old(self).depth() - 1,
            final(self).parse_tree.nodes@.len() == old(self).parse_tree.nodes@.len() + 1,
    {
        let ghost sizes = self.parse_tree.subtree_sizes@;
        assert(sizes.drop_last().last() == sizes[sizes.len() - 2]);
        self.parse_tree.push_terminator(token, t);
        proof {
            reveal(made_from);
            let before = old(self).parse_tree.nodes@;
            let after = self.parse_tree.nodes@;
            assert forall|i: int| 0 <= i < after.len() implies 0 <= #[trigger] after[i].token.0
                < self.cursor.tokens@.len() && self.cursor.tokens@[after[i].token.0 as int]
                == kind_token(after[i].kind) by {
                if i < before.len() {
                    assert(after[i] == before[i]);
                }
            }
        }
        assert(Token((token.0 as int) as u32) == token);
        assert forall|i: int|
            0 <= i < self.parse_tree.subtree_sizes@.len() implies #[trigger] self.parse_tree.subtree_sizes@[i]
                <= self.parse_tree.nodes@.len() by {
            if 0 <= i < self.parse_tree.subtree_sizes@.len() {
                assert(sizes[i] <= old(self).parse_tree.nodes@.len());
            }
        }
    }

    fn parse_items(&mut self) -> (r: Result<(), Error>)
        requires
            old(self).wf(),
        ensures
            final(self).lands(*old(self), q_items(old(self).toks(), old(self).st()), r),
            r is Ok ==> final(self).depth() == old(self).depth(),
        decreases rem(old(self).toks(), old(self).cursor.pos()), 11nat,
    {
        proof {
            lemma_kind_token();
        }
        self.cursor.skip_whitespace();
        let ghost start = self.st();
        loop
            invariant
                self.wf(),
                self.cursor.tokens == old(self).cursor.tokens,
                self.grew_within(*old(self)),
                self.depth() == old(self).depth(),
                q_items_rest(self.toks(), self.st()) == q_items_rest(self.toks(), start),
                q_items(old(self).toks(), old(self).st()) == q_items_rest(self.toks(), start),
            decreases rem(self.toks(), self.cursor.pos()),
        {
            proof {
                lemma_kind_token();
            }
            let next = self.cursor.peek();
            if next == Some(TokenImpl::Fn) {
                self.parse_fn()?;
            } else if next == Some(TokenImpl::Struct) {
                self.parse_struct()?;
            } else if next == Some(TokenImpl::Ident) {
                self.parse_field_decl()?;
            } else {
                return Ok(());
            }
        }
    }

    fn parse_struct(&mut self) -> (r: Result<(), Error>)
        requires
            old(self).wf(),
        ensures
            final(self).lands(*old(self), q_struct(old(self).toks(), old(self).st()), r),
            r is Ok ==> final(self).cursor.pos() > old(self).cursor.pos(),
            r is Ok ==> final(self).depth() == old(self).depth(),
        decreases rem(old(self).toks(), old(self).cursor.pos()), 8nat,
    {
        proof {
            lemma_kind_token();
        }
        let token = self.eat(TokenImpl::Struct)?;
        let nominal = self.nominals.next();
        self.open(token, NodeKind::Struct(nominal));
        let token = self.eat(TokenImpl::Ident)?;
        let syn_def = self.syn_defs.next();
        self.push(token, NodeKind::StructIdent(syn_def));
        let token = self.eat(TokenImpl::OpenBrace)?;
        self.push(token, NodeKind::StructBody);
        self.parse_items()?;
        let token = self.eat(TokenImpl::CloseBrace)?;
        self.close(token, Terminator::StructBodyEnd);
        Ok(())
    }

    fn parse_fn(&mut self) -> (r: Result<(), Error>)
        requires
            old(self).wf(),
        ensures
            final(self).lands(*old(self), q_fn(old(self).toks(), old(self).st()), r),
            r is Ok ==> final(self).cursor.pos() > old(self).cursor.pos(),
            r is Ok ==> final(self).depth() == old(self).depth(),
        decreases rem(old(self).toks(), old(self).cursor.pos()), 8nat,
    {
        proof {
            lemma_kind_token();
        }
        let token = self.eat(TokenImpl::Fn)?;
        self.open(token, NodeKind::Fn);
        let token = self.eat(TokenImpl::Ident)?;
        let syn_def = self.syn_defs.next();
        self.push(token, NodeKind::FnIdent(syn_def));
        self.parse_fn_params()?;
        let token = self.eat(TokenImpl::OpenBrace)?;
        self.push(token, NodeKind::FnBody);
        self.parse_body()?;
        let token = self.eat(TokenImpl::CloseBrace)?;
        self.close(token, Terminator::FnBodyEnd);
        Ok(())
    }

    fn parse_fn_params(&mut self) -> (r: Result<(), Error>)
        requires
            old(self).wf(),
        ensures
            final(self).lands(*old(self), q_fn_params(old(self).toks(), old(self).st()), r),
            r is Ok ==> final(self).depth() == old(self).depth(),
        decreases rem(old(self).toks(), old(self).cursor.pos()), 3nat,
    {
        proof {
            lemma_kind_token();
        }
        let token = self.eat(TokenImpl::OpenParen)?;
        self.open(token, NodeKind::FnParams);
        let mut accept_comma = false;
        let ghost start = self.st();
        loop
            invariant
                self.wf(),
                self.cursor.tokens == old(self).cursor.tokens,
                self.cursor.pos() > old(self).cursor.pos(),
                self.grew_within(*old(self)),
                self.depth() == old(self).depth() + 1,
                self.depth() >= 2,
                q_params(self.toks(), self.st(), accept_comma) == q_params(self.toks(), start, false),
                q_fn_params(old(self).toks(), old(self).st()) == q_params(self.toks(), start, false),
            decreases rem(self.toks(), self.cursor.pos()),
        {
            proof {
                lemma_kind_token();
            }
            let next = self.cursor.peek();
            if next == Some(TokenImpl::CloseParen) {
                let token = self.advance_1();
                self.close(token, Terminator::FnParamsEnd);
                return Ok(());
            } else if next == Some(TokenImpl::Comma) && accept_comma {
                self.advance_1();
                accept_comma = false;
            } else {
                self.parse_fn_param()?;
                accept_comma = true;
            }
        }
    }

    fn parse_fn_param(&mut self) -> (r: Result<(), Error>)
        requires
            old(self).wf(),
        ensures
            final(self).lands(*old(self), q_fn_param(old(self).toks(), old(self).st()), r),
            r is Ok ==> final(self).cursor.pos() > old(self).cursor.pos(),
            r is Ok ==> final(self).depth() == old(self).depth(),
        decreases rem(old(self).toks(), old(self).cursor.pos()), 1nat,
    {
        proof {
            lemma_kind_token();
        }
        let token = self.eat(TokenImpl::Ident)?;
        let kind = NodeKind::FnParamsParam(self.syn_defs.next());
        self.eat(TokenImpl::Colon)?;
        self.parse_expr()?;
        self.push(token, kind);
        Ok(())
    }

    fn parse_body(&mut self) -> (r: Result<(), Error>)
        requires
            old(self).wf(),
        ensures
            final(self).lands(*old(self), q_body(old(self).toks(), old(self).st()), r),
            r is Ok ==> final(self).depth() == old(self).depth(),
        decreases rem(old(self).toks(), old(self).cursor.pos()), 10nat,
    {
        proof {
            lemma_kind_token();
        }
        loop
            invariant
                self.wf(),
                self.cursor.tokens == old(self).cursor.tokens,
                self.grew_within(*old(self)),
                self.depth() == old(self).depth(),
                q_body(self.toks(), self.st()) == q_body(old(self).toks(), old(self).st()),
            decreases rem(self.toks(), self.cursor.pos()),
        {
            proof {
                lemma_kind_token();
            }
            let next = self.cursor.peek();
            if next == Some(TokenImpl::Fn) {
                self.parse_fn()?;
            } else if next == Some(TokenImpl::Struct) {
                self.parse_struct()?;
            } else if next == Some(TokenImpl::Let) {
                // Parse tree order: let expr = ident ;
                // This simplifies name resolution because the ident shouldn't be in scope until
                // after the expression.
                self.parse_let()?;
            } else if next == Some(TokenImpl::CloseBrace) {
                return Ok(());
            } else {
                return self.parse_expr();
            }
        }
    }

    fn parse_let(&mut self) -> (r: Result<(), Error>)
        requires
            old(self).wf(),
            old(self).cursor.pos() < old(self).toks().len(),
            old(self).toks()[old(self).cursor.pos()] == TokenImpl::Let,
        ensures
            final(self).lands(*old(self), q_let(old(self).toks(), old(self).st()), r),
            final(self).cursor.pos() > old(self).cursor.pos(),
            r is Ok ==> final(self).depth() == old(self).depth(),
        decreases rem(old(self).toks(), old(self).cursor.pos()), 2nat,
    {
        proof {
            lemma_kind_token();
        }
        let token = self.advance_1();
        self.push(token, NodeKind::Let);
        let let_ident = self.eat(TokenImpl::Ident)?;
        let let_eq = self.eat(TokenImpl::Eq)?;
        self.parse_expr()?;
        self.push(let_eq, NodeKind::LetEq);
        let syn_def = self.syn_defs.next();
        self.push(let_ident, NodeKind::LetIdent(syn_def));
        let token = self.eat(TokenImpl::Semi)?;
        self.push(token, NodeKind::LetSemi);
        Ok(())
    }

    fn parse_expr(&mut self) -> (r: Result<(), Error>)
        requires
            old(self).wf(),
        ensures
            final(self).lands(*old(self), q_expr(old(self).toks(), old(self).st()), r),
            r is Ok ==> final(self).cursor.pos() > old(self).cursor.pos(),
            r is Ok ==> final(self).depth() == old(self).depth(),
        decreases rem(old(self).toks(), old(self).cursor.pos()), 6nat,
    {
        proof {
            lemma_kind_token();
        }
        self.parse_term()?;
        let ghost start = self.st();
        loop
            invariant
                self.wf(),
                self.cursor.tokens == old(self).cursor.tokens,
                self.cursor.pos() > old(self).cursor.pos(),
                self.grew_within(*old(self)),
                self.depth() == old(self).depth(),
                q_expr_rest(self.toks(), self.st()) == q_expr_rest(self.toks(), start),
                q_expr(old(self).toks(), old(self).st()) == q_expr_rest(self.toks(), start),
            decreases rem(self.toks(), self.cursor.pos()),
        {
            proof {
                lemma_kind_token();
            }
            let next = self.cursor.peek();
            let kind = if next == Some(TokenImpl::Plus) {
                NodeKind::ExprAdd
            } else if next == Some(TokenImpl::Dash) {
                NodeKind::ExprSub
            } else {
                return Ok(());
            };
            let index = self.advance_1();
            self.parse_term()?;
            self.push(index, kind);
        }
    }

    fn parse_term(&mut self) -> (r: Result<(), Error>)
        requires
            old(self).wf(),
        ensures
            final(self).lands(*old(self), q_term(old(self).toks(), old(self).st()), r),
            r is Ok ==> final(self).cursor.pos() > old(self).cursor.pos(),
            r is Ok ==> final(self).depth() == old(self).depth(),
        decreases rem(old(self).toks(), old(self).cursor.pos()), 5nat,
    {
        proof {
            lemma_kind_token();
        }
        self.parse_factor()?;
        let ghost start = self.st();
        loop
            invariant
                self.wf(),
                self.cursor.tokens == old(self).cursor.tokens,
                self.cursor.pos() > old(self).cursor.pos(),
                self.grew_within(*old(self)),
                self.depth() == old(self).depth(),
                q_term_rest(self.toks(), self.st()) == q_term_rest(self.toks(), start),
                q_term(old(self).toks(), old(self).st()) == q_term_rest(self.toks(), start),
            decreases rem(self.toks(), self.cursor.pos()),
        {
            proof {
                lemma_kind_token();
            }
            let next = self.cursor.peek();
            let kind = if next == Some(TokenImpl::Star) {
                NodeKind::ExprMul
            } else if next == Some(TokenImpl::Slash) {
                NodeKind::ExprDiv
            } else {
                return Ok(());
            };
            let token = self.advance_1();
            self.parse_factor()?;
            self.push(token, kind);
        }
    }

    fn parse_factor(&mut self) -> (r: Result<(), Error>)
        requires
            old(self).wf(),
        ensures
            final(self).lands(*old(self), q_factor(old(self).toks(), old(self).st()), r),
            r is Ok ==> final(self).cursor.pos() > old(self).cursor.pos(),
            r is Ok ==> final(self).depth() == old(self).depth(),
        decreases rem(old(self).toks(), old(self).cursor.pos()), 4nat,
    {
        proof {
            lemma_kind_token();
        }
        let next = self.cursor.peek();
        let kind = if next == Some(TokenImpl::Bang) {
            NodeKind::ExprNot
        } else if next == Some(TokenImpl::Dash) {
            NodeKind::ExprNeg
        } else {
            return self.parse_atom();
        };
        let token = self.advance_1();
        self.parse_factor()?;
        self.push(token, kind);
        self.parse_atom()
    }

    fn parse_atom(&mut self) -> (r: Result<(), Error>)
        requires
            old(self).wf(),
        ensures
            final(self).lands(*old(self), q_atom(old(self).toks(), old(self).st()), r),
            r is Ok ==> final(self).cursor.pos() > old(self).cursor.pos(),
            r is Ok ==> final(self).depth() == old(self).depth(),
        decreases rem(old(self).toks(), old(self).cursor.pos()), 3nat,
    {
        proof {
            lemma_kind_token();
        }
        let next = self.cursor.peek();
        if next == Some(TokenImpl::OpenBrace) {
            let token = self.advance_1();
            self.open(token, NodeKind::ExprBlock);
            self.parse_body()?;
            let token = self.eat(TokenImpl::CloseBrace)?;
            self.close(token, Terminator::ExprBlockEnd);
        } else if next == Some(TokenImpl::Ident) {
            let token = self.advance_1();
            let syn_ref = self.syn_refs.next();
            self.push(token, NodeKind::ExprIdent(syn_ref));
        } else if next == Some(TokenImpl::IntLit) {
            let token = self.advance_1();
            self.push(token, NodeKind::ExprInt);
        } else {
            return Err(
                Error {
                    expected: Expected::OneOf(
                        &[TokenImpl::OpenBrace, TokenImpl::Ident, TokenImpl::IntLit],
                    ),
                    actual: next,
                },
            );
        }
        let ghost start = self.st();
        loop
            invariant
                self.wf(),
                self.cursor.tokens == old(self).cursor.tokens,
                self.cursor.pos() > old(self).cursor.pos(),
                self.grew_within(*old(self)),
                self.depth() == old(self).depth(),
                q_postfix(self.toks(), self.st()) == q_postfix(self.toks(), start),
                q_atom(old(self).toks(), old(self).st()) == q_postfix(self.toks(), start),
            decreases rem(self.toks(), self.cursor.pos()),
        {
            proof {
                lemma_kind_token();
            }
            let next = self.cursor.peek();
            if next == Some(TokenImpl::Dot) {
                let token = self.advance_1();
                self.push(token, NodeKind::ExprDot);
                let token = self.eat(TokenImpl::Ident)?;
                let sem_ref = self.sem_refs.next();
                self.push(token, NodeKind::ExprField(sem_ref));
            } else if next == Some(TokenImpl::OpenParen) {
                let token = self.advance_1();
                self.open(token, NodeKind::ExprCall);
                return self.parse_call_args();
            } else {
                return Ok(());
            }
        }
    }

    /// The arguments of a call, after its `(`, up to and including its `)`.
    fn parse_call_args(&mut self) -> (r: Result<(), Error>)
        requires
            old(self).wf(),
            old(self).depth() >= 2,
        ensures
            final(self).lands(*old(self), q_args(old(self).toks(), old(self).st(), false), r),
            r is Ok ==> final(self).cursor.pos() > old(self).cursor.pos(),
            r is Ok ==> final(self).depth() == old(self).depth() - 1,
        decreases rem(old(self).toks(), old(self).cursor.pos()), 7nat,
    {
        proof {
            lemma_kind_token();
        }
        let mut accept_comma = false;
        loop
            invariant
                self.wf(),
                self.cursor.tokens == old(self).cursor.tokens,
                self.grew_within(*old(self)),
                self.depth() == old(self).depth(),
                old(self).depth() >= 2,
                q_args(self.toks(), self.st(), accept_comma) == q_args(
                    old(self).toks(),
                    old(self).st(),
                    false,
                ),
            decreases rem(self.toks(), self.cursor.pos()),
        {
            proof {
                lemma_kind_token();
            }
            let next = self.cursor.peek();
            if next == Some(TokenImpl::CloseParen) {
                let token = self.advance_1();
                self.close(token, Terminator::ExprCallEnd);
                return Ok(());
            } else if next == Some(TokenImpl::Comma) && accept_comma {
                let token = self.advance_1();
                self.push(token, NodeKind::ExprCallComma);
                accept_comma = false;
            } else {
                self.parse_expr()?;
                accept_comma = true;
            }
        }
    }

    fn parse_field_decl(&mut self) -> (r: Result<(), Error>)
        requires
            old(self).wf(),
        ensures
            final(self).lands(*old(self), q_field_decl(old(self).toks(), old(self).st()), r),
            r is Ok ==> final(self).cursor.pos() > old(self).cursor.pos(),
            r is Ok ==> final(self).depth() == old(self).depth(),
        decreases rem(old(self).toks(), old(self).cursor.pos()), 8nat,
    {
        proof {
            lemma_kind_token();
        }
        let token = self.eat(TokenImpl::Ident)?;
        self.open(token, NodeKind::StructFieldIdent);
        let token = self.eat(TokenImpl::Colon)?;
        self.push(token, NodeKind::StructFieldColon);
        self.parse_expr()?;
        let token = self.eat(TokenImpl::Comma)?;
        self.close(token, Terminator::StructFieldComma);
        Ok(())
    }
}

/// The result of parsing a token sequence.
pub struct Parse {
    pub nodes: Vec<NodeImpl>,
    pub syn_refs: Counter<SynRef>,
    pub syn_defs: Counter<SynDef>,
    pub ok: Result<(), Error>,
}

/// Parses `tokens` as items. The nodes, the next syntactic reference and definition, and the
/// outcome are those of [`spec_parse`].
/// Each node stands for a token of the kind it is made from (see [`kind_token`]).
pub fn parse(tokens: &[TokenImpl]) -> (r: Parse)
    requires
        tokens@.len() < MAX_INDEX,
    ensures
        r.nodes@ == spec_parse(tokens@).0.nodes,
        r.syn_refs.next.0 == spec_parse(tokens@).0.syn_refs,
        r.syn_defs.next.0 == spec_parse(tokens@).0.syn_defs,
        r.ok == spec_parse(tokens@).1,
        r.nodes@.len() <= tokens@.len(),
        forall|i: int| 0 <= i < r.nodes@.len() ==> #[trigger] r.nodes@[i].token.0 < tokens@.len(),
        forall|i: int|
            0 <= i < r.nodes@.len() && (#[trigger] r.nodes@[i]).kind is ExprIdent
                ==> r.nodes@[i].kind->ExprIdent_0.0 < r.syn_refs.next.0,
        forall|i: int, j: int|
            0 <= i < j < r.nodes@.len() && (#[trigger] r.nodes@[i]).kind is ExprIdent
                && (#[trigger] r.nodes@[j]).kind is ExprIdent
                ==> r.nodes@[i].kind->ExprIdent_0 != r.nodes@[j].kind->ExprIdent_0,
        made_from(tokens@, r.nodes@),
{
    let mut parser = Parser::new(tokens);
    let ok = parser.parse_items();
    Parse {
        nodes: parser.parse_tree.nodes,
        syn_refs: parser.syn_refs,
        syn_defs: parser.syn_defs,
        ok,
    }
}

} // verus!
