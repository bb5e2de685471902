//! Nodes as name resolution reads them: a kind and a token per node, kept side by side.
use crate::tokenize::Token;
use vstd::prelude::*;

pub use crate::parse_node::Node;

verus! {

#[derive(Copy, Clone, Debug, PartialEq, Eq, Structural)]
pub enum ExprKind {
    Add,
    Sub,
    Mul,
    Div,
    Not,
    Neg,
    Block,
    BlockEnd,
    Ident,
    IntLit,
    Dot,
    Field,
    Call,
    CallEnd,
    Str,
    I32Keyword,
    TypeKeyword,
}

#[derive(Copy, Clone, Debug, PartialEq, Eq, Structural)]
pub enum NodeKind {
    FileBegin,
    FileEnd,
    Pub,
    Struct,
    StructBodyBegin,
    StructFieldIdent,
    StructFieldComma,
    StructBodyEnd,
    Fn,
    FnIdent,
    FnParams,
    FnParamsIdent,
    FnParamsEnd,
    FnBodyBegin,
    FnBodyEnd,
    Let,
    LetIdent,
    LetEq,
    Const,
    ConstIdent,
    ConstEq,
    Expr(ExprKind),
    BuiltinAmpersand,
    BuiltinIdent,
    EndOfExpr,
}

/// Kinds whose token is a name.
pub open spec fn spec_is_ident(kind: NodeKind) -> bool {
    ||| kind == NodeKind::StructFieldIdent
    ||| kind == NodeKind::FnIdent
    ||| kind == NodeKind::FnParamsIdent
    ||| kind == NodeKind::LetIdent
    ||| kind == NodeKind::ConstIdent
    ||| kind == NodeKind::Expr(ExprKind::Ident)
    ||| kind == NodeKind::BuiltinIdent
}

/// Kinds that stand for a token of the source; the file's begin and end stand for none.
pub open spec fn spec_has_token(kind: NodeKind) -> bool {
    kind != NodeKind::FileBegin && kind != NodeKind::FileEnd
}

impl NodeKind {
    pub fn is_ident(self) -> (r: bool)
        ensures
            r == spec_is_ident(self),
    {
        match self {
            NodeKind::StructFieldIdent | NodeKind::FnIdent | NodeKind::FnParamsIdent
            | NodeKind::LetIdent | NodeKind::ConstIdent | NodeKind::Expr(ExprKind::Ident)
            | NodeKind::BuiltinIdent => true,
            _ => false,
        }
    }

    pub fn has_token(self) -> (r: bool)
        ensures
            r == spec_has_token(self),
    {
        match self {
            NodeKind::FileBegin | NodeKind::FileEnd => false,
            _ => true,
        }
    }
}

/// Node kinds and their tokens, side by side.
#[derive(Debug)]
pub struct Nodes {
    pub nodes: Vec<NodeKind>,
    pub tokens: Vec<Token>,
}

impl Nodes {
    /// Appends a node.
    pub fn push(&mut self, token: Token, node_kind: NodeKind)
        ensures
            final(self).nodes@ == old(self).nodes@.push(node_kind),
            final(self).tokens@ == old(self).tokens@.push(token),
    {
        self.nodes.push(node_kind);
        self.tokens.push(token);
    }
}

} // verus!
