//! Nodes produced by the parser.
use crate::index::Idx;
use crate::tokenize::Token;
use vstd::prelude::*;

verus! {

/// A node index.
#[derive(Copy, Clone, Debug, Default, PartialEq, Eq, Structural, Hash, PartialOrd, Ord)]
pub struct Node(pub u32);

/// A syntactic reference: one use of a name.
#[derive(Copy, Clone, Debug, Default, PartialEq, Eq, Structural, Hash, PartialOrd, Ord)]
pub struct SynRef(pub u32);

impl Idx for Node {
    proof fn lemma_index_determines(a: Self, b: Self) {
        assert(a.0 == b.0);
    }

    open spec fn spec_index(self) -> nat {
        self.0 as nat
    }

    fn from_usize(i: usize) -> (r: Self) {
        Node(i as u32)
    }

    fn index(self) -> (r: usize) {
        self.0 as usize
    }
}

impl Idx for SynRef {
    proof fn lemma_index_determines(a: Self, b: Self) {
        assert(a.0 == b.0);
    }

    open spec fn spec_index(self) -> nat {
        self.0 as nat
    }

    fn from_usize(i: usize) -> (r: Self) {
        SynRef(i as u32)
    }

    fn index(self) -> (r: usize) {
        self.0 as usize
    }
}

/// A node: its kind, and the token it was made from.
#[derive(Copy, Clone, Debug, PartialEq, Eq, Structural)]
pub struct NodeImpl {
    pub token: Token,
    pub kind: NodeKind,
}

#[derive(Copy, Clone, Debug, PartialEq, Eq, Structural)]
pub enum NodeKind {
    Pub,
    Struct,
    StructBodyBegin,
    StructFieldIdent,
    StructFieldComma,
    StructBodyEnd,
    Fn,
    FnIdent,
    FnParams,
    FnParamsIdent,
    FnParamsEnd,
    FnBodyBegin,
    FnBodyEnd,
    Let,
    LetIdent,
    LetEq,
    LetSemi,
    Const,
    ConstIdent,
    ConstEq,
    ConstSemi,
    ExprAdd,
    ExprSub,
    ExprMul,
    ExprDiv,
    ExprNot,
    ExprNeg,
    ExprBlock,
    ExprBlockEnd,
    ExprIdent(SynRef),
    ExprInt,
    ExprDot,
    ExprField,
    ExprCall,
    ExprCallComma,
    ExprCallEnd,
    ExprStr,
    ExprI32Keyword,
    ExprTypeKeyword,
    BuiltinAmpersand,
    BuiltinIdent,
}

/// Kinds that open a nested part of the tree.
pub open spec fn spec_is_introducer(kind: NodeKind) -> bool {
    ||| kind == NodeKind::Struct
    ||| kind == NodeKind::StructFieldIdent
    ||| kind == NodeKind::Fn
    ||| kind == NodeKind::FnParams
    ||| kind == NodeKind::ExprBlock
    ||| kind == NodeKind::ExprCall
}

/// Kinds that close a nested part of the tree.
pub open spec fn spec_is_terminator(kind: NodeKind) -> bool {
    ||| kind == NodeKind::StructBodyEnd
    ||| kind == NodeKind::StructFieldComma
    ||| kind == NodeKind::FnBodyEnd
    ||| kind == NodeKind::FnParamsEnd
    ||| kind == NodeKind::ExprBlockEnd
    ||| kind == NodeKind::ExprCallEnd
}

impl NodeKind {
    pub fn is_introducer(self) -> (r: bool)
        ensures
            r == spec_is_introducer(self),
    {
        match self {
            NodeKind::Struct | NodeKind::StructFieldIdent | NodeKind::Fn | NodeKind::FnParams
            | NodeKind::ExprBlock | NodeKind::ExprCall => true,
            _ => false,
        }
    }

    pub fn is_terminator(self) -> (r: bool)
        ensures
            r == spec_is_terminator(self),
    {
        match self {
            NodeKind::StructBodyEnd | NodeKind::StructFieldComma | NodeKind::FnBodyEnd
            | NodeKind::FnParamsEnd | NodeKind::ExprBlockEnd | NodeKind::ExprCallEnd => true,
            _ => false,
        }
    }
}

} // verus!
