//! Nodes produced by the parser.
use crate::index::Idx;
use crate::tokenize::Token;
use vstd::prelude::*;

pub use crate::index::Counter;

verus! {

/// A node index.
#[derive(Copy, Clone, Debug, Default, PartialEq, Eq, Structural, Hash, PartialOrd, Ord)]
pub struct Node(pub u32);

/// A nominal type: one `struct` in the source.
#[derive(Copy, Clone, Debug, Default, PartialEq, Eq, Structural, Hash, PartialOrd, Ord)]
pub struct Nominal(pub u32);

/// A capture.
#[derive(Copy, Clone, Debug, Default, PartialEq, Eq, Structural, Hash, PartialOrd, Ord)]
pub struct Capture(pub u32);

/// A syntactic reference: one use of a name.
#[derive(Copy, Clone, Debug, Default, PartialEq, Eq, Structural, Hash, PartialOrd, Ord)]
pub struct SynRef(pub u32);

/// A syntactic definition: one place where a name is defined.
#[derive(Copy, Clone, Debug, Default, PartialEq, Eq, Structural, Hash, PartialOrd, Ord)]
pub struct SynDef(pub u32);

/// A semantic reference: one field access.
#[derive(Copy, Clone, Debug, Default, PartialEq, Eq, Structural, Hash, PartialOrd, Ord)]
pub struct SemRef(pub u32);

impl Idx for Node {
    proof fn lemma_index_determines(a: Self, b: Self) {
        assert(a.0 == b.0);
    }

    open spec fn spec_index(self) -> nat {
        self.0 as nat
    }

    fn from_usize(i: usize) -> (r: Self) {
        Node(i as u32)
    }

    fn index(self) -> (r: usize) {
        self.0 as usize
    }
}

impl Idx for Nominal {
    proof fn lemma_index_determines(a: Self, b: Self) {
        assert(a.0 == b.0);
    }

    open spec fn spec_index(self) -> nat {
        self.0 as nat
    }

    fn from_usize(i: usize) -> (r: Self) {
        Nominal(i as u32)
    }

    fn index(self) -> (r: usize) {
        self.0 as usize
    }
}

impl Idx for SynRef {
    proof fn lemma_index_determines(a: Self, b: Self) {
        assert(a.0 == b.0);
    }

    open spec fn spec_index(self) -> nat {
        self.0 as nat
    }

    fn from_usize(i: usize) -> (r: Self) {
        SynRef(i as u32)
    }

    fn index(self) -> (r: usize) {
        self.0 as usize
    }
}

impl Idx for SynDef {
    proof fn lemma_index_determines(a: Self, b: Self) {
        assert(a.0 == b.0);
    }

    open spec fn spec_index(self) -> nat {
        self.0 as nat
    }

    fn from_usize(i: usize) -> (r: Self) {
        SynDef(i as u32)
    }

    fn index(self) -> (r: usize) {
        self.0 as usize
    }
}

impl Idx for SemRef {
    proof fn lemma_index_determines(a: Self, b: Self) {
        assert(a.0 == b.0);
    }

    open spec fn spec_index(self) -> nat {
        self.0 as nat
    }

    fn from_usize(i: usize) -> (r: Self) {
        SemRef(i as u32)
    }

    fn index(self) -> (r: usize) {
        self.0 as usize
    }
}

/// A node: its kind, and the token it was made from.
#[derive(Copy, Clone, Debug, PartialEq, Eq, Structural)]
pub struct NodeImpl {
    pub token: Token,
    /// Terminators record the size of the subtree they close.
    pub kind: NodeKind,
}

/// How many entries a subtree has at its own level: its introducer and its direct children,
/// a nested subtree counting once.
#[derive(Copy, Clone, Debug, PartialEq, Eq, Structural)]
pub struct SubtreeSize(pub u32);

#[derive(Copy, Clone, Debug, PartialEq, Eq, Structural)]
pub enum NodeKind {
    Struct(Nominal),
    StructIdent(SynDef),
    StructBody,
    StructFieldIdent,
    StructFieldColon,
    StructFieldComma(SubtreeSize),
    StructBodyEnd(SubtreeSize),
    Fn,
    FnIdent(SynDef),
    FnParams,
    FnParamsParam(SynDef),
    FnParamsEnd(SubtreeSize),
    FnBody,
    FnBodyEnd(SubtreeSize),
    Let,
    LetIdent(SynDef),
    LetEq,
    LetSemi,
    ExprAdd,
    ExprSub,
    ExprMul,
    ExprDiv,
    ExprNot,
    ExprNeg,
    ExprBlock,
    ExprBlockEnd(SubtreeSize),
    ExprIdent(SynRef),
    ExprInt,
    ExprDot,
    ExprField(SemRef),
    ExprCall,
    ExprCallComma,
    ExprCallEnd(SubtreeSize),
}

/// The subtree size a node records, if it is a terminator that records one.
pub open spec fn spec_subtree_size(kind: NodeKind) -> Option<SubtreeSize> {
    match kind {
        NodeKind::StructBodyEnd(s) => Some(s),
        NodeKind::FnParamsEnd(s) => Some(s),
        NodeKind::FnBodyEnd(s) => Some(s),
        NodeKind::ExprBlockEnd(s) => Some(s),
        NodeKind::ExprCallEnd(s) => Some(s),
        _ => None,
    }
}

impl NodeKind {
    pub fn subtree_size(self) -> (r: Option<SubtreeSize>)
        ensures
            r == spec_subtree_size(self),
    {
        match self {
            NodeKind::StructBodyEnd(subtree_size) | NodeKind::FnParamsEnd(subtree_size)
            | NodeKind::FnBodyEnd(subtree_size) | NodeKind::ExprBlockEnd(subtree_size)
            | NodeKind::ExprCallEnd(subtree_size) => Some(subtree_size),
            _ => None,
        }
    }
}

} // verus!
