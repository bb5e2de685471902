//! What the language server knows of one document: where its tokens lie, its Ouro parse, which
//! token is which use of a name, and what each use resolves to in the Ouro resolution of the
//! whole file.
use crate::index::MAX_INDEX;
use crate::parse::{
    count_uses, never_below_zero, parse, scope_change, scope_depth, spec_parse, uses_numbered,
    Error as ParseError, PState, Parse,
};
use crate::parse_node::{Node, NodeImpl, NodeKind, SynRef};
use crate::parse_types::{ExprKind, NodeKind as FileKind, Nodes};
use crate::resolve::{
    lemma_resolution_runs, lemma_resolution_sound, node_names, open_scopes, ref_nodes, refs_view,
    resolution, resolve_checked, scope_step, spec_classify, use_ok, Inst, RefView, Resolve,
};
use crate::span::{utf8_len, Byte, Utf16Char};
use crate::token_sum_tree::{
    before, position_at, rc, token_at, token_at_from, token_moves, Move, RowColDelta, TokenSourceMap,
};
use crate::tokenize::{
    lex, span_text, spans_fit, spans_nonempty, spec_span, tokenize, Spans, Token, TokenImpl,
    Tokenize,
};
use std::collections::HashMap;
use vstd::prelude::*;
use vstd::string::StringSliceAdditionalSpecFns;
use vstd::utf8::encode_utf8;

verus! {

broadcast use vstd::std_specs::hash::group_hash_axioms;

/// The kind of each token of `cs`.
pub open spec fn token_kinds(cs: Seq<char>) -> Seq<TokenImpl> {
    Seq::new(lex(cs).len(), |k: int| lex(cs)[k].0)
}

/// Where each token of `cs` ends, as a byte offset.
pub open spec fn token_ends(cs: Seq<char>) -> Seq<Byte> {
    Seq::new(lex(cs).len(), |k: int| Byte(utf8_len(cs.take(lex(cs)[k].1)) as u32))
}

/// The parse of the tokens of `cs`.
pub open spec fn source_parse(cs: Seq<char>) -> (PState, Result<(), ParseError>) {
    spec_parse(token_kinds(cs))
}

/// How name resolution reads a node kind of the parser.
pub open spec fn file_kind(kind: NodeKind) -> FileKind {
    match kind {
        NodeKind::Pub => FileKind::Pub,
        NodeKind::Struct => FileKind::Struct,
        NodeKind::StructBodyBegin => FileKind::StructBodyBegin,
        NodeKind::StructFieldIdent => FileKind::StructFieldIdent,
        NodeKind::StructFieldComma => FileKind::StructFieldComma,
        NodeKind::StructBodyEnd => FileKind::StructBodyEnd,
        NodeKind::Fn => FileKind::Fn,
        NodeKind::FnIdent => FileKind::FnIdent,
        NodeKind::FnParams => FileKind::FnParams,
        NodeKind::FnParamsIdent => FileKind::FnParamsIdent,
        NodeKind::FnParamsEnd => FileKind::FnParamsEnd,
        NodeKind::FnBodyBegin => FileKind::FnBodyBegin,
        NodeKind::FnBodyEnd => FileKind::FnBodyEnd,
        NodeKind::Let => FileKind::Let,
        NodeKind::LetIdent => FileKind::LetIdent,
        NodeKind::LetEq => FileKind::LetEq,
        NodeKind::LetSemi => FileKind::EndOfExpr,
        NodeKind::Const => FileKind::Const,
        NodeKind::ConstIdent => FileKind::ConstIdent,
        NodeKind::ConstEq => FileKind::ConstEq,
        NodeKind::ConstSemi => FileKind::EndOfExpr,
        NodeKind::ExprAdd => FileKind::Expr(ExprKind::Add),
        NodeKind::ExprSub => FileKind::Expr(ExprKind::Sub),
        NodeKind::ExprMul => FileKind::Expr(ExprKind::Mul),
        NodeKind::ExprDiv => FileKind::Expr(ExprKind::Div),
        NodeKind::ExprNot => FileKind::Expr(ExprKind::Not),
        NodeKind::ExprNeg => FileKind::Expr(ExprKind::Neg),
        NodeKind::ExprBlock => FileKind::Expr(ExprKind::Block),
        NodeKind::ExprBlockEnd => FileKind::Expr(ExprKind::BlockEnd),
        NodeKind::ExprIdent(_) => FileKind::Expr(ExprKind::Ident),
        NodeKind::ExprInt => FileKind::Expr(ExprKind::IntLit),
        NodeKind::ExprDot => FileKind::Expr(ExprKind::Dot),
        NodeKind::ExprField => FileKind::Expr(ExprKind::Field),
        NodeKind::ExprCall => FileKind::Expr(ExprKind::Call),
        NodeKind::ExprCallComma => FileKind::EndOfExpr,
        NodeKind::ExprCallEnd => FileKind::Expr(ExprKind::CallEnd),
        NodeKind::ExprStr => FileKind::Expr(ExprKind::Str),
        NodeKind::ExprI32Keyword => FileKind::Expr(ExprKind::I32Keyword),
        NodeKind::ExprTypeKeyword => FileKind::Expr(ExprKind::TypeKeyword),
        NodeKind::BuiltinAmpersand => FileKind::BuiltinAmpersand,
        NodeKind::BuiltinIdent => FileKind::BuiltinIdent,
    }
}

/// Name resolution reads `kind` as the end of an expression: the `;` of a `let` or a `const`,
/// and the `,` between the arguments of a call.
pub open spec fn ends_expr(kind: NodeKind) -> bool {
    kind is LetSemi || kind is ConstSemi || kind is ExprCallComma
}

/// Name resolution tells every two parser node kinds apart, but for two uses of names and two
/// ends of expressions: no kind is read as the kind of another.
pub proof fn lemma_file_kind_distinct(a: NodeKind, b: NodeKind)
    requires
        file_kind(a) == file_kind(b),
    ensures
        a == b || (a is ExprIdent && b is ExprIdent) || (ends_expr(a) && ends_expr(b)),
{
}

/// The nodes of a whole file as name resolution reads them: the parsed nodes, between a node
/// that opens the file's scope and one that closes it (both on the first token). Parsed node
/// `i` is node `i + 1` here.
pub open spec fn file_kinds(nodes: Seq<NodeImpl>) -> Seq<FileKind> {
    seq![FileKind::FileBegin] + nodes.map_values(|n: NodeImpl| file_kind(n.kind)) + seq![
        FileKind::FileEnd,
    ]
}

/// The tokens of [`file_kinds`].
pub open spec fn file_tokens(nodes: Seq<NodeImpl>) -> Seq<Token> {
    seq![Token(0)] + nodes.map_values(|n: NodeImpl| n.token) + seq![Token(0)]
}

/// The resolution of the uses of names in the parse of `cs`.
pub open spec fn source_resolution(cs: Seq<char>) -> Option<Seq<RefView>> {
    resolution(
        file_kinds(source_parse(cs).0.nodes),
        node_names(file_tokens(source_parse(cs).0.nodes), token_ends(cs), encode_utf8(cs)),
    )
}

/// `cs` can be analysed: its nodes, with the two of the file, fit the 32-bit node indices, and
/// where it parses, resolution runs to the end.
pub open spec fn analyzable(cs: Seq<char>) -> bool {
    &&& source_parse(cs).0.nodes.len() + 2 < MAX_INDEX
    &&& source_parse(cs).1 is Ok ==> source_resolution(cs) is Some
}

/// Which use of a name each token is, over the uses among `nodes`; where two uses share a
/// token, the later one is kept.
pub open spec fn syn_ref_map(nodes: Seq<NodeImpl>) -> Map<u32, SynRef>
    decreases nodes.len(),
{
    if nodes.len() == 0 {
        Map::empty()
    } else {
        match nodes.last().kind {
            NodeKind::ExprIdent(syn_ref) => syn_ref_map(nodes.drop_last()).insert(
                nodes.last().token.0,
                syn_ref,
            ),
            _ => syn_ref_map(nodes.drop_last()),
        }
    }
}

/// Node kinds that define a name.
pub open spec fn is_definition(kind: NodeKind) -> bool {
    spec_classify(file_kind(kind)) == Some(Inst::Def)
}

/// The analysis of one document.
pub struct Analysis {
    pub source_map: TokenSourceMap,
    pub parse: Parse,
    /// Given a token (by its index), is it a use of a name, and which one?
    pub token_to_syn_ref: HashMap<u32, SynRef>,
    /// What each use resolves to, where the document parses.
    pub resolve: Option<Resolve>,
}

impl Analysis {
    /// `self` is the analysis of `cs`.
    pub open spec fn analyzes(&self, cs: Seq<char>) -> bool {
        let p = source_parse(cs);
        &&& self.source_map@ == token_moves(token_kinds(cs), token_ends(cs), encode_utf8(cs))
        &&& self.parse.nodes@ == p.0.nodes
        &&& self.parse.syn_refs.next.0 == p.0.syn
        &&& self.parse.ok == p.1
        &&& self.token_to_syn_ref@ == syn_ref_map(p.0.nodes)
        &&& (self.resolve is Some <==> p.1 is Ok)
        &&& self.resolve is Some ==> source_resolution(cs) is Some && refs_view(
            self.resolve->0.refs@,
        ) == source_resolution(cs).unwrap()
    }

    /// The parts agree: positions can be looked up, each node is for a token, and the uses of
    /// names are numbered in order.
    pub open spec fn wf(&self) -> bool {
        &&& self.source_map.wf()
        &&& self.source_map@.len() < MAX_INDEX
        &&& forall|i: int|
            0 <= i < self.parse.nodes@.len() ==> (#[trigger] self.parse.nodes@[i]).token.0
                < self.source_map@.len()
        &&& uses_numbered(self.parse.nodes@)
    }

    /// The node that defines what the use of a name at position `p` refers to: `None` when no
    /// token is there, the token there is not a use, the document did not parse, or the use
    /// refers to no definition (it points to where its scope opened).
    pub open spec fn definition_at(&self, p: Move) -> Option<Node> {
        match token_at(self.source_map@, p) {
            None => None,
            Some(t) => if self.token_to_syn_ref@.contains_key(t as u32) {
                let r = self.token_to_syn_ref@[t as u32].0 as int;
                match self.resolve {
                    Some(res) => if r < res.refs@.len() {
                        let n = res.refs@[r].node.0 as int;
                        if 1 <= n <= self.parse.nodes@.len() && is_definition(
                            self.parse.nodes@[n - 1].kind,
                        ) {
                            Some(Node((n - 1) as u32))
                        } else {
                            None
                        }
                    } else {
                        None
                    },
                    None => None,
                }
            } else {
                None
            },
        }
    }
}

proof fn lemma_end_at_least(ends: Seq<Byte>, k: int)
    requires
        0 <= k < ends.len(),
        forall|j: int| 0 <= j < ends.len() - 1 ==> (#[trigger] ends[j]).0 < ends[j + 1].0,
        spans_nonempty(ends),
    ensures
        ends[k].0 >= k + 1,
    decreases k,
{
    if k == 0 {
        assert(spec_span(0, ends).start.0 < spec_span(0, ends).end.0);
    } else {
        lemma_end_at_least(ends, k - 1);
        assert(ends[k - 1].0 < ends[k - 1 + 1].0);
    }
}

/// Which use of a name each token is, for the uses among `nodes`.
fn index_uses(nodes: &Vec<NodeImpl>) -> (r: HashMap<u32, SynRef>)
    ensures
        r@ == syn_ref_map(nodes@),
{
    let mut map: HashMap<u32, SynRef> = HashMap::new();
    let mut i: usize = 0;
    while i < nodes.len()
        invariant
            i <= nodes@.len(),
            map@ == syn_ref_map(nodes@.take(i as int)),
        decreases nodes@.len() - i,
    {
        let node = nodes[i];
        proof {
            assert(nodes@.take(i + 1).drop_last() =~= nodes@.take(i as int));
            assert(nodes@.take(i + 1).last() == node);
        }
        match node.kind {
            NodeKind::ExprIdent(syn_ref) => {
                map.insert(node.token.0, syn_ref);
            },
            _ => {},
        }
        i = i + 1;
    }
    proof {
        assert(nodes@.take(i as int) =~= nodes@);
    }
    map
}

/// A token found at a position is one of the tokens.
proof fn lemma_token_at_from_bound(ds: Seq<Move>, p: Move, t: int)
    ensures
        token_at_from(ds, p, t) is Some ==> (token_at_from(ds, p, t)->0 as int) < ds.len(),
    decreases ds.len() - t,
{
    if 0 <= t < ds.len() && !before(p, position_at(ds, t + 1)) {
        lemma_token_at_from_bound(ds, p, t + 1);
    }
}

/// The node that made token `t` a use in [`syn_ref_map`].
proof fn lemma_syn_ref_map_entry(nodes: Seq<NodeImpl>, t: u32) -> (i: int)
    requires
        syn_ref_map(nodes).contains_key(t),
    ensures
        0 <= i < nodes.len(),
        nodes[i].token.0 == t,
        nodes[i].kind == NodeKind::ExprIdent(syn_ref_map(nodes)[t]),
    decreases nodes.len(),
{
    let last = nodes.last();
    if last.kind is ExprIdent && last.token.0 == t {
        (nodes.len() - 1) as int
    } else {
        let i = lemma_syn_ref_map_entry(nodes.drop_last(), t);
        assert(nodes.drop_last()[i] == nodes[i]);
        i
    }
}


/// The node of [`file_kinds`] that the `r`-th use among `nodes` is.
proof fn lemma_file_uses(nodes: Seq<NodeImpl>, k: int)
    requires
        0 <= k <= nodes.len(),
    ensures
        ref_nodes(file_kinds(nodes), k + 1).len() == count_uses(nodes.take(k)),
        forall|j: int|
            0 <= j < k && (#[trigger] nodes[j]).kind is ExprIdent ==> ref_nodes(
                file_kinds(nodes),
                k + 1,
            )[count_uses(nodes.take(j)) as int] == j + 1,
    decreases k,
{
    let kinds = file_kinds(nodes);
    if k == 0 {
        assert(kinds[0] == FileKind::FileBegin);
        assert(spec_classify(kinds[0]) == Some(Inst::Open));
        assert(ref_nodes(kinds, 1) == ref_nodes(kinds, 0));
        assert(nodes.take(0) =~= Seq::<NodeImpl>::empty());
        assert(count_uses(nodes.take(0)) == 0);
    } else {
        lemma_file_uses(nodes, k - 1);
        assert(kinds[k] == file_kind(nodes[k - 1].kind));
        assert(nodes.take(k).drop_last() =~= nodes.take(k - 1));
        assert(nodes.take(k).last() == nodes[k - 1]);
        let prev = ref_nodes(kinds, k);
        let cur = ref_nodes(kinds, k + 1);
        if nodes[k - 1].kind is ExprIdent {
            assert(spec_classify(kinds[k]) == Some(Inst::Ref));
            assert(cur == prev.push(k));
            assert(count_uses(nodes.take(k)) == count_uses(nodes.take(k - 1)) + 1);
        } else {
            assert(spec_classify(kinds[k]) != Some(Inst::Ref));
            assert(cur == prev);
            assert(count_uses(nodes.take(k)) == count_uses(nodes.take(k - 1)));
        }
        assert forall|j: int|
            0 <= j < k && (#[trigger] nodes[j]).kind is ExprIdent implies cur[count_uses(
            nodes.take(j),
        ) as int] == j + 1 by {
            if j < k - 1 {
                lemma_count_uses_prefix(nodes, j, k - 1);
                assert(cur[count_uses(nodes.take(j)) as int] == prev[count_uses(nodes.take(j)) as int]);
            }
        }
    }
}

/// Uses before node `j` are no more than those before node `k`, and fewer when node `j` is a use.
proof fn lemma_count_uses_prefix(nodes: Seq<NodeImpl>, j: int, k: int)
    requires
        0 <= j <= k <= nodes.len(),
    ensures
        count_uses(nodes.take(j)) <= count_uses(nodes.take(k)),
        j < k && nodes[j].kind is ExprIdent ==> count_uses(nodes.take(j)) < count_uses(nodes.take(k)),
    decreases k - j,
{
    if j < k {
        lemma_count_uses_prefix(nodes, j + 1, k);
        assert(nodes.take(j + 1).drop_last() =~= nodes.take(j));
        assert(nodes.take(j + 1).last() == nodes[j]);
    }
}

/// The scopes open after the first `j + 1` nodes of [`file_kinds`]: the file's, and those open
/// after the first `j` parsed nodes.
proof fn lemma_file_scopes(nodes: Seq<NodeImpl>, j: int)
    requires
        0 <= j <= nodes.len(),
    ensures
        open_scopes(file_kinds(nodes), j + 1) == 1 + scope_depth(nodes, j),
    decreases j,
{
    let kinds = file_kinds(nodes);
    assert(kinds[0] == FileKind::FileBegin);
    assert(open_scopes(kinds, 1) == open_scopes(kinds, 0) + scope_step(kinds[0]));
    assert(scope_step(kinds[0]) == 1);
    assert(open_scopes(kinds, j + 1) == open_scopes(kinds, j) + scope_step(kinds[j]));
    if j > 0 {
        lemma_file_scopes(nodes, j - 1);
        assert(kinds[j] == file_kind(nodes[j - 1].kind));
        reveal(scope_change);
        assert(scope_change(nodes[j - 1].kind) == scope_step(kinds[j]));
    }
}

/// Name resolution runs to the end over the nodes of every parse, whether or not the parse
/// succeeded: each scope that a parse closes was opened in it before.
pub proof fn lemma_parse_resolves(nodes: Seq<NodeImpl>, names: Seq<Seq<u8>>)
    requires
        never_below_zero(nodes),
    ensures
        resolution(file_kinds(nodes), names) is Some,
{
    let kinds = file_kinds(nodes);
    let n = nodes.len() as int;
    reveal(never_below_zero);
    assert(kinds[0] == FileKind::FileBegin);
    assert(kinds[n + 1] == FileKind::FileEnd);
    assert forall|j: int| 0 <= j <= kinds.len() implies #[trigger] open_scopes(kinds, j) >= 0 by {
        if 1 <= j <= n + 1 {
            lemma_file_scopes(nodes, j - 1);
            assert(scope_depth(nodes, j - 1) >= 0);
        } else if j == n + 2 {
            lemma_file_scopes(nodes, n);
            assert(scope_depth(nodes, n) >= 0);
        }
    }
    lemma_resolution_runs(kinds, names);
}

/// Going to the definition of a use lands on a node that defines the name written at the
/// position: the source text of the definition's token is the text of the token at `p`.
#[verifier::rlimit(100)]
pub proof fn lemma_definition_named(a: Analysis, cs: Seq<char>, p: Move)
    requires
        a.wf(),
        a.analyzes(cs),
        a.definition_at(p) is Some,
    ensures
        is_definition(a.parse.nodes@[a.definition_at(p).unwrap().0 as int].kind),
        span_text(
            a.parse.nodes@[a.definition_at(p).unwrap().0 as int].token.0 as int,
            token_ends(cs),
            encode_utf8(cs),
        ) == span_text(token_at(a.source_map@, p)->0 as int, token_ends(cs), encode_utf8(cs)),
{
    let nodes = a.parse.nodes@;
    let ends = token_ends(cs);
    let bytes = encode_utf8(cs);
    let kinds = file_kinds(nodes);
    let names = node_names(file_tokens(nodes), ends, bytes);
    let t = token_at(a.source_map@, p)->0;
    lemma_token_at_from_bound(a.source_map@, p, 0);
    let sr = a.token_to_syn_ref@[t as u32];
    let i = lemma_syn_ref_map_entry(nodes, t as u32);
    assert(nodes[i].kind->ExprIdent_0.0 == count_uses(nodes.take(i)));
    let r = sr.0 as int;
    let res = resolution(kinds, names).unwrap();
    let refs = a.resolve->0.refs@;
    assert(refs_view(refs)[r] == res[r]);
    lemma_resolution_sound(kinds, names);
    lemma_file_uses(nodes, nodes.len() as int);
    assert(nodes.take(nodes.len() as int) =~= nodes);
    assert(kinds[nodes.len() + 1int] == FileKind::FileEnd);
    let uses = ref_nodes(kinds, kinds.len() as int);
    assert(uses == ref_nodes(kinds, nodes.len() + 1int));
    assert(uses[r] == i + 1);
    assert(use_ok(kinds, names, uses, res, r));
    let n = refs[r].node.0 as int;
    assert(kinds[n] == file_kind(nodes[n - 1].kind));
    assert(file_tokens(nodes)[n] == nodes[n - 1].token);
    assert(file_tokens(nodes)[i + 1] == nodes[i].token);
}

/// How name resolution reads `kind`.
fn to_file_kind(kind: NodeKind) -> (r: FileKind)
    ensures
        r == file_kind(kind),
{
    match kind {
        NodeKind::Pub => FileKind::Pub,
        NodeKind::Struct => FileKind::Struct,
        NodeKind::StructBodyBegin => FileKind::StructBodyBegin,
        NodeKind::StructFieldIdent => FileKind::StructFieldIdent,
        NodeKind::StructFieldComma => FileKind::StructFieldComma,
        NodeKind::StructBodyEnd => FileKind::StructBodyEnd,
        NodeKind::Fn => FileKind::Fn,
        NodeKind::FnIdent => FileKind::FnIdent,
        NodeKind::FnParams => FileKind::FnParams,
        NodeKind::FnParamsIdent => FileKind::FnParamsIdent,
        NodeKind::FnParamsEnd => FileKind::FnParamsEnd,
        NodeKind::FnBodyBegin => FileKind::FnBodyBegin,
        NodeKind::FnBodyEnd => FileKind::FnBodyEnd,
        NodeKind::Let => FileKind::Let,
        NodeKind::LetIdent => FileKind::LetIdent,
        NodeKind::LetEq => FileKind::LetEq,
        NodeKind::LetSemi => FileKind::EndOfExpr,
        NodeKind::Const => FileKind::Const,
        NodeKind::ConstIdent => FileKind::ConstIdent,
        NodeKind::ConstEq => FileKind::ConstEq,
        NodeKind::ConstSemi => FileKind::EndOfExpr,
        NodeKind::ExprAdd => FileKind::Expr(ExprKind::Add),
        NodeKind::ExprSub => FileKind::Expr(ExprKind::Sub),
        NodeKind::ExprMul => FileKind::Expr(ExprKind::Mul),
        NodeKind::ExprDiv => FileKind::Expr(ExprKind::Div),
        NodeKind::ExprNot => FileKind::Expr(ExprKind::Not),
        NodeKind::ExprNeg => FileKind::Expr(ExprKind::Neg),
        NodeKind::ExprBlock => FileKind::Expr(ExprKind::Block),
        NodeKind::ExprBlockEnd => FileKind::Expr(ExprKind::BlockEnd),
        NodeKind::ExprIdent(_) => FileKind::Expr(ExprKind::Ident),
        NodeKind::ExprInt => FileKind::Expr(ExprKind::IntLit),
        NodeKind::ExprDot => FileKind::Expr(ExprKind::Dot),
        NodeKind::ExprField => FileKind::Expr(ExprKind::Field),
        NodeKind::ExprCall => FileKind::Expr(ExprKind::Call),
        NodeKind::ExprCallComma => FileKind::EndOfExpr,
        NodeKind::ExprCallEnd => FileKind::Expr(ExprKind::CallEnd),
        NodeKind::ExprStr => FileKind::Expr(ExprKind::Str),
        NodeKind::ExprI32Keyword => FileKind::Expr(ExprKind::I32Keyword),
        NodeKind::ExprTypeKeyword => FileKind::Expr(ExprKind::TypeKeyword),
        NodeKind::BuiltinAmpersand => FileKind::BuiltinAmpersand,
        NodeKind::BuiltinIdent => FileKind::BuiltinIdent,
    }
}

/// Whether `kind` defines a name.
fn defines_name(kind: NodeKind) -> (r: bool)
    ensures
        r == is_definition(kind),
{
    match kind {
        NodeKind::FnIdent | NodeKind::FnParamsIdent | NodeKind::LetIdent | NodeKind::ConstIdent => true,
        _ => false,
    }
}

/// The nodes of the whole file, as name resolution reads them.
pub fn file_nodes(nodes: &Vec<NodeImpl>) -> (r: Nodes)
    ensures
        r.nodes@ == file_kinds(nodes@),
        r.tokens@ == file_tokens(nodes@),
{
    let mut out = Nodes { nodes: Vec::new(), tokens: Vec::new() };
    out.push(Token(0), FileKind::FileBegin);
    let mut i: usize = 0;
    while i < nodes.len()
        invariant
            i <= nodes@.len(),
            out.nodes@ == seq![FileKind::FileBegin] + nodes@.take(i as int).map_values(
                |n: NodeImpl| file_kind(n.kind),
            ),
            out.tokens@ == seq![Token(0)] + nodes@.take(i as int).map_values(|n: NodeImpl| n.token),
        decreases nodes@.len() - i,
    {
        let node = nodes[i];
        out.push(node.token, to_file_kind(node.kind));
        proof {
            assert(nodes@.take(i + 1) =~= nodes@.take(i as int).push(node));
            assert(nodes@.take(i + 1).map_values(|n: NodeImpl| file_kind(n.kind)) =~= nodes@.take(
                i as int,
            ).map_values(|n: NodeImpl| file_kind(n.kind)).push(file_kind(node.kind)));
            assert(nodes@.take(i + 1).map_values(|n: NodeImpl| n.token) =~= nodes@.take(
                i as int,
            ).map_values(|n: NodeImpl| n.token).push(node.token));
        }
        i = i + 1;
    }
    out.push(Token(0), FileKind::FileEnd);
    proof {
        assert(nodes@.take(i as int) =~= nodes@);
        assert(out.nodes@ =~= file_kinds(nodes@));
        assert(out.tokens@ =~= file_tokens(nodes@));
    }
    out
}

impl Analysis {
    /// Analyses `source`, or returns `None` where it cannot be analysed (see [`analyzable`]).
    pub fn new_checked(source: String) -> (r: Option<Self>)
        requires
            utf8_len(source@) < MAX_INDEX,
        ensures
            r is Some <==> analyzable(source@),
            r is Some <==> source_parse(source@).0.nodes.len() + 2 < MAX_INDEX,
            r is Some ==> r->0.wf() && r->0.analyzes(source@),
    {
        let s = source.as_str();
        let ghost cs = s@;
        let ghost bytes = s.spec_bytes();
        let tokenize: Tokenize = tokenize(s);
        proof {
            assert(tokenize.tokens@ =~= token_kinds(cs));
            assert(tokenize.spans.ends@ =~= token_ends(cs));
            let n = tokenize.tokens@.len();
            if n > 0 {
                lemma_end_at_least(tokenize.spans.ends@, n - 1);
            }
        }
        let source_map = TokenSourceMap::new(&tokenize, s);
        let parse = parse(tokenize.tokens.as_slice());
        if parse.nodes.len() >= MAX_INDEX - 2 {
            return None;
        }
        let token_to_syn_ref = index_uses(&parse.nodes);
        let resolve = if parse.ok.is_ok() {
            let nodes = file_nodes(&parse.nodes);
            proof {
                let kinds = nodes.nodes@;
                assert forall|i: int|
                    0 <= i < kinds.len() && #[trigger] crate::resolve::has_name(kinds[i]) implies i
                    < nodes.tokens@.len() && nodes.tokens@[i].0 < tokenize.spans.ends@.len() by {
                    if 1 <= i <= parse.nodes@.len() {
                        assert(nodes.tokens@[i] == parse.nodes@[i - 1].token);
                    }
                }
                lemma_parse_resolves(
                    parse.nodes@,
                    node_names(nodes.tokens@, tokenize.spans.ends@, s.spec_bytes()),
                );
            }
            match resolve_checked(&nodes, &tokenize.spans, s) {
                Some(resolve) => Some(resolve),
                None => {
                    return None;
                },
            }
        } else {
            None
        };
        Some(Analysis { source_map, parse, token_to_syn_ref, resolve })
    }

    /// Analyses `source`.
    pub fn new(source: String) -> (r: Self)
        requires
            utf8_len(source@) < MAX_INDEX,
            source_parse(source@).0.nodes.len() + 2 < MAX_INDEX,
        ensures
            r.wf(),
            r.analyzes(source@),
    {
        Self::new_checked(source).unwrap()
    }

    /// The node that defines what the use of a name at `position` refers to (see
    /// [`Analysis::definition_at`]).
    pub fn def_at(&self, position: RowColDelta<Utf16Char>) -> (r: Option<Node>)
        requires
            self.wf(),
        ensures
            r == self.definition_at(rc(position)),
    {
        let token = match self.source_map.position_to_token(position) {
            Some(token) => token,
            None => {
                return None;
            },
        };
        let syn_ref = match self.token_to_syn_ref.get(&token.0) {
            Some(syn_ref) => *syn_ref,
            None => {
                return None;
            },
        };
        match &self.resolve {
            Some(resolve) => {
                let r = syn_ref.0 as usize;
                if r >= resolve.refs.len() {
                    return None;
                }
                let n = resolve.refs[r].node.0 as usize;
                if 1 <= n && n <= self.parse.nodes.len() && defines_name(self.parse.nodes[n - 1].kind) {
                    Some(Node((n - 1) as u32))
                } else {
                    None
                }
            },
            None => None,
        }
    }

    /// Where the definition that the use of a name at `position` refers to starts.
    pub fn definition_position(&self, position: RowColDelta<Utf16Char>) -> (r: Option<
        RowColDelta<Utf16Char>,
    >)
        requires
            self.wf(),
        ensures
            match self.definition_at(rc(position)) {
                Some(def) => r is Some && rc(r->0) == position_at(
                    self.source_map@,
                    self.parse.nodes@[def.0 as int].token.0 as int,
                ),
                None => r is None,
            },
    {
        match self.def_at(position) {
            Some(def) => {
                let node_impl = self.parse.nodes[def.0 as usize];
                Some(self.source_map.token_to_position(node_impl.token))
            },
            None => None,
        }
    }
}

} // verus!
