//! Name resolution over parsed nodes: every use of a name is linked to the definition it
//! refers to, or, when none is in sight, to the node where its innermost scope opened.
//!
//! Definitions are visible in the whole scope they are made in, before and after them. When a
//! scope closes, each of its definitions, the last one first, claims the uses of its name that
//! were made inside the scope and are still unclaimed. Uses of one name are chained, newest
//! first, while they wait for a definition.
use crate::index::{Idx, MaxOr, MAX_INDEX};
use crate::intern::{distinct, intern, texts};
use crate::parse_types::{ExprKind, Node, NodeKind, Nodes};
use crate::tokenize::{span_text, spans_fit, Spans, Token};
use vstd::prelude::*;
use vstd::string::StringSliceAdditionalSpecFns;

verus! {

/// A use of a name, numbered in node order.
#[derive(Copy, Clone, Debug, Default, PartialEq, Eq, Structural, Hash, PartialOrd, Ord)]
pub struct Ref(pub u32);

impl Idx for Ref {
    proof fn lemma_index_determines(a: Self, b: Self) {
        assert(a.0 == b.0);
    }

    open spec fn spec_index(self) -> nat {
        self.0 as nat
    }

    fn from_usize(i: usize) -> (r: Self) {
        Ref(i as u32)
    }

    fn index(self) -> (r: usize) {
        self.0 as usize
    }
}

#[derive(Copy, Clone, Debug)]
pub struct RefImpl {
    /// Either points to a Def or where the scope opened.
    pub node: Node,
    /// Linked list of other references to the same def.
    pub next: MaxOr<Ref>,
}

/// What a node means to name resolution.
#[derive(Copy, Clone, Debug, PartialEq, Eq, Structural)]
pub enum Inst {
    Ref,
    Def,
    Open,
    Close,
}

/// What a node of kind `kind` means to name resolution, if anything.
pub open spec fn spec_classify(kind: NodeKind) -> Option<Inst> {
    match kind {
        NodeKind::FnIdent | NodeKind::FnParamsIdent | NodeKind::LetIdent
        | NodeKind::ConstIdent => Some(Inst::Def),
        NodeKind::Expr(ExprKind::Ident) => Some(Inst::Ref),
        NodeKind::FileBegin | NodeKind::StructBodyBegin | NodeKind::FnParams | NodeKind::Expr(
            ExprKind::Block,
        ) => Some(Inst::Open),
        NodeKind::FileEnd | NodeKind::StructBodyEnd | NodeKind::FnBodyEnd | NodeKind::Expr(
            ExprKind::BlockEnd,
        ) => Some(Inst::Close),
        _ => None,
    }
}

impl Inst {
    fn classify(node_kind: NodeKind) -> (r: Option<Self>)
        ensures
            r == spec_classify(node_kind),
    {
        match node_kind {
            // Def
            NodeKind::FnIdent | NodeKind::FnParamsIdent | NodeKind::LetIdent
            | NodeKind::ConstIdent => Some(Inst::Def),
            // Ref
            NodeKind::Expr(ExprKind::Ident) => Some(Inst::Ref),
            // Open
            NodeKind::FileBegin | NodeKind::StructBodyBegin | NodeKind::FnParams | NodeKind::Expr(
                ExprKind::Block,
            ) => Some(Inst::Open),
            // Close
            NodeKind::FileEnd | NodeKind::StructBodyEnd | NodeKind::FnBodyEnd | NodeKind::Expr(
                ExprKind::BlockEnd,
            ) => Some(Inst::Close),
            // Everything else
            _ => None,
        }
    }
}

/// A use of a name as the resolver records it: the node it points to, and the previous use of
/// the same name that was still unclaimed when it was made (`MAX_INDEX` for none).
pub type RefView = (int, int);

/// The resolver's state after some nodes: where the innermost scope opened, the stack of
/// definitions and of where the enclosing scopes opened, the uses so far, and for each name
/// its unclaimed uses, newest first.
pub struct ScanState {
    pub top: int,
    pub stack: Seq<int>,
    pub refs: Seq<RefView>,
    pub pending: Map<Seq<u8>, Seq<int>>,
}

/// The unclaimed uses of `name`, newest first.
pub open spec fn pending_of(st: ScanState, name: Seq<u8>) -> Seq<int> {
    if st.pending.dom().contains(name) {
        st.pending[name]
    } else {
        Seq::empty()
    }
}

/// The first of `p`, or `MAX_INDEX` when `p` is empty.
pub open spec fn head_of(p: Seq<int>) -> int {
    if p.len() == 0 {
        MAX_INDEX as int
    } else {
        p[0]
    }
}

/// Definition `def` claims, from the newest on, the uses in `p` made since the scope that
/// opened at `top`: it becomes what they point to. Returns the uses and what is left of `p`.
pub open spec fn claim(refs: Seq<RefView>, p: Seq<int>, top: int, def: int) -> (Seq<RefView>, Seq<int>)
    decreases p.len(),
{
    if p.len() == 0 || refs[p[0]].0 < top {
        (refs, p)
    } else {
        claim(refs.update(p[0], (def, refs[p[0]].1)), p.drop_first(), top, def)
    }
}

/// Closes the innermost scope: its definitions, the last one first, claim their uses, and the
/// enclosing scope becomes the innermost one. `None` when no scope is open.
pub open spec fn close(kinds: Seq<NodeKind>, names: Seq<Seq<u8>>, st: ScanState) -> Option<ScanState>
    decreases st.stack.len(),
{
    if st.stack.len() == 0 {
        None
    } else {
        let n = st.stack.last();
        let rest = ScanState { stack: st.stack.drop_last(), ..st };
        if !(0 <= n < kinds.len()) {
            None
        } else {
            match spec_classify(kinds[n]) {
                Some(Inst::Open) => Some(ScanState { top: n, ..rest }),
                Some(Inst::Def) => {
                    let name = names[n];
                    let (refs, p) = claim(rest.refs, pending_of(rest, name), rest.top, n);
                    close(kinds, names, ScanState { refs, pending: rest.pending.insert(name, p), ..rest })
                },
                _ => None,
            }
        }
    }
}

/// What node `i` does to the resolver's state.
pub open spec fn step(kinds: Seq<NodeKind>, names: Seq<Seq<u8>>, st: ScanState, i: int) -> Option<ScanState> {
    match spec_classify(kinds[i]) {
        None => Some(st),
        Some(Inst::Def) => Some(ScanState { stack: st.stack.push(i), ..st }),
        Some(Inst::Ref) => {
            let p = pending_of(st, names[i]);
            Some(
                ScanState {
                    refs: st.refs.push((st.top, head_of(p))),
                    pending: st.pending.insert(names[i], seq![st.refs.len() as int] + p),
                    ..st
                },
            )
        },
        Some(Inst::Open) => Some(ScanState { stack: st.stack.push(st.top), top: i, ..st }),
        Some(Inst::Close) => close(kinds, names, st),
    }
}

/// The state before any node.
pub open spec fn initial_state() -> ScanState {
    ScanState { top: 0, stack: Seq::empty(), refs: Seq::empty(), pending: Map::empty() }
}

/// The state after the first `n` nodes; `None` when a scope closes that was never opened.
pub open spec fn scan(kinds: Seq<NodeKind>, names: Seq<Seq<u8>>, n: int) -> Option<ScanState>
    decreases n,
{
    if n <= 0 {
        Some(initial_state())
    } else {
        match scan(kinds, names, n - 1) {
            None => None,
            Some(st) => step(kinds, names, st, n - 1),
        }
    }
}

/// The uses of names among the nodes of kinds `kinds` and names `names`, as resolved.
pub open spec fn resolution(kinds: Seq<NodeKind>, names: Seq<Seq<u8>>) -> Option<Seq<RefView>> {
    match scan(kinds, names, kinds.len() as int) {
        None => None,
        Some(st) => Some(st.refs),
    }
}

/// The source text of each node's token.
pub open spec fn node_names(tokens: Seq<Token>, ends: Seq<crate::span::Byte>, bytes: Seq<u8>) -> Seq<Seq<u8>> {
    Seq::new(tokens.len(), |i: int| span_text(tokens[i].0 as int, ends, bytes))
}

/// Kinds whose token is a name that resolution reads: definitions and uses.
pub open spec fn has_name(kind: NodeKind) -> bool {
    spec_classify(kind) == Some(Inst::Def) || spec_classify(kind) == Some(Inst::Ref)
}

/// Every definition and use has a token, and the token lies among `num_ends`.
pub open spec fn names_in_range(kinds: Seq<NodeKind>, tokens: Seq<Token>, num_ends: nat) -> bool {
    forall|i: int|
        0 <= i < kinds.len() && #[trigger] has_name(kinds[i]) ==> i < tokens.len() && tokens[i].0
            < num_ends
}

/// How a recorded use reads in the model.
pub open spec fn ref_view(r: RefImpl) -> RefView {
    (r.node.0 as int, r.next.0.0 as int)
}

pub open spec fn refs_view(refs: Seq<RefImpl>) -> Seq<RefView> {
    refs.map_values(|r: RefImpl| ref_view(r))
}

/// Every use of a name, in node order, with what it resolved to.
#[derive(Debug)]
pub struct Resolve {
    pub refs: Vec<RefImpl>,
}

} // verus!

verus! {

/// `head` and the `next` links of `refs` chain the uses in `p`, in order.
spec fn chain_ok(refs: Seq<RefView>, head: int, p: Seq<int>) -> bool {
    &&& head == head_of(p)
    &&& forall|j: int|
        0 <= j < p.len() ==> 0 <= #[trigger] p[j] < refs.len() && refs[p[j]].1 == (if j + 1
            < p.len() {
            p[j + 1]
        } else {
            MAX_INDEX as int
        })
}

/// Each interned name's chain starts at its head; names that were never interned have no
/// unclaimed uses.
spec fn tables_ok(st: ScanState, txt: Seq<Seq<u8>>, heads: Seq<MaxOr<Ref>>) -> bool {
    &&& heads.len() == txt.len()
    &&& distinct(txt)
    &&& forall|s: int|
        0 <= s < txt.len() ==> chain_ok(st.refs, heads[s].0.0 as int, pending_of(st, #[trigger] txt[s]))
    &&& forall|t: Seq<u8>| !txt.contains(t) ==> (#[trigger] pending_of(st, t)).len() == 0
}

/// Two lists of uses with the same length and the same links.
spec fn same_links(a: Seq<RefView>, b: Seq<RefView>) -> bool {
    &&& a.len() == b.len()
    &&& forall|k: int| 0 <= k < a.len() ==> (#[trigger] a[k]).1 == b[k].1
}

proof fn lemma_chain_same_links(a: Seq<RefView>, b: Seq<RefView>, head: int, p: Seq<int>)
    requires
        same_links(a, b),
        chain_ok(a, head, p),
    ensures
        chain_ok(b, head, p),
{
    assert forall|j: int| 0 <= j < p.len() implies 0 <= #[trigger] p[j] < b.len() && b[p[j]].1 == (
    if j + 1 < p.len() {
        p[j + 1]
    } else {
        MAX_INDEX as int
    }) by {
        assert(a[p[j]].1 == b[p[j]].1);
    }
}

proof fn lemma_scan_prefix(kinds: Seq<NodeKind>, names: Seq<Seq<u8>>, k: int, n: int)
    requires
        0 <= k <= n,
        scan(kinds, names, n) is Some,
    ensures
        scan(kinds, names, k) is Some,
    decreases n - k,
{
    if k < n {
        lemma_scan_prefix(kinds, names, k + 1, n);
    }
}

proof fn lemma_tables_same(a: ScanState, b: ScanState, txt: Seq<Seq<u8>>, heads: Seq<MaxOr<Ref>>)
    requires
        tables_ok(a, txt, heads),
        a.refs == b.refs,
        a.pending == b.pending,
    ensures
        tables_ok(b, txt, heads),
{
    assert forall|k: int| 0 <= k < txt.len() implies chain_ok(
        b.refs,
        heads[k].0.0 as int,
        pending_of(b, #[trigger] txt[k]),
    ) by {
        assert(pending_of(b, txt[k]) == pending_of(a, txt[k]));
    }
    assert forall|t: Seq<u8>| !txt.contains(t) implies (#[trigger] pending_of(b, t)).len() == 0 by {
        assert(pending_of(b, t) == pending_of(a, t));
    }
}

proof fn lemma_scan_none(kinds: Seq<NodeKind>, names: Seq<Seq<u8>>, k: int, n: int)
    requires
        0 <= k <= n,
        scan(kinds, names, k) is None,
    ensures
        scan(kinds, names, n) is None,
    decreases n - k,
{
    if k < n {
        lemma_scan_none(kinds, names, k + 1, n);
    }
}

/// The source text of node `i`'s token.
fn node_text<'a>(nodes: &Nodes, spans: &Spans, source: &'a str, i: usize) -> (r: &'a [u8])
    requires
        i < nodes.tokens@.len(),
        (nodes.tokens@[i as int].0 as int) < spans.ends@.len(),
        spans_fit(spans.ends@, source.spec_bytes()),
    ensures
        r@ == span_text(nodes.tokens@[i as int].0 as int, spans.ends@, source.spec_bytes()),
{
    let token = nodes.tokens[i];
    let s = spans.to_span(token);
    assert(crate::tokenize::spec_span(token.0 as int, spans.ends@) == s);
    s.lookup(source).as_bytes()
}

/// Definition `def`, made in the scope that opened at `top`, claims the unclaimed uses of its
/// name that were made since, from the newest on. Returns the new head of the name's chain.
fn claim_uses(refs: &mut Vec<RefImpl>, head: MaxOr<Ref>, top: Node, def: Node, Ghost(p): Ghost<Seq<int>>) -> (r: MaxOr<Ref>)
    requires
        old(refs)@.len() <= MAX_INDEX,
        chain_ok(refs_view(old(refs)@), head.0.0 as int, p),
    ensures
        refs_view(final(refs)@) == claim(refs_view(old(refs)@), p, top.0 as int, def.0 as int).0,
        chain_ok(
            refs_view(final(refs)@),
            r.0.0 as int,
            claim(refs_view(old(refs)@), p, top.0 as int, def.0 as int).1,
        ),
        same_links(refs_view(old(refs)@), refs_view(final(refs)@)),
        final(refs)@.len() == old(refs)@.len(),
{
    let ghost target = claim(refs_view(refs@), p, top.0 as int, def.0 as int);
    let ghost start = refs_view(refs@);
    let mut head = head;
    let ghost mut q = p;
    loop
        invariant
            refs@.len() == old(refs)@.len(),
            refs@.len() <= MAX_INDEX,
            start == refs_view(old(refs)@),
            chain_ok(refs_view(refs@), head.0.0 as int, q),
            claim(refs_view(refs@), q, top.0 as int, def.0 as int) == target,
            same_links(start, refs_view(refs@)),
        ensures
            refs_view(refs@) == target.0,
            chain_ok(refs_view(refs@), head.0.0 as int, target.1),
            same_links(start, refs_view(refs@)),
        decreases q.len(),
    {
        match head.into_non_max() {
            None => {
                assert(q.len() == 0);
                break;
            },
            Some(head_ref) => {
                assert(q.len() > 0);
                assert(0 <= q[0] < refs_view(refs@).len());
                let i = head_ref.0 as usize;
                assert(refs_view(refs@)[i as int] == ref_view(refs@[i as int]));
                if refs[i].node.0 < top.0 {
                    break;
                }
                let next = refs[i].next;
                let ghost before = refs_view(refs@);
                refs.set(i, RefImpl { node: def, next });
                proof {
                    assert(refs_view(refs@) =~= before.update(q[0], (def.0 as int, before[q[0]].1)));
                    assert forall|j: int| 0 <= j < q.drop_first().len() implies 0
                        <= #[trigger] q.drop_first()[j] < refs_view(refs@).len() && refs_view(
                        refs@,
                    )[q.drop_first()[j]].1 == (if j + 1 < q.drop_first().len() {
                        q.drop_first()[j + 1]
                    } else {
                        MAX_INDEX as int
                    }) by {
                        assert(q.drop_first()[j] == q[j + 1]);
                        assert(before[q[j + 1]].1 == refs_view(refs@)[q[j + 1]].1);
                    }
                    assert(before[q[0]].1 == head_of(q.drop_first()));
                    q = q.drop_first();
                }
                head = next;
            },
        }
    }
    head
}

} // verus!

verus! {

/// The node indices on `stack`.
spec fn stack_view(stack: Seq<Node>) -> Seq<int> {
    stack.map_values(|n: Node| n.0 as int)
}

/// Links every use of a name among `nodes` to what it refers to, as [`resolve`] does, or
/// returns `None` where resolution stops: a scope closes that was never opened.
pub fn resolve_checked(nodes: &Nodes, spans: &Spans, source: &str) -> (r: Option<Resolve>)
    requires
        nodes.nodes@.len() < MAX_INDEX,
        spans_fit(spans.ends@, source.spec_bytes()),
        names_in_range(nodes.nodes@, nodes.tokens@, spans.ends@.len()),
    ensures
        r is Some <==> resolution(
            nodes.nodes@,
            node_names(nodes.tokens@, spans.ends@, source.spec_bytes()),
        ) is Some,
        r is Some ==> refs_view(r->0.refs@) == resolution(
            nodes.nodes@,
            node_names(nodes.tokens@, spans.ends@, source.spec_bytes()),
        ).unwrap(),
{
    let ghost kinds = nodes.nodes@;
    let ghost names = node_names(nodes.tokens@, spans.ends@, source.spec_bytes());
    let ghost n = kinds.len() as int;
    let mut top_start = Node::from_usize(0);
    let mut stack: Vec<Node> = Vec::new();
    let mut keys: Vec<&[u8]> = Vec::new();
    let mut heads: Vec<MaxOr<Ref>> = Vec::new();
    let mut refs: Vec<RefImpl> = Vec::new();
    let ghost mut st = initial_state();
    proof {
        assert(stack_view(stack@) =~= st.stack);
        assert(refs_view(refs@) =~= st.refs);
        assert(texts(keys@) =~= Seq::<Seq<u8>>::empty());
    }
    let mut i: usize = 0;
    while i < nodes.nodes.len()
        invariant
            i <= n,
            n == kinds.len(),
            kinds == nodes.nodes@,
            names == node_names(nodes.tokens@, spans.ends@, source.spec_bytes()),
            n < MAX_INDEX,
            spans_fit(spans.ends@, source.spec_bytes()),
            names_in_range(kinds, nodes.tokens@, spans.ends@.len()),
            scan(kinds, names, i as int) == Some(st),
            st.top == top_start.0,
            st.top == 0 || st.top < i,
            st.stack == stack_view(stack@),
            forall|k: int| 0 <= k < st.stack.len() ==> 0 <= #[trigger] st.stack[k] < i,
            st.refs == refs_view(refs@),
            refs@.len() <= i,
            keys@.len() <= refs@.len(),
            tables_ok(st, texts(keys@), heads@),
        decreases n - i,
    {
        let node = Node::from_usize(i);
        match Inst::classify(nodes.nodes[i]) {
            None => {},
            Some(Inst::Def) => {
                stack.push(node);
                proof {
                    let old_st = st;
                    st = ScanState { stack: st.stack.push(i as int), ..st };
                    assert(stack_view(stack@) =~= st.stack);
                    lemma_tables_same(old_st, st, texts(keys@), heads@);
                }
            },
            Some(Inst::Ref) => {
                assert(has_name(kinds[i as int]));
                let text = node_text(nodes, spans, source, i);
                let ghost old_keys = keys@;
                let symbol = intern(&mut keys, text);
                let s = symbol.0 as usize;
                if keys.len() > heads.len() {
                    heads.push(MaxOr::max());
                }
                let ghost p = pending_of(st, names[i as int]);
                let ghost old_st = st;
                assert(texts(keys@)[s as int] == names[i as int]);
                let head = heads[s];
                proof {
                    let txt = texts(keys@);
                    if (s as int) < old_keys.len() {
                        assert(texts(old_keys)[s as int] == txt[s as int]);
                        assert(chain_ok(old_st.refs, heads@[s as int].0.0 as int, pending_of(old_st, texts(old_keys)[s as int])));
                    } else {
                        assert(!texts(old_keys).contains(names[i as int])) by {
                            if texts(old_keys).contains(names[i as int]) {
                                let k = choose|k: int| 0 <= k < texts(old_keys).len() && texts(old_keys)[k] == names[i as int];
                                assert(txt[k] == texts(old_keys)[k]);
                            }
                        }
                        assert(pending_of(old_st, names[i as int]).len() == 0);
                    }
                    assert(head.0.0 == head_of(p));
                }
                let r = refs.len();
                refs.push(RefImpl { node: top_start, next: head });
                heads.set(s, MaxOr::new(Ref::from_usize(r)));
                proof {
                    st = ScanState {
                        refs: st.refs.push((st.top, head_of(p))),
                        pending: st.pending.insert(names[i as int], seq![old_st.refs.len() as int] + p),
                        ..st
                    };
                    assert(refs_view(refs@) =~= st.refs);
                    let txt = texts(keys@);
                    assert(txt.take(old_keys.len() as int) =~= texts(old_keys));
                    assert forall|k: int| 0 <= k < txt.len() implies chain_ok(
                        st.refs,
                        heads@[k].0.0 as int,
                        pending_of(st, #[trigger] txt[k]),
                    ) by {
                        if k == s {
                            assert(pending_of(st, txt[k]) == seq![old_st.refs.len() as int] + p);
                        } else {
                            assert(txt[k] != txt[s as int]);
                            if k < old_keys.len() {
                                assert(texts(old_keys)[k] == txt[k]);
                                assert(chain_ok(old_st.refs, heads@[k].0.0 as int, pending_of(old_st, txt[k])));
                            } else {
                                assert(!texts(old_keys).contains(txt[k]));
                            }
                            assert(pending_of(st, txt[k]) == pending_of(old_st, txt[k]));
                        }
                    }
                    assert forall|t: Seq<u8>| !txt.contains(t) implies (#[trigger] pending_of(st, t)).len() == 0 by {
                        assert(t != txt[s as int]);
                        assert(pending_of(st, t) == pending_of(old_st, t));
                        if texts(old_keys).contains(t) {
                            let k = choose|k: int| 0 <= k < texts(old_keys).len() && texts(old_keys)[k] == t;
                            assert(txt[k] == t);
                        }
                    }
                }
            },
            Some(Inst::Open) => {
                stack.push(top_start);
                top_start = node;
                proof {
                    let old_st = st;
                    st = ScanState { stack: st.stack.push(st.top), top: i as int, ..st };
                    assert(stack_view(stack@) =~= st.stack);
                    lemma_tables_same(old_st, st, texts(keys@), heads@);
                }
            },
            Some(Inst::Close) => {
                let ghost fin = close(kinds, names, st);
                let ghost st0 = st;
                loop
                    invariant_except_break
                        close(kinds, names, st) == fin,
                    invariant
                        i < n,
                        n == kinds.len(),
                        kinds == nodes.nodes@,
                        names == node_names(nodes.tokens@, spans.ends@, source.spec_bytes()),
                        n < MAX_INDEX,
                        spans_fit(spans.ends@, source.spec_bytes()),
                        names_in_range(kinds, nodes.tokens@, spans.ends@.len()),
                        scan(kinds, names, i as int) == Some(st0),
                        fin == close(kinds, names, st0),
                        spec_classify(kinds[i as int]) == Some(Inst::Close),
                        st.top == top_start.0,
                        st.top == 0 || st.top <= i,
                        st.stack == stack_view(stack@),
                        forall|k: int| 0 <= k < st.stack.len() ==> 0 <= #[trigger] st.stack[k] < i,
                        st.refs == refs_view(refs@),
                        refs@.len() <= i,
                        keys@.len() <= refs@.len(),
                        tables_ok(st, texts(keys@), heads@),
                    ensures
                        fin == Some(st),
                        st.top == top_start.0,
                        st.top == 0 || st.top <= i,
                        st.stack == stack_view(stack@),
                        forall|k: int| 0 <= k < st.stack.len() ==> 0 <= #[trigger] st.stack[k] < i,
                        st.refs == refs_view(refs@),
                        refs@.len() <= i,
                        keys@.len() <= refs@.len(),
                        tables_ok(st, texts(keys@), heads@),
                    decreases st.stack.len(),
                {
                    // A scope closes that was never opened.
                    let popped_node = match stack.pop() {
                        Some(popped_node) => popped_node,
                        None => {
                            proof {
                                lemma_scan_none(kinds, names, i + 1, n);
                            }
                            return None;
                        },
                    };
                    let ghost rest = ScanState { stack: st.stack.drop_last(), ..st };
                    proof {
                        assert(stack_view(stack@) =~= rest.stack);
                        assert(popped_node.0 == st.stack.last());
                    }
                    let p = popped_node.0 as usize;
                    match Inst::classify(nodes.nodes[p]) {
                        Some(Inst::Open) => {
                            top_start = popped_node;
                            proof {
                                let old_st = st;
                                st = ScanState { top: p as int, ..rest };
                                lemma_tables_same(old_st, st, texts(keys@), heads@);
                            }
                            break;
                        },
                        Some(Inst::Def) => {
                            assert(has_name(kinds[p as int]));
                            let text = node_text(nodes, spans, source, p);
                            let ghost name = names[p as int];
                            match crate::intern::find(&keys, text) {
                                None => {
                                    proof {
                                        let old_st = st;
                                        let pend = pending_of(rest, name);
                                        assert(pending_of(old_st, name).len() == 0);
                                        assert(pend.len() == 0);
                                        st = ScanState {
                                            pending: rest.pending.insert(name, pend),
                                            ..rest
                                        };
                                        let txt = texts(keys@);
                                        assert forall|k: int| 0 <= k < txt.len() implies chain_ok(
                                            st.refs,
                                            heads@[k].0.0 as int,
                                            pending_of(st, #[trigger] txt[k]),
                                        ) by {
                                            assert(txt[k] != name);
                                            assert(pending_of(st, txt[k]) == pending_of(old_st, txt[k]));
                                        }
                                        assert forall|t: Seq<u8>| !txt.contains(t) implies (#[trigger] pending_of(st, t)).len() == 0 by {
                                            if t != name {
                                                assert(pending_of(st, t) == pending_of(old_st, t));
                                            }
                                        }
                                    }
                                },
                                Some(symbol) => {
                                    let s = symbol.0 as usize;
                                    let ghost pend = pending_of(rest, name);
                                    let ghost before = refs_view(refs@);
                                    let head = claim_uses(&mut refs, heads[s], top_start, popped_node, Ghost(pend));
                                    heads.set(s, head);
                                    proof {
                                        let old_st = st;
                                        let (crefs, cp) = claim(rest.refs, pend, rest.top, p as int);
                                        st = ScanState {
                                            refs: crefs,
                                            pending: rest.pending.insert(name, cp),
                                            ..rest
                                        };
                                        let txt = texts(keys@);
                                        assert forall|k: int| 0 <= k < txt.len() implies chain_ok(
                                            st.refs,
                                            heads@[k].0.0 as int,
                                            pending_of(st, #[trigger] txt[k]),
                                        ) by {
                                            if k != s {
                                                assert(txt[k] != name);
                                                assert(pending_of(st, txt[k]) == pending_of(rest, txt[k]));
                                                lemma_chain_same_links(before, st.refs, heads@[k].0.0 as int, pending_of(rest, txt[k]));
                                            }
                                        }
                                        assert forall|t: Seq<u8>| !txt.contains(t) implies (#[trigger] pending_of(st, t)).len() == 0 by {
                                            assert(t != name);
                                            assert(pending_of(st, t) == pending_of(old_st, t));
                                        }
                                    }
                                },
                            }
                        },
                        _ => {
                            // Only definitions and the starts of scopes are pushed.
                            proof {
                                lemma_scan_none(kinds, names, i + 1, n);
                            }
                            return None;
                        },
                    }
                }
            },
        }
        i = i + 1;
    }
    Some(Resolve { refs })
}

/// Links every use of a name among `nodes` to what it refers to: the result is [`resolution`]
/// of the nodes' kinds and of the source text of their tokens.
pub fn resolve(nodes: &Nodes, spans: &Spans, source: &str) -> (r: Resolve)
    requires
        nodes.nodes@.len() < MAX_INDEX,
        spans_fit(spans.ends@, source.spec_bytes()),
        names_in_range(nodes.nodes@, nodes.tokens@, spans.ends@.len()),
        resolution(nodes.nodes@, node_names(nodes.tokens@, spans.ends@, source.spec_bytes())) is Some,
    ensures
        refs_view(r.refs@) == resolution(
            nodes.nodes@,
            node_names(nodes.tokens@, spans.ends@, source.spec_bytes()),
        ).unwrap(),
{
    resolve_checked(nodes, spans, source).unwrap()
}

} // verus!

verus! {

/// The nodes among the first `n` that use a name, in order: the `r`-th one made use `r`.
pub open spec fn ref_nodes(kinds: Seq<NodeKind>, n: int) -> Seq<int>
    decreases n,
{
    if n <= 0 {
        Seq::empty()
    } else if spec_classify(kinds[n - 1]) == Some(Inst::Ref) {
        ref_nodes(kinds, n - 1).push(n - 1)
    } else {
        ref_nodes(kinds, n - 1)
    }
}

/// Node `n` is where a scope opened: the start of the nodes, or a node that opens a scope.
pub open spec fn opens_scope(kinds: Seq<NodeKind>, n: int) -> bool {
    n == 0 || (0 <= n < kinds.len() && spec_classify(kinds[n]) == Some(Inst::Open))
}

/// Node `n` defines `name`.
pub open spec fn defines(kinds: Seq<NodeKind>, names: Seq<Seq<u8>>, n: int, name: Seq<u8>) -> bool {
    0 <= n < kinds.len() && spec_classify(kinds[n]) == Some(Inst::Def) && names[n] == name
}

/// Use `r`, made at node `uses[r]`, points to a definition of its name or to where a scope
/// opened, and is chained to an earlier use of the same name, if to any.
pub open spec fn use_ok(kinds: Seq<NodeKind>, names: Seq<Seq<u8>>, uses: Seq<int>, refs: Seq<RefView>, r: int) -> bool {
    let name = names[uses[r]];
    &&& defines(kinds, names, refs[r].0, name) || opens_scope(kinds, refs[r].0)
    &&& refs[r].1 == MAX_INDEX || (0 <= refs[r].1 < r && names[uses[refs[r].1]] == name)
}

/// What holds of the resolver's state after the first `i` nodes.
spec fn scan_inv(kinds: Seq<NodeKind>, names: Seq<Seq<u8>>, st: ScanState, i: int) -> bool {
    let uses = ref_nodes(kinds, i);
    &&& st.refs.len() == uses.len()
    &&& forall|r: int| 0 <= r < uses.len() ==> 0 <= #[trigger] uses[r] < i
    &&& forall|r: int| 0 <= r < st.refs.len() ==> #[trigger] use_ok(kinds, names, uses, st.refs, r)
    &&& forall|t: Seq<u8>, j: int|
        0 <= j < pending_of(st, t).len() ==> 0 <= #[trigger] pending_of(st, t)[j] < st.refs.len()
            && names[uses[pending_of(st, t)[j]]] == t
    &&& opens_scope(kinds, st.top)
    &&& forall|k: int|
        0 <= k < st.stack.len() ==> opens_scope(kinds, #[trigger] st.stack[k]) || (0 <= st.stack[k]
            < kinds.len() && spec_classify(kinds[st.stack[k]]) == Some(Inst::Def))
}

proof fn lemma_claim_sound(
    kinds: Seq<NodeKind>,
    names: Seq<Seq<u8>>,
    uses: Seq<int>,
    refs: Seq<RefView>,
    p: Seq<int>,
    top: int,
    def: int,
)
    requires
        refs.len() == uses.len(),
        forall|r: int| 0 <= r < refs.len() ==> #[trigger] use_ok(kinds, names, uses, refs, r),
        forall|j: int| 0 <= j < p.len() ==> 0 <= #[trigger] p[j] < refs.len() && names[uses[p[j]]] == names[def],
        0 <= def < kinds.len(),
        spec_classify(kinds[def]) == Some(Inst::Def),
    ensures
        claim(refs, p, top, def).0.len() == refs.len(),
        forall|r: int|
            0 <= r < refs.len() ==> #[trigger] use_ok(kinds, names, uses, claim(refs, p, top, def).0, r),
        forall|j: int|
            0 <= j < claim(refs, p, top, def).1.len() ==> exists|k: int| 0 <= k < p.len() && #[trigger] claim(refs, p, top, def).1[j] == p[k],
    decreases p.len(),
{
    if p.len() == 0 || refs[p[0]].0 < top {
        assert forall|j: int| 0 <= j < claim(refs, p, top, def).1.len() implies exists|k: int| 0 <= k < p.len() && #[trigger] claim(refs, p, top, def).1[j] == p[k] by {
            assert(claim(refs, p, top, def).1[j] == p[j]);
        }
    } else {
        let refs2 = refs.update(p[0], (def, refs[p[0]].1));
        assert forall|r: int| 0 <= r < refs2.len() implies #[trigger] use_ok(kinds, names, uses, refs2, r) by {
            assert(use_ok(kinds, names, uses, refs, r));
        }
        assert forall|j: int| 0 <= j < p.drop_first().len() implies 0 <= #[trigger] p.drop_first()[j] < refs2.len() && names[uses[p.drop_first()[j]]] == names[def] by {
            assert(p.drop_first()[j] == p[j + 1]);
        }
        lemma_claim_sound(kinds, names, uses, refs2, p.drop_first(), top, def);
        let rest = claim(refs2, p.drop_first(), top, def).1;
        assert forall|j: int| 0 <= j < rest.len() implies exists|k: int| 0 <= k < p.len() && #[trigger] rest[j] == p[k] by {
            let k = choose|k: int| 0 <= k < p.drop_first().len() && rest[j] == p.drop_first()[k];
            assert(rest[j] == p[k + 1]);
        }
    }
}

} // verus!

verus! {

proof fn lemma_close_sound(kinds: Seq<NodeKind>, names: Seq<Seq<u8>>, st: ScanState, i: int)
    requires
        scan_inv(kinds, names, st, i),
        close(kinds, names, st) is Some,
    ensures
        scan_inv(kinds, names, close(kinds, names, st).unwrap(), i),
    decreases st.stack.len(),
{
    let uses = ref_nodes(kinds, i);
    let n = st.stack.last();
    let rest = ScanState { stack: st.stack.drop_last(), ..st };
    assert(opens_scope(kinds, st.stack[st.stack.len() - 1]) || spec_classify(kinds[n]) == Some(Inst::Def));
    match spec_classify(kinds[n]) {
        Some(Inst::Open) => {
            let fin = ScanState { top: n, ..rest };
            assert forall|k: int| 0 <= k < fin.stack.len() implies opens_scope(kinds, #[trigger] fin.stack[k]) || (0 <= fin.stack[k]
                < kinds.len() && spec_classify(kinds[fin.stack[k]]) == Some(Inst::Def)) by {
                assert(fin.stack[k] == st.stack[k]);
            }
            assert forall|t: Seq<u8>, j: int| 0 <= j < pending_of(fin, t).len() implies 0 <= #[trigger] pending_of(fin, t)[j] < fin.refs.len()
                && names[uses[pending_of(fin, t)[j]]] == t by {
                assert(pending_of(fin, t) == pending_of(st, t));
            }
        },
        Some(Inst::Def) => {
            let name = names[n];
            let p = pending_of(rest, name);
            assert(p == pending_of(st, name));
            assert forall|j: int| 0 <= j < p.len() implies 0 <= #[trigger] p[j] < rest.refs.len() && names[uses[p[j]]] == names[n] by {
                assert(pending_of(st, name)[j] == p[j]);
            }
            lemma_claim_sound(kinds, names, uses, rest.refs, p, rest.top, n);
            let (refs, cp) = claim(rest.refs, p, rest.top, n);
            let next = ScanState { refs, pending: rest.pending.insert(name, cp), ..rest };
            assert forall|k: int| 0 <= k < next.stack.len() implies opens_scope(kinds, #[trigger] next.stack[k]) || (0 <= next.stack[k]
                < kinds.len() && spec_classify(kinds[next.stack[k]]) == Some(Inst::Def)) by {
                assert(next.stack[k] == st.stack[k]);
            }
            assert forall|t: Seq<u8>, j: int| 0 <= j < pending_of(next, t).len() implies 0 <= #[trigger] pending_of(next, t)[j] < next.refs.len()
                && names[uses[pending_of(next, t)[j]]] == t by {
                if t == name {
                    assert(pending_of(next, t) == cp);
                    let k = choose|k: int| 0 <= k < p.len() && #[trigger] cp[j] == p[k];
                    assert(p[k] == pending_of(st, name)[k]);
                } else {
                    assert(pending_of(next, t) == pending_of(st, t));
                }
            }
            lemma_close_sound(kinds, names, next, i);
        },
        _ => {},
    }
}

proof fn lemma_step_sound(kinds: Seq<NodeKind>, names: Seq<Seq<u8>>, st: ScanState, i: int)
    requires
        0 <= i < kinds.len(),
        scan_inv(kinds, names, st, i),
        step(kinds, names, st, i) is Some,
    ensures
        scan_inv(kinds, names, step(kinds, names, st, i).unwrap(), i + 1),
{
    let uses = ref_nodes(kinds, i);
    let uses2 = ref_nodes(kinds, i + 1);
    let next = step(kinds, names, st, i).unwrap();
    match spec_classify(kinds[i]) {
        Some(Inst::Ref) => {
            assert(uses2 == uses.push(i));
            let p = pending_of(st, names[i]);
            let r = st.refs.len() as int;
            assert forall|q: int| 0 <= q < next.refs.len() implies #[trigger] use_ok(kinds, names, uses2, next.refs, q) by {
                if q < r {
                    assert(use_ok(kinds, names, uses, st.refs, q));
                    assert(uses2[q] == uses[q]);
                    if st.refs[q].1 != MAX_INDEX {
                        assert(uses2[st.refs[q].1] == uses[st.refs[q].1]);
                    }
                } else {
                    assert(uses2[q] == i);
                    if p.len() > 0 {
                        assert(0 <= p[0] < st.refs.len() && names[uses[p[0]]] == names[i]);
                        assert(uses2[p[0]] == uses[p[0]]);
                    }
                }
            }
            assert forall|t: Seq<u8>, j: int| 0 <= j < pending_of(next, t).len() implies 0 <= #[trigger] pending_of(next, t)[j] < next.refs.len()
                && names[uses2[pending_of(next, t)[j]]] == t by {
                if t == names[i] {
                    if j > 0 {
                        assert(pending_of(next, t)[j] == p[j - 1]);
                        assert(uses2[p[j - 1]] == uses[p[j - 1]]);
                    }
                } else {
                    assert(pending_of(next, t) == pending_of(st, t));
                    assert(uses2[pending_of(st, t)[j]] == uses[pending_of(st, t)[j]]);
                }
            }
            assert forall|k: int| 0 <= k < next.stack.len() implies opens_scope(kinds, #[trigger] next.stack[k]) || (0 <= next.stack[k]
                < kinds.len() && spec_classify(kinds[next.stack[k]]) == Some(Inst::Def)) by {
                assert(next.stack[k] == st.stack[k]);
            }
        },
        Some(Inst::Close) => {
            assert(uses2 == uses);
            lemma_close_sound(kinds, names, st, i);
        },
        _ => {
            assert(uses2 == uses);
            assert forall|t: Seq<u8>, j: int| 0 <= j < pending_of(next, t).len() implies 0 <= #[trigger] pending_of(next, t)[j] < next.refs.len()
                && names[uses2[pending_of(next, t)[j]]] == t by {
                assert(pending_of(next, t) == pending_of(st, t));
            }
            assert forall|q: int| 0 <= q < next.refs.len() implies #[trigger] use_ok(kinds, names, uses2, next.refs, q) by {
                assert(use_ok(kinds, names, uses, st.refs, q));
            }
            assert forall|k: int| 0 <= k < next.stack.len() implies opens_scope(kinds, #[trigger] next.stack[k]) || (0 <= next.stack[k]
                < kinds.len() && spec_classify(kinds[next.stack[k]]) == Some(Inst::Def)) by {
                if k < st.stack.len() {
                    assert(next.stack[k] == st.stack[k]);
                }
            }
        },
    }
}

proof fn lemma_scan_sound(kinds: Seq<NodeKind>, names: Seq<Seq<u8>>, n: int)
    requires
        0 <= n <= kinds.len(),
        scan(kinds, names, n) is Some,
    ensures
        scan_inv(kinds, names, scan(kinds, names, n).unwrap(), n),
    decreases n,
{
    if n > 0 {
        lemma_scan_prefix(kinds, names, n - 1, n);
        lemma_scan_sound(kinds, names, n - 1);
        lemma_step_sound(kinds, names, scan(kinds, names, n - 1).unwrap(), n - 1);
    } else {
        assert(ref_nodes(kinds, 0) =~= Seq::<int>::empty());
    }
}

/// Resolution records one use per node that uses a name, in node order. Each points either to
/// a definition of the same name or to where a scope opened (the start of the nodes, or a node
/// that opens a scope), and is chained to nothing or to an earlier use of the same name.
pub proof fn lemma_resolution_sound(kinds: Seq<NodeKind>, names: Seq<Seq<u8>>)
    requires
        resolution(kinds, names) is Some,
    ensures
        resolution(kinds, names).unwrap().len() == ref_nodes(kinds, kinds.len() as int).len(),
        forall|r: int|
            0 <= r < resolution(kinds, names).unwrap().len() ==> #[trigger] use_ok(
                kinds,
                names,
                ref_nodes(kinds, kinds.len() as int),
                resolution(kinds, names).unwrap(),
                r,
            ),
{
    lemma_scan_sound(kinds, names, kinds.len() as int);
}

/// How a node of kind `kind` changes the number of open scopes.
pub open spec fn scope_step(kind: NodeKind) -> int {
    match spec_classify(kind) {
        Some(Inst::Open) => 1,
        Some(Inst::Close) => -1,
        _ => 0,
    }
}

/// How many scopes are open after the first `n` nodes: those opened less those closed.
pub open spec fn open_scopes(kinds: Seq<NodeKind>, n: int) -> int
    decreases n,
{
    if n <= 0 {
        0
    } else {
        open_scopes(kinds, n - 1) + scope_step(kinds[n - 1])
    }
}

/// How many entries of `stack` are nodes that open a scope.
spec fn openers(kinds: Seq<NodeKind>, stack: Seq<int>) -> int
    decreases stack.len(),
{
    if stack.len() == 0 {
        0
    } else {
        openers(kinds, stack.drop_last()) + if spec_classify(kinds[stack.last()]) == Some(Inst::Open) {
            1int
        } else {
            0int
        }
    }
}

/// Each entry of `stack` is a node that opens a scope or defines a name.
spec fn stack_ok(kinds: Seq<NodeKind>, stack: Seq<int>) -> bool {
    forall|k: int|
        0 <= k < stack.len() ==> 0 <= #[trigger] stack[k] < kinds.len() && (spec_classify(kinds[stack[k]])
            == Some(Inst::Open) || spec_classify(kinds[stack[k]]) == Some(Inst::Def))
}

/// Where a scope is open on the stack, closing the innermost one succeeds: it takes that
/// scope's entries off the stack, and the node where it opened becomes the innermost one.
proof fn lemma_close_runs(kinds: Seq<NodeKind>, names: Seq<Seq<u8>>, st: ScanState)
    requires
        stack_ok(kinds, st.stack),
        openers(kinds, st.stack) >= 1,
    ensures
        close(kinds, names, st) is Some,
        stack_ok(kinds, close(kinds, names, st).unwrap().stack),
        openers(kinds, close(kinds, names, st).unwrap().stack) == openers(kinds, st.stack) - 1,
        0 <= close(kinds, names, st).unwrap().top < kinds.len(),
        spec_classify(kinds[close(kinds, names, st).unwrap().top]) == Some(Inst::Open),
    decreases st.stack.len(),
{
    let n = st.stack.last();
    let rest = st.stack.drop_last();
    assert(st.stack[st.stack.len() - 1] == n);
    assert forall|k: int| 0 <= k < rest.len() implies 0 <= #[trigger] rest[k] < kinds.len() && (
    spec_classify(kinds[rest[k]]) == Some(Inst::Open) || spec_classify(kinds[rest[k]]) == Some(
        Inst::Def,
    )) by {
        assert(rest[k] == st.stack[k]);
    }
    if spec_classify(kinds[n]) == Some(Inst::Def) {
        let name = names[n];
        let r0 = ScanState { stack: rest, ..st };
        let (refs, p) = claim(r0.refs, pending_of(r0, name), r0.top, n);
        lemma_close_runs(kinds, names, ScanState { refs, pending: r0.pending.insert(name, p), ..r0 });
    }
}

/// Pushing `x` on `stack` counts one more opener exactly when `x` opens a scope.
proof fn lemma_openers_push(kinds: Seq<NodeKind>, stack: Seq<int>, x: int)
    ensures
        openers(kinds, stack.push(x)) == openers(kinds, stack) + if spec_classify(kinds[x]) == Some(
            Inst::Open,
        ) {
            1int
        } else {
            0int
        },
{
    assert(stack.push(x).drop_last() =~= stack);
    assert(stack.push(x).last() == x);
}

/// Over nodes that begin by opening a scope and never close more scopes than they opened, the
/// first `n` nodes scan to a state whose stack holds one opener per open scope.
proof fn lemma_scan_runs(kinds: Seq<NodeKind>, names: Seq<Seq<u8>>, n: int)
    requires
        kinds.len() > 0,
        spec_classify(kinds[0]) == Some(Inst::Open),
        0 <= n <= kinds.len(),
        forall|j: int| 0 <= j <= n ==> #[trigger] open_scopes(kinds, j) >= 0,
    ensures
        scan(kinds, names, n) is Some,
        stack_ok(kinds, scan(kinds, names, n).unwrap().stack),
        openers(kinds, scan(kinds, names, n).unwrap().stack) == open_scopes(kinds, n),
        0 <= scan(kinds, names, n).unwrap().top < kinds.len(),
        spec_classify(kinds[scan(kinds, names, n).unwrap().top]) == Some(Inst::Open),
    decreases n,
{
    if n > 0 {
        assert(open_scopes(kinds, n - 1) >= 0);
        assert(open_scopes(kinds, n) >= 0);
        lemma_scan_runs(kinds, names, n - 1);
        let st = scan(kinds, names, n - 1).unwrap();
        let i = n - 1;
        match spec_classify(kinds[i]) {
            Some(Inst::Def) => {
                lemma_openers_push(kinds, st.stack, i);
                let s2 = st.stack.push(i);
                assert forall|k: int| 0 <= k < s2.len() implies 0 <= #[trigger] s2[k] < kinds.len() && (
                spec_classify(kinds[s2[k]]) == Some(Inst::Open) || spec_classify(kinds[s2[k]])
                    == Some(Inst::Def)) by {
                    if k < st.stack.len() {
                        assert(s2[k] == st.stack[k]);
                    }
                }
            },
            Some(Inst::Open) => {
                lemma_openers_push(kinds, st.stack, st.top);
                let s2 = st.stack.push(st.top);
                assert forall|k: int| 0 <= k < s2.len() implies 0 <= #[trigger] s2[k] < kinds.len() && (
                spec_classify(kinds[s2[k]]) == Some(Inst::Open) || spec_classify(kinds[s2[k]])
                    == Some(Inst::Def)) by {
                    if k < st.stack.len() {
                        assert(s2[k] == st.stack[k]);
                    }
                }
            },
            Some(Inst::Close) => {
                lemma_close_runs(kinds, names, st);
            },
            _ => {},
        }
    }
}

/// Name resolution runs to the end over any nodes that begin by opening a scope and in which no
/// prefix closes more scopes than it opened: no node closes a scope that was not opened.
pub proof fn lemma_resolution_runs(kinds: Seq<NodeKind>, names: Seq<Seq<u8>>)
    requires
        kinds.len() > 0,
        spec_classify(kinds[0]) == Some(Inst::Open),
        forall|j: int| 0 <= j <= kinds.len() ==> #[trigger] open_scopes(kinds, j) >= 0,
    ensures
        resolution(kinds, names) is Some,
{
    lemma_scan_runs(kinds, names, kinds.len() as int);
}

} // verus!

