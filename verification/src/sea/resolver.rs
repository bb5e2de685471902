//! Name resolution for Sea: every name use is matched with the definition it refers to, in a
//! forward and then a backward pass over the definitions, uses and scope edges, in node order.
use crate::sea::node::{Capture, Node, NodeImpl, NodeKind, SynDef, SynRef};
use crate::sea::parser::Parse;
use crate::sea::span::{offset_text, offsets_fit, token_text, Offset};
use vstd::prelude::*;
use crate::intern::{distinct, intern, texts, Symbol};
use vstd::string::StringSliceAdditionalSpecFns;

verus! {

/// A definition that was not recorded because it would hide another one.
#[derive(Copy, Clone, Debug, PartialEq, Eq, Structural)]
pub struct Error {
    pub shadowed: Shadowed,
    pub conflicting_def: Node,
}

/// What a refused definition would have hidden.
#[derive(Copy, Clone, Debug, PartialEq, Eq, Structural)]
pub enum Shadowed {
    Builtin(Builtin),
    Local { def: Node },
}

/// What a name in a function refers to.
pub enum Referee {
    Parent(Capture),
    Local(SynDef),
}

#[derive(Copy, Clone, Debug, PartialEq, Eq, Structural)]
pub enum Builtin {
    I32,
    Type,
}

/// What a use of a name resolved to.
#[derive(Copy, Clone, Debug, PartialEq, Eq, Structural)]
pub enum Def {
    Local { def: Node },
    NonLocal(Option<Builtin>),
}

/// What a name is bound to while resolving: a definition, the scope it was made in and the node
/// where its statement starts, or a builtin, or nothing.
#[derive(Copy, Clone, Debug, PartialEq, Eq, Structural)]
pub enum DefSlot {
    Local { def: Node, scope_id: u32, from: Node },
    NonLocal(Option<Builtin>),
}

/// What a binding hides when a new definition of the same name is made in the scopes
/// `scope_stack`: a definition in one of those scopes, or a builtin.
pub open spec fn spec_as_shadowed(slot: DefSlot, scope_stack: Seq<u32>) -> Option<Shadowed> {
    match slot {
        DefSlot::Local { def, scope_id, .. } => if scope_stack.contains(scope_id) {
            Some(Shadowed::Local { def })
        } else {
            None
        },
        DefSlot::NonLocal(Some(builtin)) => Some(Shadowed::Builtin(builtin)),
        _ => None,
    }
}

/// The resolver's instructions: a definition of a name at a node, with the node where the
/// definition's statement starts (the `let` of a `let`, the definition itself otherwise); a use
/// of a name at a node; or an edge of a scope (each scope has two edges with its identifier).
pub enum SInst {
    Def(Seq<u8>, Node, Node),
    Ref(Seq<u8>, SynRef, Node),
    Scope(u32),
}

/// A use at node `at` sees a definition made at node `def` in a statement that starts at node
/// `from`, unless the use lies inside that statement before the name: a `let`'s name is not in
/// scope in its own initializer.
pub open spec fn visible(at: Node, def: Node, from: Node) -> bool {
    !(from.0 < at.0 && at.0 < def.0)
}

/// Node kinds that define a name.
pub open spec fn is_def_kind(kind: NodeKind) -> bool {
    kind is StructIdent || kind is FnIdent || kind is FnParamsParam || kind is LetIdent
}

/// Node kinds that open a scope.
pub open spec fn is_open_kind(kind: NodeKind) -> bool {
    kind is StructBody || kind is FnParams || kind is ExprBlock
}

/// Node kinds that close a scope.
pub open spec fn is_close_kind(kind: NodeKind) -> bool {
    kind is StructBodyEnd || kind is FnBodyEnd || kind is ExprBlockEnd
}

/// The instructions of the first `n` nodes, with the scopes still open, the next scope
/// identifier, and the `let` nodes whose name has not come yet; `None` where the resolver would
/// stop (a scope closed that was never opened, or scope identifiers running out). Scope 1 is
/// the file. A `let`'s name node follows its initializer; its statement starts at the `let`.
pub open spec fn collect(
    nodes: Seq<NodeImpl>,
    ends: Seq<Offset>,
    bytes: Seq<u8>,
    n: int,
) -> Option<(Seq<SInst>, Seq<u32>, u32, Seq<Node>)>
    decreases n,
{
    if n <= 0 {
        Some((seq![], seq![1u32], 2u32, seq![]))
    } else {
        match collect(nodes, ends, bytes, n - 1) {
            None => None,
            Some((insts, stack, next, lets)) => {
                let node = nodes[n - 1];
                let id = Node((n - 1) as u32);
                let text = offset_text(node.token.0 as int, ends, bytes);
                if node.kind is LetIdent {
                    if lets.len() == 0 {
                        Some((insts.push(SInst::Def(text, id, id)), stack, next, lets))
                    } else {
                        Some((insts.push(SInst::Def(text, id, lets.last())), stack, next, lets.drop_last()))
                    }
                } else if is_def_kind(node.kind) {
                    Some((insts.push(SInst::Def(text, id, id)), stack, next, lets))
                } else if node.kind is Let {
                    Some((insts, stack, next, lets.push(id)))
                } else if node.kind is ExprIdent {
                    Some((insts.push(SInst::Ref(text, node.kind->ExprIdent_0, id)), stack, next, lets))
                } else if is_open_kind(node.kind) {
                    if next == u32::MAX {
                        None
                    } else {
                        Some((insts.push(SInst::Scope(next)), stack.push(next), (next + 1) as u32, lets))
                    }
                } else if is_close_kind(node.kind) {
                    if stack.len() == 0 {
                        None
                    } else {
                        Some((insts.push(SInst::Scope(stack.last())), stack.drop_last(), next, lets))
                    }
                } else {
                    Some((insts, stack, next, lets))
                }
            },
        }
    }
}

/// The resolver's state: what each name is bound to, the scopes it is in, what each use
/// resolved to, and the definitions refused so far.
pub struct RState {
    pub table: Map<Seq<u8>, DefSlot>,
    pub scopes: Seq<u32>,
    pub defs: Seq<Def>,
    pub errors: Seq<Error>,
}

/// What `name` is bound to.
pub open spec fn slot_of(table: Map<Seq<u8>, DefSlot>, name: Seq<u8>) -> DefSlot {
    if table.contains_key(name) {
        table[name]
    } else {
        DefSlot::NonLocal(None)
    }
}

/// The names bound to builtins before anything is defined.
pub open spec fn builtin_table() -> Map<Seq<u8>, DefSlot> {
    map![
        seq![105u8, 51u8, 50u8] => DefSlot::NonLocal(Some(Builtin::I32)),
        seq![116u8, 121u8, 112u8, 101u8] => DefSlot::NonLocal(Some(Builtin::Type)),
    ]
}

/// Definition `def` was refused earlier.
pub open spec fn refused(errors: Seq<Error>, def: Node) -> bool {
    exists|k: int| 0 <= k < errors.len() && (#[trigger] errors[k]).conflicting_def == def
}

/// One instruction. A definition that would hide a binding in an enclosing scope (or a
/// builtin) is refused with an error, and ignored when met again; otherwise the name is bound
/// to it in the innermost scope.
/// A use whose name is bound in an enclosing scope (or to a builtin) resolves to it, unless the
/// use lies in that definition's own statement before the name ([`visible`]). A scope
/// edge enters the scope, or leaves it if it is the innermost one. `None` where the resolver
/// would stop: a use resolved twice, or out of range.
pub open spec fn step(st: RState, inst: SInst) -> Option<RState> {
    match inst {
        SInst::Def(name, def, from) => if refused(st.errors, def) {
            Some(st)
        } else {
            match spec_as_shadowed(slot_of(st.table, name), st.scopes) {
            Some(shadowed) => Some(
                RState { errors: st.errors.push(Error { shadowed, conflicting_def: def }), ..st },
            ),
            None => if st.scopes.len() == 0 {
                None
            } else {
                Some(
                    RState {
                        table: st.table.insert(
                            name,
                            DefSlot::Local { def, scope_id: st.scopes.last(), from },
                        ),
                        ..st
                    },
                )
            },
            }
        },
        SInst::Ref(name, syn_ref, at) => {
            let live = match slot_of(st.table, name) {
                DefSlot::Local { def, scope_id, from } => if st.scopes.contains(scope_id) && visible(
                    at,
                    def,
                    from,
                ) {
                    Some(Def::Local { def })
                } else {
                    None
                },
                DefSlot::NonLocal(Some(builtin)) => Some(Def::NonLocal(Some(builtin))),
                _ => None,
            };
            match live {
                None => Some(st),
                Some(d) => if syn_ref.0 >= st.defs.len() || st.defs[syn_ref.0 as int]
                    != Def::NonLocal(None) {
                    None
                } else {
                    Some(RState { defs: st.defs.update(syn_ref.0 as int, d), ..st })
                },
            }
        },
        SInst::Scope(id) => if st.scopes.len() == 0 {
            None
        } else if st.scopes.last() == id {
            Some(RState { scopes: st.scopes.drop_last(), ..st })
        } else {
            Some(RState { scopes: st.scopes.push(id), ..st })
        },
    }
}

/// The forward pass over the first `n` instructions.
pub open spec fn run_forward(insts: Seq<SInst>, st: RState, n: int) -> Option<RState>
    decreases n,
{
    if n <= 0 {
        Some(st)
    } else {
        match run_forward(insts, st, n - 1) {
            None => None,
            Some(s) => step(s, insts[n - 1]),
        }
    }
}

/// The backward pass over the last `n` instructions, last one first.
pub open spec fn run_backward(insts: Seq<SInst>, st: RState, n: int) -> Option<RState>
    decreases n,
{
    if n <= 0 {
        Some(st)
    } else {
        match run_backward(insts, st, n - 1) {
            None => None,
            Some(s) => step(s, insts[insts.len() - n]),
        }
    }
}

/// The resolution of `nodes`: for each of the `num_refs` uses, what it refers to, and the
/// refused definitions. A forward pass starts with the builtins bound; a backward pass, with
/// nothing bound and the definitions the forward pass refused ignored, lets uses see
/// definitions that come after them, though never a `let`'s name from inside its own
/// initializer. `None` where the resolver would stop.
pub open spec fn resolution(
    nodes: Seq<NodeImpl>,
    num_refs: nat,
    ends: Seq<Offset>,
    bytes: Seq<u8>,
) -> Option<(Seq<Def>, Seq<Error>)> {
    match collect(nodes, ends, bytes, nodes.len() as int) {
        None => None,
        Some((insts, stack, _, _)) => if stack.len() != 1 {
            None
        } else {
            let start = RState {
                table: builtin_table(),
                scopes: stack,
                defs: Seq::new(num_refs, |i: int| Def::NonLocal(None)),
                errors: seq![],
            };
            match run_forward(insts, start, insts.len() as int) {
                None => None,
                Some(fwd) => match run_backward(
                    insts,
                    RState { table: Map::empty(), ..fwd },
                    insts.len() as int,
                ) {
                    None => None,
                    Some(bwd) => Some((bwd.defs, bwd.errors)),
                },
            }
        },
    }
}

} // verus!

verus! {

/// The resolver's instructions, with names interned.
#[derive(Copy, Clone)]
enum Inst {
    /// A definition, and the node where its statement starts.
    Def(Symbol, Node, Node),
    /// A use, and its node.
    Ref(Symbol, SynRef, Node),
    /// Each `ScopeTransition` has exactly one matching pair with the same scope identifier.
    /// These two form the edges of a scope.
    ScopeTransition(u32),
}

spec fn inst_view(inst: Inst, texts: Seq<Seq<u8>>) -> SInst {
    match inst {
        Inst::Def(s, n, from) => SInst::Def(texts[s.0 as int], n, from),
        Inst::Ref(s, r, at) => SInst::Ref(texts[s.0 as int], r, at),
        Inst::ScopeTransition(id) => SInst::Scope(id),
    }
}

spec fn insts_view(insts: Seq<Inst>, texts: Seq<Seq<u8>>) -> Seq<SInst> {
    insts.map_values(|i: Inst| inst_view(i, texts))
}

spec fn inst_in_range(inst: Inst, n: nat) -> bool {
    match inst {
        Inst::Def(s, _, _) => s.0 < n,
        Inst::Ref(s, _, _) => s.0 < n,
        Inst::ScopeTransition(_) => true,
    }
}

/// Whether `id` is among `ids`.
fn contains_id(ids: &Vec<u32>, id: u32) -> (r: bool)
    ensures
        r == ids@.contains(id),
{
    let mut i: usize = 0;
    while i < ids.len()
        invariant
            i <= ids@.len(),
            forall|k: int| 0 <= k < i ==> ids@[k] != id,
        decreases ids@.len() - i,
    {
        if ids[i] == id {
            assert(ids@[i as int] == id);
            return true;
        }
        i = i + 1;
    }
    false
}

impl DefSlot {
    /// Returns None if it's not shadowing anything.
    fn as_shadowed(self, scope_stack: &Vec<u32>) -> (r: Option<Shadowed>)
        ensures
            r == spec_as_shadowed(self, scope_stack@),
    {
        match self {
            DefSlot::Local { def, scope_id, .. } => {
                if contains_id(scope_stack, scope_id) {
                    Some(Shadowed::Local { def })
                } else {
                    None
                }
            },
            DefSlot::NonLocal(Some(builtin)) => Some(Shadowed::Builtin(builtin)),
            _ => None,
        }
    }
}

} // verus!

verus! {

/// Whether definition `def` was refused earlier.
fn is_refused(errors: &Vec<Error>, def: Node) -> (r: bool)
    ensures
        r == refused(errors@, def),
{
    let mut i: usize = 0;
    while i < errors.len()
        invariant
            i <= errors@.len(),
            forall|k: int| 0 <= k < i ==> (#[trigger] errors@[k]).conflicting_def != def,
        decreases errors@.len() - i,
    {
        if errors[i].conflicting_def == def {
            assert(errors@[i as int].conflicting_def == def);
            return true;
        }
        i = i + 1;
    }
    false
}

/// The bindings `symbols` stand for `table`, symbol by symbol.
spec fn symbols_match(symbols: Seq<DefSlot>, table: Map<Seq<u8>, DefSlot>, texts: Seq<Seq<u8>>) -> bool {
    &&& symbols.len() == texts.len()
    &&& forall|s: int| 0 <= s < texts.len() ==> #[trigger] symbols[s] == slot_of(table, texts[s])
}

/// Runs one instruction on the resolver's state. Returns `false`, and leaves the state in no
/// particular shape, where the resolver would stop.
fn resolve_inst(
    inst: Inst,
    Ghost(texts): Ghost<Seq<Seq<u8>>>,
    Ghost(table): Ghost<Map<Seq<u8>, DefSlot>>,
    symbol_to_def: &mut Vec<DefSlot>,
    scope_stack: &mut Vec<u32>,
    defs: &mut Vec<Def>,
    errors: &mut Vec<Error>,
) -> (ok: bool)
    requires
        distinct(texts),
        inst_in_range(inst, texts.len()),
        symbols_match(old(symbol_to_def)@, table, texts),
    ensures
        ok == step(
            RState { table, scopes: old(scope_stack)@, defs: old(defs)@, errors: old(errors)@ },
            inst_view(inst, texts),
        ) is Some,
        ok ==> ({
            let next = step(
                RState { table, scopes: old(scope_stack)@, defs: old(defs)@, errors: old(errors)@ },
                inst_view(inst, texts),
            )->0;
            &&& symbols_match(final(symbol_to_def)@, next.table, texts)
            &&& final(scope_stack)@ == next.scopes
            &&& final(defs)@ == next.defs
            &&& final(errors)@ == next.errors
        }),
{
    match inst {
        Inst::Def(symbol, def, from) => {
            if is_refused(errors, def) {
                // A duplicate definition, refused before: it is ignored.
                return true;
            }
            let s = symbol.0 as usize;
            assert(symbol_to_def@[s as int] == slot_of(table, texts[s as int]));
            if let Some(shadowed) = symbol_to_def[s].as_shadowed(scope_stack) {
                // This def shadows something else, report an error and do not write it to the
                // table.
                errors.push(Error { shadowed, conflicting_def: def });
                return true;
            }
            if scope_stack.len() == 0 {
                return false;
            }
            let scope_id = scope_stack[scope_stack.len() - 1];
            symbol_to_def.set(s, DefSlot::Local { def, scope_id, from });
            proof {
                let new_table = table.insert(texts[s as int], DefSlot::Local { def, scope_id, from });
                assert forall|t: int| 0 <= t < texts.len() implies #[trigger] symbol_to_def@[t]
                    == slot_of(new_table, texts[t]) by {
                    if t != s {
                        assert(texts[t] != texts[s as int]);
                    }
                }
            }
            true
        },
        Inst::Ref(symbol, syn_ref, at) => {
            let s = symbol.0 as usize;
            assert(symbol_to_def@[s as int] == slot_of(table, texts[s as int]));
            let live_def = match symbol_to_def[s] {
                DefSlot::Local { def, scope_id, from } => {
                    if !contains_id(scope_stack, scope_id) {
                        // Def is from a past scope and should be ignored.
                        return true;
                    }
                    if from.0 < at.0 && at.0 < def.0 {
                        // A let's name is not in scope in its own initializer.
                        return true;
                    }
                    Def::Local { def }
                },
                DefSlot::NonLocal(Some(builtin)) => Def::NonLocal(Some(builtin)),
                _ => {
                    // No def was found.
                    return true;
                },
            };
            let r = syn_ref.0 as usize;
            if r >= defs.len() {
                return false;
            }
            // Ambiguous definitions should have been refused when they were made.
            if defs[r] != Def::NonLocal(None) {
                return false;
            }
            defs.set(r, live_def);
            true
        },
        Inst::ScopeTransition(scope_id) => {
            if scope_stack.len() == 0 {
                return false;
            }
            if scope_stack[scope_stack.len() - 1] == scope_id {
                // Transitioning out of this scope
                scope_stack.pop();
            } else {
                // Transitioning into this scope
                scope_stack.push(scope_id);
            }
            true
        },
    }
}

proof fn lemma_collect_none(nodes: Seq<NodeImpl>, ends: Seq<Offset>, bytes: Seq<u8>, k: int, n: int)
    requires
        0 <= k <= n,
        collect(nodes, ends, bytes, k) is None,
    ensures
        collect(nodes, ends, bytes, n) is None,
    decreases n - k,
{
    if k < n {
        lemma_collect_none(nodes, ends, bytes, k + 1, n);
    }
}

proof fn lemma_forward_prefix(insts: Seq<SInst>, st: RState, k: int, n: int)
    requires
        0 <= k <= n,
        run_forward(insts, st, n) is Some,
    ensures
        run_forward(insts, st, k) is Some,
    decreases n - k,
{
    if k < n {
        lemma_forward_prefix(insts, st, k + 1, n);
    }
}

proof fn lemma_backward_prefix(insts: Seq<SInst>, st: RState, k: int, n: int)
    requires
        0 <= k <= n,
        run_backward(insts, st, n) is Some,
    ensures
        run_backward(insts, st, k) is Some,
    decreases n - k,
{
    if k < n {
        lemma_backward_prefix(insts, st, k + 1, n);
    }
}

/// Names bound while resolving, for each use what it refers to, and refused definitions.
pub struct Resolve {
    pub defs: Vec<Def>,
    pub errors: Vec<Error>,
}

/// Uses whose token lies among `ends`.
pub open spec fn tokens_in_range(nodes: Seq<NodeImpl>, num_ends: nat) -> bool {
    forall|i: int|
        0 <= i < nodes.len() && (is_def_kind(nodes[i].kind) || nodes[i].kind is ExprIdent)
            ==> #[trigger] nodes[i].token.0 < num_ends
}

/// Resolves every use of a name among the nodes of `parse`, as [`resolve`] does, or returns
/// `None` where resolution stops: a scope closed that was never opened, scopes left open, a use
/// resolved twice.
pub fn resolve_checked(parse: &Parse, ends: &[Offset], input: &str) -> (r: Option<Resolve>)
    requires
        parse.nodes@.len() < u32::MAX - 2,
        offsets_fit(ends@, input.spec_bytes()),
        tokens_in_range(parse.nodes@, ends@.len()),
    ensures
        r is Some <==> resolution(
            parse.nodes@,
            parse.syn_refs.next.0 as nat,
            ends@,
            input.spec_bytes(),
        ) is Some,
        r is Some ==> r->0.defs@ == resolution(
            parse.nodes@,
            parse.syn_refs.next.0 as nat,
            ends@,
            input.spec_bytes(),
        ).unwrap().0,
        r is Some ==> r->0.errors@ == resolution(
            parse.nodes@,
            parse.syn_refs.next.0 as nat,
            ends@,
            input.spec_bytes(),
        ).unwrap().1,
{
    let ghost bytes = input.spec_bytes();
    let ghost nodes = parse.nodes@;
    let mut insts: Vec<Inst> = Vec::new();
    let mut scope_stack: Vec<u32> = Vec::new();
    scope_stack.push(1);
    let mut keys: Vec<&[u8]> = Vec::new();
    let sym_i32 = intern(&mut keys, &[105u8, 51u8, 50u8]);
    let sym_type = intern(&mut keys, &[116u8, 121u8, 112u8, 101u8]);
    proof {
        assert(texts(keys@)[0] == seq![105u8, 51u8, 50u8]);
        assert(keys@.len() == 2);
        assert(insts_view(insts@, texts(keys@)) =~= Seq::<SInst>::empty());
        assert(scope_stack@ =~= seq![1u32]);
    }
    let mut next_scope_id: u32 = 2;
    let mut lets: Vec<Node> = Vec::new();
    proof {
        assert(lets@ =~= Seq::<Node>::empty());
    }
    let mut i: usize = 0;
    while i < parse.nodes.len()
        invariant
            i <= nodes.len(),
            nodes == parse.nodes@,
            nodes.len() < u32::MAX - 2,
            bytes == input.spec_bytes(),
            offsets_fit(ends@, bytes),
            tokens_in_range(nodes, ends@.len()),
            collect(nodes, ends@, bytes, i as int) == Some(
                (insts_view(insts@, texts(keys@)), scope_stack@, next_scope_id, lets@),
            ),
            distinct(texts(keys@)),
            keys@.len() <= 2 + i,
            keys@.len() >= 2,
            sym_i32.0 == 0,
            sym_type.0 == 1,
            texts(keys@)[0] == seq![105u8, 51u8, 50u8],
            texts(keys@)[1] == seq![116u8, 121u8, 112u8, 101u8],
            forall|k: int| 0 <= k < insts@.len() ==> inst_in_range(#[trigger] insts@[k], keys@.len()),
        decreases nodes.len() - i,
    {
        let node_impl = parse.nodes[i];
        let node = Node(i as u32);
        let ghost old_keys = keys@;
        let ghost old_insts = insts@;
        match node_impl.kind {
            NodeKind::LetIdent(_) => {
                let text = token_text(node_impl.token, ends, input);
                let symbol = intern(&mut keys, text);
                let from = match lets.pop() {
                    Some(start) => start,
                    None => node,
                };
                insts.push(Inst::Def(symbol, node, from));
            },
            NodeKind::StructIdent(_) | NodeKind::FnIdent(_) | NodeKind::FnParamsParam(_) => {
                let text = token_text(node_impl.token, ends, input);
                let symbol = intern(&mut keys, text);
                insts.push(Inst::Def(symbol, node, node));
            },
            NodeKind::Let => {
                lets.push(node);
            },
            NodeKind::ExprIdent(syn_ref) => {
                let text = token_text(node_impl.token, ends, input);
                let symbol = intern(&mut keys, text);
                insts.push(Inst::Ref(symbol, syn_ref, node));
            },
            NodeKind::StructBody | NodeKind::FnParams | NodeKind::ExprBlock => {
                insts.push(Inst::ScopeTransition(next_scope_id));
                scope_stack.push(next_scope_id);
                next_scope_id = match next_scope_id.checked_add(1) {
                    Some(id) => id,
                    None => {
                        proof {
                            lemma_collect_none(nodes, ends@, bytes, i + 1, nodes.len() as int);
                        }
                        return None;
                    },
                };
            },
            NodeKind::StructBodyEnd(_) | NodeKind::FnBodyEnd(_) | NodeKind::ExprBlockEnd(_) => {
                let id = match scope_stack.pop() {
                    Some(id) => id,
                    None => {
                        proof {
                            lemma_collect_none(nodes, ends@, bytes, i + 1, nodes.len() as int);
                        }
                        return None;
                    },
                };
                insts.push(Inst::ScopeTransition(id));
            },
            _ => {
                // The node isn't relevant for name resolution.
            },
        }
        proof {
            assert(texts(keys@).take(old_keys.len() as int) =~= texts(old_keys));
            assert(insts_view(old_insts, texts(keys@)) =~= insts_view(old_insts, texts(old_keys)));
            assert(insts_view(insts@, texts(keys@)) =~= collect(nodes, ends@, bytes, i + 1).unwrap().0);
        }
        i = i + 1;
    }
    proof {
        assert(nodes.take(nodes.len() as int) =~= nodes);
    }
    if scope_stack.len() != 1 {
        return None;
    }
    let ghost insts_spec = insts_view(insts@, texts(keys@));
    let ghost txt = texts(keys@);
    let num_refs = parse.syn_refs.next.0 as usize;
    let mut defs: Vec<Def> = Vec::new();
    let mut k: usize = 0;
    while k < num_refs
        invariant
            k <= num_refs,
            defs@ == Seq::new(k as nat, |j: int| Def::NonLocal(None)),
        decreases num_refs - k,
    {
        defs.push(Def::NonLocal(None));
        k = k + 1;
        assert(defs@ =~= Seq::new(k as nat, |j: int| Def::NonLocal(None)));
    }
    let mut symbols: Vec<DefSlot> = Vec::new();
    let mut k: usize = 0;
    while k < keys.len()
        invariant
            k <= keys@.len(),
            symbols@ == Seq::new(k as nat, |j: int| DefSlot::NonLocal(None)),
        decreases keys@.len() - k,
    {
        symbols.push(DefSlot::NonLocal(None));
        k = k + 1;
        assert(symbols@ =~= Seq::new(k as nat, |j: int| DefSlot::NonLocal(None)));
    }
    symbols.set(sym_i32.0 as usize, DefSlot::NonLocal(Some(Builtin::I32)));
    symbols.set(sym_type.0 as usize, DefSlot::NonLocal(Some(Builtin::Type)));
    let ghost start = RState {
        table: builtin_table(),
        scopes: scope_stack@,
        defs: defs@,
        errors: seq![],
    };
    proof {
        assert forall|s: int| 0 <= s < txt.len() implies #[trigger] symbols@[s] == slot_of(
            builtin_table(),
            txt[s],
        ) by {
            if s >= 2 {
                assert(txt[s] != txt[0]);
                assert(txt[s] != txt[1]);
            }
        }
    }
    let mut errors: Vec<Error> = Vec::new();
    let n = insts.len();
    proof {
        assert(collect(nodes, ends@, bytes, nodes.len() as int) == Some(
            (insts_spec, scope_stack@, next_scope_id, lets@),
        ));
        assert(defs@ =~= Seq::new(parse.syn_refs.next.0 as nat, |i: int| Def::NonLocal(None)));
    }
    // Forward pass
    let mut k: usize = 0;
    let ghost mut table = builtin_table();
    while k < n
        invariant
            k <= n,
            n == insts@.len(),
            insts_spec == insts_view(insts@, txt),
            distinct(txt),
            forall|j: int| 0 <= j < insts@.len() ==> inst_in_range(#[trigger] insts@[j], txt.len()),
            nodes == parse.nodes@,
            bytes == input.spec_bytes(),
            resolution(nodes, parse.syn_refs.next.0 as nat, ends@, bytes) is Some ==> run_forward(
                insts_spec,
                start,
                n as int,
            ) is Some,
            run_forward(insts_spec, start, k as int) == Some(
                RState { table, scopes: scope_stack@, defs: defs@, errors: errors@ },
            ),
            symbols_match(symbols@, table, txt),
        decreases n - k,
    {
        if !resolve_inst(
            insts[k],
            Ghost(txt),
            Ghost(table),
            &mut symbols,
            &mut scope_stack,
            &mut defs,
            &mut errors,
        ) {
            proof {
                if run_forward(insts_spec, start, n as int) is Some {
                    lemma_forward_prefix(insts_spec, start, k + 1, n as int);
                }
            }
            return None;
        }
        proof {
            table = run_forward(insts_spec, start, k + 1)->0.table;
        }
        k = k + 1;
    }
    // Reset (zeroing the buffer)
    let mut k: usize = 0;
    while k < symbols.len()
        invariant
            k <= symbols@.len(),
            symbols@.len() == txt.len(),
            forall|j: int| 0 <= j < k ==> symbols@[j] == DefSlot::NonLocal(None),
        decreases symbols@.len() - k,
    {
        symbols.set(k, DefSlot::NonLocal(None));
        k = k + 1;
    }
    let ghost mid = RState {
        table: Map::empty(),
        scopes: scope_stack@,
        defs: defs@,
        errors: errors@,
    };
    proof {
        table = Map::empty();
    }
    // Backward pass
    let mut k: usize = 0;
    while k < n
        invariant
            k <= n,
            n == insts@.len(),
            insts_spec == insts_view(insts@, txt),
            insts_spec.len() == n,
            distinct(txt),
            forall|j: int| 0 <= j < insts@.len() ==> inst_in_range(#[trigger] insts@[j], txt.len()),
            nodes == parse.nodes@,
            bytes == input.spec_bytes(),
            resolution(nodes, parse.syn_refs.next.0 as nat, ends@, bytes) is Some ==> run_backward(
                insts_spec,
                mid,
                n as int,
            ) is Some,
            run_backward(insts_spec, mid, k as int) == Some(
                RState { table, scopes: scope_stack@, defs: defs@, errors: errors@ },
            ),
            symbols_match(symbols@, table, txt),
        decreases n - k,
    {
        if !resolve_inst(
            insts[n - 1 - k],
            Ghost(txt),
            Ghost(table),
            &mut symbols,
            &mut scope_stack,
            &mut defs,
            &mut errors,
        ) {
            proof {
                if run_backward(insts_spec, mid, n as int) is Some {
                    lemma_backward_prefix(insts_spec, mid, k + 1, n as int);
                }
            }
            return None;
        }
        proof {
            table = run_backward(insts_spec, mid, k + 1)->0.table;
        }
        k = k + 1;
    }
    Some(Resolve { defs, errors })
}

/// Resolves every use of a name among the nodes of `parse` to what it refers to: the result
/// is [`resolution`] of the nodes, the names being the source text of their tokens.
pub fn resolve(parse: &Parse, ends: &[Offset], input: &str) -> (r: Resolve)
    requires
        parse.nodes@.len() < u32::MAX - 2,
        offsets_fit(ends@, input.spec_bytes()),
        tokens_in_range(parse.nodes@, ends@.len()),
        resolution(parse.nodes@, parse.syn_refs.next.0 as nat, ends@, input.spec_bytes()) is Some,
    ensures
        r.defs@ == resolution(
            parse.nodes@,
            parse.syn_refs.next.0 as nat,
            ends@,
            input.spec_bytes(),
        ).unwrap().0,
        r.errors@ == resolution(
            parse.nodes@,
            parse.syn_refs.next.0 as nat,
            ends@,
            input.spec_bytes(),
        ).unwrap().1,
{
    resolve_checked(parse, ends, input).unwrap()
}

} // verus!

verus! {

/// The name of a builtin.
pub open spec fn builtin_name(b: Builtin) -> Seq<u8> {
    match b {
        Builtin::I32 => seq![105u8, 51u8, 50u8],
        Builtin::Type => seq![116u8, 121u8, 112u8, 101u8],
    }
}

/// Node `d` defines `name`.
pub open spec fn def_named(nodes: Seq<NodeImpl>, ends: Seq<Offset>, bytes: Seq<u8>, d: Node, name: Seq<u8>) -> bool {
    &&& (d.0 as int) < nodes.len()
    &&& is_def_kind(nodes[d.0 as int].kind)
    &&& offset_text(nodes[d.0 as int].token.0 as int, ends, bytes) == name
}

/// Some node uses `name` through `syn_ref`.
pub open spec fn use_named(nodes: Seq<NodeImpl>, ends: Seq<Offset>, bytes: Seq<u8>, syn_ref: SynRef, name: Seq<u8>) -> bool {
    exists|u: int|
        #![trigger nodes[u]]
        0 <= u < nodes.len() && nodes[u].kind == NodeKind::ExprIdent(syn_ref) && offset_text(
            nodes[u].token.0 as int,
            ends,
            bytes,
        ) == name
}

/// What use `r` resolved to carries its name: a definition of that name, or the builtin of
/// that name.
pub open spec fn resolved_ok(nodes: Seq<NodeImpl>, ends: Seq<Offset>, bytes: Seq<u8>, d: Def, r: int) -> bool {
    match d {
        Def::Local { def } => exists|name: Seq<u8>|
            #![trigger def_named(nodes, ends, bytes, def, name)]
            use_named(nodes, ends, bytes, SynRef(r as u32), name) && def_named(nodes, ends, bytes, def, name),
        Def::NonLocal(Some(b)) => use_named(nodes, ends, bytes, SynRef(r as u32), builtin_name(b)),
        Def::NonLocal(None) => true,
    }
}

spec fn inst_ok(nodes: Seq<NodeImpl>, ends: Seq<Offset>, bytes: Seq<u8>, inst: SInst) -> bool {
    match inst {
        SInst::Def(name, def, _) => def_named(nodes, ends, bytes, def, name),
        SInst::Ref(name, syn_ref, _) => use_named(nodes, ends, bytes, syn_ref, name),
        SInst::Scope(_) => true,
    }
}

spec fn slot_ok(nodes: Seq<NodeImpl>, ends: Seq<Offset>, bytes: Seq<u8>, slot: DefSlot, name: Seq<u8>) -> bool {
    match slot {
        DefSlot::Local { def, .. } => def_named(nodes, ends, bytes, def, name),
        DefSlot::NonLocal(Some(b)) => name == builtin_name(b),
        DefSlot::NonLocal(None) => true,
    }
}

spec fn state_ok(nodes: Seq<NodeImpl>, ends: Seq<Offset>, bytes: Seq<u8>, st: RState) -> bool {
    &&& forall|name: Seq<u8>| #[trigger] slot_ok(nodes, ends, bytes, slot_of(st.table, name), name)
    &&& forall|r: int| 0 <= r < st.defs.len() ==> #[trigger] resolved_ok(nodes, ends, bytes, st.defs[r], r)
}

proof fn lemma_collect_ok(nodes: Seq<NodeImpl>, ends: Seq<Offset>, bytes: Seq<u8>, n: int)
    requires
        0 <= n <= nodes.len(),
        nodes.len() < u32::MAX,
        collect(nodes, ends, bytes, n) is Some,
    ensures
        forall|k: int|
            0 <= k < collect(nodes, ends, bytes, n).unwrap().0.len() ==> #[trigger] inst_ok(
                nodes,
                ends,
                bytes,
                collect(nodes, ends, bytes, n).unwrap().0[k],
            ),
    decreases n,
{
    if n > 0 {
        lemma_collect_ok(nodes, ends, bytes, n - 1);
        let prev = collect(nodes, ends, bytes, n - 1).unwrap().0;
        let insts = collect(nodes, ends, bytes, n).unwrap().0;
        let node = nodes[n - 1];
        assert forall|k: int| 0 <= k < insts.len() implies #[trigger] inst_ok(nodes, ends, bytes, insts[k]) by {
            if k < prev.len() {
                assert(insts[k] == prev[k]);
                assert(inst_ok(nodes, ends, bytes, prev[k]));
            } else if node.kind is ExprIdent {
                assert(nodes[n - 1] == node);
            }
        }
    }
}

proof fn lemma_step_ok(nodes: Seq<NodeImpl>, ends: Seq<Offset>, bytes: Seq<u8>, st: RState, inst: SInst)
    requires
        state_ok(nodes, ends, bytes, st),
        inst_ok(nodes, ends, bytes, inst),
        step(st, inst) is Some,
    ensures
        state_ok(nodes, ends, bytes, step(st, inst).unwrap()),
{
    let next = step(st, inst).unwrap();
    match inst {
        SInst::Def(name, def, _) => {
            assert forall|t: Seq<u8>| #[trigger] slot_ok(nodes, ends, bytes, slot_of(next.table, t), t) by {
                assert(slot_ok(nodes, ends, bytes, slot_of(st.table, t), t));
            }
            assert forall|r: int| 0 <= r < next.defs.len() implies #[trigger] resolved_ok(nodes, ends, bytes, next.defs[r], r) by {
                assert(resolved_ok(nodes, ends, bytes, st.defs[r], r));
            }
        },
        SInst::Ref(name, syn_ref, _) => {
            assert(slot_ok(nodes, ends, bytes, slot_of(st.table, name), name));
            assert forall|t: Seq<u8>| #[trigger] slot_ok(nodes, ends, bytes, slot_of(next.table, t), t) by {
                assert(slot_ok(nodes, ends, bytes, slot_of(st.table, t), t));
            }
            assert forall|r: int| 0 <= r < next.defs.len() implies #[trigger] resolved_ok(nodes, ends, bytes, next.defs[r], r) by {
                if r != syn_ref.0 as int || next.defs == st.defs {
                    assert(next.defs[r] == st.defs[r]);
                    assert(resolved_ok(nodes, ends, bytes, st.defs[r], r));
                } else {
                    match next.defs[r] {
                        Def::Local { def } => {
                            assert(def_named(nodes, ends, bytes, def, name));
                            assert(SynRef(r as u32) == syn_ref);
                        },
                        Def::NonLocal(Some(b)) => {
                            assert(SynRef(r as u32) == syn_ref);
                        },
                        Def::NonLocal(None) => {},
                    }
                }
            }
        },
        SInst::Scope(_) => {
            assert forall|t: Seq<u8>| #[trigger] slot_ok(nodes, ends, bytes, slot_of(next.table, t), t) by {
                assert(slot_ok(nodes, ends, bytes, slot_of(st.table, t), t));
            }
            assert forall|r: int| 0 <= r < next.defs.len() implies #[trigger] resolved_ok(nodes, ends, bytes, next.defs[r], r) by {
                assert(resolved_ok(nodes, ends, bytes, st.defs[r], r));
            }
        },
    }
}

proof fn lemma_forward_ok(nodes: Seq<NodeImpl>, ends: Seq<Offset>, bytes: Seq<u8>, insts: Seq<SInst>, st: RState, n: int)
    requires
        0 <= n <= insts.len(),
        state_ok(nodes, ends, bytes, st),
        forall|k: int| 0 <= k < insts.len() ==> #[trigger] inst_ok(nodes, ends, bytes, insts[k]),
        run_forward(insts, st, n) is Some,
    ensures
        state_ok(nodes, ends, bytes, run_forward(insts, st, n).unwrap()),
    decreases n,
{
    if n > 0 {
        lemma_forward_prefix(insts, st, n - 1, n);
        lemma_forward_ok(nodes, ends, bytes, insts, st, n - 1);
        lemma_step_ok(nodes, ends, bytes, run_forward(insts, st, n - 1).unwrap(), insts[n - 1]);
    }
}

proof fn lemma_backward_ok(nodes: Seq<NodeImpl>, ends: Seq<Offset>, bytes: Seq<u8>, insts: Seq<SInst>, st: RState, n: int)
    requires
        0 <= n <= insts.len(),
        state_ok(nodes, ends, bytes, st),
        forall|k: int| 0 <= k < insts.len() ==> #[trigger] inst_ok(nodes, ends, bytes, insts[k]),
        run_backward(insts, st, n) is Some,
    ensures
        state_ok(nodes, ends, bytes, run_backward(insts, st, n).unwrap()),
    decreases n,
{
    if n > 0 {
        lemma_backward_prefix(insts, st, n - 1, n);
        lemma_backward_ok(nodes, ends, bytes, insts, st, n - 1);
        lemma_step_ok(nodes, ends, bytes, run_backward(insts, st, n - 1).unwrap(), insts[insts.len() - n]);
    }
}

/// Every use that resolves, resolves to something of its own name: a definition of that name,
/// or the builtin of that name.
pub proof fn lemma_resolution_sound(nodes: Seq<NodeImpl>, num_refs: nat, ends: Seq<Offset>, bytes: Seq<u8>)
    requires
        nodes.len() < u32::MAX,
        resolution(nodes, num_refs, ends, bytes) is Some,
    ensures
        resolution(nodes, num_refs, ends, bytes).unwrap().0.len() == num_refs,
        forall|r: int|
            0 <= r < num_refs ==> #[trigger] resolved_ok(
                nodes,
                ends,
                bytes,
                resolution(nodes, num_refs, ends, bytes).unwrap().0[r],
                r,
            ),
{
    let (insts, stack, _, _) = collect(nodes, ends, bytes, nodes.len() as int).unwrap();
    lemma_collect_ok(nodes, ends, bytes, nodes.len() as int);
    let start = RState {
        table: builtin_table(),
        scopes: stack,
        defs: Seq::new(num_refs, |i: int| Def::NonLocal(None)),
        errors: seq![],
    };
    assert forall|t: Seq<u8>| #[trigger] slot_ok(nodes, ends, bytes, slot_of(start.table, t), t) by {
        if start.table.contains_key(t) {
            if t == seq![105u8, 51u8, 50u8] {
            } else {
                assert(t == seq![116u8, 121u8, 112u8, 101u8]);
            }
        }
    }
    lemma_forward_ok(nodes, ends, bytes, insts, start, insts.len() as int);
    let fwd = run_forward(insts, start, insts.len() as int).unwrap();
    let back = RState { table: Map::empty(), ..fwd };
    assert forall|t: Seq<u8>| #[trigger] slot_ok(nodes, ends, bytes, slot_of(back.table, t), t) by {}
    lemma_backward_ok(nodes, ends, bytes, insts, back, insts.len() as int);
    lemma_defs_len(insts, start, insts.len() as int);
    lemma_backward_defs_len(insts, back, insts.len() as int);
}

proof fn lemma_defs_len(insts: Seq<SInst>, st: RState, n: int)
    requires
        0 <= n <= insts.len(),
        run_forward(insts, st, n) is Some,
    ensures
        run_forward(insts, st, n).unwrap().defs.len() == st.defs.len(),
    decreases n,
{
    if n > 0 {
        lemma_forward_prefix(insts, st, n - 1, n);
        lemma_defs_len(insts, st, n - 1);
    }
}

proof fn lemma_backward_defs_len(insts: Seq<SInst>, st: RState, n: int)
    requires
        0 <= n <= insts.len(),
        run_backward(insts, st, n) is Some,
    ensures
        run_backward(insts, st, n).unwrap().defs.len() == st.defs.len(),
    decreases n,
{
    if n > 0 {
        lemma_backward_prefix(insts, st, n - 1, n);
        lemma_backward_defs_len(insts, st, n - 1);
    }
}

} // verus!

verus! {

/// What hovering over a use of a builtin shows.
pub fn builtin_to_hover_description(builtin: Builtin) -> (r: &'static str)
    ensures
        builtin == Builtin::I32 ==> r@ == "The 32-bit signed integer type."@,
        builtin == Builtin::Type ==> r@ == "The type of types."@,
{
    match builtin {
        Builtin::I32 => "The 32-bit signed integer type.",
        Builtin::Type => "The type of types.",
    }
}

} // verus!
