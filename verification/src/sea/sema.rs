//! Evaluation of Sea nodes at compile time, as far as it goes: integer literals, builtin names
//! and additions, on a stack of values.
use crate::index::Counter;
use crate::sea::node::{Nominal, NodeImpl, NodeKind, SynDef, SynRef};
use crate::sea::resolver::{Builtin, Def};
use crate::sea::span::{offset_span, offset_text, offsets_fit, span, Offset};
use vstd::prelude::*;
use vstd::string::StringSliceAdditionalSpecFns;

verus! {

#[derive(Copy, Clone, Debug, PartialEq, Eq, Structural)]
pub enum Value {
    Int(i64),
    Builtin(Builtin),
    SynRef(SynRef),
    Undefined,
}

/// Adding `other` to `lhs` is defined: both are integers and the sum fits.
pub open spec fn can_add(lhs: Value, other: Value) -> bool {
    match (lhs, other) {
        (Value::Int(a), Value::Int(b)) => i64::MIN <= a + b <= i64::MAX,
        _ => false,
    }
}

/// The sum of two values that [`can_add`].
pub open spec fn sum(lhs: Value, other: Value) -> Value {
    match (lhs, other) {
        (Value::Int(a), Value::Int(b)) => Value::Int((a + b) as i64),
        _ => lhs,
    }
}

impl Value {
    fn add(&mut self, other: Self)
        requires
            can_add(*old(self), other),
        ensures
            *final(self) == sum(*old(self), other),
    {
        match (self, other) {
            (Value::Int(lhs), Value::Int(rhs)) => *lhs = *lhs + rhs,
            _ => {},
        }
    }
}

/// Whether `b` is an ASCII decimal digit.
pub open spec fn is_digit(b: u8) -> bool {
    48 <= b <= 57
}

/// The number written by the decimal digits `ds`.
pub open spec fn digits_value(ds: Seq<u8>) -> int
    decreases ds.len(),
{
    if ds.len() == 0 {
        0
    } else {
        digits_value(ds.drop_last()) * 10 + (ds.last() - 48)
    }
}

/// `s` starts with a `+` or a `-`.
pub open spec fn has_sign(s: Seq<u8>) -> bool {
    s.len() > 0 && (s[0] == 43u8 || s[0] == 45u8)
}

/// `s` without its sign, if it has one.
pub open spec fn unsigned_part(s: Seq<u8>) -> Seq<u8> {
    if has_sign(s) {
        s.drop_first()
    } else {
        s
    }
}

/// The `i64` that `s` writes in decimal, as `str::parse` reads it: an optional `+` or `-`, then
/// one or more digits, and nothing else; `None` when `s` is not of that form or the number does
/// not fit.
pub open spec fn parse_i64(s: Seq<u8>) -> Option<i64> {
    let body = unsigned_part(s);
    let v = if s.len() > 0 && s[0] == 45u8 {
        -digits_value(body)
    } else {
        digits_value(body)
    };
    if body.len() == 0 || exists|k: int| 0 <= k < body.len() && !is_digit(#[trigger] body[k]) {
        None
    } else if i64::MIN <= v <= i64::MAX {
        Some(v as i64)
    } else {
        None
    }
}

proof fn lemma_digits_value_nonneg(ds: Seq<u8>)
    requires
        forall|k: int| 0 <= k < ds.len() ==> is_digit(#[trigger] ds[k]),
    ensures
        digits_value(ds) >= 0,
    decreases ds.len(),
{
    if ds.len() > 0 {
        lemma_digits_value_nonneg(ds.drop_last());
    }
}

proof fn lemma_digits_value_grows(ds: Seq<u8>, k: int)
    requires
        0 <= k <= ds.len(),
        forall|j: int| 0 <= j < ds.len() ==> is_digit(#[trigger] ds[j]),
    ensures
        digits_value(ds.take(k)) <= digits_value(ds),
    decreases ds.len() - k,
{
    if k < ds.len() {
        lemma_digits_value_grows(ds, k + 1);
        assert(ds.take(k + 1).drop_last() =~= ds.take(k));
        lemma_digits_value_nonneg(ds.take(k));
    } else {
        assert(ds.take(k) =~= ds);
    }
}

/// Reads `s` as a decimal `i64` the way `str::parse` does: [`parse_i64`].
pub fn parse_int(s: &[u8]) -> (r: Option<i64>)
    ensures
        r == parse_i64(s@),
{
    let n = s.len();
    let mut i: usize = 0;
    let mut negative = false;
    if n > 0 && (s[0] == 43u8 || s[0] == 45u8) {
        negative = s[0] == 45u8;
        i = 1;
    }
    let ghost body = s@.skip(i as int);
    proof {
        if i == 1 {
            assert(body =~= s@.drop_first());
        } else {
            assert(body =~= s@);
        }
    }
    if i == n {
        return None;
    }
    // The magnitude read so far, kept negative when the number is, so that `i64::MIN` fits.
    let mut acc: i64 = 0;
    let start = i;
    while i < n
        invariant
            start <= i <= n,
            n == s@.len(),
            body == s@.skip(start as int),
            body == unsigned_part(s@),
            negative == (s@.len() > 0 && s@[0] == 45u8),
            body.len() > 0,
            forall|k: int| 0 <= k < i - start ==> is_digit(#[trigger] body[k]),
            acc == (if negative {
                -digits_value(body.take(i - start))
            } else {
                digits_value(body.take(i - start))
            }),
        decreases n - i,
    {
        let b = s[i];
        if b < 48u8 || b > 57u8 {
            proof {
                assert(body[i - start] == b);
                assert(!is_digit(body[i - start]));
            }
            return None;
        }
        let d = (b - 48u8) as i64;
        proof {
            assert(body.take(i - start + 1).drop_last() =~= body.take(i - start));
            assert(body.take(i - start + 1).last() == b);
        }
        let next = if negative {
            match acc.checked_mul(10) {
                Some(m) => m.checked_sub(d),
                None => None,
            }
        } else {
            match acc.checked_mul(10) {
                Some(m) => m.checked_add(d),
                None => None,
            }
        };
        match next {
            Some(v) => {
                acc = v;
            },
            None => {
                proof {
                    let k1 = i - start + 1;
                    let val = digits_value(body.take(k1));
                    lemma_digits_value_nonneg(body.take(i - start));
                    assert(!negative ==> val > i64::MAX);
                    assert(negative ==> -val < i64::MIN);
                    if !(exists|k: int| 0 <= k < body.len() && !is_digit(#[trigger] body[k])) {
                        lemma_digits_value_grows(body, k1);
                    }
                }
                return None;
            },
        }
        i = i + 1;
    }
    proof {
        assert(body.take(i - start) =~= body);
    }
    Some(acc)
}

} // verus!

verus! {

/// Token `k`'s span lies inside `bytes`, in order, on character boundaries.
pub open spec fn span_ok(k: int, ends: Seq<Offset>, bytes: Seq<u8>) -> bool {
    let s = offset_span(k, ends);
    &&& 0 <= k < ends.len()
    &&& s.start.0 <= s.end.0 <= bytes.len()
    &&& vstd::utf8::is_char_boundary(bytes, s.start.0 as int)
    &&& vstd::utf8::is_char_boundary(bytes, s.end.0 as int)
}

/// What evaluating `node` does to the stack of values; `None` where evaluation stops on an
/// error: a construct that is not evaluated yet, a missing operand, an unbound name, or an
/// integer literal that does not read as an `i64`.
pub open spec fn eval_step(
    bytes: Seq<u8>,
    ends: Seq<Offset>,
    syn_refs: Seq<Def>,
    stack: Seq<Value>,
    node: NodeImpl,
) -> Option<Seq<Value>> {
    match node.kind {
        NodeKind::Fn | NodeKind::FnParams | NodeKind::FnParamsParam(_) => Some(stack),
        NodeKind::ExprAdd => {
            let n = stack.len() as int;
            if n >= 2 && can_add(stack[n - 2], stack[n - 1]) {
                Some(stack.drop_last().update(n - 2, sum(stack[n - 2], stack[n - 1])))
            } else {
                None
            }
        },
        NodeKind::ExprIdent(syn_ref) => {
            if (syn_ref.0 as int) < syn_refs.len() {
                match syn_refs[syn_ref.0 as int] {
                    Def::Local { .. } => Some(stack),
                    Def::NonLocal(Some(builtin)) => Some(stack.push(Value::Builtin(builtin))),
                    Def::NonLocal(None) => None,
                }
            } else {
                None
            }
        },
        NodeKind::ExprInt => {
            if span_ok(node.token.0 as int, ends, bytes) {
                match parse_i64(offset_text(node.token.0 as int, ends, bytes)) {
                    Some(v) => Some(stack.push(Value::Int(v))),
                    None => None,
                }
            } else {
                None
            }
        },
        _ => None,
    }
}

/// The stack of values after evaluating the first `n` nodes, if no error stopped it.
pub open spec fn eval_stack(
    bytes: Seq<u8>,
    ends: Seq<Offset>,
    syn_refs: Seq<Def>,
    nodes: Seq<NodeImpl>,
    n: int,
) -> Option<Seq<Value>>
    decreases n,
{
    if n <= 0 {
        Some(Seq::empty())
    } else {
        match eval_stack(bytes, ends, syn_refs, nodes, n - 1) {
            None => None,
            Some(stack) => eval_step(bytes, ends, syn_refs, stack, nodes[n - 1]),
        }
    }
}

/// Evaluating all of `nodes` runs without error.
pub open spec fn evaluates(bytes: Seq<u8>, ends: Seq<Offset>, syn_refs: Seq<Def>, nodes: Seq<NodeImpl>) -> bool {
    eval_stack(bytes, ends, syn_refs, nodes, nodes.len() as int) is Some
}

proof fn lemma_eval_prefix(
    bytes: Seq<u8>,
    ends: Seq<Offset>,
    syn_refs: Seq<Def>,
    nodes: Seq<NodeImpl>,
    k: int,
    n: int,
)
    requires
        0 <= k <= n,
        eval_stack(bytes, ends, syn_refs, nodes, n) is Some,
    ensures
        eval_stack(bytes, ends, syn_refs, nodes, k) is Some,
    decreases n - k,
{
    if k < n {
        lemma_eval_prefix(bytes, ends, syn_refs, nodes, k + 1, n);
    }
}

/// Evaluates `nodes` in order on a stack of values, and returns the stack it ends with.
/// Evaluation of most constructs is not written yet: it is defined, and runs, only on the nodes
/// that [`evaluates`] accepts.
pub fn eval(
    input: &str,
    ends: &[Offset],
    nodes: &[NodeImpl],
    syn_refs: &[Def],
    syn_defs: Counter<SynDef>,
    _nominals: Counter<Nominal>,
) -> (r: Vec<Value>)
    requires
        evaluates(input.spec_bytes(), ends@, syn_refs@, nodes@),
    ensures
        Some(r@) == eval_stack(input.spec_bytes(), ends@, syn_refs@, nodes@, nodes@.len() as int),
{
    let ghost bytes = input.spec_bytes();
    let mut stack: Vec<Value> = Vec::new();
    let mut _defs: Vec<Value> = Vec::new();
    let num_defs = syn_defs.next.0 as usize;
    while _defs.len() < num_defs
        invariant
            _defs@.len() <= num_defs,
        decreases num_defs - _defs@.len(),
    {
        _defs.push(Value::Undefined);
    }
    let mut i: usize = 0;
    while i < nodes.len()
        invariant
            i <= nodes@.len(),
            bytes == input.spec_bytes(),
            evaluates(bytes, ends@, syn_refs@, nodes@),
            eval_stack(bytes, ends@, syn_refs@, nodes@, i as int) == Some(stack@),
        decreases nodes@.len() - i,
    {
        proof {
            lemma_eval_prefix(bytes, ends@, syn_refs@, nodes@, i + 1, nodes@.len() as int);
        }
        let node = nodes[i];
        let ghost before = stack@;
        match node.kind {
            NodeKind::Fn => {},
            NodeKind::FnParams => {},
            NodeKind::FnParamsParam(_syn_def) => {
                // There is an expression on the stack, it is the type of this
                // param.
            },
            NodeKind::ExprAdd => {
                let rhs = stack.pop().unwrap();
                let n = stack.len();
                let mut lhs = stack[n - 1];
                lhs.add(rhs);
                stack.set(n - 1, lhs);
                proof {
                    assert(stack@ =~= before.drop_last().update(n - 1, sum(before[n - 1], before[n as int])));
                }
            },
            NodeKind::ExprIdent(syn_ref) => {
                match syn_refs[syn_ref.0 as usize] {
                    Def::Local { def: _ } => {
                        // The value of a local is not tracked yet.
                    },
                    Def::NonLocal(Some(builtin)) => stack.push(Value::Builtin(builtin)),
                    Def::NonLocal(None) => {},
                }
            },
            NodeKind::ExprInt => {
                let src = span(node.token, ends).lookup(input);
                // The lexer is lax: src is anything that matches [0-9][a-zA-Z0-9_]*, so it may
                // be binary, hex, an actual int, or an error. It is read as a decimal `i64`.
                let value = parse_int(src.as_bytes()).unwrap();
                stack.push(Value::Int(value));
            },
            _ => {},
        }
        i = i + 1;
    }
    stack
}

} // verus!
