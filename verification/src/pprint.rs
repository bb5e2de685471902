//! Pretty-printing a parse: one line per node, indented by how many introducers are open.
use crate::parse::Parse;
use crate::parse_node::{spec_is_introducer, spec_is_terminator, NodeImpl, NodeKind};
use crate::sea::pprint::{push_indent, texts_of};
use crate::text::{push_char, repeat};
use vstd::prelude::*;
use vstd::string::StringExecFns;

verus! {

/// How a node changes the indentation: introducers open a level, terminators close one.
#[verifier::opaque]
pub open spec fn depth_change(kind: NodeKind) -> int {
    if spec_is_introducer(kind) {
        1
    } else if spec_is_terminator(kind) {
        -1
    } else {
        0
    }
}

/// The indentation after the first `n` nodes.
pub open spec fn depth_after(nodes: Seq<NodeImpl>, n: int) -> int
    decreases n,
{
    if n <= 0 {
        0
    } else {
        depth_after(nodes, n - 1) + depth_change(nodes[n - 1].kind)
    }
}

/// The line of one node at the given indentation; a negative indentation prints none.
pub open spec fn node_line(kind: NodeKind, depth: int, label: Seq<char>) -> Seq<char> {
    repeat(seq!['│', ' '], (if depth > 0 { depth } else { 0 }) as nat) + (if spec_is_introducer(
        kind,
    ) {
        seq!['╭', '─']
    } else {
        seq!['├', '─']
    }) + label + seq!['\n']
}

/// The lines of the first `n` nodes.
pub open spec fn parse_text(nodes: Seq<NodeImpl>, labels: Seq<Seq<char>>, n: int) -> Seq<char>
    decreases n,
{
    if n <= 0 {
        seq![]
    } else {
        parse_text(nodes, labels, n - 1) + node_line(
            nodes[n - 1].kind,
            depth_after(nodes, n),
            labels[n - 1],
        )
    }
}

proof fn lemma_depth_bounded(nodes: Seq<NodeImpl>, n: int)
    requires
        0 <= n,
    ensures
        -n <= depth_after(nodes, n) <= n,
    decreases n,
{
    reveal(depth_change);
    if n > 0 {
        lemma_depth_bounded(nodes, n - 1);
    }
}

/// Prints one line per node of `parse`, followed by its label: each node is indented by the
/// number of introducers open at it (its own included) and marked `╭` if it is an introducer,
/// `├` otherwise.
pub fn pprint(parse: &Parse, labels: &[String]) -> (r: String)
    requires
        labels@.len() == parse.nodes@.len(),
        parse.nodes@.len() <= i32::MAX,
    ensures
        r@ == parse_text(parse.nodes@, texts_of(labels@), parse.nodes@.len() as int),
{
    let mut indent: i32 = 0;
    let mut out = String::new();
    let mut i: usize = 0;
    while i < parse.nodes.len()
        invariant
            i <= parse.nodes@.len(),
            parse.nodes@.len() <= i32::MAX,
            labels@.len() == parse.nodes@.len(),
            indent == depth_after(parse.nodes@, i as int),
            out@ == parse_text(parse.nodes@, texts_of(labels@), i as int),
        decreases parse.nodes@.len() - i,
    {
        proof {
            lemma_depth_bounded(parse.nodes@, i as int);
            reveal(depth_change);
        }
        let kind = parse.nodes[i].kind;
        let introducer = kind.is_introducer();
        if introducer {
            indent += 1;
        } else {
            if kind.is_terminator() {
                indent -= 1;
            }
        }
        let depth: usize = if indent > 0 {
            indent as usize
        } else {
            0
        };
        push_indent(&mut out, depth);
        if introducer {
            push_char(&mut out, '╭');
        } else {
            push_char(&mut out, '├');
        }
        push_char(&mut out, '─');
        out.append(labels[i].as_str());
        push_char(&mut out, '\n');
        i = i + 1;
        proof {
            reveal(depth_change);
            assert(out@ =~= parse_text(parse.nodes@, texts_of(labels@), i as int));
        }
    }
    out
}

} // verus!
