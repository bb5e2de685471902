//! Pretty-printing a parse tree, indenting each node by the subtrees it is in.
use crate::sea::node::{spec_subtree_size, NodeImpl, NodeKind, SubtreeSize};
use crate::text::{push_char, repeat};
use vstd::prelude::*;
use vstd::string::StringExecFns;

verus! {

/// The mark in front of a node: whether it opens a subtree.
#[derive(Copy, Clone, Debug, PartialEq, Eq, Structural)]
pub enum Char {
    Introducer,
    Leaf,
}

pub open spec fn spec_character(ch: Char) -> char {
    match ch {
        Char::Introducer => '╭',
        Char::Leaf => '├',
    }
}

impl Char {
    fn character(self) -> (r: char)
        ensures
            r == spec_character(self),
    {
        match self {
            Char::Introducer => '╭',
            Char::Leaf => '├',
        }
    }
}

/// The stack without its trailing zeros: the subtrees that have been passed through entirely.
pub open spec fn pop_zeros(stack: Seq<u32>) -> Seq<u32>
    decreases stack.len(),
{
    if stack.len() > 0 && stack.last() == 0 {
        pop_zeros(stack.drop_last())
    } else {
        stack
    }
}

/// One step of the backward pass over the nodes. `stack` holds, for each subtree the pass is
/// inside of, how many of its entries are still to come; the node gets the depth of the stack
/// and is the introducer when it is the last entry of its subtree. A terminator then opens a
/// new level with the size it records.
pub open spec fn layout_step(stack: Seq<u32>, kind: NodeKind) -> (Seq<u32>, (nat, Char)) {
    let s1 = pop_zeros(stack);
    let (s2, ch) = if s1.len() > 0 {
        let left = (s1.last() - 1) as u32;
        (s1.update(s1.len() - 1, left), if left == 0 { Char::Introducer } else { Char::Leaf })
    } else {
        (s1, Char::Leaf)
    };
    let s3 = match spec_subtree_size(kind) {
        Some(SubtreeSize(n)) => s2.push(n),
        None => s2,
    };
    (s3, (s2.len(), ch))
}

/// The backward pass from the last node of `kinds` to the first: the depth and mark of each
/// node, last node first.
pub open spec fn layout_back(kinds: Seq<NodeKind>, stack: Seq<u32>) -> Seq<(nat, Char)>
    decreases kinds.len(),
{
    if kinds.len() == 0 {
        seq![]
    } else {
        let (s, entry) = layout_step(stack, kinds.last());
        seq![entry] + layout_back(kinds.drop_last(), s)
    }
}

/// The backward pass gives one entry per node.
pub proof fn lemma_layout_back_len(kinds: Seq<NodeKind>, stack: Seq<u32>)
    ensures
        layout_back(kinds, stack).len() == kinds.len(),
    decreases kinds.len(),
{
    if kinds.len() > 0 {
        lemma_layout_back_len(kinds.drop_last(), layout_step(stack, kinds.last()).0);
    }
}

/// The depth and mark of each node, first node first.
pub open spec fn layout(kinds: Seq<NodeKind>) -> Seq<(nat, Char)> {
    layout_back(kinds, seq![]).reverse()
}

/// One line of the tree: the indentation, the mark, and the node's label.
pub open spec fn tree_line(entry: (nat, Char), label: Seq<char>) -> Seq<char> {
    repeat(seq!['│', ' '], entry.0) + seq![spec_character(entry.1), '─'] + label + seq!['\n']
}

/// The lines of the first `n` nodes.
pub open spec fn tree_text(entries: Seq<(nat, Char)>, labels: Seq<Seq<char>>, n: int) -> Seq<char>
    decreases n,
{
    if n <= 0 {
        seq![]
    } else {
        tree_text(entries, labels, n - 1) + tree_line(entries[n - 1], labels[n - 1])
    }
}

} // verus!

verus! {

/// The kinds of `nodes`.
pub open spec fn kinds_of(nodes: Seq<NodeImpl>) -> Seq<NodeKind> {
    nodes.map_values(|n: NodeImpl| n.kind)
}

/// The characters of each label.
pub open spec fn texts_of(labels: Seq<String>) -> Seq<Seq<char>> {
    labels.map_values(|s: String| s@)
}

pub open spec fn entries_view(v: Seq<(usize, Char)>) -> Seq<(nat, Char)> {
    v.map_values(|e: (usize, Char)| (e.0 as nat, e.1))
}

/// Appends `"│ "` `indent` times.
pub(crate) fn push_indent(out: &mut String, indent: usize)
    ensures
        final(out)@ == old(out)@ + repeat(seq!['│', ' '], indent as nat),
{
    let mut j: usize = 0;
    while j < indent
        invariant
            j <= indent,
            out@ == old(out)@ + repeat(seq!['│', ' '], j as nat),
        decreases indent - j,
    {
        out.append("│ ");
        proof {
            reveal_strlit("│ ");
        }
        j = j + 1;
        assert(out@ =~= old(out)@ + repeat(seq!['│', ' '], j as nat));
    }
}

/// Prints one line per node: each node is indented by the number of subtrees it is inside of,
/// marked `╭` if it opens a subtree and `├` otherwise, and followed by its label.
/// The subtrees are found from the sizes that terminators record, by a backward pass.
pub fn pprint(nodes: &[NodeImpl], labels: &[String]) -> (r: String)
    requires
        labels@.len() == nodes@.len(),
    ensures
        r@ == tree_text(layout(kinds_of(nodes@)), texts_of(labels@), nodes@.len() as int),
{
    let n = nodes.len();
    let ghost kinds = kinds_of(nodes@);
    // Go through nodes backwards and fill this up, then when we print the nodes with
    // a forward pass its indentation will be at the top of the stack.
    let mut indentation: Vec<(usize, Char)> = Vec::with_capacity(n);
    // The top one says how many we have to go through until we can dedent again.
    // The length is how many to indent.
    let mut remaining_stack: Vec<u32> = Vec::new();
    let mut k = n;
    proof {
        assert(kinds.take(n as int) =~= kinds);
    }
    while k > 0
        invariant
            k <= n,
            n == nodes@.len(),
            kinds == kinds_of(nodes@),
            layout_back(kinds, seq![]) == entries_view(indentation@) + layout_back(
                kinds.take(k as int),
                remaining_stack@,
            ),
            indentation@.len() == n - k,
        decreases k,
    {
        let ghost before = remaining_stack@;
        while remaining_stack.len() > 0 && remaining_stack[remaining_stack.len() - 1] == 0
            invariant
                pop_zeros(remaining_stack@) == pop_zeros(before),
            decreases remaining_stack@.len(),
        {
            remaining_stack.pop();
        }
        let mut ch = Char::Leaf;
        // remaining_stack will be empty if this is a top level node.
        let len = remaining_stack.len();
        if len > 0 {
            let left = remaining_stack[len - 1] - 1;
            remaining_stack.set(len - 1, left);
            if left == 0 {
                ch = Char::Introducer;
            }
        }
        let ghost entry = (remaining_stack@.len() as nat, ch);
        indentation.push((remaining_stack.len(), ch));
        let kind = nodes[k - 1].kind;
        if let Some(SubtreeSize(subtree_size)) = kind.subtree_size() {
            remaining_stack.push(subtree_size);
        }
        proof {
            let taken = kinds.take(k as int);
            assert(taken.last() == kind);
            assert(taken.drop_last() =~= kinds.take(k - 1));
            assert(layout_step(before, kind) == (remaining_stack@, entry));
            assert(entries_view(indentation@) =~= entries_view(indentation@.drop_last()).push(entry));
        }
        k = k - 1;
        proof {
            assert(layout_back(kinds, seq![]) =~= entries_view(indentation@) + layout_back(
                kinds.take(k as int),
                remaining_stack@,
            ));
        }
    }
    let ghost entries = layout(kinds);
    proof {
        assert(kinds.take(0) =~= Seq::<NodeKind>::empty());
        assert(entries_view(indentation@) =~= layout_back(kinds, seq![]));
        lemma_layout_back_len(kinds, seq![]);
        assert(layout_back(kinds, seq![]).take(n as int) =~= layout_back(kinds, seq![]));
    }
    let mut out = String::new();
    let mut i: usize = 0;
    while i < n
        invariant
            i <= n,
            n == nodes@.len(),
            n == labels@.len(),
            kinds == kinds_of(nodes@),
            entries == layout(kinds),
            entries.len() == n,
            layout_back(kinds, seq![]).len() == n,
            entries_view(indentation@) == layout_back(kinds, seq![]).take(n - i),
            out@ == tree_text(entries, texts_of(labels@), i as int),
        decreases n - i,
    {
        let ghost before = indentation@;
        assert(entries_view(before).len() == before.len());
        let (indent, ch) = indentation.pop().unwrap();
        proof {
            assert(entries[i as int] == layout_back(kinds, seq![])[n - 1 - i]);
            assert(entries_view(before)[n - 1 - i] == (indent as nat, ch));
            assert(entries_view(indentation@) =~= layout_back(kinds, seq![]).take(n - i - 1));
        }
        push_indent(&mut out, indent);
        push_char(&mut out, ch.character());
        push_char(&mut out, '─');
        out.append(labels[i].as_str());
        push_char(&mut out, '\n');
        i = i + 1;
    }
    out
}

} // verus!
