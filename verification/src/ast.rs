//! The syntax tree, and the source text that a tree stands for.

use vstd::prelude::*;

verus! {

/// One node of the syntax tree.
#[derive(Debug, PartialEq, Eq)]
pub enum Node {
    /// Moves the pointer by `count` cells.
    PointerMove { count: i64 },
    /// Adds `amount` to the current cell, modulo 256.
    CellDelta { amount: i8 },
    /// Writes the current cell as a byte.
    Output,
    /// Reads a byte into the current cell.
    Input,
    /// Repeats `body` while the current cell is not zero.
    Loop { body: Vec<Node> },
}

/// The byte `>`: one cell up.
pub const OP_RIGHT: u8 = 62;

/// The byte `<`: one cell down.
pub const OP_LEFT: u8 = 60;

/// The byte `+`: one more in the current cell.
pub const OP_PLUS: u8 = 43;

/// The byte `-`: one less in the current cell.
pub const OP_MINUS: u8 = 45;

/// The byte `.`: write the current cell.
pub const OP_OUTPUT: u8 = 46;

/// The byte `,`: read into the current cell.
pub const OP_INPUT: u8 = 44;

/// The byte `[`: a loop begins.
pub const OP_OPEN: u8 = 91;

/// The byte `]`: a loop ends.
pub const OP_CLOSE: u8 = 93;

/// The byte is one of the eight operators.
pub open spec fn is_op(b: u8) -> bool {
    b == OP_RIGHT || b == OP_LEFT || b == OP_PLUS || b == OP_MINUS || b == OP_OUTPUT || b == OP_INPUT || b == OP_OPEN
        || b == OP_CLOSE
}

/// The operators of `s`, in order: the text without its comments.
pub open spec fn ops_only(s: Seq<u8>) -> Seq<u8>
    decreases s.len(),
{
    if s.len() == 0 {
        Seq::empty()
    } else if is_op(s.last()) {
        ops_only(s.drop_last()).push(s.last())
    } else {
        ops_only(s.drop_last())
    }
}

/// The number of `[` in `s` less the number of `]`.
pub open spec fn depth(s: Seq<u8>) -> int
    decreases s.len(),
{
    if s.len() == 0 {
        0
    } else if s.last() == OP_OPEN {
        depth(s.drop_last()) + 1
    } else if s.last() == OP_CLOSE {
        depth(s.drop_last()) - 1
    } else {
        depth(s.drop_last())
    }
}

/// No beginning of `s` closes more brackets than it has opened.
pub open spec fn never_negative(s: Seq<u8>) -> bool {
    forall|i: int| 0 <= i <= s.len() ==> depth(#[trigger] s.take(i)) >= 0
}

/// Every bracket of `s` has its partner.
pub open spec fn balanced(s: Seq<u8>) -> bool {
    never_negative(s) && depth(s) == 0
}

/// `count` times the byte `b`.
pub open spec fn repeated(b: u8, count: int) -> Seq<u8> {
    Seq::new(
        if count >= 0 {
            count as nat
        } else {
            0
        },
        |i: int| b,
    )
}

/// The operators that a node stands for.
pub open spec fn node_text(node: Node) -> Seq<u8>
    decreases node,
{
    match node {
        Node::PointerMove { count } => if count >= 0 {
            repeated(OP_RIGHT, count as int)
        } else {
            repeated(OP_LEFT, -count)
        },
        Node::CellDelta { amount } => if amount >= 0 {
            repeated(OP_PLUS, amount as int)
        } else {
            repeated(OP_MINUS, -amount)
        },
        Node::Output => seq![OP_OUTPUT],
        Node::Input => seq![OP_INPUT],
        Node::Loop { body } => seq![OP_OPEN] + nodes_text(body@) + seq![OP_CLOSE],
    }
}

/// The operators that a sequence of nodes stands for.
pub open spec fn nodes_text(nodes: Seq<Node>) -> Seq<u8>
    decreases nodes,
{
    if nodes.len() == 0 {
        Seq::empty()
    } else {
        nodes_text(nodes.drop_last()) + node_text(nodes.last())
    }
}

/// Every move and every delta in the node is one step, as the parser
/// makes them.
pub open spec fn single_step(node: Node) -> bool
    decreases node,
{
    match node {
        Node::PointerMove { count } => count == 1 || count == -1,
        Node::CellDelta { amount } => amount == 1 || amount == -1,
        Node::Output => true,
        Node::Input => true,
        Node::Loop { body } => single_steps(body@),
    }
}

/// Every move and every delta in the nodes is one step.
pub open spec fn single_steps(nodes: Seq<Node>) -> bool
    decreases nodes,
{
    if nodes.len() == 0 {
        true
    } else {
        single_steps(nodes.drop_last()) && single_step(nodes.last())
    }
}

/// The text of a sequence with one more node at its end.
pub proof fn lemma_nodes_push(nodes: Seq<Node>, node: Node)
    ensures
        nodes_text(nodes.push(node)) == nodes_text(nodes) + node_text(node),
        single_steps(nodes.push(node)) == (single_steps(nodes) && single_step(node)),
{
    assert(nodes.push(node).drop_last() =~= nodes);
}

/// The operators of a text open and close as many brackets as the text.
pub proof fn lemma_depth_projection(s: Seq<u8>)
    ensures
        depth(ops_only(s)) == depth(s),
    decreases s.len(),
{
    if s.len() > 0 {
        lemma_depth_projection(s.drop_last());
        if is_op(s.last()) {
            assert(ops_only(s).drop_last() =~= ops_only(s.drop_last()));
        }
    }
}

/// The operators of a beginning of a text are a beginning of the text's
/// operators.
pub proof fn lemma_projection_of_prefix(s: Seq<u8>, i: int)
    requires
        0 <= i <= s.len(),
    ensures
        ops_only(s.take(i)).len() <= ops_only(s).len(),
        ops_only(s.take(i)) == ops_only(s).take(ops_only(s.take(i)).len() as int),
    decreases s.len(),
{
    if i == s.len() {
        assert(s.take(i) =~= s);
        assert(ops_only(s).take(ops_only(s).len() as int) =~= ops_only(s));
    } else {
        lemma_projection_of_prefix(s.drop_last(), i);
        assert(s.drop_last().take(i) =~= s.take(i));
        let k = ops_only(s.take(i)).len() as int;
        if is_op(s.last()) {
            assert(ops_only(s).take(k) =~= ops_only(s.drop_last()).take(k));
        }
    }
}

/// Every beginning of a text's operators is the operators of a beginning
/// of the text.
pub proof fn lemma_prefix_of_projection(s: Seq<u8>, k: int) -> (i: int)
    requires
        0 <= k <= ops_only(s).len(),
    ensures
        0 <= i <= s.len(),
        ops_only(s).take(k) == ops_only(s.take(i)),
    decreases s.len(),
{
    if k == ops_only(s).len() {
        assert(s.take(s.len() as int) =~= s);
        assert(ops_only(s).take(k) =~= ops_only(s));
        s.len() as int
    } else {
        if is_op(s.last()) {
            assert(ops_only(s).take(k) =~= ops_only(s.drop_last()).take(k));
        }
        let i = lemma_prefix_of_projection(s.drop_last(), k);
        assert(s.drop_last().take(i) =~= s.take(i));
        i
    }
}

/// The brackets of a text are balanced exactly when the brackets of its
/// operators are: comments do not count.
pub proof fn lemma_balanced_projection(s: Seq<u8>)
    ensures
        balanced(ops_only(s)) <==> balanced(s),
{
    lemma_depth_projection(s);
    if never_negative(s) {
        assert forall|k: int| 0 <= k <= ops_only(s).len() implies depth(#[trigger] ops_only(s).take(k)) >= 0 by {
            let i = lemma_prefix_of_projection(s, k);
            lemma_depth_projection(s.take(i));
            assert(depth(s.take(i)) >= 0);
        }
    }
    if never_negative(ops_only(s)) {
        assert forall|i: int| 0 <= i <= s.len() implies depth(#[trigger] s.take(i)) >= 0 by {
            lemma_projection_of_prefix(s, i);
            lemma_depth_projection(s.take(i));
            let k = ops_only(s.take(i)).len() as int;
            assert(depth(ops_only(s).take(k)) >= 0);
        }
    }
}

} // verus!
