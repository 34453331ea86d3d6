//! What a syntax tree means: the state in which the machine is left when
//! the tree has run.

use vstd::prelude::*;
use crate::ast::Node;
use crate::machine::{State, wrap_index, wrap_cell};

verus! {

/// The state after `node` has run from state `s`, or `None` where the
/// loops of the node repeat more often, one inside the other, than `fuel`
/// allows. A move displaces the pointer round the tape, a delta adds to
/// the current cell modulo 256, output writes the current cell, input
/// reads a byte into it, zero at the end of the input, and a loop repeats
/// its body while the current cell is not zero.
pub open spec fn eval_node(node: Node, s: State, fuel: nat) -> Option<State>
    decreases fuel, node,
{
    match node {
        Node::PointerMove { count } => Some(State { ptr: wrap_index(s.ptr, count as int), ..s }),
        Node::CellDelta { amount } => Some(
            State { tape: s.tape.update(s.ptr, wrap_cell(s.tape[s.ptr] as int, amount as int)), ..s },
        ),
        Node::Output => Some(State { output: s.output.push(s.tape[s.ptr]), ..s }),
        Node::Input => if s.input.len() > 0 {
            Some(State { tape: s.tape.update(s.ptr, s.input[0]), input: s.input.drop_first(), ..s })
        } else {
            Some(State { tape: s.tape.update(s.ptr, 0u8), ..s })
        },
        Node::Loop { body } => if s.current() == 0 {
            Some(s)
        } else if fuel == 0 {
            None
        } else {
            match eval_nodes(body@, s, (fuel - 1) as nat) {
                Some(t) => eval_node(node, t, (fuel - 1) as nat),
                None => None,
            }
        },
    }
}

/// The state after `nodes` have run from state `s`, first to last.
pub open spec fn eval_nodes(nodes: Seq<Node>, s: State, fuel: nat) -> Option<State>
    decreases fuel, nodes,
{
    if nodes.len() == 0 {
        Some(s)
    } else {
        match eval_nodes(nodes.drop_last(), s, fuel) {
            Some(t) => eval_node(nodes.last(), t, fuel),
            None => None,
        }
    }
}

} // verus!
