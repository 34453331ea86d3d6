//! The lowered program does what the tree means: whenever the tree, run
//! from some state, ends in a state, the program, started in the first,
//! returns in the second.

use vstd::prelude::*;
use crate::ast::Node;
use crate::machine::State;
use crate::ir::{
    Instr, Terminator, BlockView, ProgramView, Config, exec_instr, exec_instrs, next_block, run, step,
    lemma_exec_instr_wf, lemma_exec_first, lemma_run_split,
};
use crate::builder::{
    Build, blank, instr_of, loop_start, lower_node, lower_nodes, lowered, node_blocks, nodes_blocks, block_count,
    build_ok, lemma_loop_start_ok, lemma_lower_node_ok, lemma_lower_nodes_ok,
};
use crate::meaning::{eval_node, eval_nodes};

verus! {

/// The configuration after the rest of block `k`, from its instruction
/// `i` on, has run from state `s`.
pub open spec fn resume(p: ProgramView, k: int, i: int, s: State) -> Config {
    let t = exec_instrs(p.blocks[k].instrs.skip(i), s);
    Config { pc: next_block(p.blocks[k].term, t), state: t }
}

/// `a` is the beginning of `b`.
pub open spec fn begins(a: Seq<Instr>, b: Seq<Instr>) -> bool {
    a.len() <= b.len() && b.take(a.len() as int) == a
}

/// The builder state `b2` continues `b`: finished blocks are as they
/// were, and the block that `b` was filling is still being filled, with
/// more instructions, or has been finished with them.
pub open spec fn grows(b: Build, b2: Build) -> bool {
    &&& build_ok(b)
    &&& build_ok(b2)
    &&& b.blocks.len() <= b2.blocks.len()
    &&& forall|k: int| 0 <= k < b.blocks.len() && k != b.cur ==> #[trigger] b2.blocks[k] == b.blocks[k]
    &&& if b2.cur == b.cur {
        begins(b.open, b2.open)
    } else {
        b2.cur >= b.blocks.len() && begins(b.open, b2.blocks[b.cur].instrs)
    }
}

/// The program `p` holds what the builder did between the states `b` and
/// `b2`.
pub open spec fn segment_in(p: ProgramView, b: Build, b2: Build) -> bool {
    &&& b2.blocks.len() <= p.blocks.len()
    &&& forall|k: int| b.blocks.len() <= k < b2.blocks.len() && k != b2.cur ==> #[trigger] p.blocks[k] == b2.blocks[k]
    &&& (b2.cur != b.cur ==> p.blocks[b.cur] == b2.blocks[b.cur])
    &&& begins(b2.open, p.blocks[b2.cur].instrs)
}

proof fn lemma_begins_trans(a: Seq<Instr>, b: Seq<Instr>, c: Seq<Instr>)
    requires
        begins(a, b),
        begins(b, c),
    ensures
        begins(a, c),
{
    assert(c.take(a.len() as int) =~= c.take(b.len() as int).take(a.len() as int));
}

proof fn lemma_grows_refl(b: Build)
    requires
        build_ok(b),
    ensures
        grows(b, b),
{
    assert(b.open.take(b.open.len() as int) =~= b.open);
}

proof fn lemma_grows_trans(b: Build, b1: Build, b2: Build)
    requires
        grows(b, b1),
        grows(b1, b2),
    ensures
        grows(b, b2),
{
    assert forall|k: int| 0 <= k < b.blocks.len() && k != b.cur implies #[trigger] b2.blocks[k] == b.blocks[k] by {
        assert(b1.blocks[k] == b.blocks[k]);
        assert(b2.blocks[k] == b1.blocks[k]);
    }
    if b2.cur == b.cur {
        lemma_begins_trans(b.open, b1.open, b2.open);
    } else if b1.cur == b.cur {
        lemma_begins_trans(b.open, b1.open, b2.blocks[b.cur].instrs);
    } else {
        assert(b2.blocks[b.cur] == b1.blocks[b.cur]);
    }
}

proof fn lemma_grows_node(b: Build, node: Node)
    requires
        build_ok(b),
        b.blocks.len() + node_blocks(node) <= usize::MAX,
    ensures
        grows(b, lower_node(b, node)),
    decreases node,
{
    lemma_lower_node_ok(b, node);
    let b2 = lower_node(b, node);
    match node {
        Node::Loop { body } => {
            let head = b.blocks.len() as int;
            let start = loop_start(b);
            let grown = start.blocks;
            lemma_loop_start_ok(b);
            lemma_grows_nodes(start, body@);
            let inner = lower_nodes(start, body@);
            assert forall|k: int| 0 <= k < b.blocks.len() && k != b.cur implies #[trigger] b2.blocks[k]
                == b.blocks[k] by {
                assert(inner.blocks[k] == grown[k]);
            }
            assert(inner.blocks[b.cur] == grown[b.cur]);
            assert(b2.blocks[b.cur].instrs == b.open);
            assert(b.open.take(b.open.len() as int) =~= b.open);
        },
        _ => {
            assert(b2.open.take(b.open.len() as int) =~= b.open);
        },
    }
}

proof fn lemma_grows_nodes(b: Build, nodes: Seq<Node>)
    requires
        build_ok(b),
        b.blocks.len() + nodes_blocks(nodes) <= usize::MAX,
    ensures
        grows(b, lower_nodes(b, nodes)),
    decreases nodes,
{
    if nodes.len() == 0 {
        lemma_grows_refl(b);
    } else {
        lemma_grows_nodes(b, nodes.drop_last());
        lemma_lower_nodes_ok(b, nodes.drop_last());
        let b1 = lower_nodes(b, nodes.drop_last());
        lemma_grows_node(b1, nodes.last());
        lemma_grows_trans(b, b1, lower_node(b1, nodes.last()));
    }
}

proof fn lemma_segment_split(p: ProgramView, b: Build, b1: Build, b2: Build)
    requires
        grows(b, b1),
        grows(b1, b2),
        segment_in(p, b, b2),
    ensures
        segment_in(p, b, b1),
        segment_in(p, b1, b2),
{
    assert(b2.cur != b1.cur ==> p.blocks[b1.cur] == b2.blocks[b1.cur]);
    assert forall|k: int| b.blocks.len() <= k < b1.blocks.len() && k != b1.cur implies #[trigger] p.blocks[k]
        == b1.blocks[k] by {
        assert(p.blocks[k] == b2.blocks[k]);
        assert(b2.blocks[k] == b1.blocks[k]);
    }
    if b1.cur != b.cur {
        assert(p.blocks[b.cur] == b2.blocks[b.cur]);
        assert(b2.blocks[b.cur] == b1.blocks[b.cur]);
    }
    if b2.cur == b1.cur {
        lemma_begins_trans(b1.open, b2.open, p.blocks[b2.cur].instrs);
    }
}

/// What a node other than a loop means is what its instruction does.
proof fn lemma_simple_node(node: Node, s: State, fuel: nat)
    requires
        s.wf(),
        !(node is Loop),
    ensures
        eval_node(node, s, fuel) == Some(exec_instr(instr_of(node), s)),
{
}

proof fn lemma_resume_next(p: ProgramView, k: int, i: int, s: State)
    requires
        0 <= i < p.blocks[k].instrs.len(),
    ensures
        resume(p, k, i, s) == resume(p, k, i + 1, exec_instr(p.blocks[k].instrs[i], s)),
{
    let instrs = p.blocks[k].instrs;
    assert(instrs.skip(i) =~= seq![instrs[i]] + instrs.skip(i + 1));
    lemma_exec_first(instrs[i], instrs.skip(i + 1), s);
}

proof fn lemma_resume_end(p: ProgramView, k: int, s: State)
    ensures
        resume(p, k, p.blocks[k].instrs.len() as int, s) == (Config {
            pc: next_block(p.blocks[k].term, s),
            state: s,
        }),
        resume(p, k, 0, s) == step(p, Config { pc: Some(k), state: s }),
{
    let instrs = p.blocks[k].instrs;
    assert(instrs.skip(instrs.len() as int) =~= Seq::<Instr>::empty());
    assert(instrs.skip(0) =~= instrs);
}

proof fn lemma_eval_wf(nodes: Seq<Node>, s: State, fuel: nat)
    requires
        s.wf(),
        eval_nodes(nodes, s, fuel) is Some,
    ensures
        eval_nodes(nodes, s, fuel)->0.wf(),
    decreases fuel, nodes, 1nat,
{
    if nodes.len() > 0 {
        lemma_eval_wf(nodes.drop_last(), s, fuel);
        lemma_eval_node_wf(nodes.last(), eval_nodes(nodes.drop_last(), s, fuel)->0, fuel);
    }
}

proof fn lemma_eval_node_wf(node: Node, s: State, fuel: nat)
    requires
        s.wf(),
        eval_node(node, s, fuel) is Some,
    ensures
        eval_node(node, s, fuel)->0.wf(),
    decreases fuel, node, 0nat,
{
    match node {
        Node::Loop { body } => {
            if s.current() != 0 {
                lemma_eval_wf(body@, s, (fuel - 1) as nat);
                lemma_eval_node_wf(node, eval_nodes(body@, s, (fuel - 1) as nat)->0, (fuel - 1) as nat);
            }
        },
        _ => {
            lemma_simple_node(node, s, fuel);
            lemma_exec_instr_wf(instr_of(node), s);
        },
    }
}

/// Nothing up to step `n` of the run from `c` is the program's last.
pub open spec fn runs_on(p: ProgramView, c: Config, n: nat) -> bool {
    forall|j: nat| j < n ==> (#[trigger] run(p, c, j)).pc is Some
}

proof fn lemma_runs_on_join(p: ProgramView, c: Config, n1: nat, n2: nat)
    requires
        runs_on(p, c, n1),
        runs_on(p, run(p, c, n1), n2),
    ensures
        runs_on(p, c, n1 + n2),
{
    assert forall|j: nat| j < n1 + n2 implies (#[trigger] run(p, c, j)).pc is Some by {
        if j >= n1 {
            lemma_run_split(p, c, n1, (j - n1) as nat);
            assert(run(p, run(p, c, n1), (j - n1) as nat).pc is Some);
        }
    }
}

proof fn lemma_nodes_run(p: ProgramView, b: Build, nodes: Seq<Node>, s: State, fuel: nat) -> (n: nat)
    requires
        build_ok(b),
        b.blocks.len() + nodes_blocks(nodes) <= usize::MAX,
        segment_in(p, b, lower_nodes(b, nodes)),
        s.wf(),
        eval_nodes(nodes, s, fuel) is Some,
    ensures
        run(p, resume(p, b.cur, b.open.len() as int, s), n) == resume(
            p,
            lower_nodes(b, nodes).cur,
            lower_nodes(b, nodes).open.len() as int,
            eval_nodes(nodes, s, fuel)->0,
        ),
        runs_on(p, resume(p, b.cur, b.open.len() as int, s), n),
    decreases fuel, nodes, 1nat,
{
    if nodes.len() == 0 {
        0
    } else {
        let b1 = lower_nodes(b, nodes.drop_last());
        let b2 = lower_node(b1, nodes.last());
        let t1 = eval_nodes(nodes.drop_last(), s, fuel)->0;
        lemma_grows_nodes(b, nodes.drop_last());
        lemma_lower_nodes_ok(b, nodes.drop_last());
        lemma_grows_node(b1, nodes.last());
        lemma_segment_split(p, b, b1, b2);
        lemma_eval_wf(nodes.drop_last(), s, fuel);
        let n1 = lemma_nodes_run(p, b, nodes.drop_last(), s, fuel);
        let n2 = lemma_node_run(p, b1, nodes.last(), t1, fuel);
        lemma_run_split(p, resume(p, b.cur, b.open.len() as int, s), n1, n2);
        lemma_runs_on_join(p, resume(p, b.cur, b.open.len() as int, s), n1, n2);
        n1 + n2
    }
}

proof fn lemma_node_run(p: ProgramView, b: Build, node: Node, s: State, fuel: nat) -> (n: nat)
    requires
        build_ok(b),
        b.blocks.len() + node_blocks(node) <= usize::MAX,
        segment_in(p, b, lower_node(b, node)),
        s.wf(),
        eval_node(node, s, fuel) is Some,
    ensures
        run(p, resume(p, b.cur, b.open.len() as int, s), n) == resume(
            p,
            lower_node(b, node).cur,
            lower_node(b, node).open.len() as int,
            eval_node(node, s, fuel)->0,
        ),
        runs_on(p, resume(p, b.cur, b.open.len() as int, s), n),
    decreases fuel, node, 1nat,
{
    let b2 = lower_node(b, node);
    match node {
        Node::Loop { body } => {
            lemma_loop_entry(p, b, node, s);
            let n = lemma_loop_run(p, b, node, s, fuel);
            n
        },
        _ => {
            lemma_simple_node(node, s, fuel);
            let i = b.open.len() as int;
            assert(b2.open[i] == instr_of(node));
            assert(p.blocks[b.cur].instrs.take(b2.open.len() as int)[i] == instr_of(node));
            lemma_resume_next(p, b.cur, i, s);
            0
        },
    }
}

/// The block that was being filled when a loop was met ends with a
/// branch to the loop's head.
proof fn lemma_loop_entry(p: ProgramView, b: Build, node: Node, s: State)
    requires
        build_ok(b),
        node is Loop,
        b.blocks.len() + node_blocks(node) <= usize::MAX,
        segment_in(p, b, lower_node(b, node)),
    ensures
        resume(p, b.cur, b.open.len() as int, s) == (Config { pc: Some(b.blocks.len() as int), state: s }),
{
    let body = node->Loop_body@;
    let head = b.blocks.len() as int;
    let start = loop_start(b);
    let inner = lower_nodes(start, body);
    lemma_loop_start_ok(b);
    lemma_grows_nodes(start, body);
    assert(inner.blocks[b.cur] == start.blocks[b.cur]);
    assert(p.blocks[b.cur] == BlockView { instrs: b.open, term: Terminator::Branch { target: head as usize } });
    lemma_resume_end(p, b.cur, s);
}

/// The blocks of a loop as the program holds them: the head tests the
/// current cell, and the last block of the body branches back to it.
proof fn lemma_loop_blocks(p: ProgramView, b: Build, node: Node)
    requires
        build_ok(b),
        node is Loop,
        b.blocks.len() + node_blocks(node) <= usize::MAX,
        segment_in(p, b, lower_node(b, node)),
    ensures
        p.blocks[b.blocks.len() as int] == (BlockView {
            instrs: Seq::empty(),
            term: Terminator::CondBranch {
                nonzero: (b.blocks.len() + 1) as usize,
                zero: (b.blocks.len() + 2) as usize,
            },
        }),
        build_ok(loop_start(b)),
        loop_start(b).blocks.len() + nodes_blocks(node->Loop_body@) <= usize::MAX,
        segment_in(p, loop_start(b), lower_nodes(loop_start(b), node->Loop_body@)),
        p.blocks[lower_nodes(loop_start(b), node->Loop_body@).cur] == (BlockView {
            instrs: lower_nodes(loop_start(b), node->Loop_body@).open,
            term: Terminator::Branch { target: b.blocks.len() as usize },
        }),
{
    let body = node->Loop_body@;
    let head = b.blocks.len() as int;
    let start = loop_start(b);
    let inner = lower_nodes(start, body);
    let b2 = lower_node(b, node);
    lemma_loop_start_ok(b);
    lemma_grows_nodes(start, body);
    lemma_lower_nodes_ok(start, body);
    assert(inner.blocks[head] == start.blocks[head]);
    assert(p.blocks[head] == b2.blocks[head]);
    assert forall|k: int| start.blocks.len() <= k < inner.blocks.len() && k != inner.cur implies #[trigger] p.blocks[k]
        == inner.blocks[k] by {
        assert(p.blocks[k] == b2.blocks[k]);
    }
    assert(p.blocks[inner.cur] == b2.blocks[inner.cur]);
    if inner.cur != start.cur {
        assert(p.blocks[head + 1] == b2.blocks[head + 1]);
    }
    assert(inner.open.take(inner.open.len() as int) =~= inner.open);
}

proof fn lemma_loop_run(p: ProgramView, b: Build, node: Node, s: State, fuel: nat) -> (n: nat)
    requires
        build_ok(b),
        node is Loop,
        b.blocks.len() + node_blocks(node) <= usize::MAX,
        segment_in(p, b, lower_node(b, node)),
        s.wf(),
        eval_node(node, s, fuel) is Some,
    ensures
        run(p, Config { pc: Some(b.blocks.len() as int), state: s }, n) == resume(
            p,
            (b.blocks.len() + 2) as int,
            0,
            eval_node(node, s, fuel)->0,
        ),
        runs_on(p, Config { pc: Some(b.blocks.len() as int), state: s }, n),
    decreases fuel, node, 0nat,
{
    let body = node->Loop_body@;
    let head = b.blocks.len() as int;
    let start = loop_start(b);
    let inner = lower_nodes(start, body);
    lemma_loop_blocks(p, b, node);
    let c = Config { pc: Some(head), state: s };
    assert(exec_instrs(p.blocks[head].instrs, s) == s);
    reveal_with_fuel(run, 3);
    if s.current() == 0 {
        assert(step(p, c) == Config { pc: Some(head + 2), state: s });
        lemma_resume_end(p, head + 2, s);
        2
    } else {
        let t1 = eval_nodes(body, s, (fuel - 1) as nat)->0;
        assert(step(p, c) == Config { pc: Some(head + 1), state: s });
        lemma_resume_end(p, head + 1, s);
        lemma_eval_wf(body, s, (fuel - 1) as nat);
        let n1 = lemma_nodes_run(p, start, body, s, (fuel - 1) as nat);
        lemma_resume_end(p, inner.cur, t1);
        let n2 = lemma_loop_run(p, b, node, t1, (fuel - 1) as nat);
        let c2 = resume(p, head + 1, 0, s);
        assert(run(p, c, 2) == c2);
        lemma_run_split(p, c2, n1, n2);
        lemma_run_split(p, c, 2, n1 + n2);
        lemma_runs_on_join(p, c2, n1, n2);
        assert(runs_on(p, c, 2));
        lemma_runs_on_join(p, c, 2, n1 + n2);
        2 + n1 + n2
    }
}

proof fn lemma_nodes_stuck(p: ProgramView, b: Build, nodes: Seq<Node>, s: State, fuel: nat)
    requires
        build_ok(b),
        b.blocks.len() + nodes_blocks(nodes) <= usize::MAX,
        segment_in(p, b, lower_nodes(b, nodes)),
        s.wf(),
        eval_nodes(nodes, s, fuel) is None,
    ensures
        runs_on(p, resume(p, b.cur, b.open.len() as int, s), fuel + 1),
    decreases fuel, nodes, 1nat,
{
    let c = resume(p, b.cur, b.open.len() as int, s);
    let b1 = lower_nodes(b, nodes.drop_last());
    let b2 = lower_node(b1, nodes.last());
    lemma_grows_nodes(b, nodes.drop_last());
    lemma_lower_nodes_ok(b, nodes.drop_last());
    lemma_grows_node(b1, nodes.last());
    lemma_segment_split(p, b, b1, b2);
    if eval_nodes(nodes.drop_last(), s, fuel) is None {
        lemma_nodes_stuck(p, b, nodes.drop_last(), s, fuel);
    } else {
        let t1 = eval_nodes(nodes.drop_last(), s, fuel)->0;
        lemma_eval_wf(nodes.drop_last(), s, fuel);
        let n1 = lemma_nodes_run(p, b, nodes.drop_last(), s, fuel);
        if !(nodes.last() is Loop) {
            lemma_simple_node(nodes.last(), t1, fuel);
        }
        lemma_loop_entry(p, b1, nodes.last(), t1);
        lemma_loop_stuck(p, b1, nodes.last(), t1, fuel);
        lemma_runs_on_join(p, c, n1, fuel + 1);
    }
}

proof fn lemma_loop_stuck(p: ProgramView, b: Build, node: Node, s: State, fuel: nat)
    requires
        build_ok(b),
        node is Loop,
        b.blocks.len() + node_blocks(node) <= usize::MAX,
        segment_in(p, b, lower_node(b, node)),
        s.wf(),
        eval_node(node, s, fuel) is None,
    ensures
        runs_on(p, Config { pc: Some(b.blocks.len() as int), state: s }, fuel + 1),
    decreases fuel, node, 0nat,
{
    let body = node->Loop_body@;
    let head = b.blocks.len() as int;
    let start = loop_start(b);
    let inner = lower_nodes(start, body);
    lemma_loop_blocks(p, b, node);
    let c = Config { pc: Some(head), state: s };
    assert(exec_instrs(p.blocks[head].instrs, s) == s);
    reveal_with_fuel(run, 3);
    if fuel > 0 {
        let c2 = resume(p, head + 1, 0, s);
        assert(step(p, c) == Config { pc: Some(head + 1), state: s });
        lemma_resume_end(p, head + 1, s);
        assert(run(p, c, 2) == c2);
        assert(runs_on(p, c, 2));
        if eval_nodes(body, s, (fuel - 1) as nat) is None {
            lemma_nodes_stuck(p, start, body, s, (fuel - 1) as nat);
            lemma_runs_on_join(p, c, 2, fuel);
        } else {
            let t1 = eval_nodes(body, s, (fuel - 1) as nat)->0;
            lemma_eval_wf(body, s, (fuel - 1) as nat);
            let n1 = lemma_nodes_run(p, start, body, s, (fuel - 1) as nat);
            lemma_resume_end(p, inner.cur, t1);
            lemma_loop_stuck(p, b, node, t1, (fuel - 1) as nat);
            lemma_runs_on_join(p, c2, n1, fuel);
            lemma_runs_on_join(p, c, 2, n1 + fuel);
        }
    }
}

/// The program in which a tree's lowering starts and ends.
proof fn lemma_lowered_segment(ast: Seq<Node>)
    requires
        block_count(ast) <= usize::MAX,
    ensures
        build_ok(first_build()),
        segment_in(lowered(ast), first_build(), lower_nodes(first_build(), ast)),
        lowered(ast).blocks[lower_nodes(first_build(), ast).cur].term == Terminator::Return,
        lowered(ast).blocks[lower_nodes(first_build(), ast).cur].instrs == lower_nodes(first_build(), ast).open,
{
    let b0 = first_build();
    let b = lower_nodes(b0, ast);
    lemma_grows_nodes(b0, ast);
    assert(b.open.take(b.open.len() as int) =~= b.open);
}

/// The builder's state before the first node.
pub open spec fn first_build() -> Build {
    Build { blocks: seq![blank()], cur: 0, open: Seq::empty() }
}

/// The lowered program does what the tree means: if the tree, run from
/// the well-formed state `s`, ends in a state, then the program, entered
/// at its first block in state `s`, returns in that state, after the
/// number of steps that the lemma gives.
pub proof fn lemma_lowered_runs(ast: Seq<Node>, s: State, fuel: nat) -> (n: nat)
    requires
        block_count(ast) <= usize::MAX,
        s.wf(),
        eval_nodes(ast, s, fuel) is Some,
    ensures
        run(lowered(ast), Config { pc: Some(0int), state: s }, n) == (Config {
            pc: None,
            state: eval_nodes(ast, s, fuel)->0,
        }),
{
    let b0 = first_build();
    let b = lower_nodes(b0, ast);
    let p = lowered(ast);
    let t = eval_nodes(ast, s, fuel)->0;
    lemma_lowered_segment(ast);
    let n = lemma_nodes_run(p, b0, ast, s, fuel);
    lemma_resume_end(p, 0, s);
    lemma_resume_end(p, b.cur, t);
    reveal_with_fuel(run, 2);
    lemma_run_split(p, Config { pc: Some(0int), state: s }, 1, n);
    n + 1
}

/// The tree means what the lowered program does: if the program, entered
/// at its first block in the well-formed state `s`, has returned after
/// `n` steps, then the tree, run from `s`, ends in the state in which the
/// program returned, and `n` is fuel enough.
pub proof fn lemma_lowered_returns(ast: Seq<Node>, s: State, n: nat)
    requires
        block_count(ast) <= usize::MAX,
        s.wf(),
        run(lowered(ast), Config { pc: Some(0int), state: s }, n).pc is None,
    ensures
        eval_nodes(ast, s, n) == Some(run(lowered(ast), Config { pc: Some(0int), state: s }, n).state),
{
    let b0 = first_build();
    let p = lowered(ast);
    let c = Config { pc: Some(0int), state: s };
    lemma_lowered_segment(ast);
    lemma_resume_end(p, 0, s);
    reveal_with_fuel(run, 2);
    if eval_nodes(ast, s, n) is None {
        lemma_nodes_stuck(p, b0, ast, s, n);
        if n > 0 {
            lemma_run_split(p, c, 1, (n - 1) as nat);
            assert(run(p, resume(p, 0, 0, s), (n - 1) as nat).pc is Some);
        }
    } else {
        let m = lemma_lowered_runs(ast, s, n);
        if m <= n {
            lemma_run_split(p, c, m, (n - m) as nat);
            crate::ir::lemma_run_halted(p, run(p, c, m), (n - m) as nat);
        } else {
            lemma_run_split(p, c, n, (m - n) as nat);
            crate::ir::lemma_run_halted(p, run(p, c, n), (m - n) as nat);
        }
    }
}

} // verus!
