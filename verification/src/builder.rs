//! The builder: lowers a syntax tree into basic blocks. A loop becomes a
//! head block that tests the current cell, the blocks of its body, whose
//! last branches back to the head, and a block for what follows the loop.

use vstd::prelude::*;
use crate::ast::Node;
use crate::ir::{Instr, Terminator, Block, BlockView, IrProgram, ProgramView, term_in_range};

verus! {

/// The builder half-way: the blocks made so far, the number of the block
/// being filled, and the instructions collected for it.
pub struct Build {
    pub blocks: Seq<BlockView>,
    pub cur: int,
    pub open: Seq<Instr>,
}

/// A block that has been given a number and nothing else yet.
pub open spec fn blank() -> BlockView {
    BlockView { instrs: Seq::empty(), term: Terminator::Return }
}

/// The instruction that a node other than a loop becomes.
pub open spec fn instr_of(node: Node) -> Instr {
    match node {
        Node::PointerMove { count } => Instr::MovePointer { offset: count },
        Node::CellDelta { amount } => Instr::AddToCell { offset: 0, amount },
        Node::Output => Instr::Output { offset: 0 },
        Node::Input => Instr::Input { offset: 0 },
        Node::Loop { .. } => Instr::MovePointer { offset: 0 },
    }
}

/// The blocks with block `b.cur` finished: it gets the collected
/// instructions and the terminator `term`.
pub open spec fn sealed(b: Build, term: Terminator) -> Seq<BlockView> {
    b.blocks.update(b.cur, BlockView { instrs: b.open, term })
}

/// The builder's state when it starts on the body of a loop met in state
/// `b`: the current block is finished with a branch to a new head, which
/// tests the current cell, and a new block for the body and one for what
/// follows the loop are both still blank.
pub open spec fn loop_start(b: Build) -> Build {
    let head = b.blocks.len() as int;
    Build {
        blocks: sealed(b, Terminator::Branch { target: head as usize }).push(
            BlockView {
                instrs: Seq::empty(),
                term: Terminator::CondBranch { nonzero: (head + 1) as usize, zero: (head + 2) as usize },
            },
        ).push(blank()).push(blank()),
        cur: head + 1,
        open: Seq::empty(),
    }
}

/// The builder after one more node. A node other than a loop adds its
/// instruction to the current block. A loop has its body lowered from
/// `loop_start`; the last block of the body then branches back to the
/// head, and building goes on in the block that follows the loop.
pub open spec fn lower_node(b: Build, node: Node) -> Build
    decreases node,
{
    match node {
        Node::Loop { body } => {
            let head = b.blocks.len() as int;
            let inner = lower_nodes(loop_start(b), body@);
            Build {
                blocks: sealed(inner, Terminator::Branch { target: head as usize }),
                cur: head + 2,
                open: Seq::empty(),
            }
        },
        _ => Build { open: b.open.push(instr_of(node)), ..b },
    }
}

/// The builder after a sequence of nodes.
pub open spec fn lower_nodes(b: Build, nodes: Seq<Node>) -> Build
    decreases nodes,
{
    if nodes.len() == 0 {
        b
    } else {
        lower_node(lower_nodes(b, nodes.drop_last()), nodes.last())
    }
}

/// The program that a syntax tree is lowered to.
pub open spec fn lowered(ast: Seq<Node>) -> ProgramView {
    let b = lower_nodes(Build { blocks: seq![blank()], cur: 0, open: Seq::empty() }, ast);
    ProgramView { blocks: sealed(b, Terminator::Return) }
}

/// The number of blocks that a node adds.
pub open spec fn node_blocks(node: Node) -> nat
    decreases node,
{
    match node {
        Node::Loop { body } => 3 + nodes_blocks(body@),
        _ => 0,
    }
}

/// The number of blocks that a sequence of nodes adds.
pub open spec fn nodes_blocks(nodes: Seq<Node>) -> nat
    decreases nodes,
{
    if nodes.len() == 0 {
        0
    } else {
        nodes_blocks(nodes.drop_last()) + node_blocks(nodes.last())
    }
}

/// The number of blocks of the program that `ast` is lowered to.
pub open spec fn block_count(ast: Seq<Node>) -> nat {
    1 + nodes_blocks(ast)
}

/// The builder's state is sound: the current block exists and every
/// terminator names an existing block.
pub open spec fn build_ok(b: Build) -> bool {
    &&& 0 <= b.cur < b.blocks.len()
    &&& forall|k: int| 0 <= k < b.blocks.len() ==> term_in_range(#[trigger] b.blocks[k].term, b.blocks.len())
}

/// The builder is sound when it starts on the body of a loop.
pub proof fn lemma_loop_start_ok(b: Build)
    requires
        build_ok(b),
        b.blocks.len() + 3 <= usize::MAX,
    ensures
        build_ok(loop_start(b)),
        loop_start(b).blocks.len() == b.blocks.len() + 3,
{
    let head = b.blocks.len() as int;
    let grown = loop_start(b).blocks;
    assert forall|k: int| 0 <= k < grown.len() implies term_in_range(#[trigger] grown[k].term, grown.len()) by {
        if k < head && k != b.cur {
            assert(grown[k] == b.blocks[k]);
            assert(term_in_range(b.blocks[k].term, b.blocks.len()));
        }
    }
}

/// A node keeps the builder sound and adds the blocks that it calls for.
pub proof fn lemma_lower_node_ok(b: Build, node: Node)
    requires
        build_ok(b),
        b.blocks.len() + node_blocks(node) <= usize::MAX,
    ensures
        build_ok(lower_node(b, node)),
        lower_node(b, node).blocks.len() == b.blocks.len() + node_blocks(node),
    decreases node,
{
    match node {
        Node::Loop { body } => {
            let head = b.blocks.len() as int;
            let start = loop_start(b);
            lemma_loop_start_ok(b);
            lemma_lower_nodes_ok(start, body@);
            let inner = lower_nodes(start, body@);
            let done = sealed(inner, Terminator::Branch { target: head as usize });
            assert forall|k: int| 0 <= k < done.len() implies term_in_range(#[trigger] done[k].term, done.len()) by {
                if k != inner.cur {
                    assert(done[k] == inner.blocks[k]);
                }
            }
        },
        _ => {},
    }
}

/// A sequence of nodes keeps the builder sound and adds the blocks that
/// it calls for.
pub proof fn lemma_lower_nodes_ok(b: Build, nodes: Seq<Node>)
    requires
        build_ok(b),
        b.blocks.len() + nodes_blocks(nodes) <= usize::MAX,
    ensures
        build_ok(lower_nodes(b, nodes)),
        lower_nodes(b, nodes).blocks.len() == b.blocks.len() + nodes_blocks(nodes),
    decreases nodes,
{
    if nodes.len() > 0 {
        lemma_lower_nodes_ok(b, nodes.drop_last());
        lemma_lower_node_ok(lower_nodes(b, nodes.drop_last()), nodes.last());
    }
}

/// The lowered program is well-formed and has the blocks that the tree
/// calls for.
pub proof fn lemma_lowered_wf(ast: Seq<Node>)
    requires
        block_count(ast) <= usize::MAX,
    ensures
        lowered(ast).wf(),
        lowered(ast).blocks.len() == block_count(ast),
{
    let b0 = Build { blocks: seq![blank()], cur: 0, open: Seq::empty() };
    lemma_lower_nodes_ok(b0, ast);
    let b = lower_nodes(b0, ast);
    let p = lowered(ast);
    assert forall|k: int| 0 <= k < p.blocks.len() implies term_in_range(#[trigger] p.blocks[k].term, p.blocks.len()) by {
        if k != b.cur {
            assert(p.blocks[k] == b.blocks[k]);
        }
    }
}

/// The values of the blocks of a vector.
pub open spec fn views(blocks: Seq<Block>) -> Seq<BlockView> {
    Seq::new(blocks.len(), |i: int| blocks[i]@)
}

fn blank_block() -> (r: Block)
    ensures
        r@ == blank(),
{
    Block { instrs: Vec::new(), term: Terminator::Return }
}

/// Counts the blocks that `nodes` add, or gives `None` where the count
/// does not fit.
pub fn count_blocks(nodes: &Vec<Node>) -> (r: Option<usize>)
    ensures
        r is Some <==> nodes_blocks(nodes@) <= usize::MAX,
        r matches Some(n) ==> n == nodes_blocks(nodes@),
    decreases nodes,
{
    let mut total: usize = 0;
    let mut i: usize = 0;
    while i < nodes.len()
        invariant
            i <= nodes.len(),
            total == nodes_blocks(nodes@.take(i as int)),
        decreases nodes.len() - i,
    {
        proof {
            assert(nodes@.take(i as int + 1).drop_last() =~= nodes@.take(i as int));
            assert(nodes@.take(i as int + 1).last() == nodes@[i as int]);
            lemma_blocks_prefix(nodes@, i as int + 1);
            assert(nodes_blocks(nodes@.take(i as int + 1)) == nodes_blocks(nodes@.take(i as int)) + node_blocks(
                nodes@[i as int],
            ));
        }
        match &nodes[i] {
            Node::Loop { body } => {
                assert(node_blocks(nodes@[i as int]) == 3 + nodes_blocks(body@));
                let inner = match count_blocks(body) {
                    Some(n) => n,
                    None => {
                        return None;
                    },
                };
                if inner > usize::MAX - 3 || total > usize::MAX - 3 - inner {
                    return None;
                }
                total = total + 3 + inner;
            },
            _ => {},
        }
        i += 1;
    }
    proof {
        assert(nodes@.take(i as int) =~= nodes@);
    }
    Some(total)
}

proof fn lemma_blocks_prefix(nodes: Seq<Node>, i: int)
    requires
        0 <= i <= nodes.len(),
    ensures
        nodes_blocks(nodes.take(i)) <= nodes_blocks(nodes),
    decreases nodes.len() - i,
{
    if i < nodes.len() {
        lemma_blocks_prefix(nodes, i + 1);
        assert(nodes.take(i + 1).drop_last() =~= nodes.take(i));
    } else {
        assert(nodes.take(i) =~= nodes);
    }
}

fn lower_into(nodes: &Vec<Node>, blocks: &mut Vec<Block>, cur: usize, open: Vec<Instr>) -> (r: (usize, Vec<Instr>))
    requires
        cur < old(blocks)@.len(),
        old(blocks)@.len() + nodes_blocks(nodes@) <= usize::MAX,
    ensures
        (Build { blocks: views(final(blocks)@), cur: r.0 as int, open: r.1@ }) == lower_nodes(
            Build { blocks: views(old(blocks)@), cur: cur as int, open: open@ },
            nodes@,
        ),
        final(blocks)@.len() == old(blocks)@.len() + nodes_blocks(nodes@),
        r.0 < final(blocks)@.len(),
    decreases nodes,
{
    let ghost b0 = Build { blocks: views(blocks@), cur: cur as int, open: open@ };
    let ghost len0 = blocks@.len();
    let mut cur = cur;
    let mut open = open;
    let mut i: usize = 0;
    while i < nodes.len()
        invariant
            i <= nodes.len(),
            len0 + nodes_blocks(nodes@) <= usize::MAX,
            cur < blocks@.len(),
            blocks@.len() == len0 + nodes_blocks(nodes@.take(i as int)),
            (Build { blocks: views(blocks@), cur: cur as int, open: open@ }) == lower_nodes(b0, nodes@.take(i as int)),
        decreases nodes.len() - i,
    {
        let ghost before = Build { blocks: views(blocks@), cur: cur as int, open: open@ };
        proof {
            assert(nodes@.take(i as int + 1).drop_last() =~= nodes@.take(i as int));
            assert(nodes@.take(i as int + 1).last() == nodes@[i as int]);
            lemma_blocks_prefix(nodes@, i as int + 1);
            assert(nodes_blocks(nodes@.take(i as int + 1)) == nodes_blocks(nodes@.take(i as int)) + node_blocks(
                nodes@[i as int],
            ));
            assert(lower_nodes(b0, nodes@.take(i as int + 1)) == lower_node(before, nodes@[i as int]));
        }
        match &nodes[i] {
            Node::PointerMove { count } => {
                open.push(Instr::MovePointer { offset: *count });
            },
            Node::CellDelta { amount } => {
                open.push(Instr::AddToCell { offset: 0, amount: *amount });
            },
            Node::Output => {
                open.push(Instr::Output { offset: 0 });
            },
            Node::Input => {
                open.push(Instr::Input { offset: 0 });
            },
            Node::Loop { body } => {
                assert(node_blocks(nodes@[i as int]) == 3 + nodes_blocks(body@));
                let head = blocks.len();
                blocks.set(cur, Block { instrs: open, term: Terminator::Branch { target: head } });
                blocks.push(
                    Block { instrs: Vec::new(), term: Terminator::CondBranch { nonzero: head + 1, zero: head + 2 } },
                );
                blocks.push(blank_block());
                blocks.push(blank_block());
                proof {
                    assert(views(blocks@) =~= loop_start(before).blocks);
                }
                let (last, rest) = lower_into(body, blocks, head + 1, Vec::new());
                let ghost inner = Build { blocks: views(blocks@), cur: last as int, open: rest@ };
                blocks.set(last, Block { instrs: rest, term: Terminator::Branch { target: head } });
                cur = head + 2;
                open = Vec::new();
                proof {
                    assert(views(blocks@) =~= sealed(inner, Terminator::Branch { target: head }));
                }
            },
        }
        i += 1;
    }
    proof {
        assert(nodes@.take(i as int) =~= nodes@);
    }
    (cur, open)
}

/// Lowers a syntax tree. Every node but a loop becomes one instruction at
/// offset 0 in the current block; every loop adds a head, a body and a
/// successor block.
pub fn lower(ast: &Vec<Node>) -> (ir: IrProgram)
    requires
        block_count(ast@) <= usize::MAX,
    ensures
        ir@ == lowered(ast@),
        ir.wf(),
        ir.blocks@.len() == block_count(ast@),
{
    let mut blocks: Vec<Block> = Vec::new();
    blocks.push(blank_block());
    proof {
        assert(views(blocks@) =~= seq![blank()]);
    }
    let (last, rest) = lower_into(ast, &mut blocks, 0, Vec::new());
    let ghost b = Build { blocks: views(blocks@), cur: last as int, open: rest@ };
    blocks.set(last, Block { instrs: rest, term: Terminator::Return });
    let ir = IrProgram { blocks };
    proof {
        assert(ir@.blocks =~= sealed(b, Terminator::Return));
        lemma_lowered_wf(ast@);
    }
    ir
}

/// Lowers a syntax tree if the program's blocks can be counted in a
/// `usize`, and gives `None` if not.
pub fn try_lower(ast: &Vec<Node>) -> (r: Option<IrProgram>)
    ensures
        r is Some <==> block_count(ast@) <= usize::MAX,
        r matches Some(ir) ==> ir@ == lowered(ast@) && ir.wf(),
{
    match count_blocks(ast) {
        Some(n) => if n < usize::MAX {
            Some(lower(ast))
        } else {
            None
        },
        None => None,
    }
}

} // verus!
