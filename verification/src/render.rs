//! The textual form of a program of the intermediate representation: one
//! line for each block's number, each instruction and each terminator.

use vstd::prelude::*;
use vstd::string::*;
use crate::ir::{Instr, Terminator, Block, BlockView, IrProgram, ProgramView};
use crate::text::{decimal, write_int, write_nat};

verus! {

/// The line of one instruction.
pub open spec fn instr_text(i: Instr) -> Seq<char> {
    match i {
        Instr::AddToCell { offset, amount } => "  add "@ + decimal(offset as int) + ", "@ + decimal(amount as int)
            + "\n"@,
        Instr::MovePointer { offset } => "  move "@ + decimal(offset as int) + "\n"@,
        Instr::SetCell { offset, value } => "  set "@ + decimal(offset as int) + ", "@ + decimal(value as int) + "\n"@,
        Instr::Output { offset } => "  out "@ + decimal(offset as int) + "\n"@,
        Instr::Input { offset } => "  in "@ + decimal(offset as int) + "\n"@,
        Instr::MultiplyAddCell { src_offset, dst_offset, factor } => "  muladd "@ + decimal(src_offset as int)
            + ", "@ + decimal(dst_offset as int) + ", "@ + decimal(factor as int) + "\n"@,
    }
}

/// The line of a terminator.
pub open spec fn term_text(term: Terminator) -> Seq<char> {
    match term {
        Terminator::Branch { target } => "  br "@ + decimal(target as int) + "\n"@,
        Terminator::CondBranch { nonzero, zero } => "  brnz "@ + decimal(nonzero as int) + ", "@ + decimal(
            zero as int,
        ) + "\n"@,
        Terminator::Return => "  ret\n"@,
    }
}

/// The lines of a sequence of instructions.
pub open spec fn instrs_text(instrs: Seq<Instr>) -> Seq<char>
    decreases instrs.len(),
{
    if instrs.len() == 0 {
        Seq::empty()
    } else {
        instrs_text(instrs.drop_last()) + instr_text(instrs.last())
    }
}

/// The lines of block number `k`.
pub open spec fn block_text(k: int, b: BlockView) -> Seq<char> {
    "block "@ + decimal(k) + ":\n"@ + instrs_text(b.instrs) + term_text(b.term)
}

/// The lines of the first `n` blocks.
pub open spec fn blocks_text(blocks: Seq<BlockView>, n: nat) -> Seq<char>
    decreases n,
{
    if n == 0 {
        Seq::empty()
    } else {
        blocks_text(blocks, (n - 1) as nat) + block_text(n - 1, blocks[n - 1])
    }
}

/// The text of a program.
pub open spec fn program_text(p: ProgramView) -> Seq<char> {
    blocks_text(p.blocks, p.blocks.len())
}

fn write_instr(out: &mut String, i: Instr)
    ensures
        final(out)@ == old(out)@ + instr_text(i),
{
    match i {
        Instr::AddToCell { offset, amount } => {
            out.append("  add ");
            write_int(out, offset);
            out.append(", ");
            write_int(out, amount as i64);
            out.append("\n");
        },
        Instr::MovePointer { offset } => {
            out.append("  move ");
            write_int(out, offset);
            out.append("\n");
        },
        Instr::SetCell { offset, value } => {
            out.append("  set ");
            write_int(out, offset);
            out.append(", ");
            write_int(out, value as i64);
            out.append("\n");
        },
        Instr::Output { offset } => {
            out.append("  out ");
            write_int(out, offset);
            out.append("\n");
        },
        Instr::Input { offset } => {
            out.append("  in ");
            write_int(out, offset);
            out.append("\n");
        },
        Instr::MultiplyAddCell { src_offset, dst_offset, factor } => {
            out.append("  muladd ");
            write_int(out, src_offset);
            out.append(", ");
            write_int(out, dst_offset);
            out.append(", ");
            write_int(out, factor as i64);
            out.append("\n");
        },
    }
    proof {
        assert(final(out)@ =~= old(out)@ + instr_text(i));
    }
}

fn write_term(out: &mut String, term: Terminator)
    ensures
        final(out)@ == old(out)@ + term_text(term),
{
    match term {
        Terminator::Branch { target } => {
            out.append("  br ");
            write_nat(out, target as u64);
            out.append("\n");
        },
        Terminator::CondBranch { nonzero, zero } => {
            out.append("  brnz ");
            write_nat(out, nonzero as u64);
            out.append(", ");
            write_nat(out, zero as u64);
            out.append("\n");
        },
        Terminator::Return => {
            out.append("  ret\n");
        },
    }
    proof {
        assert(final(out)@ =~= old(out)@ + term_text(term));
    }
}

fn write_block(out: &mut String, k: usize, block: &Block)
    ensures
        final(out)@ == old(out)@ + block_text(k as int, block@),
{
    out.append("block ");
    write_nat(out, k as u64);
    out.append(":\n");
    let ghost head = out@;
    let mut i: usize = 0;
    while i < block.instrs.len()
        invariant
            i <= block.instrs.len(),
            out@ == head + instrs_text(block.instrs@.take(i as int)),
        decreases block.instrs.len() - i,
    {
        proof {
            assert(block.instrs@.take(i as int + 1).drop_last() =~= block.instrs@.take(i as int));
        }
        write_instr(out, block.instrs[i]);
        proof {
            assert(out@ =~= head + instrs_text(block.instrs@.take(i as int + 1)));
        }
        i += 1;
    }
    proof {
        assert(block.instrs@.take(i as int) =~= block.instrs@);
    }
    write_term(out, block.term);
    proof {
        assert(final(out)@ =~= old(out)@ + block_text(k as int, block@));
    }
}

/// Renders a program as text: for each block, in order, a line with its
/// number, a line for each instruction and a line for its terminator.
pub fn render_ir(ir: &IrProgram) -> (r: String)
    ensures
        r@ == program_text(ir@),
{
    let mut out = String::new();
    let mut k: usize = 0;
    while k < ir.blocks.len()
        invariant
            k <= ir.blocks.len(),
            out@ == blocks_text(ir@.blocks, k as nat),
        decreases ir.blocks.len() - k,
    {
        assert(ir@.blocks[k as int] == ir.blocks@[k as int]@);
        write_block(&mut out, k, &ir.blocks[k]);
        k += 1;
    }
    out
}

} // verus!
