//! Backend lowering: the program as a module of the code generator's
//! textual representation. The tape is one global array of bytes, the
//! pointer one stack slot; every block becomes a labelled block, every
//! instruction a short sequence of loads, arithmetic and stores that
//! keeps the pointer on the tape by a remainder, and input and output
//! become calls of `getchar` and `putchar`.

use vstd::prelude::*;
use vstd::string::*;
use crate::machine::{wrap_index, wrapped_index};
use crate::ir::{Instr, Terminator, Block, BlockView, IrProgram, ProgramView};
use crate::text::{decimal, decimal_nat, write_int, write_nat};

verus! {

/// The name of a value computed by instruction `j` of block `k`.
#[verifier::opaque]
pub open spec fn reg(k: int, j: int, tag: Seq<char>) -> Seq<char> {
    "%b"@ + decimal_nat(k as nat) + "."@ + decimal_nat(j as nat) + "."@ + tag
}

/// The tags of the values that lead to a cell's address: the pointer, the
/// pointer with the offset added, that sum on the tape, the address.
pub open spec fn address_tags(source: bool) -> (Seq<char>, Seq<char>, Seq<char>, Seq<char>) {
    if source {
        ("sp"@, "si"@, "sw"@, "sa"@)
    } else {
        ("dp"@, "di"@, "dw"@, "da"@)
    }
}

/// The lines that compute the address of the cell at `offset`. The offset
/// is reduced to the tape's length first, so that the sum cannot
/// overflow.
#[verifier::opaque]
pub open spec fn address_code(k: int, j: int, source: bool, offset: int) -> Seq<char> {
    let (p, i, w, a) = address_tags(source);
    "  "@ + reg(k, j, p) + " = load i64, ptr %ptr\n"@ + "  "@ + reg(k, j, i) + " = add i64 "@ + reg(k, j, p) + ", "@
        + decimal_nat(wrap_index(0, offset) as nat) + "\n"@ + "  "@ + reg(k, j, w) + " = urem i64 "@ + reg(k, j, i)
        + ", 30000\n"@ + "  "@ + reg(k, j, a) + " = getelementptr [30000 x i8], ptr @tape, i64 0, i64 "@ + reg(
        k,
        j,
        w,
    ) + "\n"@
}

/// The lines of instruction `j` of block `k`.
#[verifier::opaque]
pub open spec fn instr_code(k: int, j: int, i: Instr) -> Seq<char> {
    match i {
        Instr::AddToCell { offset, amount } => address_code(k, j, false, offset as int) + "  "@ + reg(k, j, "v"@)
            + " = load i8, ptr "@ + reg(k, j, "da"@) + "\n"@ + "  "@ + reg(k, j, "r"@) + " = add i8 "@ + reg(
            k,
            j,
            "v"@,
        ) + ", "@ + decimal(amount as int) + "\n"@ + "  store i8 "@ + reg(k, j, "r"@) + ", ptr "@ + reg(k, j, "da"@)
            + "\n"@,
        Instr::MovePointer { offset } => "  "@ + reg(k, j, "dp"@) + " = load i64, ptr %ptr\n"@ + "  "@ + reg(
            k,
            j,
            "di"@,
        ) + " = add i64 "@ + reg(k, j, "dp"@) + ", "@ + decimal_nat(wrap_index(0, offset as int) as nat) + "\n"@
            + "  "@ + reg(k, j, "dw"@) + " = urem i64 "@ + reg(k, j, "di"@) + ", 30000\n"@ + "  store i64 "@ + reg(
            k,
            j,
            "dw"@,
        ) + ", ptr %ptr\n"@,
        Instr::SetCell { offset, value } => address_code(k, j, false, offset as int) + "  store i8 "@ + decimal(
            value as int,
        ) + ", ptr "@ + reg(k, j, "da"@) + "\n"@,
        Instr::Output { offset } => address_code(k, j, false, offset as int) + "  "@ + reg(k, j, "v"@)
            + " = load i8, ptr "@ + reg(k, j, "da"@) + "\n"@ + "  "@ + reg(k, j, "z"@) + " = zext i8 "@ + reg(
            k,
            j,
            "v"@,
        ) + " to i32\n"@ + "  "@ + reg(k, j, "c"@) + " = call i32 @putchar(i32 "@ + reg(k, j, "z"@) + ")\n"@,
        Instr::Input { offset } => address_code(k, j, false, offset as int) + "  "@ + reg(k, j, "c"@)
            + " = call i32 @getchar()\n"@ + "  "@ + reg(k, j, "e"@) + " = icmp slt i32 "@ + reg(k, j, "c"@)
            + ", 0\n"@ + "  "@ + reg(k, j, "s"@) + " = select i1 "@ + reg(k, j, "e"@) + ", i32 0, i32 "@ + reg(
            k,
            j,
            "c"@,
        ) + "\n"@ + "  "@ + reg(k, j, "t"@) + " = trunc i32 "@ + reg(k, j, "s"@) + " to i8\n"@ + "  store i8 "@ + reg(
            k,
            j,
            "t"@,
        ) + ", ptr "@ + reg(k, j, "da"@) + "\n"@,
        Instr::MultiplyAddCell { src_offset, dst_offset, factor } => address_code(k, j, true, src_offset as int)
            + address_code(k, j, false, dst_offset as int) + "  "@ + reg(k, j, "sv"@) + " = load i8, ptr "@ + reg(
            k,
            j,
            "sa"@,
        ) + "\n"@ + "  "@ + reg(k, j, "m"@) + " = mul i8 "@ + reg(k, j, "sv"@) + ", "@ + decimal(factor as int)
            + "\n"@ + "  "@ + reg(k, j, "v"@) + " = load i8, ptr "@ + reg(k, j, "da"@) + "\n"@ + "  "@ + reg(
            k,
            j,
            "r"@,
        ) + " = add i8 "@ + reg(k, j, "v"@) + ", "@ + reg(k, j, "m"@) + "\n"@ + "  store i8 "@ + reg(k, j, "r"@)
            + ", ptr "@ + reg(k, j, "da"@) + "\n"@,
    }
}

/// The lines of the terminator of block `k`, which holds `j`
/// instructions.
#[verifier::opaque]
pub open spec fn term_code(k: int, j: int, term: Terminator) -> Seq<char> {
    match term {
        Terminator::Branch { target } => "  br label %b"@ + decimal_nat(target as nat) + "\n"@,
        Terminator::CondBranch { nonzero, zero } => "  "@ + reg(k, j, "dp"@) + " = load i64, ptr %ptr\n"@ + "  "@
            + reg(k, j, "da"@) + " = getelementptr [30000 x i8], ptr @tape, i64 0, i64 "@ + reg(k, j, "dp"@)
            + "\n"@ + "  "@ + reg(k, j, "v"@) + " = load i8, ptr "@ + reg(k, j, "da"@) + "\n"@ + "  "@ + reg(
            k,
            j,
            "c"@,
        ) + " = icmp ne i8 "@ + reg(k, j, "v"@) + ", 0\n"@ + "  br i1 "@ + reg(k, j, "c"@) + ", label %b"@
            + decimal_nat(nonzero as nat) + ", label %b"@ + decimal_nat(zero as nat) + "\n"@,
        Terminator::Return => "  ret i32 0\n"@,
    }
}

/// The lines of the first `n` instructions of block `k`.
pub open spec fn instrs_code(k: int, instrs: Seq<Instr>, n: nat) -> Seq<char>
    decreases n,
{
    if n == 0 {
        Seq::empty()
    } else {
        instrs_code(k, instrs, (n - 1) as nat) + instr_code(k, n - 1, instrs[n - 1])
    }
}

/// The label and the lines of block `k`.
#[verifier::opaque]
pub open spec fn block_code(k: int, b: BlockView) -> Seq<char> {
    "b"@ + decimal_nat(k as nat) + ":\n"@ + instrs_code(k, b.instrs, b.instrs.len()) + term_code(
        k,
        b.instrs.len() as int,
        b.term,
    )
}

/// The lines of the first `n` blocks.
pub open spec fn blocks_code(blocks: Seq<BlockView>, n: nat) -> Seq<char>
    decreases n,
{
    if n == 0 {
        Seq::empty()
    } else {
        blocks_code(blocks, (n - 1) as nat) + block_code(n - 1, blocks[n - 1])
    }
}

/// What stands before the blocks: the tape, the two outside functions,
/// and the start of `main`, which sets the pointer to the first cell.
pub open spec fn module_head() -> Seq<char> {
    "@tape = internal global [30000 x i8] zeroinitializer\n\ndeclare i32 @putchar(i32)\n\ndeclare i32 @getchar()\n\ndefine i32 @main() {\nentry:\n  %ptr = alloca i64\n  store i64 0, ptr %ptr\n  br label %b0\n"@
}

/// The module for a program.
pub open spec fn module_text(p: ProgramView) -> Seq<char> {
    module_head() + blocks_code(p.blocks, p.blocks.len()) + "}\n"@
}

fn push_nat(out: &mut String, n: usize)
    ensures
        final(out)@ == old(out)@ + decimal_nat(n as nat),
{
    write_nat(out, n as u64);
}

fn push_int(out: &mut String, v: i64)
    ensures
        final(out)@ == old(out)@ + decimal(v as int),
{
    write_int(out, v);
}

fn reg_string(k: usize, j: usize, tag: &str) -> (r: String)
    ensures
        r@ == reg(k as int, j as int, tag@),
{
    proof {
        reveal(reg);
    }
    let mut out = "%b".to_owned();
    push_nat(&mut out, k);
    out.append(".");
    push_nat(&mut out, j);
    out.append(".");
    out.append(tag);
    out
}

fn push_reg(out: &mut String, k: usize, j: usize, tag: &str)
    ensures
        final(out)@ == old(out)@ + reg(k as int, j as int, tag@),
{
    let r = reg_string(k, j, tag);
    out.append(r.as_str());
}

fn address_string(k: usize, j: usize, source: bool, offset: i64) -> (r: String)
    ensures
        r@ == address_code(k as int, j as int, source, offset as int),
{
    proof {
        reveal(address_code);
    }
    let reduced = wrapped_index(0, offset);
    let (p, i, w, a) = if source {
        ("sp", "si", "sw", "sa")
    } else {
        ("dp", "di", "dw", "da")
    };
    let mut out = "  ".to_owned();
    push_reg(&mut out, k, j, p);
    out.append(" = load i64, ptr %ptr\n");
    out.append("  ");
    push_reg(&mut out, k, j, i);
    out.append(" = add i64 ");
    push_reg(&mut out, k, j, p);
    out.append(", ");
    push_nat(&mut out, reduced);
    out.append("\n");
    out.append("  ");
    push_reg(&mut out, k, j, w);
    out.append(" = urem i64 ");
    push_reg(&mut out, k, j, i);
    out.append(", 30000\n");
    out.append("  ");
    push_reg(&mut out, k, j, a);
    out.append(" = getelementptr [30000 x i8], ptr @tape, i64 0, i64 ");
    push_reg(&mut out, k, j, w);
    out.append("\n");
    out
}

fn add_string(k: usize, j: usize, offset: i64, amount: i8) -> (r: String)
    ensures
        r@ == instr_code(k as int, j as int, Instr::AddToCell { offset, amount }),
{
    proof {
        reveal(instr_code);
    }
    let mut out = address_string(k, j, false, offset);
    out.append("  ");
    push_reg(&mut out, k, j, "v");
    out.append(" = load i8, ptr ");
    push_reg(&mut out, k, j, "da");
    out.append("\n");
    out.append("  ");
    push_reg(&mut out, k, j, "r");
    out.append(" = add i8 ");
    push_reg(&mut out, k, j, "v");
    out.append(", ");
    push_int(&mut out, amount as i64);
    out.append("\n");
    out.append("  store i8 ");
    push_reg(&mut out, k, j, "r");
    out.append(", ptr ");
    push_reg(&mut out, k, j, "da");
    out.append("\n");
    out
}

fn move_string(k: usize, j: usize, offset: i64) -> (r: String)
    ensures
        r@ == instr_code(k as int, j as int, Instr::MovePointer { offset }),
{
    proof {
        reveal(instr_code);
    }
    let reduced = wrapped_index(0, offset);
    let mut out = "  ".to_owned();
    push_reg(&mut out, k, j, "dp");
    out.append(" = load i64, ptr %ptr\n");
    out.append("  ");
    push_reg(&mut out, k, j, "di");
    out.append(" = add i64 ");
    push_reg(&mut out, k, j, "dp");
    out.append(", ");
    push_nat(&mut out, reduced);
    out.append("\n");
    out.append("  ");
    push_reg(&mut out, k, j, "dw");
    out.append(" = urem i64 ");
    push_reg(&mut out, k, j, "di");
    out.append(", 30000\n");
    out.append("  store i64 ");
    push_reg(&mut out, k, j, "dw");
    out.append(", ptr %ptr\n");
    out
}

fn set_string(k: usize, j: usize, offset: i64, value: i8) -> (r: String)
    ensures
        r@ == instr_code(k as int, j as int, Instr::SetCell { offset, value }),
{
    proof {
        reveal(instr_code);
    }
    let mut out = address_string(k, j, false, offset);
    out.append("  store i8 ");
    push_int(&mut out, value as i64);
    out.append(", ptr ");
    push_reg(&mut out, k, j, "da");
    out.append("\n");
    out
}

fn output_string(k: usize, j: usize, offset: i64) -> (r: String)
    ensures
        r@ == instr_code(k as int, j as int, Instr::Output { offset }),
{
    proof {
        reveal(instr_code);
    }
    let mut out = address_string(k, j, false, offset);
    out.append("  ");
    push_reg(&mut out, k, j, "v");
    out.append(" = load i8, ptr ");
    push_reg(&mut out, k, j, "da");
    out.append("\n");
    out.append("  ");
    push_reg(&mut out, k, j, "z");
    out.append(" = zext i8 ");
    push_reg(&mut out, k, j, "v");
    out.append(" to i32\n");
    out.append("  ");
    push_reg(&mut out, k, j, "c");
    out.append(" = call i32 @putchar(i32 ");
    push_reg(&mut out, k, j, "z");
    out.append(")\n");
    out
}

fn input_string(k: usize, j: usize, offset: i64) -> (r: String)
    ensures
        r@ == instr_code(k as int, j as int, Instr::Input { offset }),
{
    proof {
        reveal(instr_code);
    }
    let mut out = address_string(k, j, false, offset);
    out.append("  ");
    push_reg(&mut out, k, j, "c");
    out.append(" = call i32 @getchar()\n");
    out.append("  ");
    push_reg(&mut out, k, j, "e");
    out.append(" = icmp slt i32 ");
    push_reg(&mut out, k, j, "c");
    out.append(", 0\n");
    out.append("  ");
    push_reg(&mut out, k, j, "s");
    out.append(" = select i1 ");
    push_reg(&mut out, k, j, "e");
    out.append(", i32 0, i32 ");
    push_reg(&mut out, k, j, "c");
    out.append("\n");
    out.append("  ");
    push_reg(&mut out, k, j, "t");
    out.append(" = trunc i32 ");
    push_reg(&mut out, k, j, "s");
    out.append(" to i8\n");
    out.append("  store i8 ");
    push_reg(&mut out, k, j, "t");
    out.append(", ptr ");
    push_reg(&mut out, k, j, "da");
    out.append("\n");
    out
}

fn multiply_string(k: usize, j: usize, src_offset: i64, dst_offset: i64, factor: i8) -> (r: String)
    ensures
        r@ == instr_code(k as int, j as int, Instr::MultiplyAddCell { src_offset, dst_offset, factor }),
{
    proof {
        reveal(instr_code);
    }
    let mut out = address_string(k, j, true, src_offset);
    let dst = address_string(k, j, false, dst_offset);
    out.append(dst.as_str());
    out.append("  ");
    push_reg(&mut out, k, j, "sv");
    out.append(" = load i8, ptr ");
    push_reg(&mut out, k, j, "sa");
    out.append("\n");
    out.append("  ");
    push_reg(&mut out, k, j, "m");
    out.append(" = mul i8 ");
    push_reg(&mut out, k, j, "sv");
    out.append(", ");
    push_int(&mut out, factor as i64);
    out.append("\n");
    out.append("  ");
    push_reg(&mut out, k, j, "v");
    out.append(" = load i8, ptr ");
    push_reg(&mut out, k, j, "da");
    out.append("\n");
    out.append("  ");
    push_reg(&mut out, k, j, "r");
    out.append(" = add i8 ");
    push_reg(&mut out, k, j, "v");
    out.append(", ");
    push_reg(&mut out, k, j, "m");
    out.append("\n");
    out.append("  store i8 ");
    push_reg(&mut out, k, j, "r");
    out.append(", ptr ");
    push_reg(&mut out, k, j, "da");
    out.append("\n");
    out
}

fn instr_string(k: usize, j: usize, i: Instr) -> (r: String)
    ensures
        r@ == instr_code(k as int, j as int, i),
{
    match i {
        Instr::AddToCell { offset, amount } => add_string(k, j, offset, amount),
        Instr::MovePointer { offset } => move_string(k, j, offset),
        Instr::SetCell { offset, value } => set_string(k, j, offset, value),
        Instr::Output { offset } => output_string(k, j, offset),
        Instr::Input { offset } => input_string(k, j, offset),
        Instr::MultiplyAddCell { src_offset, dst_offset, factor } => multiply_string(
            k,
            j,
            src_offset,
            dst_offset,
            factor,
        ),
    }
}

fn term_string(k: usize, j: usize, term: Terminator) -> (r: String)
    ensures
        r@ == term_code(k as int, j as int, term),
{
    proof {
        reveal(term_code);
    }
    match term {
        Terminator::Branch { target } => {
            let mut out = "  br label %b".to_owned();
            push_nat(&mut out, target);
            out.append("\n");
            out
        },
        Terminator::CondBranch { nonzero, zero } => {
            let mut out = "  ".to_owned();
            push_reg(&mut out, k, j, "dp");
            out.append(" = load i64, ptr %ptr\n");
            out.append("  ");
            push_reg(&mut out, k, j, "da");
            out.append(" = getelementptr [30000 x i8], ptr @tape, i64 0, i64 ");
            push_reg(&mut out, k, j, "dp");
            out.append("\n");
            out.append("  ");
            push_reg(&mut out, k, j, "v");
            out.append(" = load i8, ptr ");
            push_reg(&mut out, k, j, "da");
            out.append("\n");
            out.append("  ");
            push_reg(&mut out, k, j, "c");
            out.append(" = icmp ne i8 ");
            push_reg(&mut out, k, j, "v");
            out.append(", 0\n");
            out.append("  br i1 ");
            push_reg(&mut out, k, j, "c");
            out.append(", label %b");
            push_nat(&mut out, nonzero);
            out.append(", label %b");
            push_nat(&mut out, zero);
            out.append("\n");
            out
        },
        Terminator::Return => "  ret i32 0\n".to_owned(),
    }
}

fn instrs_string(k: usize, instrs: &Vec<Instr>) -> (r: String)
    ensures
        r@ == instrs_code(k as int, instrs@, instrs@.len()),
{
    let mut out = String::new();
    let mut j: usize = 0;
    while j < instrs.len()
        invariant
            j <= instrs.len(),
            out@ == instrs_code(k as int, instrs@, j as nat),
        decreases instrs.len() - j,
    {
        let line = instr_string(k, j, instrs[j]);
        out.append(line.as_str());
        j += 1;
    }
    out
}

fn block_string(k: usize, block: &Block) -> (r: String)
    ensures
        r@ == block_code(k as int, block@),
{
    proof {
        reveal(block_code);
    }
    let mut out = "b".to_owned();
    push_nat(&mut out, k);
    out.append(":\n");
    let body = instrs_string(k, &block.instrs);
    out.append(body.as_str());
    let term = term_string(k, block.instrs.len(), block.term);
    out.append(term.as_str());
    out
}

fn blocks_string(ir: &IrProgram) -> (r: String)
    ensures
        r@ == blocks_code(ir@.blocks, ir@.blocks.len()),
{
    let mut out = String::new();
    let mut k: usize = 0;
    while k < ir.blocks.len()
        invariant
            k <= ir.blocks.len(),
            out@ == blocks_code(ir@.blocks, k as nat),
        decreases ir.blocks.len() - k,
    {
        assert(ir@.blocks[k as int] == ir.blocks@[k as int]@);
        let block = block_string(k, &ir.blocks[k]);
        out.append(block.as_str());
        k += 1;
    }
    out
}

/// Lowers a program to the code generator's textual representation.
pub fn lower_to_backend(ir: &IrProgram) -> (r: String)
    ensures
        r@ == module_text(ir@),
{
    let mut out =
        "@tape = internal global [30000 x i8] zeroinitializer\n\ndeclare i32 @putchar(i32)\n\ndeclare i32 @getchar()\n\ndefine i32 @main() {\nentry:\n  %ptr = alloca i64\n  store i64 0, ptr %ptr\n  br label %b0\n".to_owned();
    let blocks = blocks_string(ir);
    out.append(blocks.as_str());
    out.append("}\n");
    out
}

/// The pass pipeline that the code generator runs at each of its
/// optimization levels.
pub open spec fn pipeline_text(level: u8) -> Option<Seq<char>> {
    if level == 0 {
        Some("default<O0>"@)
    } else if level == 1 {
        Some("default<O1>"@)
    } else if level == 2 {
        Some("default<O2>"@)
    } else if level == 3 {
        Some("default<O3>"@)
    } else {
        None
    }
}

/// The text of an optional string.
pub open spec fn text_of(s: Option<&'static str>) -> Option<Seq<char>> {
    match s {
        Some(t) => Some(t@),
        None => None,
    }
}

/// Gives the code generator's pass pipeline for an optimization level
/// from 0 to 3, and `None` for any other level.
pub fn backend_pipeline(level: u8) -> (r: Option<&'static str>)
    ensures
        text_of(r) == pipeline_text(level),
        r is Some <==> level <= 3,
{
    if level == 0 {
        Some("default<O0>")
    } else if level == 1 {
        Some("default<O1>")
    } else if level == 2 {
        Some("default<O2>")
    } else if level == 3 {
        Some("default<O3>")
    } else {
        None
    }
}

} // verus!
