//! Dead-store elimination: an addition or a store whose cell is stored in
//! again before anything touches it is dropped.

use vstd::prelude::*;
use crate::machine::{State, wrap_index, wrapped_index};
use crate::ir::{Instr, exec_instr, exec_instrs, lemma_exec_instr_wf, lemma_exec_first};

verus! {

/// The two offsets name the same cell, wherever the pointer is.
pub open spec fn same_cell(a: i64, b: i64) -> bool {
    wrap_index(0, a as int) == wrap_index(0, b as int)
}

/// The instruction neither reads the cell at `offset` nor moves the
/// pointer: it is an addition or a store, or an input, an output or a
/// multiply-add on other cells.
pub open spec fn passes_over(i: Instr, offset: i64) -> bool {
    match i {
        Instr::AddToCell { .. } => true,
        Instr::SetCell { .. } => true,
        Instr::Output { offset: o } => !same_cell(o, offset),
        Instr::Input { offset: o } => !same_cell(o, offset),
        Instr::MultiplyAddCell { src_offset, dst_offset, .. } => !same_cell(src_offset, offset) && !same_cell(
            dst_offset,
            offset,
        ),
        Instr::MovePointer { .. } => false,
    }
}

/// From position `j` on, a store in the cell at `offset` is reached
/// before any instruction touches that cell or moves the pointer.
pub open spec fn overwritten_from(instrs: Seq<Instr>, j: int, offset: i64) -> bool
    decreases instrs.len() - j,
{
    if j < 0 || j >= instrs.len() {
        false
    } else {
        match instrs[j] {
            Instr::SetCell { offset: o, .. } => o == offset || overwritten_from(instrs, j + 1, offset),
            _ => passes_over(instrs[j], offset) && overwritten_from(instrs, j + 1, offset),
        }
    }
}

/// The instruction at `i` is an addition or a store whose result no
/// instruction can read.
pub open spec fn is_dead(instrs: Seq<Instr>, i: int) -> bool {
    match instrs[i] {
        Instr::AddToCell { offset, .. } => overwritten_from(instrs, i + 1, offset),
        Instr::SetCell { offset, .. } => overwritten_from(instrs, i + 1, offset),
        _ => false,
    }
}

/// The instructions from position `i` on that are not dead.
pub open spec fn live_from(instrs: Seq<Instr>, i: int) -> Seq<Instr>
    decreases instrs.len() - i,
{
    if i < 0 || i >= instrs.len() {
        Seq::empty()
    } else if is_dead(instrs, i) {
        live_from(instrs, i + 1)
    } else {
        seq![instrs[i]] + live_from(instrs, i + 1)
    }
}

/// A block's instructions without the dead ones.
pub open spec fn eliminate_block(instrs: Seq<Instr>) -> Seq<Instr> {
    live_from(instrs, 0)
}

/// The two states are the same but for the cell at index `c`.
pub open spec fn same_but_at(a: State, b: State, c: int) -> bool {
    &&& a.ptr == b.ptr
    &&& a.input == b.input
    &&& a.output == b.output
    &&& a.tape.len() == b.tape.len()
    &&& forall|k: int| 0 <= k < a.tape.len() && k != c ==> a.tape[k] == b.tape[k]
}

proof fn lemma_other_cell(ptr: int, a: i64, b: i64)
    requires
        !same_cell(a, b),
    ensures
        wrap_index(ptr, a as int) != wrap_index(ptr, b as int),
{
}

proof fn lemma_overwritten(instrs: Seq<Instr>, j: int, offset: i64, a: State, b: State)
    requires
        a.wf(),
        b.wf(),
        0 <= j,
        overwritten_from(instrs, j, offset),
        same_but_at(a, b, wrap_index(a.ptr, offset as int)),
    ensures
        exec_instrs(instrs.skip(j), a) == exec_instrs(instrs.skip(j), b),
    decreases instrs.len() - j,
{
    let i = instrs[j];
    let c = wrap_index(a.ptr, offset as int);
    assert(instrs.skip(j) =~= seq![i] + instrs.skip(j + 1));
    lemma_exec_first(i, instrs.skip(j + 1), a);
    lemma_exec_first(i, instrs.skip(j + 1), b);
    lemma_exec_instr_wf(i, a);
    lemma_exec_instr_wf(i, b);
    let a2 = exec_instr(i, a);
    let b2 = exec_instr(i, b);
    match i {
        Instr::SetCell { offset: o, .. } => {
            if o == offset {
                assert(a2.tape =~= b2.tape);
            } else {
                assert(same_but_at(a2, b2, c));
                lemma_overwritten(instrs, j + 1, offset, a2, b2);
            }
        },
        Instr::AddToCell { .. } => {
            assert(same_but_at(a2, b2, c));
            lemma_overwritten(instrs, j + 1, offset, a2, b2);
        },
        Instr::Output { offset: o } => {
            lemma_other_cell(a.ptr, o, offset);
            assert(same_but_at(a2, b2, c));
            lemma_overwritten(instrs, j + 1, offset, a2, b2);
        },
        Instr::Input { offset: o } => {
            lemma_other_cell(a.ptr, o, offset);
            assert(same_but_at(a2, b2, c));
            lemma_overwritten(instrs, j + 1, offset, a2, b2);
        },
        Instr::MultiplyAddCell { src_offset, dst_offset, .. } => {
            lemma_other_cell(a.ptr, src_offset, offset);
            lemma_other_cell(a.ptr, dst_offset, offset);
            assert(same_but_at(a2, b2, c));
            lemma_overwritten(instrs, j + 1, offset, a2, b2);
        },
        Instr::MovePointer { .. } => {},
    }
}

proof fn lemma_live_from(instrs: Seq<Instr>, i: int, s: State)
    requires
        s.wf(),
        0 <= i <= instrs.len(),
    ensures
        exec_instrs(live_from(instrs, i), s) == exec_instrs(instrs.skip(i), s),
    decreases instrs.len() - i,
{
    if i >= instrs.len() {
        assert(instrs.skip(i) =~= Seq::<Instr>::empty());
    } else {
        let x = instrs[i];
        let t = exec_instr(x, s);
        lemma_exec_instr_wf(x, s);
        assert(instrs.skip(i) =~= seq![x] + instrs.skip(i + 1));
        lemma_exec_first(x, instrs.skip(i + 1), s);
        if is_dead(instrs, i) {
            let offset = match x {
                Instr::AddToCell { offset, .. } => offset,
                Instr::SetCell { offset, .. } => offset,
                _ => 0i64,
            };
            assert(same_but_at(t, s, wrap_index(s.ptr, offset as int)));
            lemma_overwritten(instrs, i + 1, offset, t, s);
            lemma_live_from(instrs, i + 1, s);
        } else {
            lemma_exec_first(x, live_from(instrs, i + 1), s);
            lemma_live_from(instrs, i + 1, t);
        }
    }
}

/// Dropping the dead instructions does not change what a block does.
pub proof fn lemma_eliminate_block(instrs: Seq<Instr>, s: State)
    requires
        s.wf(),
    ensures
        exec_instrs(eliminate_block(instrs), s) == exec_instrs(instrs, s),
{
    lemma_live_from(instrs, 0, s);
    assert(instrs.skip(0) =~= instrs);
}

/// Tells whether two offsets name the same cell.
pub fn is_same_cell(a: i64, b: i64) -> (r: bool)
    ensures
        r == same_cell(a, b),
{
    wrapped_index(0, a) == wrapped_index(0, b)
}

/// Tells whether the instruction neither reads the cell at `offset` nor
/// moves the pointer.
pub fn can_pass_over(i: Instr, offset: i64) -> (r: bool)
    ensures
        r == passes_over(i, offset),
{
    match i {
        Instr::AddToCell { .. } => true,
        Instr::SetCell { .. } => true,
        Instr::Output { offset: o } => !is_same_cell(o, offset),
        Instr::Input { offset: o } => !is_same_cell(o, offset),
        Instr::MultiplyAddCell { src_offset, dst_offset, .. } => !is_same_cell(src_offset, offset) && !is_same_cell(
            dst_offset,
            offset,
        ),
        Instr::MovePointer { .. } => false,
    }
}

/// Tells whether, from position `start` on, a store in the cell at
/// `offset` is reached before any instruction touches that cell or moves
/// the pointer.
pub fn overwritten_later(instrs: &Vec<Instr>, start: usize, offset: i64) -> (r: bool)
    ensures
        r == overwritten_from(instrs@, start as int, offset),
{
    let mut j: usize = start;
    while j < instrs.len()
        invariant
            start <= j,
            overwritten_from(instrs@, start as int, offset) == overwritten_from(instrs@, j as int, offset),
        decreases instrs.len() - j,
    {
        match instrs[j] {
            Instr::SetCell { offset: o, .. } => {
                if o == offset {
                    return true;
                }
            },
            _ => {
                if !can_pass_over(instrs[j], offset) {
                    return false;
                }
            },
        }
        j += 1;
    }
    false
}

/// Tells whether the instruction at `i` is dead.
pub fn dead_at(instrs: &Vec<Instr>, i: usize) -> (r: bool)
    requires
        i < instrs.len(),
    ensures
        r == is_dead(instrs@, i as int),
{
    match instrs[i] {
        Instr::AddToCell { offset, .. } => overwritten_later(instrs, i + 1, offset),
        Instr::SetCell { offset, .. } => overwritten_later(instrs, i + 1, offset),
        _ => false,
    }
}

/// Drops the dead instructions of one block.
pub fn eliminate_instrs(instrs: &Vec<Instr>) -> (out: Vec<Instr>)
    ensures
        out@ == eliminate_block(instrs@),
{
    let mut out: Vec<Instr> = Vec::new();
    let mut idx: usize = 0;
    while idx < instrs.len()
        invariant
            idx <= instrs.len(),
            out@ + live_from(instrs@, idx as int) == eliminate_block(instrs@),
        decreases instrs.len() - idx,
    {
        let ghost before = out@;
        if !dead_at(instrs, idx) {
            out.push(instrs[idx]);
            proof {
                assert(out@ + live_from(instrs@, idx as int + 1) =~= before + live_from(instrs@, idx as int));
            }
        }
        idx += 1;
    }
    proof {
        assert(out@ + live_from(instrs@, idx as int) =~= out@);
    }
    out
}

} // verus!
