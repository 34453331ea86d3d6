//! Offset coalescing: pointer moves inside a block are folded into the
//! offsets of the instructions that follow them, and the pointer is moved
//! once, where its position has to be exact.

use vstd::prelude::*;
use crate::machine::{State, wrap_index, lemma_wrap_index_add};
use crate::ir::{Instr, exec_instr, exec_instrs, lemma_exec_instrs_wf, lemma_exec_push};

verus! {

/// The pass half-way through a block: the instructions written so far, and
/// the pointer displacement that is still owed.
pub struct Scan {
    pub out: Seq<Instr>,
    pub pending: int,
}

/// `v` is an offset that an instruction can hold.
pub open spec fn fits(v: int) -> bool {
    i64::MIN <= v <= i64::MAX
}

/// The instructions written so far, with the owed displacement paid.
pub open spec fn flushed(c: Scan) -> Seq<Instr> {
    if c.pending == 0 {
        c.out
    } else {
        c.out.push(Instr::MovePointer { offset: c.pending as i64 })
    }
}

/// The instruction with `k` added to its offsets; a move, an input or an
/// output as it is.
pub open spec fn offset_by(i: Instr, k: int) -> Instr {
    match i {
        Instr::AddToCell { offset, amount } => Instr::AddToCell { offset: (k + offset) as i64, amount },
        Instr::SetCell { offset, value } => Instr::SetCell { offset: (k + offset) as i64, value },
        Instr::MultiplyAddCell { src_offset, dst_offset, factor } => Instr::MultiplyAddCell {
            src_offset: (k + src_offset) as i64,
            dst_offset: (k + dst_offset) as i64,
            factor,
        },
        _ => i,
    }
}

/// The instruction is an addition, a store or a multiply-add whose
/// offsets can take `k` more.
pub open spec fn takes(i: Instr, k: int) -> bool {
    match i {
        Instr::AddToCell { offset, .. } => fits(k + offset),
        Instr::SetCell { offset, .. } => fits(k + offset),
        Instr::MultiplyAddCell { src_offset, dst_offset, .. } => fits(k + src_offset) && fits(k + dst_offset),
        _ => false,
    }
}

/// The pass after one more instruction. A move joins the owed
/// displacement. An addition, a store or a multiply-add takes the owed
/// displacement into its offsets. Input and output, and any instruction
/// whose offset would no longer fit, have the pointer moved first.
pub open spec fn scan_one(c: Scan, i: Instr) -> Scan {
    match i {
        Instr::MovePointer { offset } => if fits(c.pending + offset) {
            Scan { out: c.out, pending: c.pending + offset }
        } else {
            Scan { out: flushed(c), pending: offset as int }
        },
        _ => if takes(i, c.pending) {
            Scan { out: c.out.push(offset_by(i, c.pending)), pending: c.pending }
        } else {
            Scan { out: flushed(c).push(i), pending: 0 }
        },
    }
}

/// The pass after all of `instrs`.
pub open spec fn scan(instrs: Seq<Instr>) -> Scan
    decreases instrs.len(),
{
    if instrs.len() == 0 {
        Scan { out: Seq::empty(), pending: 0 }
    } else {
        scan_one(scan(instrs.drop_last()), instrs.last())
    }
}

/// The coalesced form of a block's instructions.
pub open spec fn coalesce_block(instrs: Seq<Instr>) -> Seq<Instr> {
    flushed(scan(instrs))
}

/// The state with the pointer displaced by `k`.
pub open spec fn shifted(s: State, k: int) -> State {
    State { ptr: wrap_index(s.ptr, k), ..s }
}

proof fn lemma_flushed(c: Scan, s: State)
    requires
        s.wf(),
        fits(c.pending),
    ensures
        exec_instrs(flushed(c), s) == shifted(exec_instrs(c.out, s), c.pending),
{
    lemma_exec_instrs_wf(c.out, s);
    if c.pending != 0 {
        lemma_exec_push(c.out, Instr::MovePointer { offset: c.pending as i64 }, s);
    }
}

proof fn lemma_offset_by(i: Instr, k: int, t: State)
    requires
        t.wf(),
        takes(i, k),
    ensures
        shifted(exec_instr(offset_by(i, k), t), k) == exec_instr(i, shifted(t, k)),
{
    match i {
        Instr::AddToCell { offset, .. } => {
            lemma_wrap_index_add(t.ptr, k, offset as int);
        },
        Instr::SetCell { offset, .. } => {
            lemma_wrap_index_add(t.ptr, k, offset as int);
        },
        Instr::MultiplyAddCell { src_offset, dst_offset, .. } => {
            lemma_wrap_index_add(t.ptr, k, src_offset as int);
            lemma_wrap_index_add(t.ptr, k, dst_offset as int);
        },
        _ => {},
    }
}

proof fn lemma_shifted_twice(t: State, a: int, b: int)
    requires
        t.wf(),
    ensures
        shifted(shifted(t, a), b) == shifted(t, a + b),
        shifted(t, 0) == t,
{
    lemma_wrap_index_add(t.ptr, a, b);
}

proof fn lemma_scan_flush(c: Scan, i: Instr, prev: Seq<Instr>, s: State)
    requires
        s.wf(),
        fits(c.pending),
        shifted(exec_instrs(c.out, s), c.pending) == exec_instrs(prev, s),
    ensures
        shifted(exec_instrs(flushed(c).push(i), s), 0) == exec_instrs(prev.push(i), s),
        exec_instrs(flushed(c), s) == exec_instrs(prev, s),
{
    lemma_flushed(c, s);
    lemma_exec_push(flushed(c), i, s);
    lemma_exec_push(prev, i, s);
    lemma_exec_instrs_wf(prev.push(i), s);
    lemma_shifted_twice(exec_instrs(prev.push(i), s), 0, 0);
}

proof fn lemma_scan_take(c: Scan, i: Instr, prev: Seq<Instr>, s: State)
    requires
        s.wf(),
        takes(i, c.pending),
        shifted(exec_instrs(c.out, s), c.pending) == exec_instrs(prev, s),
    ensures
        shifted(exec_instrs(c.out.push(offset_by(i, c.pending)), s), c.pending) == exec_instrs(prev.push(i), s),
{
    lemma_exec_instrs_wf(c.out, s);
    lemma_exec_push(c.out, offset_by(i, c.pending), s);
    lemma_exec_push(prev, i, s);
    lemma_offset_by(i, c.pending, exec_instrs(c.out, s));
}

proof fn lemma_scan_move(c: Scan, offset: i64, prev: Seq<Instr>, s: State)
    requires
        s.wf(),
        shifted(exec_instrs(c.out, s), c.pending) == exec_instrs(prev, s),
    ensures
        shifted(exec_instrs(c.out, s), c.pending + offset) == exec_instrs(
            prev.push(Instr::MovePointer { offset }),
            s,
        ),
{
    lemma_exec_instrs_wf(c.out, s);
    lemma_exec_push(prev, Instr::MovePointer { offset }, s);
    lemma_shifted_twice(exec_instrs(c.out, s), c.pending, offset as int);
}

proof fn lemma_scan_one(c: Scan, i: Instr, prev: Seq<Instr>, s: State)
    requires
        s.wf(),
        fits(c.pending),
        shifted(exec_instrs(c.out, s), c.pending) == exec_instrs(prev, s),
    ensures
        fits(scan_one(c, i).pending),
        shifted(exec_instrs(scan_one(c, i).out, s), scan_one(c, i).pending) == exec_instrs(prev.push(i), s),
{
    match i {
        Instr::MovePointer { offset } => {
            if fits(c.pending + offset) {
                lemma_scan_move(c, offset, prev, s);
            } else {
                lemma_scan_flush(c, i, prev, s);
                lemma_exec_push(prev, i, s);
            }
        },
        _ => {
            if takes(i, c.pending) {
                lemma_scan_take(c, i, prev, s);
            } else {
                lemma_scan_flush(c, i, prev, s);
            }
        },
    }
}

proof fn lemma_scan(instrs: Seq<Instr>, s: State)
    requires
        s.wf(),
    ensures
        fits(scan(instrs).pending),
        shifted(exec_instrs(scan(instrs).out, s), scan(instrs).pending) == exec_instrs(instrs, s),
    decreases instrs.len(),
{
    if instrs.len() == 0 {
    } else {
        lemma_scan(instrs.drop_last(), s);
        lemma_scan_one(scan(instrs.drop_last()), instrs.last(), instrs.drop_last(), s);
        assert(instrs.drop_last().push(instrs.last()) =~= instrs);
    }
}

/// Coalescing does not change what a block does.
pub proof fn lemma_coalesce_block(instrs: Seq<Instr>, s: State)
    requires
        s.wf(),
    ensures
        exec_instrs(coalesce_block(instrs), s) == exec_instrs(instrs, s),
{
    lemma_scan(instrs, s);
    lemma_flushed(scan(instrs), s);
}

fn flush(out: &mut Vec<Instr>, pending: i64)
    ensures
        final(out)@ == flushed((Scan { out: old(out)@, pending: pending as int })),
{
    if pending != 0 {
        out.push(Instr::MovePointer { offset: pending });
    }
}

/// Coalesces the pointer moves of one block.
pub fn coalesce_instrs(instrs: &Vec<Instr>) -> (out: Vec<Instr>)
    ensures
        out@ == coalesce_block(instrs@),
{
    let mut out: Vec<Instr> = Vec::new();
    let mut pending: i64 = 0;
    let mut idx: usize = 0;
    while idx < instrs.len()
        invariant
            idx <= instrs.len(),
            (Scan { out: out@, pending: pending as int }) == scan(instrs@.take(idx as int)),
        decreases instrs.len() - idx,
    {
        let i = instrs[idx];
        proof {
            assert(instrs@.take(idx as int + 1).drop_last() =~= instrs@.take(idx as int));
            assert(instrs@.take(idx as int + 1).last() == i);
        }
        match i {
            Instr::MovePointer { offset } => {
                match pending.checked_add(offset) {
                    Some(sum) => {
                        pending = sum;
                    },
                    None => {
                        flush(&mut out, pending);
                        pending = offset;
                    },
                }
            },
            Instr::AddToCell { offset, amount } => {
                match pending.checked_add(offset) {
                    Some(sum) => {
                        out.push(Instr::AddToCell { offset: sum, amount });
                    },
                    None => {
                        flush(&mut out, pending);
                        out.push(i);
                        pending = 0;
                    },
                }
            },
            Instr::SetCell { offset, value } => {
                match pending.checked_add(offset) {
                    Some(sum) => {
                        out.push(Instr::SetCell { offset: sum, value });
                    },
                    None => {
                        flush(&mut out, pending);
                        out.push(i);
                        pending = 0;
                    },
                }
            },
            Instr::MultiplyAddCell { src_offset, dst_offset, factor } => {
                let src = pending.checked_add(src_offset);
                let dst = pending.checked_add(dst_offset);
                match (src, dst) {
                    (Some(src_sum), Some(dst_sum)) => {
                        out.push(Instr::MultiplyAddCell { src_offset: src_sum, dst_offset: dst_sum, factor });
                    },
                    _ => {
                        flush(&mut out, pending);
                        out.push(i);
                        pending = 0;
                    },
                }
            },
            Instr::Output { .. } => {
                flush(&mut out, pending);
                out.push(i);
                pending = 0;
            },
            Instr::Input { .. } => {
                flush(&mut out, pending);
                out.push(i);
                pending = 0;
            },
        }
        idx += 1;
    }
    proof {
        assert(instrs@.take(idx as int) =~= instrs@);
    }
    flush(&mut out, pending);
    out
}

} // verus!
