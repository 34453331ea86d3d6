//! Delta folding: an addition that directly follows an addition or a store
//! to the same offset is merged into it.

use vstd::prelude::*;
use crate::machine::{State, wrap_i8, wrapped_i8_add, lemma_wrap_cell_add};
use crate::ir::{Instr, exec_instr, exec_instrs, lemma_exec_instrs_wf, lemma_exec_push};

verus! {

/// The one instruction that does what `prev` and then `next` do, where the
/// pass knows one: `next` adds to the offset that `prev` added to or
/// stored in.
pub open spec fn merged(prev: Instr, next: Instr) -> Option<Instr> {
    match next {
        Instr::AddToCell { offset, amount } => match prev {
            Instr::AddToCell { offset: o, amount: a } => if o == offset {
                Some(Instr::AddToCell { offset, amount: wrap_i8(a + amount) })
            } else {
                None
            },
            Instr::SetCell { offset: o, value } => if o == offset {
                Some(Instr::SetCell { offset, value: wrap_i8(value + amount) })
            } else {
                None
            },
            _ => None,
        },
        _ => None,
    }
}

/// The folded instructions after one more instruction.
pub open spec fn fold_one(out: Seq<Instr>, i: Instr) -> Seq<Instr> {
    if out.len() > 0 && merged(out.last(), i) is Some {
        out.drop_last().push(merged(out.last(), i)->0)
    } else {
        out.push(i)
    }
}

/// The folded form of a block's instructions.
pub open spec fn fold_block(instrs: Seq<Instr>) -> Seq<Instr>
    decreases instrs.len(),
{
    if instrs.len() == 0 {
        Seq::empty()
    } else {
        fold_one(fold_block(instrs.drop_last()), instrs.last())
    }
}

proof fn lemma_merged(prev: Instr, next: Instr, s: State)
    requires
        s.wf(),
        merged(prev, next) is Some,
    ensures
        exec_instr(merged(prev, next)->0, s) == exec_instr(next, exec_instr(prev, s)),
{
    match next {
        Instr::AddToCell { offset, amount } => {
            let k = crate::machine::wrap_index(s.ptr, offset as int);
            match prev {
                Instr::AddToCell { offset: o, amount: a } => {
                    lemma_wrap_cell_add(s.tape[k] as int, a as int, amount as int);
                    assert(exec_instr(merged(prev, next)->0, s).tape =~= exec_instr(next, exec_instr(prev, s)).tape);
                },
                Instr::SetCell { offset: o, value } => {
                    lemma_wrap_cell_add(0, value as int, amount as int);
                    assert(exec_instr(merged(prev, next)->0, s).tape =~= exec_instr(next, exec_instr(prev, s)).tape);
                },
                _ => {},
            }
        },
        _ => {},
    }
}

/// Folding does not change what a block does.
pub proof fn lemma_fold_block(instrs: Seq<Instr>, s: State)
    requires
        s.wf(),
    ensures
        exec_instrs(fold_block(instrs), s) == exec_instrs(instrs, s),
    decreases instrs.len(),
{
    if instrs.len() > 0 {
        let out = fold_block(instrs.drop_last());
        let i = instrs.last();
        lemma_fold_block(instrs.drop_last(), s);
        if out.len() > 0 && merged(out.last(), i) is Some {
            let m = merged(out.last(), i)->0;
            lemma_exec_push(out.drop_last(), m, s);
            lemma_exec_push(out.drop_last(), out.last(), s);
            assert(out.drop_last().push(out.last()) =~= out);
            lemma_exec_instrs_wf(out.drop_last(), s);
            lemma_merged(out.last(), i, exec_instrs(out.drop_last(), s));
        } else {
            lemma_exec_push(out, i, s);
        }
    }
}

/// Merges two instructions where the pass knows how.
pub fn merge(prev: Instr, next: Instr) -> (r: Option<Instr>)
    ensures
        r == merged(prev, next),
{
    match next {
        Instr::AddToCell { offset, amount } => match prev {
            Instr::AddToCell { offset: o, amount: a } => if o == offset {
                Some(Instr::AddToCell { offset, amount: wrapped_i8_add(a, amount) })
            } else {
                None
            },
            Instr::SetCell { offset: o, value } => if o == offset {
                Some(Instr::SetCell { offset, value: wrapped_i8_add(value, amount) })
            } else {
                None
            },
            _ => None,
        },
        _ => None,
    }
}

/// Folds the additions of one block.
pub fn fold_instrs(instrs: &Vec<Instr>) -> (out: Vec<Instr>)
    ensures
        out@ == fold_block(instrs@),
{
    let mut out: Vec<Instr> = Vec::new();
    let mut idx: usize = 0;
    while idx < instrs.len()
        invariant
            idx <= instrs.len(),
            out@ == fold_block(instrs@.take(idx as int)),
        decreases instrs.len() - idx,
    {
        let i = instrs[idx];
        proof {
            assert(instrs@.take(idx as int + 1).drop_last() =~= instrs@.take(idx as int));
            assert(instrs@.take(idx as int + 1).last() == i);
        }
        let n = out.len();
        let m = if n > 0 {
            merge(out[n - 1], i)
        } else {
            None
        };
        match m {
            Some(both) => {
                out.pop();
                out.push(both);
            },
            None => {
                out.push(i);
            },
        }
        idx += 1;
    }
    proof {
        assert(instrs@.take(idx as int) =~= instrs@);
    }
    out
}

} // verus!
