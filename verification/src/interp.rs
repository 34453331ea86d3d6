//! A reference interpreter: runs a program of the intermediate
//! representation on the abstract machine, block by block.

use vstd::prelude::*;
use crate::machine::{State, TAPE_SIZE, wrapped_index, wrapped_cell, wrapped_mul_add};
use crate::ir::{
    Instr, Terminator, IrProgram, Config, exec_instr, exec_instrs, next_block, run, step, start, lemma_run_split,
    lemma_run_halted,
};

verus! {

/// The machine: the tape, the pointer, the input with the number of bytes
/// already read, and the output.
#[derive(Debug)]
pub struct Machine {
    pub tape: Vec<u8>,
    pub ptr: usize,
    pub input: Vec<u8>,
    pub consumed: usize,
    pub output: Vec<u8>,
}

impl View for Machine {
    type V = State;

    open spec fn view(&self) -> State {
        State {
            tape: self.tape@,
            ptr: self.ptr as int,
            input: self.input@.skip(self.consumed as int),
            output: self.output@,
        }
    }
}

impl Machine {
    /// The machine's state is well-formed, and no more input has been read
    /// than there is.
    pub open spec fn wf(&self) -> bool {
        &&& self@.wf()
        &&& self.consumed <= self.input@.len()
    }

    /// A machine about to start on `input`.
    pub fn new(input: Vec<u8>) -> (m: Machine)
        ensures
            m.wf(),
            m@ == State::initial(input@),
    {
        let mut tape: Vec<u8> = Vec::new();
        while tape.len() < TAPE_SIZE
            invariant
                tape@.len() <= TAPE_SIZE,
                forall|i: int| 0 <= i < tape@.len() ==> tape@[i] == 0u8,
            decreases TAPE_SIZE - tape@.len(),
        {
            tape.push(0u8);
        }
        let m = Machine { tape, ptr: 0, input, consumed: 0, output: Vec::new() };
        proof {
            assert(m@.tape =~= State::initial(input@).tape);
            assert(m@.input =~= input@);
            assert(m@.output =~= Seq::<u8>::empty());
        }
        m
    }

    /// Runs one instruction.
    pub fn exec(&mut self, i: Instr)
        requires
            old(self).wf(),
        ensures
            final(self).wf(),
            final(self)@ == exec_instr(i, old(self)@),
    {
        match i {
            Instr::AddToCell { offset, amount } => {
                let k = wrapped_index(self.ptr, offset);
                let v = wrapped_cell(self.tape[k], amount);
                self.tape.set(k, v);
            },
            Instr::MovePointer { offset } => {
                self.ptr = wrapped_index(self.ptr, offset);
            },
            Instr::SetCell { offset, value } => {
                let k = wrapped_index(self.ptr, offset);
                let v = wrapped_cell(0, value);
                self.tape.set(k, v);
            },
            Instr::Output { offset } => {
                let k = wrapped_index(self.ptr, offset);
                let v = self.tape[k];
                self.output.push(v);
            },
            Instr::Input { offset } => {
                let k = wrapped_index(self.ptr, offset);
                if self.consumed < self.input.len() {
                    let v = self.input[self.consumed];
                    self.tape.set(k, v);
                    self.consumed = self.consumed + 1;
                    proof {
                        assert(final(self)@.input =~= old(self)@.input.drop_first());
                    }
                } else {
                    self.tape.set(k, 0u8);
                    proof {
                        assert(old(self)@.input.len() == 0);
                    }
                }
            },
            Instr::MultiplyAddCell { src_offset, dst_offset, factor } => {
                let ks = wrapped_index(self.ptr, src_offset);
                let kd = wrapped_index(self.ptr, dst_offset);
                let v = wrapped_mul_add(self.tape[kd], self.tape[ks], factor);
                self.tape.set(kd, v);
            },
        }
    }

    /// Runs the instructions of a block, first to last.
    pub fn exec_all(&mut self, instrs: &Vec<Instr>)
        requires
            old(self).wf(),
        ensures
            final(self).wf(),
            final(self)@ == exec_instrs(instrs@, old(self)@),
    {
        let mut idx: usize = 0;
        while idx < instrs.len()
            invariant
                idx <= instrs.len(),
                self.wf(),
                self@ == exec_instrs(instrs@.take(idx as int), old(self)@),
            decreases instrs.len() - idx,
        {
            proof {
                assert(instrs@.take(idx as int + 1).drop_last() =~= instrs@.take(idx as int));
            }
            self.exec(instrs[idx]);
            idx += 1;
        }
        proof {
            assert(instrs@.take(idx as int) =~= instrs@);
        }
    }

    /// Gives the block that follows a block ending in `term`.
    pub fn next(&self, term: Terminator) -> (r: Option<usize>)
        requires
            self.wf(),
        ensures
            block_view(r) == next_block(term, self@),
    {
        match term {
            Terminator::Branch { target } => Some(target),
            Terminator::CondBranch { nonzero, zero } => if self.tape[self.ptr] != 0 {
                Some(nonzero)
            } else {
                Some(zero)
            },
            Terminator::Return => None,
        }
    }
}

/// A block number as the semantics writes it.
pub open spec fn block_view(b: Option<usize>) -> Option<int> {
    match b {
        Some(k) => Some(k as int),
        None => None,
    }
}

/// Where a run stopped: the machine, and the block it was about to enter,
/// or `None` if the program returned.
#[derive(Debug)]
pub struct Stop {
    pub machine: Machine,
    pub block: Option<usize>,
}

impl View for Stop {
    type V = Config;

    open spec fn view(&self) -> Config {
        Config { pc: block_view(self.block), state: self.machine@ }
    }
}

/// Runs `ir` on `input` for `max_steps` blocks at most, and stops earlier
/// if the program returns. The result is the configuration that the
/// semantics gives after `max_steps` steps.
pub fn interpret(ir: &IrProgram, input: Vec<u8>, max_steps: u64) -> (r: Stop)
    requires
        ir.wf(),
    ensures
        r@ == run(ir@, start(input@), max_steps as nat),
        r.machine.wf(),
{
    let ghost c0 = start(input@);
    let mut machine = Machine::new(input);
    let mut block: Option<usize> = Some(0);
    let mut steps: u64 = 0;
    while steps < max_steps
        invariant
            steps <= max_steps,
            ir.wf(),
            machine.wf(),
            c0 == start(input@),
            block matches Some(b) ==> b < ir.blocks.len(),
            (Config { pc: block_view(block), state: machine@ }) == run(ir@, c0, steps as nat),
        decreases max_steps - steps,
    {
        let ghost c = Config { pc: block_view(block), state: machine@ };
        match block {
            None => {
                proof {
                    lemma_run_split(ir@, c0, steps as nat, (max_steps - steps) as nat);
                    lemma_run_halted(ir@, c, (max_steps - steps) as nat);
                }
                return Stop { machine, block };
            },
            Some(b) => {
                let blk = &ir.blocks[b];
                assert(ir@.blocks[b as int] == blk@);
                machine.exec_all(&blk.instrs);
                block = machine.next(blk.term);
                proof {
                    assert(crate::ir::term_in_range(ir@.blocks[b as int].term, ir@.blocks.len()));
                    reveal_with_fuel(run, 2);
                    lemma_run_split(ir@, c0, steps as nat, 1);
                    assert(run(ir@, c, 1) == step(ir@, c));
                }
                steps += 1;
            },
        }
    }
    Stop { machine, block }
}

} // verus!
