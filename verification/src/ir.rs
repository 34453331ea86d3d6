//! The intermediate representation: basic blocks of tape instructions that
//! form a control-flow graph, and the meaning of a program as steps of the
//! abstract machine.

use vstd::prelude::*;
use crate::machine::{State, wrap_index, wrap_cell};

verus! {

/// One straight-line instruction. Every offset is relative to the pointer
/// at the moment the instruction runs.
#[derive(Clone, Copy, Debug, PartialEq, Eq, Structural)]
pub enum Instr {
    /// Adds `amount` to the cell at `offset`, modulo 256.
    AddToCell { offset: i64, amount: i8 },
    /// Moves the pointer by `offset` cells, wrapping round the tape.
    MovePointer { offset: i64 },
    /// Stores `value`, taken modulo 256, in the cell at `offset`.
    SetCell { offset: i64, value: i8 },
    /// Writes the cell at `offset` to the output.
    Output { offset: i64 },
    /// Reads one byte into the cell at `offset`; at the end of the input
    /// the cell becomes zero.
    Input { offset: i64 },
    /// Adds `factor` times the cell at `src_offset` to the cell at
    /// `dst_offset`, modulo 256.
    MultiplyAddCell { src_offset: i64, dst_offset: i64, factor: i8 },
}

/// How a block hands control on.
#[derive(Clone, Copy, Debug, PartialEq, Eq, Structural)]
pub enum Terminator {
    /// Continue with the given block.
    Branch { target: usize },
    /// Continue with `nonzero` if the current cell is not zero, with `zero`
    /// otherwise.
    CondBranch { nonzero: usize, zero: usize },
    /// The program ends.
    Return,
}

/// A basic block: instructions, then one terminator.
#[derive(Debug, Clone, PartialEq, Eq)]
pub struct Block {
    pub instrs: Vec<Instr>,
    pub term: Terminator,
}

/// The mathematical value of a block.
pub struct BlockView {
    pub instrs: Seq<Instr>,
    pub term: Terminator,
}

impl View for Block {
    type V = BlockView;

    open spec fn view(&self) -> BlockView {
        BlockView { instrs: self.instrs@, term: self.term }
    }
}

/// A program: blocks that name each other by index; execution starts at
/// block 0.
#[derive(Debug, Clone, PartialEq, Eq)]
pub struct IrProgram {
    pub blocks: Vec<Block>,
}

/// The mathematical value of a program.
pub struct ProgramView {
    pub blocks: Seq<BlockView>,
}

impl View for IrProgram {
    type V = ProgramView;

    open spec fn view(&self) -> ProgramView {
        ProgramView { blocks: Seq::new(self.blocks@.len(), |i: int| self.blocks@[i]@) }
    }
}

/// The terminator names blocks below `n` only.
pub open spec fn term_in_range(term: Terminator, n: nat) -> bool {
    match term {
        Terminator::Branch { target } => target < n,
        Terminator::CondBranch { nonzero, zero } => nonzero < n && zero < n,
        Terminator::Return => true,
    }
}

impl ProgramView {
    /// There is an entry block, and every terminator names a block of the
    /// program.
    pub open spec fn wf(self) -> bool {
        &&& self.blocks.len() > 0
        &&& forall|b: int| 0 <= b < self.blocks.len() ==> term_in_range(#[trigger] self.blocks[b].term, self.blocks.len())
    }
}

impl IrProgram {
    /// Well-formedness of the program's value.
    pub open spec fn wf(&self) -> bool {
        self@.wf()
    }

    /// Tells whether the program is well-formed.
    pub fn is_well_formed(&self) -> (r: bool)
        ensures
            r == self.wf(),
    {
        let n = self.blocks.len();
        if n == 0 {
            return false;
        }
        let mut b: usize = 0;
        while b < n
            invariant
                b <= n,
                n == self.blocks@.len(),
                forall|k: int| 0 <= k < b ==> term_in_range(#[trigger] self@.blocks[k].term, n as nat),
            decreases n - b,
        {
            assert(self@.blocks[b as int] == self.blocks@[b as int]@);
            let ok = match self.blocks[b].term {
                Terminator::Branch { target } => target < n,
                Terminator::CondBranch { nonzero, zero } => nonzero < n && zero < n,
                Terminator::Return => true,
            };
            if !ok {
                assert(!term_in_range(self@.blocks[b as int].term, self@.blocks.len()));
                return false;
            }
            b += 1;
        }
        true
    }
}

/// The effect of one instruction on the machine.
pub open spec fn exec_instr(i: Instr, s: State) -> State {
    match i {
        Instr::AddToCell { offset, amount } => {
            let k = wrap_index(s.ptr, offset as int);
            State { tape: s.tape.update(k, wrap_cell(s.tape[k] as int, amount as int)), ..s }
        },
        Instr::MovePointer { offset } => State { ptr: wrap_index(s.ptr, offset as int), ..s },
        Instr::SetCell { offset, value } => {
            let k = wrap_index(s.ptr, offset as int);
            State { tape: s.tape.update(k, wrap_cell(0, value as int)), ..s }
        },
        Instr::Output { offset } => {
            let k = wrap_index(s.ptr, offset as int);
            State { output: s.output.push(s.tape[k]), ..s }
        },
        Instr::Input { offset } => {
            let k = wrap_index(s.ptr, offset as int);
            if s.input.len() > 0 {
                State { tape: s.tape.update(k, s.input[0]), input: s.input.drop_first(), ..s }
            } else {
                State { tape: s.tape.update(k, 0u8), ..s }
            }
        },
        Instr::MultiplyAddCell { src_offset, dst_offset, factor } => {
            let ks = wrap_index(s.ptr, src_offset as int);
            let kd = wrap_index(s.ptr, dst_offset as int);
            State {
                tape: s.tape.update(kd, wrap_cell(s.tape[kd] as int, s.tape[ks] as int * factor as int)),
                ..s
            }
        },
    }
}

/// The effect of a sequence of instructions, first to last.
pub open spec fn exec_instrs(instrs: Seq<Instr>, s: State) -> State
    decreases instrs.len(),
{
    if instrs.len() == 0 {
        s
    } else {
        exec_instr(instrs.last(), exec_instrs(instrs.drop_last(), s))
    }
}

/// A point in a run: the block about to be entered, or `None` once the
/// program has returned, and the machine's state.
pub struct Config {
    pub pc: Option<int>,
    pub state: State,
}

impl Config {
    /// The state is well-formed and the block, if any, is one of `n`.
    pub open spec fn valid(self, n: nat) -> bool {
        &&& self.state.wf()
        &&& match self.pc {
            Some(b) => 0 <= b < n,
            None => true,
        }
    }
}

/// Where control goes after a block that ends in `term`, with the machine
/// in state `s`.
pub open spec fn next_block(term: Terminator, s: State) -> Option<int> {
    match term {
        Terminator::Branch { target } => Some(target as int),
        Terminator::CondBranch { nonzero, zero } => if s.current() != 0 {
            Some(nonzero as int)
        } else {
            Some(zero as int)
        },
        Terminator::Return => None,
    }
}

/// One step of a run: the whole of the current block and its terminator.
/// A program that has returned stays as it is.
pub open spec fn step(p: ProgramView, c: Config) -> Config {
    match c.pc {
        None => c,
        Some(b) => {
            let s = exec_instrs(p.blocks[b].instrs, c.state);
            Config { pc: next_block(p.blocks[b].term, s), state: s }
        },
    }
}

/// The configuration reached from `c` after `n` steps.
pub open spec fn run(p: ProgramView, c: Config, n: nat) -> Config
    decreases n,
{
    if n == 0 {
        c
    } else {
        run(p, step(p, c), (n - 1) as nat)
    }
}

/// The configuration in which program execution starts on `input`.
pub open spec fn start(input: Seq<u8>) -> Config {
    Config { pc: Some(0int), state: State::initial(input) }
}

/// An instruction keeps the machine well-formed, only ever adds to the
/// output, and only ever consumes input.
pub proof fn lemma_exec_instr_wf(i: Instr, s: State)
    requires
        s.wf(),
    ensures
        exec_instr(i, s).wf(),
        s.output.is_prefix_of(exec_instr(i, s).output),
{
}

/// A sequence of instructions keeps the machine well-formed and only ever
/// adds to the output.
pub proof fn lemma_exec_instrs_wf(instrs: Seq<Instr>, s: State)
    requires
        s.wf(),
    ensures
        exec_instrs(instrs, s).wf(),
        s.output.is_prefix_of(exec_instrs(instrs, s).output),
    decreases instrs.len(),
{
    if instrs.len() > 0 {
        lemma_exec_instrs_wf(instrs.drop_last(), s);
        lemma_exec_instr_wf(instrs.last(), exec_instrs(instrs.drop_last(), s));
    }
}

/// Running `a` and then `b` is running their concatenation.
pub proof fn lemma_exec_concat(a: Seq<Instr>, b: Seq<Instr>, s: State)
    ensures
        exec_instrs(a + b, s) == exec_instrs(b, exec_instrs(a, s)),
    decreases b.len(),
{
    if b.len() == 0 {
        assert(a + b =~= a);
    } else {
        lemma_exec_concat(a, b.drop_last(), s);
        assert((a + b).drop_last() =~= a + b.drop_last());
    }
}

/// Running `instrs` and then one more instruction.
pub proof fn lemma_exec_push(instrs: Seq<Instr>, i: Instr, s: State)
    ensures
        exec_instrs(instrs.push(i), s) == exec_instr(i, exec_instrs(instrs, s)),
{
    assert(instrs.push(i).drop_last() =~= instrs);
}

/// Running one instruction and then `rest`.
pub proof fn lemma_exec_first(i: Instr, rest: Seq<Instr>, s: State)
    ensures
        exec_instrs(seq![i] + rest, s) == exec_instrs(rest, exec_instr(i, s)),
        exec_instrs(seq![i], s) == exec_instr(i, s),
{
    lemma_exec_concat(seq![i], rest, s);
    assert(seq![i].drop_last() =~= Seq::<Instr>::empty());
    reveal_with_fuel(exec_instrs, 2);
}

/// A step keeps a configuration valid and only ever adds to the output.
pub proof fn lemma_step_valid(p: ProgramView, c: Config)
    requires
        p.wf(),
        c.valid(p.blocks.len()),
    ensures
        step(p, c).valid(p.blocks.len()),
        c.state.output.is_prefix_of(step(p, c).state.output),
{
    match c.pc {
        None => {},
        Some(b) => {
            lemma_exec_instrs_wf(p.blocks[b].instrs, c.state);
        },
    }
}

/// A run keeps a configuration valid and only ever adds to the output.
pub proof fn lemma_run_valid(p: ProgramView, c: Config, n: nat)
    requires
        p.wf(),
        c.valid(p.blocks.len()),
    ensures
        run(p, c, n).valid(p.blocks.len()),
        c.state.output.is_prefix_of(run(p, c, n).state.output),
    decreases n,
{
    if n > 0 {
        lemma_step_valid(p, c);
        lemma_run_valid(p, step(p, c), (n - 1) as nat);
    }
}

/// A run of `a + b` steps is a run of `a` steps and then one of `b`.
pub proof fn lemma_run_split(p: ProgramView, c: Config, a: nat, b: nat)
    ensures
        run(p, c, a + b) == run(p, run(p, c, a), b),
    decreases a,
{
    if a > 0 {
        lemma_run_split(p, step(p, c), (a - 1) as nat, b);
    }
}

/// A program that has returned stays as it is.
pub proof fn lemma_run_halted(p: ProgramView, c: Config, n: nat)
    requires
        c.pc is None,
    ensures
        run(p, c, n) == c,
    decreases n,
{
    if n > 0 {
        lemma_run_halted(p, c, (n - 1) as nat);
    }
}

/// `n` times the instruction that adds one to the cell at `offset`.
pub open spec fn increments(offset: i64, n: nat) -> Seq<Instr> {
    Seq::new(n, |k: int| Instr::AddToCell { offset, amount: 1 })
}

/// `n` increments of a cell add `n` to it, modulo 256, and change nothing
/// else.
pub proof fn lemma_increments(s: State, offset: i64, n: nat)
    requires
        s.wf(),
    ensures
        exec_instrs(increments(offset, n), s) == (State {
            tape: s.tape.update(
                wrap_index(s.ptr, offset as int),
                wrap_cell(s.tape[wrap_index(s.ptr, offset as int)] as int, n as int),
            ),
            ..s
        }),
    decreases n,
{
    let k = wrap_index(s.ptr, offset as int);
    let want = State { tape: s.tape.update(k, wrap_cell(s.tape[k] as int, n as int)), ..s };
    if n == 0 {
        assert(want.tape =~= s.tape);
    } else {
        lemma_increments(s, offset, (n - 1) as nat);
        assert(increments(offset, n).drop_last() =~= increments(offset, (n - 1) as nat));
        assert(exec_instrs(increments(offset, n), s).tape =~= want.tape);
    }
}

/// A cell that is incremented 256 times has its value again.
pub proof fn lemma_cell_wraps(s: State, offset: i64)
    requires
        s.wf(),
    ensures
        exec_instrs(increments(offset, 256), s) == s,
{
    lemma_increments(s, offset, 256);
    assert(exec_instrs(increments(offset, 256), s).tape =~= s.tape);
}

/// A pointer that moves up from the last cell is on the first, one that
/// moves down from the first cell is on the last, and one that moves by
/// the length of the tape is where it was.
pub proof fn lemma_pointer_wraps(s: State)
    requires
        s.wf(),
    ensures
        s.ptr == crate::machine::TAPE_SIZE - 1 ==> exec_instr(Instr::MovePointer { offset: 1 }, s).ptr == 0,
        s.ptr == 0 ==> exec_instr(Instr::MovePointer { offset: -1i64 }, s).ptr == crate::machine::TAPE_SIZE - 1,
        exec_instr(Instr::MovePointer { offset: 30_000 }, s) == s,
        exec_instr(Instr::MovePointer { offset: -30_000i64 }, s) == s,
{
}

} // verus!
