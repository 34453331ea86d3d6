//! The optimizer: a fixed list of passes over the intermediate
//! representation, each of which leaves the program's behaviour as it was.

use vstd::prelude::*;
use crate::machine::State;
use crate::ir::{Instr, Block, BlockView, IrProgram, ProgramView, exec_instrs, term_in_range};
use crate::equiv::{equivalent, same_blockwise, lemma_blockwise_equivalent, lemma_equivalent_refl, lemma_equivalent_trans};
use crate::opt::coalesce::{coalesce_block, coalesce_instrs, lemma_coalesce_block};
use crate::opt::fold::{fold_block, fold_instrs, lemma_fold_block};
use crate::opt::dead_store::{eliminate_block, eliminate_instrs, lemma_eliminate_block};
use crate::opt::loops::{rewrite_loops, recognise_loops};

pub mod coalesce;
pub mod fold;
pub mod dead_store;
pub mod loops;
pub mod selection;

verus! {

/// The passes, in the order in which a round runs them.
#[derive(Clone, Copy, Debug, PartialEq, Eq, Structural)]
pub enum Pass {
    OffsetCoalescing,
    DeltaFolding,
    ClearLoop,
    CopyLoop,
    DeadStore,
}

/// A choice among the passes.
#[derive(Clone, Copy, Debug, PartialEq, Eq, Structural)]
pub struct PassSet {
    pub offset_coalescing: bool,
    pub delta_folding: bool,
    pub clear_loop: bool,
    pub copy_loop: bool,
    pub dead_store: bool,
}

/// The most rounds that `optimize` runs.
pub const MAX_ROUNDS: usize = 4;

impl Pass {
    /// The lowest optimization level at which the pass runs.
    pub open spec fn min_level(self) -> u8 {
        match self {
            Pass::OffsetCoalescing => 1,
            Pass::DeltaFolding => 1,
            Pass::ClearLoop => 1,
            Pass::CopyLoop => 2,
            Pass::DeadStore => 2,
        }
    }

    /// Gives the lowest optimization level at which the pass runs.
    pub fn level(self) -> (r: u8)
        ensures
            r == self.min_level(),
    {
        match self {
            Pass::OffsetCoalescing => 1,
            Pass::DeltaFolding => 1,
            Pass::ClearLoop => 1,
            Pass::CopyLoop => 2,
            Pass::DeadStore => 2,
        }
    }
}

impl PassSet {
    /// Whether the set holds `pass`.
    pub open spec fn has(self, pass: Pass) -> bool {
        match pass {
            Pass::OffsetCoalescing => self.offset_coalescing,
            Pass::DeltaFolding => self.delta_folding,
            Pass::ClearLoop => self.clear_loop,
            Pass::CopyLoop => self.copy_loop,
            Pass::DeadStore => self.dead_store,
        }
    }

    /// The set of no pass.
    pub fn empty() -> (r: PassSet)
        ensures
            forall|pass: Pass| !r.has(pass),
    {
        PassSet {
            offset_coalescing: false,
            delta_folding: false,
            clear_loop: false,
            copy_loop: false,
            dead_store: false,
        }
    }

    /// The set of every pass.
    pub fn all() -> (r: PassSet)
        ensures
            forall|pass: Pass| r.has(pass),
    {
        PassSet { offset_coalescing: true, delta_folding: true, clear_loop: true, copy_loop: true, dead_store: true }
    }

    /// The set with `pass` added.
    pub fn with(self, pass: Pass) -> (r: PassSet)
        ensures
            forall|other: Pass| r.has(other) == (other == pass || self.has(other)),
    {
        match pass {
            Pass::OffsetCoalescing => PassSet { offset_coalescing: true, ..self },
            Pass::DeltaFolding => PassSet { delta_folding: true, ..self },
            Pass::ClearLoop => PassSet { clear_loop: true, ..self },
            Pass::CopyLoop => PassSet { copy_loop: true, ..self },
            Pass::DeadStore => PassSet { dead_store: true, ..self },
        }
    }

    /// Tells whether the set holds `pass`.
    pub fn contains(&self, pass: Pass) -> (r: bool)
        ensures
            r == self.has(pass),
    {
        match pass {
            Pass::OffsetCoalescing => self.offset_coalescing,
            Pass::DeltaFolding => self.delta_folding,
            Pass::ClearLoop => self.clear_loop,
            Pass::CopyLoop => self.copy_loop,
            Pass::DeadStore => self.dead_store,
        }
    }
}

/// Whether `pass` runs at `level` under the whitelist `only`: the level
/// must reach the pass's own, and the whitelist, where there is one, must
/// hold the pass.
pub open spec fn runs(pass: Pass, level: u8, only: Option<PassSet>) -> bool {
    level >= pass.min_level() && match only {
        Some(set) => set.has(pass),
        None => true,
    }
}

/// What a pass that works block by block makes of a block's instructions.
pub open spec fn rewrite_block(pass: Pass, instrs: Seq<Instr>) -> Seq<Instr> {
    match pass {
        Pass::OffsetCoalescing => coalesce_block(instrs),
        Pass::DeltaFolding => fold_block(instrs),
        Pass::DeadStore => eliminate_block(instrs),
        _ => instrs,
    }
}

/// The program with every block's instructions rewritten by `pass`.
pub open spec fn map_blocks(pass: Pass, p: ProgramView) -> ProgramView {
    ProgramView {
        blocks: Seq::new(
            p.blocks.len(),
            |b: int| BlockView { instrs: rewrite_block(pass, p.blocks[b].instrs), term: p.blocks[b].term },
        ),
    }
}

/// The program after `pass`.
pub open spec fn apply_pass(pass: Pass, p: ProgramView) -> ProgramView {
    match pass {
        Pass::ClearLoop => rewrite_loops(false, p),
        Pass::CopyLoop => rewrite_loops(true, p),
        _ => map_blocks(pass, p),
    }
}

/// The program after `pass`, if it runs, and the program itself if not.
pub open spec fn apply_if(pass: Pass, level: u8, only: Option<PassSet>, p: ProgramView) -> ProgramView {
    if runs(pass, level, only) {
        apply_pass(pass, p)
    } else {
        p
    }
}

/// The program after one round: the passes that run, in their fixed order.
pub open spec fn round(level: u8, only: Option<PassSet>, p: ProgramView) -> ProgramView {
    let a = apply_if(Pass::OffsetCoalescing, level, only, p);
    let b = apply_if(Pass::DeltaFolding, level, only, a);
    let c = apply_if(Pass::ClearLoop, level, only, b);
    let d = apply_if(Pass::CopyLoop, level, only, c);
    apply_if(Pass::DeadStore, level, only, d)
}

/// The program after rounds are run until one changes nothing, and
/// `rounds` of them at most.
pub open spec fn iterate(level: u8, only: Option<PassSet>, p: ProgramView, rounds: nat) -> ProgramView
    decreases rounds,
{
    if rounds == 0 {
        p
    } else {
        let q = round(level, only, p);
        if q == p {
            p
        } else {
            iterate(level, only, q, (rounds - 1) as nat)
        }
    }
}

/// The optimized program.
pub open spec fn optimized(level: u8, only: Option<PassSet>, p: ProgramView) -> ProgramView {
    iterate(level, only, p, MAX_ROUNDS as nat)
}

/// A pass that works block by block leaves a well-formed program that
/// behaves as the program did.
pub proof fn lemma_map_blocks(pass: Pass, p: ProgramView)
    requires
        p.wf(),
    ensures
        map_blocks(pass, p).wf(),
        equivalent(p, map_blocks(pass, p)),
{
    let q = map_blocks(pass, p);
    assert forall|b: int| 0 <= b < q.blocks.len() implies term_in_range(#[trigger] q.blocks[b].term, q.blocks.len()) by {
        assert(term_in_range(p.blocks[b].term, p.blocks.len()));
    }
    assert forall|b: int, s: State| 0 <= b < p.blocks.len() && s.wf() implies #[trigger] exec_instrs(
        p.blocks[b].instrs,
        s,
    ) == exec_instrs(q.blocks[b].instrs, s) by {
        lemma_coalesce_block(p.blocks[b].instrs, s);
        lemma_fold_block(p.blocks[b].instrs, s);
        lemma_eliminate_block(p.blocks[b].instrs, s);
    }
    assert(same_blockwise(p, q));
    lemma_blockwise_equivalent(p, q);
}

/// Every pass leaves a well-formed program that behaves as the program
/// did.
pub proof fn lemma_apply_pass(pass: Pass, p: ProgramView)
    requires
        p.wf(),
    ensures
        apply_pass(pass, p).wf(),
        equivalent(p, apply_pass(pass, p)),
{
    match pass {
        Pass::ClearLoop => crate::opt::loops::lemma_rewrite_upto(false, p, p.blocks.len()),
        Pass::CopyLoop => crate::opt::loops::lemma_rewrite_upto(true, p, p.blocks.len()),
        _ => lemma_map_blocks(pass, p),
    }
}

/// Copies a program.
pub fn copy_program(ir: &IrProgram) -> (out: IrProgram)
    ensures
        out@ == ir@,
{
    let mut blocks: Vec<Block> = Vec::new();
    let mut b: usize = 0;
    while b < ir.blocks.len()
        invariant
            b <= ir.blocks.len(),
            blocks@.len() == b,
            forall|k: int| 0 <= k < b ==> (#[trigger] blocks@[k])@ == ir.blocks@[k]@,
        decreases ir.blocks.len() - b,
    {
        let src = &ir.blocks[b].instrs;
        let mut instrs: Vec<Instr> = Vec::new();
        let mut i: usize = 0;
        while i < src.len()
            invariant
                i <= src.len(),
                instrs@ == src@.take(i as int),
            decreases src.len() - i,
        {
            instrs.push(src[i]);
            proof {
                assert(src@.take(i as int + 1) =~= src@.take(i as int).push(src@[i as int]));
            }
            i += 1;
        }
        proof {
            assert(src@.take(i as int) =~= src@);
        }
        blocks.push(Block { instrs, term: ir.blocks[b].term });
        b += 1;
    }
    let out = IrProgram { blocks };
    proof {
        assert(out@.blocks =~= ir@.blocks);
    }
    out
}

/// Tells whether two programs are the same.
pub fn same_program(a: &IrProgram, b: &IrProgram) -> (r: bool)
    ensures
        r == (a@ == b@),
{
    if a.blocks.len() != b.blocks.len() {
        assert(a@.blocks.len() != b@.blocks.len());
        return false;
    }
    let mut k: usize = 0;
    while k < a.blocks.len()
        invariant
            k <= a.blocks.len(),
            a.blocks.len() == b.blocks.len(),
            forall|j: int| 0 <= j < k ==> (#[trigger] a.blocks@[j])@ == b.blocks@[j]@,
        decreases a.blocks.len() - k,
    {
        let x = &a.blocks[k];
        let y = &b.blocks[k];
        assert(a@.blocks[k as int] == x@ && b@.blocks[k as int] == y@);
        if x.term != y.term || x.instrs.len() != y.instrs.len() {
            assert(x@.instrs.len() != y@.instrs.len() || x@.term != y@.term);
            return false;
        }
        let mut i: usize = 0;
        while i < x.instrs.len()
            invariant
                i <= x.instrs.len(),
                x.instrs.len() == y.instrs.len(),
                forall|j: int| 0 <= j < i ==> x.instrs@[j] == y.instrs@[j],
                a@.blocks[k as int] == x@,
                b@.blocks[k as int] == y@,
            decreases x.instrs.len() - i,
        {
            if x.instrs[i] != y.instrs[i] {
                assert(x@.instrs[i as int] != y@.instrs[i as int]);
                return false;
            }
            i += 1;
        }
        assert(x.instrs@ =~= y.instrs@);
        k += 1;
    }
    assert(a@.blocks =~= b@.blocks);
    true
}

/// Runs one pass over the program.
pub fn run_pass(ir: IrProgram, pass: Pass) -> (out: IrProgram)
    requires
        ir.wf(),
    ensures
        out@ == apply_pass(pass, ir@),
        out.wf(),
        equivalent(ir@, out@),
{
    proof {
        lemma_apply_pass(pass, ir@);
    }
    match pass {
        Pass::ClearLoop => recognise_loops(ir, false),
        Pass::CopyLoop => recognise_loops(ir, true),
        _ => {
            let mut blocks: Vec<Block> = Vec::new();
            let mut b: usize = 0;
            while b < ir.blocks.len()
                invariant
                    b <= ir.blocks.len(),
                    blocks@.len() == b,
                    pass != Pass::ClearLoop && pass != Pass::CopyLoop,
                    forall|k: int| 0 <= k < b ==> (#[trigger] blocks@[k])@ == map_blocks(pass, ir@).blocks[k],
                decreases ir.blocks.len() - b,
            {
                let src = &ir.blocks[b];
                assert(ir@.blocks[b as int] == src@);
                let instrs = match pass {
                    Pass::OffsetCoalescing => coalesce_instrs(&src.instrs),
                    Pass::DeltaFolding => fold_instrs(&src.instrs),
                    _ => eliminate_instrs(&src.instrs),
                };
                blocks.push(Block { instrs, term: src.term });
                b += 1;
            }
            let out = IrProgram { blocks };
            proof {
                assert(out@.blocks =~= map_blocks(pass, ir@).blocks);
            }
            out
        },
    }
}

/// Runs one pass over the program if the level and the whitelist let it
/// run.
pub fn run_pass_if(ir: IrProgram, pass: Pass, level: u8, only: Option<PassSet>) -> (out: IrProgram)
    requires
        ir.wf(),
    ensures
        out@ == apply_if(pass, level, only, ir@),
        out.wf(),
        equivalent(ir@, out@),
{
    let wanted = match only {
        Some(set) => set.contains(pass),
        None => true,
    };
    if level >= pass.level() && wanted {
        run_pass(ir, pass)
    } else {
        proof {
            lemma_equivalent_refl(ir@);
        }
        ir
    }
}

/// Runs one round of passes: offset coalescing, delta folding, clear-loop
/// recognition, copy-loop recognition, dead-store elimination, each if the
/// level and the whitelist let it run.
pub fn run_round(ir: IrProgram, level: u8, only: Option<PassSet>) -> (out: IrProgram)
    requires
        ir.wf(),
    ensures
        out@ == round(level, only, ir@),
        out.wf(),
        equivalent(ir@, out@),
{
    let ghost p = ir@;
    let a = run_pass_if(ir, Pass::OffsetCoalescing, level, only);
    let b = run_pass_if(a, Pass::DeltaFolding, level, only);
    proof {
        lemma_equivalent_trans(p, a@, b@);
    }
    let c = run_pass_if(b, Pass::ClearLoop, level, only);
    proof {
        lemma_equivalent_trans(p, b@, c@);
    }
    let d = run_pass_if(c, Pass::CopyLoop, level, only);
    proof {
        lemma_equivalent_trans(p, c@, d@);
    }
    let e = run_pass_if(d, Pass::DeadStore, level, only);
    proof {
        lemma_equivalent_trans(p, d@, e@);
    }
    e
}

/// Optimizes a program: runs rounds of the passes that `level` and the
/// whitelist `only` let run, until a round changes nothing or
/// `MAX_ROUNDS` rounds have run. At level 0 no pass runs. The result
/// behaves as the program did.
pub fn optimize(ir: IrProgram, level: u8, only: Option<PassSet>) -> (out: IrProgram)
    requires
        ir.wf(),
    ensures
        out@ == optimized(level, only, ir@),
        out.wf(),
        equivalent(ir@, out@),
        level == 0 ==> out@ == ir@,
{
    let ghost p = ir@;
    let mut cur = ir;
    let mut left: usize = MAX_ROUNDS;
    proof {
        lemma_equivalent_refl(p);
        lemma_level_zero(only, p, MAX_ROUNDS as nat);
    }
    while left > 0
        invariant
            p == ir@,
            cur.wf(),
            equivalent(p, cur@),
            iterate(level, only, cur@, left as nat) == optimized(level, only, p),
        decreases left,
    {
        let before = copy_program(&cur);
        let next = run_round(cur, level, only);
        proof {
            lemma_equivalent_trans(p, before@, next@);
        }
        if same_program(&next, &before) {
            return next;
        }
        cur = next;
        left -= 1;
    }
    cur
}

/// A round leaves a well-formed program that behaves as the program did.
pub proof fn lemma_round(level: u8, only: Option<PassSet>, p: ProgramView)
    requires
        p.wf(),
    ensures
        round(level, only, p).wf(),
        equivalent(p, round(level, only, p)),
{
    lemma_equivalent_refl(p);
    let a = apply_if(Pass::OffsetCoalescing, level, only, p);
    lemma_apply_pass(Pass::OffsetCoalescing, p);
    let b = apply_if(Pass::DeltaFolding, level, only, a);
    lemma_apply_pass(Pass::DeltaFolding, a);
    lemma_equivalent_refl(a);
    lemma_equivalent_trans(p, a, b);
    let c = apply_if(Pass::ClearLoop, level, only, b);
    lemma_apply_pass(Pass::ClearLoop, b);
    lemma_equivalent_refl(b);
    lemma_equivalent_trans(p, b, c);
    let d = apply_if(Pass::CopyLoop, level, only, c);
    lemma_apply_pass(Pass::CopyLoop, c);
    lemma_equivalent_refl(c);
    lemma_equivalent_trans(p, c, d);
    let e = apply_if(Pass::DeadStore, level, only, d);
    lemma_apply_pass(Pass::DeadStore, d);
    lemma_equivalent_refl(d);
    lemma_equivalent_trans(p, d, e);
}

/// Any number of rounds leaves a well-formed program that behaves as the
/// program did.
pub proof fn lemma_iterate(level: u8, only: Option<PassSet>, p: ProgramView, rounds: nat)
    requires
        p.wf(),
    ensures
        iterate(level, only, p, rounds).wf(),
        equivalent(p, iterate(level, only, p, rounds)),
    decreases rounds,
{
    lemma_equivalent_refl(p);
    if rounds > 0 {
        let q = round(level, only, p);
        lemma_round(level, only, p);
        if q != p {
            lemma_iterate(level, only, q, (rounds - 1) as nat);
            lemma_equivalent_trans(p, q, iterate(level, only, q, (rounds - 1) as nat));
        }
    }
}

/// The optimized program behaves as the program did, at every level and
/// under every whitelist: from every configuration it writes the same
/// bytes, and it returns exactly when the program returns, in the same
/// final state.
pub proof fn lemma_optimized_equivalent(level: u8, only: Option<PassSet>, p: ProgramView)
    requires
        p.wf(),
    ensures
        optimized(level, only, p).wf(),
        equivalent(p, optimized(level, only, p)),
{
    lemma_iterate(level, only, p, MAX_ROUNDS as nat);
}

/// Where the optimizer stopped because a round changed nothing, running
/// it again on its own result, at the same level and under the same
/// whitelist, changes nothing.
pub proof fn lemma_optimized_again(level: u8, only: Option<PassSet>, p: ProgramView)
    requires
        round(level, only, optimized(level, only, p)) == optimized(level, only, p),
    ensures
        optimized(level, only, optimized(level, only, p)) == optimized(level, only, p),
{
}

/// The optimizer stops at a program that a round leaves unchanged
/// whenever one of its first rounds changes nothing.
pub proof fn lemma_iterate_settles(level: u8, only: Option<PassSet>, p: ProgramView, rounds: nat, k: nat)
    requires
        k < rounds,
        round(level, only, iterate(level, only, p, k)) == iterate(level, only, p, k),
    ensures
        iterate(level, only, p, rounds) == iterate(level, only, p, k),
        round(level, only, iterate(level, only, p, rounds)) == iterate(level, only, p, rounds),
    decreases rounds,
{
    let q = round(level, only, p);
    if q != p {
        if k == 0 {
        } else {
            lemma_iterate_settles(level, only, q, (rounds - 1) as nat, (k - 1) as nat);
        }
    } else {
        lemma_iterate_fixed(level, only, p, k);
    }
}

/// Rounds leave a program unchanged that one round leaves unchanged.
pub proof fn lemma_iterate_fixed(level: u8, only: Option<PassSet>, p: ProgramView, rounds: nat)
    requires
        round(level, only, p) == p,
    ensures
        iterate(level, only, p, rounds) == p,
{
}

/// At level 0 the optimizer leaves the program as it is.
pub proof fn lemma_level_zero(only: Option<PassSet>, p: ProgramView, rounds: nat)
    ensures
        iterate(0, only, p, rounds) == p,
{
    assert(round(0, only, p) == p);
}

} // verus!
