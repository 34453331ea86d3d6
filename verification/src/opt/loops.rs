//! Loop recognition: a loop whose body is one block of a known shape is
//! replaced by straight-line instructions that do in one step what the
//! loop does in all its iterations.

use vstd::prelude::*;
use crate::machine::{State, TAPE_SIZE, wrap_index, wrap_cell, lemma_wrap_cell_add};
use crate::ir::{
    Instr, Terminator, Block, BlockView, IrProgram, ProgramView, Config, exec_instr, exec_instrs, run, step,
    lemma_exec_instrs_wf, lemma_exec_push, lemma_run_split,
};
use crate::equiv::{equivalent, summarises, summary_of, lemma_summary_equivalent, lemma_equivalent_trans, lemma_equivalent_refl};

verus! {

/// A loop of one block: where its body is and where it leaves to.
pub struct LoopShape {
    pub body: usize,
    pub exit: usize,
}

/// The terminator is an unconditional branch to block `h`.
pub open spec fn branches_to(term: Terminator, h: int) -> bool {
    match term {
        Terminator::Branch { target } => target == h,
        _ => false,
    }
}

/// Block `h` is the head of a loop of one block: it holds no instruction,
/// branches to a body while the current cell is not zero, and the body
/// branches straight back.
pub open spec fn loop_at(p: ProgramView, h: int) -> Option<LoopShape> {
    if 0 <= h < p.blocks.len() && p.blocks[h].instrs.len() == 0 {
        match p.blocks[h].term {
            Terminator::CondBranch { nonzero, zero } => if nonzero < p.blocks.len() && branches_to(
                p.blocks[nonzero as int].term,
                h,
            ) {
                Some(LoopShape { body: nonzero, exit: zero })
            } else {
                None
            },
            _ => None,
        }
    } else {
        None
    }
}

/// The body of a clear loop: one step up or down on the current cell.
pub open spec fn is_clear_body(body: Seq<Instr>) -> bool {
    body.len() == 1 && match body[0] {
        Instr::AddToCell { offset, amount } => offset == 0 && (amount == 1 || amount == -1),
        _ => false,
    }
}

/// What a clear loop does: the current cell becomes zero.
pub open spec fn clear_instrs() -> Seq<Instr> {
    seq![Instr::SetCell { offset: 0, value: 0 }]
}

/// An instruction that may stand in the body of a copy loop: one step down
/// on the current cell, or an addition to a cell that is certainly another.
pub open spec fn copy_part(i: Instr) -> bool {
    match i {
        Instr::AddToCell { offset, amount } => (offset == 0 && amount == -1) || (offset != 0 && -(TAPE_SIZE as int)
            < offset < TAPE_SIZE as int),
        _ => false,
    }
}

/// The instruction adds to the current cell.
pub open spec fn on_current(i: Instr) -> bool {
    match i {
        Instr::AddToCell { offset, .. } => offset == 0,
        _ => false,
    }
}

/// How many instructions of `body` add to the current cell.
pub open spec fn current_count(body: Seq<Instr>) -> nat
    decreases body.len(),
{
    if body.len() == 0 {
        0
    } else {
        current_count(body.drop_last()) + if on_current(body.last()) {
            1nat
        } else {
            0nat
        }
    }
}

/// The body of a copy loop: additions only, exactly one of them on the
/// current cell, which it steps down by one.
pub open spec fn is_copy_body(body: Seq<Instr>) -> bool {
    &&& forall|i: int| 0 <= i < body.len() ==> copy_part(#[trigger] body[i])
    &&& current_count(body) == 1
}

/// For each addition of `body` to another cell, in order, the
/// multiply-add that does the work of all iterations at once.
pub open spec fn copy_muls(body: Seq<Instr>) -> Seq<Instr>
    decreases body.len(),
{
    if body.len() == 0 {
        Seq::empty()
    } else {
        match body.last() {
            Instr::AddToCell { offset, amount } => if offset != 0 {
                copy_muls(body.drop_last()).push(
                    Instr::MultiplyAddCell { src_offset: 0, dst_offset: offset, factor: amount },
                )
            } else {
                copy_muls(body.drop_last())
            },
            _ => copy_muls(body.drop_last()),
        }
    }
}

/// What a copy loop with this body does: the multiply-adds, then the
/// current cell becomes zero.
pub open spec fn copy_instrs(body: Seq<Instr>) -> Seq<Instr> {
    copy_muls(body).push(Instr::SetCell { offset: 0, value: 0 })
}

/// The block that replaces the loop head `h`, if the pass recognises the
/// loop there: the clear-loop pass where `copy` is false, the copy-loop
/// pass where it is true.
pub open spec fn replacement(copy: bool, p: ProgramView, h: int) -> Option<BlockView> {
    match loop_at(p, h) {
        Some(shape) => {
            let body = p.blocks[shape.body as int].instrs;
            let term = Terminator::Branch { target: shape.exit };
            if !copy && is_clear_body(body) {
                Some(BlockView { instrs: clear_instrs(), term })
            } else if copy && is_copy_body(body) {
                Some(BlockView { instrs: copy_instrs(body), term })
            } else {
                None
            }
        },
        None => None,
    }
}

/// The program after the pass has looked at block `h`.
pub open spec fn rewrite_at(copy: bool, p: ProgramView, h: int) -> ProgramView {
    match replacement(copy, p, h) {
        Some(b) => ProgramView { blocks: p.blocks.update(h, b) },
        None => p,
    }
}

/// The program after the pass has looked at the first `n` blocks, in
/// order.
pub open spec fn rewrite_upto(copy: bool, p: ProgramView, n: nat) -> ProgramView
    decreases n,
{
    if n == 0 {
        p
    } else {
        rewrite_at(copy, rewrite_upto(copy, p, (n - 1) as nat), n - 1)
    }
}

/// The program after the pass.
pub open spec fn rewrite_loops(copy: bool, p: ProgramView) -> ProgramView {
    rewrite_upto(copy, p, p.blocks.len())
}

/// With `mu` counting the iterations that are left, `new` does from state
/// `s` what the loop with body `body` does.
pub open spec fn iteration_ok(body: Seq<Instr>, new: Seq<Instr>, mu: spec_fn(State) -> nat, s: State) -> bool {
    if s.current() == 0 {
        mu(s) == 0 && exec_instrs(new, s) == s
    } else {
        let t = exec_instrs(body, s);
        mu(s) > 0 && mu(t) == mu(s) - 1 && exec_instrs(new, t) == exec_instrs(new, s)
    }
}

proof fn lemma_loop_run(
    p: ProgramView,
    h: int,
    shape: LoopShape,
    new: Seq<Instr>,
    mu: spec_fn(State) -> nat,
    s: State,
)
    requires
        p.wf(),
        loop_at(p, h) == Some(shape),
        forall|s: State| s.wf() ==> #[trigger] iteration_ok(p.blocks[shape.body as int].instrs, new, mu, s),
        s.wf(),
    ensures
        run(p, Config { pc: Some(h), state: s }, 2 * mu(s) + 1) == (Config {
            pc: Some(shape.exit as int),
            state: exec_instrs(new, s),
        }),
        forall|j: nat| j < 2 * mu(s) + 1 ==> (#[trigger] run(p, Config { pc: Some(h), state: s }, j)).pc is Some,
    decreases mu(s),
{
    let body = p.blocks[shape.body as int].instrs;
    let c = Config { pc: Some(h), state: s };
    assert(iteration_ok(body, new, mu, s));
    assert(p.blocks[h].instrs =~= Seq::<Instr>::empty());
    assert(exec_instrs(p.blocks[h].instrs, s) == s);
    reveal_with_fuel(run, 3);
    if s.current() == 0 {
        assert(step(p, c) == Config { pc: Some(shape.exit as int), state: s });
    } else {
        let t = exec_instrs(body, s);
        let c1 = Config { pc: Some(shape.body as int), state: s };
        let c2 = Config { pc: Some(h), state: t };
        assert(step(p, c) == c1);
        assert(step(p, c1) == c2);
        assert(run(p, c, 2) == c2);
        lemma_exec_instrs_wf(body, s);
        lemma_loop_run(p, h, shape, new, mu, t);
        lemma_run_split(p, c, 2, 2 * mu(t) + 1);
        assert forall|j: nat| j < 2 * mu(s) + 1 implies (#[trigger] run(p, c, j)).pc is Some by {
            if j >= 2 {
                lemma_run_split(p, c, 2, (j - 2) as nat);
                assert(run(p, c2, (j - 2) as nat).pc is Some);
            }
        }
    }
}

proof fn lemma_loop_equivalent(
    p: ProgramView,
    h: int,
    shape: LoopShape,
    new: Seq<Instr>,
    mu: spec_fn(State) -> nat,
)
    requires
        p.wf(),
        loop_at(p, h) == Some(shape),
        forall|s: State| s.wf() ==> #[trigger] iteration_ok(p.blocks[shape.body as int].instrs, new, mu, s),
    ensures
        equivalent(
            p,
            ProgramView {
                blocks: p.blocks.update(h, BlockView { instrs: new, term: Terminator::Branch { target: shape.exit } }),
            },
        ),
        (ProgramView {
            blocks: p.blocks.update(h, BlockView { instrs: new, term: Terminator::Branch { target: shape.exit } }),
        }).wf(),
{
    let nb = BlockView { instrs: new, term: Terminator::Branch { target: shape.exit } };
    let q = ProgramView { blocks: p.blocks.update(h, nb) };
    let k = |s: State| (2 * mu(s) + 1) as nat;
    assert(q.wf()) by {
        assert(crate::ir::term_in_range(p.blocks[h].term, p.blocks.len()));
        assert forall|b: int| 0 <= b < q.blocks.len() implies crate::ir::term_in_range(
            #[trigger] q.blocks[b].term,
            q.blocks.len(),
        ) by {
            if b != h {
                assert(q.blocks[b] == p.blocks[b]);
            }
        }
    }
    assert(q.blocks =~= p.blocks.update(h, q.blocks[h]));
    assert forall|s: State| s.wf() implies summarises(p, q, h, s, #[trigger] k(s)) by {
        lemma_loop_run(p, h, shape, new, mu, s);
    }
    assert(summary_of(p, q, h, k));
    lemma_summary_equivalent(p, q, h, k);
}

/// The iterations that a clear loop stepping by `amount` has left.
pub open spec fn clear_steps(amount: i8, s: State) -> nat {
    if amount == -1 {
        s.current() as nat
    } else {
        ((256 - s.current()) % 256) as nat
    }
}

proof fn lemma_clear_iteration(body: Seq<Instr>, s: State)
    requires
        is_clear_body(body),
        s.wf(),
    ensures
        iteration_ok(body, clear_instrs(), |t: State| clear_steps(body[0]->AddToCell_amount, t), s),
{
    let set = Instr::SetCell { offset: 0, value: 0 };
    assert(body =~= seq![body[0]]);
    crate::ir::lemma_exec_first(body[0], Seq::empty(), s);
    assert(seq![body[0]] + Seq::<Instr>::empty() =~= seq![body[0]]);
    let t = exec_instrs(body, s);
    assert(t == exec_instr(body[0], s));
    crate::ir::lemma_exec_first(set, Seq::empty(), s);
    crate::ir::lemma_exec_first(set, Seq::empty(), t);
    assert(seq![set] + Seq::<Instr>::empty() =~= clear_instrs());
    if s.current() == 0 {
        assert(exec_instr(set, s).tape =~= s.tape);
    } else {
        assert(exec_instr(set, t).tape =~= exec_instr(set, s).tape);
    }
}

/// The sum of what the additions of `body` add to the cell at index `j`
/// when the pointer is at `ptr`.
pub open spec fn total(body: Seq<Instr>, ptr: int, j: int) -> int
    decreases body.len(),
{
    if body.len() == 0 {
        0
    } else {
        total(body.drop_last(), ptr, j) + match body.last() {
            Instr::AddToCell { offset, amount } => if wrap_index(ptr, offset as int) == j {
                amount as int
            } else {
                0
            },
            _ => 0,
        }
    }
}

proof fn lemma_scale_zero(v: u8, c: int, d: int)
    requires
        c == 0,
    ensures
        wrap_cell(v as int, c * d) == v,
{
    assert(c * d == 0) by (nonlinear_arith)
        requires
            c == 0,
    ;
}

proof fn lemma_scale_step(v: int, d: int, c: int)
    ensures
        wrap_cell(wrap_cell(v, d) as int, (c - 1) * d) == wrap_cell(v, c * d),
{
    lemma_wrap_cell_add(v, d, (c - 1) * d);
    assert(d + (c - 1) * d == c * d) by (nonlinear_arith);
}

proof fn lemma_scale_add(v: int, c: int, t: int, a: int)
    ensures
        wrap_cell(wrap_cell(v, c * t) as int, c * a) == wrap_cell(v, c * (t + a)),
{
    lemma_wrap_cell_add(v, c * t, c * a);
    assert(c * t + c * a == c * (t + a)) by (nonlinear_arith);
}

/// The two states differ in the contents of the tape at most.
pub open spec fn same_but_tape(a: State, b: State) -> bool {
    &&& a.ptr == b.ptr
    &&& a.input == b.input
    &&& a.output == b.output
    &&& a.tape.len() == b.tape.len()
}

proof fn lemma_body_effect(body: Seq<Instr>, s: State)
    requires
        s.wf(),
        forall|i: int| 0 <= i < body.len() ==> copy_part(#[trigger] body[i]),
    ensures
        same_but_tape(exec_instrs(body, s), s),
        forall|j: int|
            0 <= j < TAPE_SIZE ==> (#[trigger] exec_instrs(body, s).tape[j]) == wrap_cell(
                s.tape[j] as int,
                total(body, s.ptr, j),
            ),
        total(body, s.ptr, s.ptr) == -current_count(body),
    decreases body.len(),
{
    if body.len() > 0 {
        let dl = body.drop_last();
        lemma_body_effect(dl, s);
        let prev = exec_instrs(dl, s);
        assert(copy_part(body.last()));
        match body.last() {
            Instr::AddToCell { offset, amount } => {
                let k = wrap_index(s.ptr, offset as int);
                assert forall|j: int| 0 <= j < TAPE_SIZE implies (#[trigger] exec_instrs(body, s).tape[j])
                    == wrap_cell(s.tape[j] as int, total(body, s.ptr, j)) by {
                    assert(prev.tape[j] == wrap_cell(s.tape[j] as int, total(dl, s.ptr, j)));
                    if j == k {
                        lemma_wrap_cell_add(s.tape[k] as int, total(dl, s.ptr, k), amount as int);
                    }
                }
            },
            _ => {},
        }
    }
}

proof fn lemma_muls_effect(body: Seq<Instr>, s: State)
    requires
        s.wf(),
        forall|i: int| 0 <= i < body.len() ==> copy_part(#[trigger] body[i]),
    ensures
        same_but_tape(exec_instrs(copy_muls(body), s), s),
        exec_instrs(copy_muls(body), s).tape[s.ptr] == s.current(),
        forall|j: int|
            0 <= j < TAPE_SIZE && j != s.ptr ==> (#[trigger] exec_instrs(copy_muls(body), s).tape[j]) == wrap_cell(
                s.tape[j] as int,
                s.current() * total(body, s.ptr, j),
            ),
    decreases body.len(),
{
    let c = s.current();
    if body.len() == 0 {
        assert forall|j: int| 0 <= j < TAPE_SIZE && j != s.ptr implies (#[trigger] exec_instrs(
            copy_muls(body),
            s,
        ).tape[j]) == wrap_cell(s.tape[j] as int, c * total(body, s.ptr, j)) by {
            lemma_scale_zero(s.tape[j], total(body, s.ptr, j), c as int);
            assert(c * total(body, s.ptr, j) == total(body, s.ptr, j) * c) by (nonlinear_arith);
        }
    } else {
        let dl = body.drop_last();
        lemma_muls_effect(dl, s);
        let prev = exec_instrs(copy_muls(dl), s);
        assert(copy_part(body.last()));
        match body.last() {
            Instr::AddToCell { offset, amount } => {
                let k = wrap_index(s.ptr, offset as int);
                if offset != 0 {
                    let m = Instr::MultiplyAddCell { src_offset: 0, dst_offset: offset, factor: amount };
                    lemma_exec_push(copy_muls(dl), m, s);
                    assert(k != s.ptr);
                    assert(wrap_index(s.ptr, 0) == s.ptr);
                    assert forall|j: int| 0 <= j < TAPE_SIZE && j != s.ptr implies (#[trigger] exec_instrs(
                        copy_muls(body),
                        s,
                    ).tape[j]) == wrap_cell(s.tape[j] as int, c * total(body, s.ptr, j)) by {
                        assert(prev.tape[j] == wrap_cell(s.tape[j] as int, c * total(dl, s.ptr, j)));
                        if j == k {
                            lemma_scale_add(s.tape[k] as int, c as int, total(dl, s.ptr, k), amount as int);
                        }
                    }
                } else {
                    assert(k == s.ptr);
                }
            },
            _ => {},
        }
    }
}

proof fn lemma_copy_effect(body: Seq<Instr>, s: State)
    requires
        s.wf(),
        forall|i: int| 0 <= i < body.len() ==> copy_part(#[trigger] body[i]),
    ensures
        same_but_tape(exec_instrs(copy_instrs(body), s), s),
        exec_instrs(copy_instrs(body), s).tape[s.ptr] == 0,
        forall|j: int|
            0 <= j < TAPE_SIZE && j != s.ptr ==> (#[trigger] exec_instrs(copy_instrs(body), s).tape[j]) == wrap_cell(
                s.tape[j] as int,
                s.current() * total(body, s.ptr, j),
            ),
{
    let set = Instr::SetCell { offset: 0, value: 0 };
    lemma_muls_effect(body, s);
    lemma_exec_push(copy_muls(body), set, s);
    let ms = exec_instrs(copy_muls(body), s);
    assert(exec_instrs(copy_instrs(body), s) == exec_instr(set, ms));
    assert(wrap_index(s.ptr, 0) == s.ptr);
}

proof fn lemma_copy_done(body: Seq<Instr>, s: State)
    requires
        is_copy_body(body),
        s.wf(),
        s.current() == 0,
    ensures
        exec_instrs(copy_instrs(body), s) == s,
{
    lemma_copy_effect(body, s);
    let fs = exec_instrs(copy_instrs(body), s);
    assert forall|j: int| 0 <= j < TAPE_SIZE implies fs.tape[j] == s.tape[j] by {
        if j != s.ptr {
            lemma_scale_zero(s.tape[j], s.current() as int, total(body, s.ptr, j));
        }
    }
    assert(fs.tape =~= s.tape);
}

proof fn lemma_copy_again(body: Seq<Instr>, s: State)
    requires
        is_copy_body(body),
        s.wf(),
        s.current() != 0,
    ensures
        exec_instrs(body, s).current() == s.current() - 1,
        exec_instrs(copy_instrs(body), exec_instrs(body, s)) == exec_instrs(copy_instrs(body), s),
{
    let c = s.current();
    let t = exec_instrs(body, s);
    lemma_body_effect(body, s);
    lemma_exec_instrs_wf(body, s);
    assert(t.tape[s.ptr] == wrap_cell(c as int, total(body, s.ptr, s.ptr)));
    assert(t.current() == c - 1);
    lemma_copy_effect(body, s);
    lemma_copy_effect(body, t);
    let fs = exec_instrs(copy_instrs(body), s);
    let ft = exec_instrs(copy_instrs(body), t);
    assert forall|j: int| 0 <= j < TAPE_SIZE implies ft.tape[j] == fs.tape[j] by {
        if j != s.ptr {
            let d = total(body, s.ptr, j);
            assert(fs.tape[j] == wrap_cell(s.tape[j] as int, c * d));
            assert(t.tape[j] == wrap_cell(s.tape[j] as int, d));
            assert(ft.tape[j] == wrap_cell(t.tape[j] as int, (c - 1) * d));
            lemma_scale_step(s.tape[j] as int, d, c as int);
        }
    }
    assert(ft.tape =~= fs.tape);
}

proof fn lemma_copy_iteration(body: Seq<Instr>, s: State)
    requires
        is_copy_body(body),
        s.wf(),
    ensures
        iteration_ok(body, copy_instrs(body), |t: State| t.current() as nat, s),
{
    if s.current() == 0 {
        lemma_copy_done(body, s);
    } else {
        lemma_copy_again(body, s);
    }
}

/// Replacing a recognised loop leaves a well-formed program that behaves
/// as the program did.
pub proof fn lemma_rewrite_at(copy: bool, p: ProgramView, h: int)
    requires
        p.wf(),
    ensures
        rewrite_at(copy, p, h).wf(),
        rewrite_at(copy, p, h).blocks.len() == p.blocks.len(),
        equivalent(p, rewrite_at(copy, p, h)),
{
    match replacement(copy, p, h) {
        None => {
            lemma_equivalent_refl(p);
        },
        Some(b) => {
            let shape = loop_at(p, h)->0;
            let body = p.blocks[shape.body as int].instrs;
            if copy {
                let mu = |t: State| t.current() as nat;
                assert forall|s: State| s.wf() implies #[trigger] iteration_ok(body, copy_instrs(body), mu, s) by {
                    lemma_copy_iteration(body, s);
                }
                lemma_loop_equivalent(p, h, shape, copy_instrs(body), mu);
            } else {
                let mu = |t: State| clear_steps(body[0]->AddToCell_amount, t);
                assert forall|s: State| s.wf() implies #[trigger] iteration_ok(body, clear_instrs(), mu, s) by {
                    lemma_clear_iteration(body, s);
                }
                lemma_loop_equivalent(p, h, shape, clear_instrs(), mu);
            }
        },
    }
}

/// The pass leaves a well-formed program that behaves as the program did.
pub proof fn lemma_rewrite_upto(copy: bool, p: ProgramView, n: nat)
    requires
        p.wf(),
    ensures
        rewrite_upto(copy, p, n).wf(),
        rewrite_upto(copy, p, n).blocks.len() == p.blocks.len(),
        equivalent(p, rewrite_upto(copy, p, n)),
    decreases n,
{
    if n == 0 {
        lemma_equivalent_refl(p);
    } else {
        let q = rewrite_upto(copy, p, (n - 1) as nat);
        lemma_rewrite_upto(copy, p, (n - 1) as nat);
        lemma_rewrite_at(copy, q, n - 1);
        lemma_equivalent_trans(p, q, rewrite_at(copy, q, n - 1));
    }
}

/// Tells whether `body` is the body of a clear loop.
pub fn clear_body(body: &Vec<Instr>) -> (r: bool)
    ensures
        r == is_clear_body(body@),
{
    if body.len() != 1 {
        return false;
    }
    match body[0] {
        Instr::AddToCell { offset, amount } => offset == 0 && (amount == 1 || amount == -1),
        _ => false,
    }
}

/// Gives the instructions that replace a copy loop with this body, or
/// `None` where `body` is not the body of a copy loop.
pub fn copy_body(body: &Vec<Instr>) -> (r: Option<Vec<Instr>>)
    ensures
        r is Some <==> is_copy_body(body@),
        r matches Some(v) ==> v@ == copy_instrs(body@),
{
    let mut out: Vec<Instr> = Vec::new();
    let mut count: usize = 0;
    let mut idx: usize = 0;
    let size: i64 = TAPE_SIZE as i64;
    while idx < body.len()
        invariant
            idx <= body.len(),
            size == TAPE_SIZE,
            forall|i: int| 0 <= i < idx ==> copy_part(#[trigger] body@[i]),
            count == current_count(body@.take(idx as int)),
            count <= idx,
            out@ == copy_muls(body@.take(idx as int)),
        decreases body.len() - idx,
    {
        proof {
            assert(body@.take(idx as int + 1).drop_last() =~= body@.take(idx as int));
            assert(body@.take(idx as int + 1).last() == body@[idx as int]);
        }
        match body[idx] {
            Instr::AddToCell { offset, amount } => {
                if offset == 0 {
                    if amount != -1 {
                        assert(!copy_part(body@[idx as int]));
                        return None;
                    }
                    count += 1;
                } else if -size < offset && offset < size {
                    out.push(Instr::MultiplyAddCell { src_offset: 0, dst_offset: offset, factor: amount });
                } else {
                    assert(!copy_part(body@[idx as int]));
                    return None;
                }
            },
            _ => {
                assert(!copy_part(body@[idx as int]));
                return None;
            },
        }
        idx += 1;
    }
    proof {
        assert(body@.take(idx as int) =~= body@);
    }
    if count == 1 {
        out.push(Instr::SetCell { offset: 0, value: 0 });
        Some(out)
    } else {
        None
    }
}

/// Looks at block `h` and gives the block that replaces it, if the pass
/// recognises a loop there.
pub fn find_replacement(ir: &IrProgram, h: usize, copy: bool) -> (r: Option<Block>)
    requires
        h < ir.blocks.len(),
    ensures
        r is Some <==> replacement(copy, ir@, h as int) is Some,
        r matches Some(b) ==> replacement(copy, ir@, h as int) == Some(b@),
{
    let head = &ir.blocks[h];
    assert(ir@.blocks[h as int] == head@);
    if head.instrs.len() != 0 {
        return None;
    }
    match head.term {
        Terminator::CondBranch { nonzero, zero } => {
            if nonzero >= ir.blocks.len() {
                return None;
            }
            let body = &ir.blocks[nonzero];
            assert(ir@.blocks[nonzero as int] == body@);
            match body.term {
                Terminator::Branch { target } => {
                    if target != h {
                        return None;
                    }
                },
                _ => {
                    return None;
                },
            }
            let term = Terminator::Branch { target: zero };
            if copy {
                match copy_body(&body.instrs) {
                    Some(instrs) => Some(Block { instrs, term }),
                    None => None,
                }
            } else if clear_body(&body.instrs) {
                let mut instrs: Vec<Instr> = Vec::new();
                instrs.push(Instr::SetCell { offset: 0, value: 0 });
                assert(instrs@ =~= clear_instrs());
                Some(Block { instrs, term })
            } else {
                None
            }
        },
        _ => None,
    }
}

/// Runs the clear-loop pass (`copy` false) or the copy-loop pass (`copy`
/// true): replaces every loop that the pass recognises, head by head in
/// the order of the blocks.
pub fn recognise_loops(ir: IrProgram, copy: bool) -> (out: IrProgram)
    requires
        ir.wf(),
    ensures
        out@ == rewrite_loops(copy, ir@),
        out.wf(),
        equivalent(ir@, out@),
{
    let ghost start = ir@;
    let mut ir = ir;
    let n = ir.blocks.len();
    let mut h: usize = 0;
    while h < n
        invariant
            h <= n,
            n == ir.blocks.len(),
            n == start.blocks.len(),
            start.wf(),
            ir@ == rewrite_upto(copy, start, h as nat),
        decreases n - h,
    {
        let ghost before = ir@;
        match find_replacement(&ir, h, copy) {
            Some(block) => {
                let ghost b = block@;
                ir.blocks.set(h, block);
                proof {
                    assert(ir@.blocks =~= before.blocks.update(h as int, b));
                }
            },
            None => {},
        }
        h += 1;
    }
    proof {
        lemma_rewrite_upto(copy, start, n as nat);
    }
    ir
}

} // verus!
