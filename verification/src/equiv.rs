//! Observable equivalence of programs, and the two ways in which the
//! optimizer establishes it: block by block, and by summarising a loop.

use vstd::prelude::*;
use crate::machine::State;
use crate::ir::{Config, ProgramView, exec_instrs, run, step, start, lemma_run_valid, lemma_run_split, lemma_run_halted, lemma_step_valid};

verus! {

/// `b` is a possible later view of what an observer saw at `a`: everything
/// written at `a` has been written at `b`, and if the program had returned
/// at `a`, then `b` is that same final configuration.
pub open spec fn agrees(a: Config, b: Config) -> bool {
    &&& a.state.output.is_prefix_of(b.state.output)
    &&& (a.pc is None ==> b == a)
}

/// Whatever `p` has done after `n` steps from `c`, `q` does from `c` too,
/// after some number of steps.
pub open spec fn refines_at(p: ProgramView, q: ProgramView, c: Config, n: nat) -> bool {
    exists|m: nat| agrees(run(p, c, n), #[trigger] run(q, c, m))
}

/// From every valid configuration, `q` does whatever `p` does.
pub open spec fn refines(p: ProgramView, q: ProgramView) -> bool {
    forall|c: Config, n: nat| c.valid(p.blocks.len()) ==> #[trigger] refines_at(p, q, c, n)
}

/// The two programs have the same blocks by number, and from every valid
/// configuration each does whatever the other does: the same bytes are
/// written, and if one returns, the other returns in the same final state.
pub open spec fn equivalent(p: ProgramView, q: ProgramView) -> bool {
    &&& p.blocks.len() == q.blocks.len()
    &&& refines(p, q)
    &&& refines(q, p)
}

/// Every program is equivalent to itself.
pub proof fn lemma_equivalent_refl(p: ProgramView)
    ensures
        equivalent(p, p),
{
    assert forall|c: Config, n: nat| c.valid(p.blocks.len()) implies #[trigger] refines_at(p, p, c, n) by {
        assert(agrees(run(p, c, n), run(p, c, n)));
    }
}

/// Equivalence is symmetric.
pub proof fn lemma_equivalent_sym(p: ProgramView, q: ProgramView)
    requires
        equivalent(p, q),
    ensures
        equivalent(q, p),
{
}

proof fn lemma_refines_trans(p: ProgramView, q: ProgramView, r: ProgramView)
    requires
        p.blocks.len() == q.blocks.len(),
        refines(p, q),
        refines(q, r),
    ensures
        refines(p, r),
{
    assert forall|c: Config, n: nat| c.valid(p.blocks.len()) implies #[trigger] refines_at(p, r, c, n) by {
        assert(refines_at(p, q, c, n));
        let m = choose|m: nat| agrees(run(p, c, n), #[trigger] run(q, c, m));
        assert(refines_at(q, r, c, m));
        let k = choose|k: nat| agrees(run(q, c, m), #[trigger] run(r, c, k));
        assert(agrees(run(p, c, n), run(r, c, k)));
    }
}

/// Equivalence is transitive.
pub proof fn lemma_equivalent_trans(p: ProgramView, q: ProgramView, r: ProgramView)
    requires
        equivalent(p, q),
        equivalent(q, r),
    ensures
        equivalent(p, r),
{
    lemma_refines_trans(p, q, r);
    lemma_refines_trans(r, q, p);
}

/// Equivalent programs, started on the same input, return in the same
/// final state: whenever one has returned after `n` steps, the other has
/// returned after some number of steps, with the same tape, pointer,
/// remaining input and output.
pub proof fn lemma_equivalent_same_result(p: ProgramView, q: ProgramView, input: Seq<u8>, n: nat)
    requires
        equivalent(p, q),
        p.blocks.len() > 0,
        run(p, start(input), n).pc is None,
    ensures
        exists|m: nat| #[trigger] run(q, start(input), m) == run(p, start(input), n),
{
    let c = start(input);
    assert(c.valid(p.blocks.len()));
    assert(refines_at(p, q, c, n));
    let m = choose|m: nat| agrees(run(p, c, n), #[trigger] run(q, c, m));
    assert(run(q, c, m) == run(p, c, n));
}

/// Equivalent programs, started on the same input, write the same bytes:
/// what one has written after `n` steps is the beginning of what the other
/// has written after some number of steps.
pub proof fn lemma_equivalent_same_output(p: ProgramView, q: ProgramView, input: Seq<u8>, n: nat)
    requires
        equivalent(p, q),
        p.blocks.len() > 0,
    ensures
        exists|m: nat|
            run(p, start(input), n).state.output.is_prefix_of((#[trigger] run(q, start(input), m)).state.output),
{
    let c = start(input);
    assert(c.valid(p.blocks.len()));
    assert(refines_at(p, q, c, n));
    let m = choose|m: nat| agrees(run(p, c, n), #[trigger] run(q, c, m));
    assert(run(p, c, n).state.output.is_prefix_of(run(q, c, m).state.output));
}

/// Every block of `q` has the terminator of the block of `p` with the same
/// number, and its instructions have the same effect on every well-formed
/// state.
pub open spec fn same_blockwise(p: ProgramView, q: ProgramView) -> bool {
    &&& p.blocks.len() == q.blocks.len()
    &&& forall|b: int| 0 <= b < p.blocks.len() ==> (#[trigger] p.blocks[b]).term == q.blocks[b].term
    &&& forall|b: int, s: State|
        0 <= b < p.blocks.len() && s.wf() ==> #[trigger] exec_instrs(p.blocks[b].instrs, s) == exec_instrs(
            q.blocks[b].instrs,
            s,
        )
}

proof fn lemma_blockwise_run(p: ProgramView, q: ProgramView, c: Config, n: nat)
    requires
        p.wf(),
        same_blockwise(p, q),
        c.valid(p.blocks.len()),
    ensures
        run(p, c, n) == run(q, c, n),
    decreases n,
{
    if n > 0 {
        match c.pc {
            None => {},
            Some(b) => {
                assert(p.blocks[b].term == q.blocks[b].term);
                assert(exec_instrs(p.blocks[b].instrs, c.state) == exec_instrs(q.blocks[b].instrs, c.state));
            },
        }
        assert(step(p, c) == step(q, c));
        lemma_step_valid(p, c);
        lemma_blockwise_run(p, q, step(p, c), (n - 1) as nat);
    }
}

/// Programs whose blocks agree one by one are equivalent.
pub proof fn lemma_blockwise_equivalent(p: ProgramView, q: ProgramView)
    requires
        p.wf(),
        same_blockwise(p, q),
    ensures
        equivalent(p, q),
{
    assert forall|c: Config, n: nat| c.valid(p.blocks.len()) implies #[trigger] refines_at(p, q, c, n) by {
        lemma_blockwise_run(p, q, c, n);
        assert(agrees(run(p, c, n), run(q, c, n)));
    }
    assert forall|c: Config, n: nat| c.valid(q.blocks.len()) implies #[trigger] refines_at(q, p, c, n) by {
        lemma_blockwise_run(p, q, c, n);
        assert(agrees(run(q, c, n), run(p, c, n)));
    }
}

/// In `q`, block `h` does in one step what `p` does from block `h` in `k`
/// steps, none of which is the program's last.
pub open spec fn summarises(p: ProgramView, q: ProgramView, h: int, s: State, k: nat) -> bool {
    let c = Config { pc: Some(h), state: s };
    &&& k >= 1
    &&& run(p, c, k) == step(q, c)
    &&& forall|j: nat| j < k ==> (#[trigger] run(p, c, j)).pc is Some
}

/// `q` is `p` but for block `h`, which summarises what `p` does from `h`.
pub open spec fn summary_of(p: ProgramView, q: ProgramView, h: int, k: spec_fn(State) -> nat) -> bool {
    &&& p.wf()
    &&& q.wf()
    &&& 0 <= h < p.blocks.len()
    &&& q.blocks == p.blocks.update(h, q.blocks[h])
    &&& forall|s: State| s.wf() ==> summarises(p, q, h, s, #[trigger] k(s))
}

proof fn lemma_summary_forward(p: ProgramView, q: ProgramView, h: int, k: spec_fn(State) -> nat, c: Config, n: nat) -> (m: nat)
    requires
        summary_of(p, q, h, k),
        c.valid(p.blocks.len()),
    ensures
        agrees(run(p, c, n), run(q, c, m)),
    decreases n,
{
    reveal_with_fuel(run, 2);
    if n == 0 {
        0
    } else {
        match c.pc {
            None => {
                lemma_run_halted(p, c, n);
                0
            },
            Some(b) => {
                lemma_step_valid(q, c);
                if b != h {
                    assert(q.blocks[b] == p.blocks[b]);
                    assert(step(p, c) == step(q, c));
                    let m1 = lemma_summary_forward(p, q, h, k, step(q, c), (n - 1) as nat);
                    m1 + 1
                } else {
                    let kk = k(c.state);
                    assert(summarises(p, q, h, c.state, kk));
                    assert(c == Config { pc: Some(h), state: c.state });
                    if n >= kk {
                        lemma_run_split(p, c, kk, (n - kk) as nat);
                        let m1 = lemma_summary_forward(p, q, h, k, step(q, c), (n - kk) as nat);
                        m1 + 1
                    } else {
                        lemma_run_valid(p, c, n);
                        lemma_run_split(p, c, n, (kk - n) as nat);
                        lemma_run_valid(p, run(p, c, n), (kk - n) as nat);
                        assert(run(p, c, n).pc is Some);
                        1
                    }
                }
            },
        }
    }
}

proof fn lemma_summary_backward(p: ProgramView, q: ProgramView, h: int, k: spec_fn(State) -> nat, c: Config, m: nat) -> (n: nat)
    requires
        summary_of(p, q, h, k),
        c.valid(p.blocks.len()),
    ensures
        agrees(run(q, c, m), run(p, c, n)),
    decreases m,
{
    if m == 0 {
        0
    } else {
        match c.pc {
            None => {
                lemma_run_halted(q, c, m);
                0
            },
            Some(b) => {
                lemma_step_valid(q, c);
                if b != h {
                    assert(q.blocks[b] == p.blocks[b]);
                    assert(step(p, c) == step(q, c));
                    let n1 = lemma_summary_backward(p, q, h, k, step(q, c), (m - 1) as nat);
                    n1 + 1
                } else {
                    let kk = k(c.state);
                    assert(summarises(p, q, h, c.state, kk));
                    assert(c == Config { pc: Some(h), state: c.state });
                    let n1 = lemma_summary_backward(p, q, h, k, step(q, c), (m - 1) as nat);
                    lemma_run_split(p, c, kk, n1);
                    kk + n1
                }
            },
        }
    }
}

/// Replacing a block by a summary of what the program does from it gives
/// an equivalent program.
pub proof fn lemma_summary_equivalent(p: ProgramView, q: ProgramView, h: int, k: spec_fn(State) -> nat)
    requires
        summary_of(p, q, h, k),
    ensures
        equivalent(p, q),
{
    assert(q.blocks.len() == p.blocks.len());
    assert forall|c: Config, n: nat| c.valid(p.blocks.len()) implies #[trigger] refines_at(p, q, c, n) by {
        let m = lemma_summary_forward(p, q, h, k, c, n);
    }
    assert forall|c: Config, m: nat| c.valid(q.blocks.len()) implies #[trigger] refines_at(q, p, c, m) by {
        let n = lemma_summary_backward(p, q, h, k, c, m);
    }
}

} // verus!
