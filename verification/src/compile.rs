//! The pipeline from source text to optimized intermediate
//! representation, and the messages for what can go wrong on the way.

use vstd::prelude::*;
use vstd::string::*;
use crate::ast::{Node, ops_only, balanced, nodes_text, single_steps};
use crate::parser::{ParseError, parse, parses_to};
use crate::builder::{block_count, lowered, try_lower, lemma_lowered_wf};
use crate::ir::{IrProgram, ProgramView, Config, run};
use crate::equiv::{equivalent, agrees, refines_at};
use crate::machine::State;
use crate::meaning::eval_nodes;
use crate::lowering::{lemma_lowered_runs, lemma_lowered_returns};
use crate::opt::{PassSet, optimize, optimized, lemma_optimized_equivalent};
use crate::text::{decimal_nat, write_nat};

verus! {

/// Why a source text was not compiled.
#[derive(Clone, Copy, Debug, PartialEq, Eq, Structural)]
pub enum CompileError {
    /// The text is not a program.
    Parse(ParseError),
    /// The program has more blocks than can be numbered.
    TooManyBlocks,
}

/// The exit code of a compilation that succeeded.
pub const EXIT_SUCCESS: i32 = 0;

/// The exit code of a compilation that failed, whatever the failure.
pub const EXIT_FAILURE: i32 = 2;

/// `ast` is a tree for the text `s`: it stands for the operators of `s`,
/// one step to a node.
pub open spec fn tree_of(s: Seq<u8>, ast: Seq<Node>) -> bool {
    nodes_text(ast) == ops_only(s) && single_steps(ast)
}

/// `ir` is what the text `s` compiles to at `level` under the whitelist
/// `only`: a tree for `s`, lowered and optimized.
pub open spec fn compiles_to(s: Seq<u8>, level: u8, only: Option<PassSet>, ir: ProgramView) -> bool {
    exists|ast: Seq<Node>|
        #![trigger nodes_text(ast)]
        {
            &&& tree_of(s, ast)
            &&& block_count(ast) <= usize::MAX
            &&& ir == optimized(level, only, lowered(ast))
            &&& equivalent(lowered(ast), ir)
        }
}

/// The text `s` has a tree with more blocks than can be numbered.
pub open spec fn too_large(s: Seq<u8>) -> bool {
    exists|ast: Seq<Node>| #![trigger nodes_text(ast)] tree_of(s, ast) && block_count(ast) > usize::MAX
}

/// Compiles a source text to optimized intermediate representation:
/// parses it, lowers the tree and runs the optimizer at `level` under the
/// whitelist `only`. A text whose brackets are not balanced gives the
/// parser's error, and no other text does.
pub fn compile(source: &str, level: u8, only: Option<PassSet>) -> (r: Result<IrProgram, CompileError>)
    ensures
        match r {
            Ok(ir) => ir.wf() && compiles_to(source.spec_bytes(), level, only, ir@),
            Err(CompileError::Parse(e)) => parses_to(source.spec_bytes(), Err(e)),
            Err(CompileError::TooManyBlocks) => too_large(source.spec_bytes()),
        },
        r is Err && r->Err_0 is Parse <==> !balanced(source.spec_bytes()),
{
    match parse(source) {
        Err(e) => Err(CompileError::Parse(e)),
        Ok(ast) => match try_lower(&ast) {
            None => {
                proof {
                    assert(tree_of(source.spec_bytes(), ast@));
                }
                Err(CompileError::TooManyBlocks)
            },
            Some(ir) => {
                let out = optimize(ir, level, only);
                proof {
                    assert(tree_of(source.spec_bytes(), ast@));
                }
                Ok(out)
            },
        },
    }
}

/// The compiled program does what the tree means, at every level and
/// under every whitelist: if the tree, run from the well-formed state
/// `s`, ends in a state, then the optimized program, entered at its first
/// block in state `s`, returns in that state, after the number of steps
/// that the lemma gives.
pub proof fn lemma_compiled_runs(ast: Seq<Node>, level: u8, only: Option<PassSet>, s: State, fuel: nat) -> (n: nat)
    requires
        block_count(ast) <= usize::MAX,
        s.wf(),
        eval_nodes(ast, s, fuel) is Some,
    ensures
        run(optimized(level, only, lowered(ast)), Config { pc: Some(0int), state: s }, n) == (Config {
            pc: None,
            state: eval_nodes(ast, s, fuel)->0,
        }),
{
    let p = lowered(ast);
    let q = optimized(level, only, p);
    let c = Config { pc: Some(0int), state: s };
    let n0 = lemma_lowered_runs(ast, s, fuel);
    lemma_lowered_wf(ast);
    lemma_optimized_equivalent(level, only, p);
    assert(c.valid(p.blocks.len()));
    assert(refines_at(p, q, c, n0));
    choose|m: nat| agrees(run(p, c, n0), #[trigger] run(q, c, m))
}

/// The tree means what the compiled program does: if the optimized
/// program, entered at its first block in the well-formed state `s`, has
/// returned after `n` steps, then the tree, run from `s` with the fuel
/// that the lemma gives, ends in the state in which the program returned.
pub proof fn lemma_compiled_returns(ast: Seq<Node>, level: u8, only: Option<PassSet>, s: State, n: nat) -> (fuel: nat)
    requires
        block_count(ast) <= usize::MAX,
        s.wf(),
        run(optimized(level, only, lowered(ast)), Config { pc: Some(0int), state: s }, n).pc is None,
    ensures
        eval_nodes(ast, s, fuel) == Some(
            run(optimized(level, only, lowered(ast)), Config { pc: Some(0int), state: s }, n).state,
        ),
{
    let p = lowered(ast);
    let q = optimized(level, only, p);
    let c = Config { pc: Some(0int), state: s };
    lemma_lowered_wf(ast);
    lemma_optimized_equivalent(level, only, p);
    assert(c.valid(q.blocks.len()));
    assert(refines_at(q, p, c, n));
    let m = choose|m: nat| agrees(run(q, c, n), #[trigger] run(p, c, m));
    lemma_lowered_returns(ast, s, m);
    m
}

/// The message for a parse error.
pub open spec fn parse_error_text(e: ParseError) -> Seq<char> {
    match e {
        ParseError::UnmatchedClose { position } => "unmatched ']' at byte "@ + decimal_nat(position as nat),
        ParseError::UnmatchedOpen { position } => "unmatched '[' at byte "@ + decimal_nat(position as nat),
    }
}

/// The message for a failed compilation.
pub open spec fn error_text(e: CompileError) -> Seq<char> {
    match e {
        CompileError::Parse(p) => parse_error_text(p),
        CompileError::TooManyBlocks => "program has too many blocks"@,
    }
}

impl ParseError {
    /// The position of the bracket that has no partner.
    pub fn position(&self) -> (r: usize)
        ensures
            r == match *self {
                ParseError::UnmatchedClose { position } => position,
                ParseError::UnmatchedOpen { position } => position,
            },
    {
        match self {
            ParseError::UnmatchedClose { position } => *position,
            ParseError::UnmatchedOpen { position } => *position,
        }
    }

    /// Gives the message for the error.
    pub fn message(&self) -> (r: String)
        ensures
            r@ == parse_error_text(*self),
    {
        let mut out = String::new();
        match self {
            ParseError::UnmatchedClose { position } => {
                out.append("unmatched ']' at byte ");
                write_nat(&mut out, *position as u64);
            },
            ParseError::UnmatchedOpen { position } => {
                out.append("unmatched '[' at byte ");
                write_nat(&mut out, *position as u64);
            },
        }
        proof {
            assert(out@ =~= parse_error_text(*self));
        }
        out
    }
}

impl CompileError {
    /// Gives the message for the error.
    pub fn message(&self) -> (r: String)
        ensures
            r@ == error_text(*self),
    {
        match self {
            CompileError::Parse(p) => p.message(),
            CompileError::TooManyBlocks => "program has too many blocks".to_owned(),
        }
    }
}

/// Gives the line that reports `message` for the source file at `path`:
/// the path, a colon and a space, and the message.
pub fn diagnostic(path: &str, message: &str) -> (r: String)
    ensures
        r@ == path@ + ": "@ + message@,
{
    let mut out = path.to_owned();
    out.append(": ");
    out.append(message);
    out
}

/// Gives the exit code for a compilation that succeeded (`true`) or
/// failed (`false`).
pub fn exit_code(succeeded: bool) -> (r: i32)
    ensures
        r == if succeeded {
            EXIT_SUCCESS
        } else {
            EXIT_FAILURE
        },
{
    if succeeded {
        EXIT_SUCCESS
    } else {
        EXIT_FAILURE
    }
}

} // verus!
