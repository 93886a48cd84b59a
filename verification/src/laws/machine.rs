//! Laws of the machine: what every run keeps, and what a larger budget
//! changes.

use vstd::prelude::*;
use crate::ast::Syntax;
use crate::common::Error;
use crate::optimized::Optimized;
use crate::semantics::{
    exec, exec_loop, exec_one, lemma_exec_single, run, run_loop, run_one, Machine, Outcome,
};

verus! {

/// Whether a run from `before` may have left `after`: the tape has kept its
/// length and the pointer is on it.
pub open spec fn keeps_tape(before: Machine, outcome: Outcome) -> bool {
    outcome matches Outcome::Done(after) ==> after.wf() && after.cells.len() == before.cells.len()
}

/// An optimized program leaves the pointer on the tape and the tape as long
/// as it was.
pub proof fn lemma_exec_keeps_tape(program: Seq<Optimized>, m: Machine, budget: nat)
    requires
        m.wf(),
    ensures
        keeps_tape(m, exec(program, m, budget)),
    decreases budget, program, 0int,
{
    if program.len() > 0 {
        lemma_exec_keeps_tape(program.drop_last(), m, budget);
        if let Outcome::Done(next) = exec(program.drop_last(), m, budget) {
            lemma_exec_one_keeps_tape(program.last(), next, budget);
        }
    }
}

/// An optimized instruction leaves the pointer on the tape and the tape as
/// long as it was.
pub proof fn lemma_exec_one_keeps_tape(node: Optimized, m: Machine, budget: nat)
    requires
        m.wf(),
    ensures
        keeps_tape(m, exec_one(node, m, budget)),
    decreases budget, node, 0int,
{
    if let Optimized::Loop(body) = node {
        lemma_exec_loop_keeps_tape(body, m, budget);
    }
}

/// A loop of optimized instructions leaves the pointer on the tape and the
/// tape as long as it was.
pub proof fn lemma_exec_loop_keeps_tape(body: Seq<Optimized>, m: Machine, budget: nat)
    requires
        m.wf(),
    ensures
        keeps_tape(m, exec_loop(body, m, budget)),
    decreases budget, body, 1int,
{
    if m.cells[m.pointer] != 0 && budget > 0 {
        let less = (budget - 1) as nat;
        lemma_exec_keeps_tape(body, m, less);
        if let Outcome::Done(next) = exec(body, m, less) {
            lemma_exec_loop_keeps_tape(body, next, less);
        }
    }
}

/// A program as it was parsed leaves the pointer on the tape and the tape as
/// long as it was.
pub proof fn lemma_run_keeps_tape(program: Seq<Syntax>, m: Machine, budget: nat)
    requires
        m.wf(),
    ensures
        keeps_tape(m, run(program, m, budget)),
    decreases budget, program, 0int,
{
    if program.len() > 0 {
        lemma_run_keeps_tape(program.drop_last(), m, budget);
        if let Outcome::Done(next) = run(program.drop_last(), m, budget) {
            lemma_run_one_keeps_tape(program.last(), next, budget);
        }
    }
}

/// A syntax tree leaves the pointer on the tape and the tape as long as it
/// was.
pub proof fn lemma_run_one_keeps_tape(node: Syntax, m: Machine, budget: nat)
    requires
        m.wf(),
    ensures
        keeps_tape(m, run_one(node, m, budget)),
    decreases budget, node, 0int,
{
    if let Syntax::Loop(body) = node {
        lemma_run_loop_keeps_tape(body, m, budget);
    }
}

/// A loop as it was parsed leaves the pointer on the tape and the tape as
/// long as it was.
pub proof fn lemma_run_loop_keeps_tape(body: Seq<Syntax>, m: Machine, budget: nat)
    requires
        m.wf(),
    ensures
        keeps_tape(m, run_loop(body, m, budget)),
    decreases budget, body, 1int,
{
    if m.cells[m.pointer] != 0 && budget > 0 {
        let less = (budget - 1) as nat;
        lemma_run_keeps_tape(body, m, less);
        if let Outcome::Done(next) = run(body, m, less) {
            lemma_run_loop_keeps_tape(body, next, less);
        }
    }
}

/// A run that halts within a budget halts in the same way within every
/// larger one.
pub proof fn lemma_exec_budget(program: Seq<Optimized>, m: Machine, budget: nat, more: nat)
    requires
        budget <= more,
        !(exec(program, m, budget) is Exhausted),
    ensures
        exec(program, m, more) == exec(program, m, budget),
    decreases budget, program, 0int,
{
    if program.len() > 0 {
        lemma_exec_budget(program.drop_last(), m, budget, more);
        if let Outcome::Done(next) = exec(program.drop_last(), m, budget) {
            lemma_exec_one_budget(program.last(), next, budget, more);
        }
    }
}

/// An instruction that halts within a budget halts in the same way within
/// every larger one.
pub proof fn lemma_exec_one_budget(node: Optimized, m: Machine, budget: nat, more: nat)
    requires
        budget <= more,
        !(exec_one(node, m, budget) is Exhausted),
    ensures
        exec_one(node, m, more) == exec_one(node, m, budget),
    decreases budget, node, 0int,
{
    if let Optimized::Loop(body) = node {
        lemma_exec_loop_budget(body, m, budget, more);
    }
}

/// A loop that halts within a budget halts in the same way within every
/// larger one.
pub proof fn lemma_exec_loop_budget(body: Seq<Optimized>, m: Machine, budget: nat, more: nat)
    requires
        budget <= more,
        !(exec_loop(body, m, budget) is Exhausted),
    ensures
        exec_loop(body, m, more) == exec_loop(body, m, budget),
    decreases budget, body, 1int,
{
    if m.cells[m.pointer] != 0 {
        let less = (budget - 1) as nat;
        let most = (more - 1) as nat;
        lemma_exec_budget(body, m, less, most);
        if let Outcome::Done(next) = exec(body, m, less) {
            lemma_exec_loop_budget(body, next, less, most);
        }
    }
}

/// A run of a program as it was parsed that halts within a budget halts in
/// the same way within every larger one.
pub proof fn lemma_run_budget(program: Seq<Syntax>, m: Machine, budget: nat, more: nat)
    requires
        budget <= more,
        !(run(program, m, budget) is Exhausted),
    ensures
        run(program, m, more) == run(program, m, budget),
    decreases budget, program, 0int,
{
    if program.len() > 0 {
        lemma_run_budget(program.drop_last(), m, budget, more);
        if let Outcome::Done(next) = run(program.drop_last(), m, budget) {
            lemma_run_one_budget(program.last(), next, budget, more);
        }
    }
}

/// A syntax tree that halts within a budget halts in the same way within
/// every larger one.
pub proof fn lemma_run_one_budget(node: Syntax, m: Machine, budget: nat, more: nat)
    requires
        budget <= more,
        !(run_one(node, m, budget) is Exhausted),
    ensures
        run_one(node, m, more) == run_one(node, m, budget),
    decreases budget, node, 0int,
{
    if let Syntax::Loop(body) = node {
        lemma_run_loop_budget(body, m, budget, more);
    }
}

/// A loop as it was parsed that halts within a budget halts in the same way
/// within every larger one.
pub proof fn lemma_run_loop_budget(body: Seq<Syntax>, m: Machine, budget: nat, more: nat)
    requires
        budget <= more,
        !(run_loop(body, m, budget) is Exhausted),
    ensures
        run_loop(body, m, more) == run_loop(body, m, budget),
    decreases budget, body, 1int,
{
    if m.cells[m.pointer] != 0 {
        let less = (budget - 1) as nat;
        let most = (more - 1) as nat;
        lemma_run_budget(body, m, less, most);
        if let Outcome::Done(next) = run(body, m, less) {
            lemma_run_loop_budget(body, next, less, most);
        }
    }
}

/// Executing two programs in a row is executing the second where the first
/// ended, if it ran to its end, and is what the first came to if it did not.
pub proof fn lemma_exec_concat(first: Seq<Optimized>, second: Seq<Optimized>, m: Machine, budget: nat)
    ensures
        exec(first + second, m, budget) == match exec(first, m, budget) {
            Outcome::Done(next) => exec(second, next, budget),
            other => other,
        },
    decreases second.len(),
{
    if second.len() == 0 {
        assert(first + second =~= first);
    } else {
        lemma_exec_concat(first, second.drop_last(), m, budget);
        assert((first + second).drop_last() =~= first + second.drop_last());
        assert((first + second).last() == second.last());
    }
}

/// A move below the first cell is a fault at that very instruction: the
/// program fails with `PointerUnderflow`, and whatever follows the move has
/// no effect, so the output is what the instructions before it wrote.
pub proof fn lemma_underflow_stops(
    before: Seq<Optimized>,
    delta: int,
    rest: Seq<Optimized>,
    m: Machine,
    reached: Machine,
    budget: nat,
)
    requires
        exec(before, m, budget) == Outcome::Done(reached),
        reached.pointer + delta < 0,
    ensures
        exec(before + seq![Optimized::Move(delta)] + rest, m, budget) == Outcome::Fault(
            Error::PointerUnderflow,
            reached.output,
        ),
{
    let one = seq![Optimized::Move(delta)];
    lemma_exec_concat(before + one, rest, m, budget);
    lemma_exec_concat(before, one, m, budget);
    lemma_exec_single(Optimized::Move(delta), reached, budget);
}

/// A move beyond the last cell is a fault at that very instruction: the
/// program fails with `PointerOverflow`, and whatever follows the move has
/// no effect, so the output is what the instructions before it wrote.
pub proof fn lemma_overflow_stops(
    before: Seq<Optimized>,
    delta: int,
    rest: Seq<Optimized>,
    m: Machine,
    reached: Machine,
    budget: nat,
)
    requires
        exec(before, m, budget) == Outcome::Done(reached),
        reached.pointer + delta >= reached.cells.len(),
        reached.pointer + delta >= 0,
    ensures
        exec(before + seq![Optimized::Move(delta)] + rest, m, budget) == Outcome::Fault(
            Error::PointerOverflow,
            reached.output,
        ),
{
    let one = seq![Optimized::Move(delta)];
    lemma_exec_concat(before + one, rest, m, budget);
    lemma_exec_concat(before, one, m, budget);
    lemma_exec_single(Optimized::Move(delta), reached, budget);
}

} // verus!
