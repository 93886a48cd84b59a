//! Laws of the peephole pass: the zeroing idiom, and that the pass changes
//! no run.

use vstd::prelude::*;
use crate::laws::machine::{lemma_exec_keeps_tape, lemma_exec_loop_budget};
use crate::optimized::Optimized;
use crate::peephole::{is_zeroing, optimize_spec, rewrite};
use crate::semantics::{
    exec, exec_loop, exec_one, lemma_exec_single, wrapped, zeroed, Machine, Outcome,
};

verus! {

/// The rounds that a loop of one step by `delta` makes from a cell value.
pub open spec fn rounds(cell: u8, delta: int) -> nat {
    if cell == 0 {
        0
    } else if delta == -1 {
        cell as nat
    } else {
        (256 - cell) as nat
    }
}

/// A loop of one step up or down on the cell under the pointer ends with
/// that cell at zero and everything else as it was, whatever the cell held,
/// once the budget covers its rounds. If the cell holds zero, the loop does
/// not run at all.
pub proof fn lemma_zeroing_loop(delta: int, m: Machine, budget: nat)
    requires
        m.wf(),
        delta == 1 || delta == -1,
        budget >= rounds(m.cells[m.pointer], delta),
    ensures
        exec_loop(seq![Optimized::Add(delta, 0)], m, budget) == Outcome::Done(zeroed(m)),
        m.cells[m.pointer] == 0 ==> zeroed(m) == m,
    decreases rounds(m.cells[m.pointer], delta),
{
    let cell = m.cells[m.pointer];
    if cell == 0 {
        assert(zeroed(m).cells =~= m.cells);
    } else {
        let less = (budget - 1) as nat;
        let next = Machine { cells: m.cells.update(m.pointer, wrapped(cell, delta)), ..m };
        lemma_exec_single(Optimized::Add(delta, 0), m, less);
        lemma_zeroing_loop(delta, next, less);
        assert(zeroed(next).cells =~= zeroed(m).cells);
    }
}

/// The zeroing idiom: within a budget of 255, a zeroing loop and the
/// `SetZero` that the pass puts in its place both leave the cell under the
/// pointer at zero and everything else as it was, from every cell value.
pub proof fn lemma_zeroing_idiom(body: Seq<Optimized>, m: Machine, budget: nat)
    requires
        m.wf(),
        is_zeroing(body),
        budget >= 255,
    ensures
        rewrite(Optimized::Loop(body)) == Optimized::SetZero,
        exec_one(Optimized::Loop(body), m, budget) == Outcome::Done(zeroed(m)),
        exec_one(Optimized::SetZero, m, budget) == Outcome::Done(zeroed(m)),
        zeroed(m).cells[m.pointer] == 0,
        zeroed(m).cells.len() == m.cells.len(),
        forall|i: int| 0 <= i < m.cells.len() && i != m.pointer ==> zeroed(m).cells[i] == m.cells[i],
{
    lemma_zeroing_body(body);
    let delta = body[0]->Add_0;
    lemma_zeroing_loop(delta, m, budget);
}

/// A zeroing body is the program of its one instruction.
proof fn lemma_zeroing_body(body: Seq<Optimized>)
    requires
        is_zeroing(body),
    ensures
        body[0] matches Optimized::Add(delta, offset) && (delta == 1 || delta == -1) && offset == 0
            && body == seq![Optimized::Add(delta, 0)],
{
    assert(body =~= seq![body[0]]);
}

/// The pass keeps every run: a program that halts within a budget halts in
/// the same way, within the same budget, after the pass.
pub proof fn lemma_optimize_keeps(program: Seq<Optimized>, m: Machine, budget: nat)
    requires
        m.wf(),
        !(exec(program, m, budget) is Exhausted),
    ensures
        exec(optimize_spec(program), m, budget) == exec(program, m, budget),
    decreases budget, program, 0int,
{
    if program.len() > 0 {
        let front = program.drop_last();
        lemma_optimize_keeps(front, m, budget);
        let after = optimize_spec(program);
        assert(after.drop_last() =~= optimize_spec(front));
        assert(after.last() == rewrite(program.last()));
        if let Outcome::Done(next) = exec(front, m, budget) {
            lemma_exec_keeps_tape(front, m, budget);
            lemma_rewrite_keeps(program.last(), next, budget);
        }
    }
}

/// The pass keeps the run of every instruction.
pub proof fn lemma_rewrite_keeps(node: Optimized, m: Machine, budget: nat)
    requires
        m.wf(),
        !(exec_one(node, m, budget) is Exhausted),
    ensures
        exec_one(rewrite(node), m, budget) == exec_one(node, m, budget),
    decreases budget, node, 0int,
{
    if let Optimized::Loop(body) = node {
        if is_zeroing(body) {
            lemma_zeroing_body(body);
            let delta = body[0]->Add_0;
            let enough: nat = if budget >= 255 {
                budget
            } else {
                255
            };
            lemma_zeroing_loop(delta, m, enough);
            lemma_exec_loop_budget(body, m, budget, enough);
        } else {
            lemma_loop_keeps(body, m, budget);
        }
    }
}

/// The pass keeps the run of every loop that it leaves a loop.
proof fn lemma_loop_keeps(body: Seq<Optimized>, m: Machine, budget: nat)
    requires
        m.wf(),
        !(exec_loop(body, m, budget) is Exhausted),
    ensures
        exec_loop(optimize_spec(body), m, budget) == exec_loop(body, m, budget),
    decreases budget, body, 1int,
{
    if m.cells[m.pointer] != 0 {
        let less = (budget - 1) as nat;
        lemma_optimize_keeps(body, m, less);
        if let Outcome::Done(next) = exec(body, m, less) {
            lemma_exec_keeps_tape(body, m, less);
            lemma_loop_keeps(body, next, less);
        }
    }
}

/// The pass adds no run: a program that halts within a budget after the
/// pass halted in the same way before it, within that budget and the 255
/// rounds that a rewritten loop may have saved.
pub proof fn lemma_optimize_reflects(program: Seq<Optimized>, m: Machine, budget: nat)
    requires
        m.wf(),
        !(exec(optimize_spec(program), m, budget) is Exhausted),
    ensures
        exec(program, m, budget + 255) == exec(optimize_spec(program), m, budget),
    decreases budget, program, 0int,
{
    if program.len() > 0 {
        let front = program.drop_last();
        let after = optimize_spec(program);
        assert(after.drop_last() =~= optimize_spec(front));
        assert(after.last() == rewrite(program.last()));
        lemma_optimize_reflects(front, m, budget);
        if let Outcome::Done(next) = exec(optimize_spec(front), m, budget) {
            lemma_exec_keeps_tape(optimize_spec(front), m, budget);
            lemma_rewrite_reflects(program.last(), next, budget);
        }
    }
}

/// The pass adds no run to any instruction.
pub proof fn lemma_rewrite_reflects(node: Optimized, m: Machine, budget: nat)
    requires
        m.wf(),
        !(exec_one(rewrite(node), m, budget) is Exhausted),
    ensures
        exec_one(node, m, budget + 255) == exec_one(rewrite(node), m, budget),
    decreases budget, node, 0int,
{
    if let Optimized::Loop(body) = node {
        if is_zeroing(body) {
            lemma_zeroing_body(body);
            let delta = body[0]->Add_0;
            lemma_zeroing_loop(delta, m, budget + 255);
        } else {
            lemma_loop_reflects(body, m, budget);
        }
    }
}

/// The pass adds no run to any loop that it leaves a loop.
proof fn lemma_loop_reflects(body: Seq<Optimized>, m: Machine, budget: nat)
    requires
        m.wf(),
        !(exec_loop(optimize_spec(body), m, budget) is Exhausted),
    ensures
        exec_loop(body, m, budget + 255) == exec_loop(optimize_spec(body), m, budget),
    decreases budget, body, 1int,
{
    if m.cells[m.pointer] != 0 {
        let less = (budget - 1) as nat;
        lemma_optimize_reflects(body, m, less);
        if let Outcome::Done(next) = exec(optimize_spec(body), m, less) {
            lemma_exec_keeps_tape(optimize_spec(body), m, less);
            lemma_loop_reflects(body, next, less);
        }
    }
}

} // verus!
