//! The two passes together: the optimized program does what the program
//! did.

use vstd::prelude::*;
use crate::ast::Syntax;
use crate::laws::coalescing::{lemma_coalesce_keeps, skips_fault};
use crate::laws::rewrites::{lemma_optimize_keeps, lemma_optimize_reflects};
use crate::optimized::Optimized;
use crate::peephole::optimize_spec;
use crate::rle::coalesce_spec;
use crate::semantics::{exec, run, Machine};

verus! {

/// What the two passes make of a program.
pub open spec fn optimized(program: Seq<Syntax>) -> Seq<Optimized> {
    optimize_spec(coalesce_spec(program))
}

/// The passes keep every run. A program that halts within a budget, on a
/// machine and an input, halts in the same way within that budget once it is
/// optimized: with the same machine and so the same output if it ran to its
/// end, with the same error and the same output if it faulted.
///
/// This holds of every run in which coalescing skips no fault: of every run
/// but one that meets a fault in a run of moves that, by its end, has not
/// left the tape at the end that the fault names. It holds of all runs of a
/// program whose runs of moves keep their direction, and of all runs that
/// meet no fault.
pub proof fn lemma_pipeline_keeps(program: Seq<Syntax>, m: Machine, budget: nat)
    requires
        m.wf(),
        !skips_fault(program, m, budget),
    ensures
        !(run(program, m, budget) is Exhausted) ==> exec(optimized(program), m, budget) == run(
            program,
            m,
            budget,
        ),
{
    lemma_coalesce_keeps(program, m, budget);
    if !(run(program, m, budget) is Exhausted) {
        lemma_optimize_keeps(coalesce_spec(program), m, budget);
    }
}

/// The passes add no run. An optimized program that halts within a budget
/// does what the program did, which halts within that budget and the 255
/// rounds that a rewritten loop may have saved; so a program that runs
/// forever still does once it is optimized.
///
/// This holds where coalescing skips no fault in the run of the program.
pub proof fn lemma_pipeline_reflects(program: Seq<Syntax>, m: Machine, budget: nat)
    requires
        m.wf(),
        !skips_fault(program, m, budget + 255),
    ensures
        !(exec(optimized(program), m, budget) is Exhausted) ==> run(program, m, budget + 255)
            == exec(optimized(program), m, budget),
{
    lemma_coalesce_keeps(program, m, budget + 255);
    if !(exec(optimized(program), m, budget) is Exhausted) {
        lemma_optimize_reflects(coalesce_spec(program), m, budget);
    }
}

} // verus!
