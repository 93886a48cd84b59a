//! The peephole pass: a loop whose whole effect is known without running it
//! is replaced by that effect.

use vstd::prelude::*;
use crate::optimized::{
    lemma_optimized_of_index, lemma_optimized_of_push, optimized_of, Optimized,
    OptimizedInstruction, OptimizedProgram,
};

verus! {

/// Whether a loop body is the zeroing idiom: one step up or down on the cell
/// under the pointer and nothing else.
pub open spec fn is_zeroing(body: Seq<Optimized>) -> bool {
    body.len() == 1 && (body[0] == Optimized::Add(1, 0) || body[0] == Optimized::Add(-1, 0))
}

/// An instruction after the pass: a zeroing loop becomes `SetZero`, any other
/// loop keeps its place and has its body rewritten, and the rest stays.
pub open spec fn rewrite(node: Optimized) -> Optimized
    decreases node,
{
    match node {
        Optimized::Loop(body) => if is_zeroing(body) {
            Optimized::SetZero
        } else {
            Optimized::Loop(optimize_spec(body))
        },
        other => other,
    }
}

/// A program after the pass: each instruction rewritten, in place.
pub open spec fn optimize_spec(program: Seq<Optimized>) -> Seq<Optimized>
    decreases program,
{
    if program.len() == 0 {
        Seq::empty()
    } else {
        optimize_spec(program.drop_last()).push(rewrite(program.last()))
    }
}

/// The pass keeps the length of a program and rewrites place by place.
pub proof fn lemma_optimize_index(program: Seq<Optimized>)
    ensures
        optimize_spec(program).len() == program.len(),
        forall|i: int|
            0 <= i < program.len() ==> #[trigger] optimize_spec(program)[i] == rewrite(program[i]),
    decreases program.len(),
{
    if program.len() > 0 {
        let front = program.drop_last();
        lemma_optimize_index(front);
        assert(optimize_spec(program) == optimize_spec(front).push(rewrite(program.last())));
        assert forall|i: int| 0 <= i < program.len() implies #[trigger] optimize_spec(program)[i]
            == rewrite(program[i]) by {
            if i < program.len() - 1 {
                assert(front[i] == program[i]);
                assert(optimize_spec(front)[i] == rewrite(front[i]));
            }
        }
    }
}

/// Whether an exec loop body is the zeroing idiom.
fn zeroing(body: &Vec<OptimizedInstruction>) -> (result: bool)
    ensures
        result == is_zeroing(optimized_of(body@)),
{
    proof {
        lemma_optimized_of_index(body@);
    }
    if body.len() != 1 {
        return false;
    }
    proof {
        assert(optimized_of(body@)[0] == body@[0]@);
    }
    match &body[0] {
        OptimizedInstruction::Add(delta, offset) => (*delta == 1 || *delta == -1) && *offset == 0,
        _ => false,
    }
}

/// Rewrites every loop that has a closed form and leaves the rest as it is.
///
/// The one loop with a closed form is the zeroing idiom, a loop whose body is
/// a single `Add` of 1 or -1 at the pointer: it becomes `SetZero`. Every
/// other loop stays a loop, with its body rewritten in the same way.
pub fn optimize(program: &OptimizedProgram) -> (result: OptimizedProgram)
    ensures
        optimized_of(result@) == optimize_spec(optimized_of(program@)),
    decreases program,
{
    let mut done: Vec<OptimizedInstruction> = Vec::new();
    let mut i: usize = 0;
    while i < program.len()
        invariant
            i <= program.len(),
            optimized_of(done@) == optimize_spec(optimized_of(program@.take(i as int))),
        decreases program.len() - i,
    {
        let node = match &program[i] {
            OptimizedInstruction::Move(delta) => OptimizedInstruction::Move(*delta),
            OptimizedInstruction::Add(delta, offset) => OptimizedInstruction::Add(*delta, *offset),
            OptimizedInstruction::Input => OptimizedInstruction::Input,
            OptimizedInstruction::Output => OptimizedInstruction::Output,
            OptimizedInstruction::SetZero => OptimizedInstruction::SetZero,
            OptimizedInstruction::Loop(body) => {
                if zeroing(body) {
                    OptimizedInstruction::SetZero
                } else {
                    OptimizedInstruction::Loop(optimize(body))
                }
            },
        };
        proof {
            let read = program@.take(i as int);
            assert(program@.take(i + 1) =~= read.push(program[i as int]));
            lemma_optimized_of_push(read, program[i as int]);
            assert(optimized_of(read).push(program[i as int]@).drop_last() =~= optimized_of(read));
            assert(node@ == rewrite(program[i as int]@));
            lemma_optimized_of_push(done@, node);
        }
        done.push(node);
        i += 1;
    }
    proof {
        assert(program@.take(i as int) =~= program@);
    }
    done
}

/// Rewriting an instruction that the pass has rewritten changes nothing.
pub proof fn lemma_rewrite_twice(node: Optimized)
    ensures
        rewrite(rewrite(node)) == rewrite(node),
    decreases node, 0int,
{
    match node {
        Optimized::Loop(body) => {
            if !is_zeroing(body) {
                lemma_optimize_twice(body);
                lemma_optimize_index(body);
                if body.len() == 1 {
                    assert(optimize_spec(body)[0] == rewrite(body[0]));
                }
                assert(!is_zeroing(optimize_spec(body)));
            }
        },
        _ => {},
    }
}

/// The pass is idempotent: applied twice it yields what it yields applied
/// once.
pub proof fn lemma_optimize_twice(program: Seq<Optimized>)
    ensures
        optimize_spec(optimize_spec(program)) == optimize_spec(program),
    decreases program, 1int,
{
    if program.len() > 0 {
        let front = program.drop_last();
        lemma_optimize_twice(front);
        lemma_rewrite_twice(program.last());
        let once = optimize_spec(program);
        assert(once == optimize_spec(front).push(rewrite(program.last())));
        assert(once.drop_last() =~= optimize_spec(front));
        assert(once.last() == rewrite(program.last()));
    }
}

} // verus!
