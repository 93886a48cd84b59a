//! The instruction stream that the optimization passes produce and the code
//! generator consumes.

use vstd::prelude::*;

verus! {

/// An instruction of an optimized program.
#[derive(Debug, PartialEq, Eq)]
pub enum OptimizedInstruction {
    /// Moves the pointer by this many cells, to the right when positive. The
    /// type is wide enough for the net displacement of any run of moves that
    /// a program can hold.
    Move(i128),
    /// Adds the first number, modulo 256, to the cell that lies the second
    /// number of cells to the right of the pointer. The pointer stays.
    Add(i8, i32),
    /// Reads one byte into the cell under the pointer.
    Input,
    /// Writes the cell under the pointer.
    Output,
    /// Stores zero in the cell under the pointer.
    SetZero,
    /// Runs its body for as long as the cell under the pointer is not zero.
    Loop(Vec<OptimizedInstruction>),
}

/// An optimized program is its instructions in the order in which they run.
pub type OptimizedProgram = Vec<OptimizedInstruction>;

/// What an [`OptimizedInstruction`] stands for: the same tree over sequences
/// and unbounded integers.
pub ghost enum Optimized {
    Move(int),
    Add(int, int),
    Input,
    Output,
    SetZero,
    Loop(Seq<Optimized>),
}

impl View for OptimizedInstruction {
    type V = Optimized;

    open spec fn view(&self) -> Optimized
        decreases self,
    {
        match self {
            OptimizedInstruction::Move(delta) => Optimized::Move(*delta as int),
            OptimizedInstruction::Add(delta, offset) => Optimized::Add(
                *delta as int,
                *offset as int,
            ),
            OptimizedInstruction::Input => Optimized::Input,
            OptimizedInstruction::Output => Optimized::Output,
            OptimizedInstruction::SetZero => Optimized::SetZero,
            OptimizedInstruction::Loop(body) => Optimized::Loop(optimized_of(body@)),
        }
    }
}

/// The trees that a sequence of optimized instructions stands for, in order.
pub open spec fn optimized_of(program: Seq<OptimizedInstruction>) -> Seq<Optimized>
    decreases program,
{
    if program.len() == 0 {
        Seq::empty()
    } else {
        optimized_of(program.drop_last()).push(program.last().view())
    }
}

/// The trees of a program with one more instruction.
pub proof fn lemma_optimized_of_push(program: Seq<OptimizedInstruction>, last: OptimizedInstruction)
    ensures
        optimized_of(program.push(last)) == optimized_of(program).push(last@),
{
    assert(program.push(last).drop_last() =~= program);
}

/// The trees of a program stand at the places of its instructions.
pub proof fn lemma_optimized_of_index(program: Seq<OptimizedInstruction>)
    ensures
        optimized_of(program).len() == program.len(),
        forall|i: int|
            0 <= i < program.len() ==> #[trigger] optimized_of(program)[i] == program[i]@,
    decreases program.len(),
{
    if program.len() > 0 {
        let front = program.drop_last();
        lemma_optimized_of_index(front);
        assert(optimized_of(program) == optimized_of(front).push(program.last()@));
        assert forall|i: int| 0 <= i < program.len() implies #[trigger] optimized_of(program)[i]
            == program[i]@ by {
            if i < program.len() - 1 {
                assert(front[i] == program[i]);
                assert(optimized_of(front)[i] == front[i]@);
            }
        }
    }
}

} // verus!
