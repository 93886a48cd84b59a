//! The syntax tree and its parser.

use vstd::prelude::*;
use crate::common::Command;

pub mod parser;
pub mod syntax;

pub use self::parser::parse_program;

verus! {

/// A node of the syntax tree.
#[derive(Debug, PartialEq, Eq)]
pub enum Instruction {
    /// One command.
    Op(Command),
    /// A loop, which owns its body.
    Loop(Vec<Instruction>),
}

/// A program is its instructions in the order in which they run.
pub type Program = Vec<Instruction>;

/// What an [`Instruction`] stands for: the same tree over sequences.
pub ghost enum Syntax {
    Op(Command),
    Loop(Seq<Syntax>),
}

impl View for Instruction {
    type V = Syntax;

    open spec fn view(&self) -> Syntax
        decreases self,
    {
        match self {
            Instruction::Op(command) => Syntax::Op(*command),
            Instruction::Loop(body) => Syntax::Loop(syntax_of(body@)),
        }
    }
}

/// The trees that a sequence of instructions stands for, in order.
pub open spec fn syntax_of(program: Seq<Instruction>) -> Seq<Syntax>
    decreases program,
{
    if program.len() == 0 {
        Seq::empty()
    } else {
        syntax_of(program.drop_last()).push(program.last().view())
    }
}

/// The trees of a program with one more instruction.
pub proof fn lemma_syntax_of_push(program: Seq<Instruction>, last: Instruction)
    ensures
        syntax_of(program.push(last)) == syntax_of(program).push(last@),
{
    assert(program.push(last).drop_last() =~= program);
}

} // verus!
