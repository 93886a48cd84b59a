//! What a program means: the effect of each instruction on a machine of a
//! tape, a pointer, an input stream and an output stream.
//!
//! Pointer moves are checked: a move off either end of the tape is a fault
//! that ends the run. Cell arithmetic wraps modulo 256. Reading at the end of
//! the input stores zero.
//!
//! A program may run forever, so every run has a budget. A loop that is
//! entered with a budget of `n` may make `n` rounds, and its `k`-th round
//! runs the body with a budget of `n - k`; a run that needs more is
//! `Exhausted`. A run that halts within some budget halts in the same way
//! within every larger one.

use vstd::prelude::*;
use crate::ast::Syntax;
use crate::common::{Command, Error};
use crate::optimized::Optimized;

verus! {

/// The state that a program acts on.
pub ghost struct Machine {
    /// The tape.
    pub cells: Seq<u8>,
    /// The index of the cell under the pointer.
    pub pointer: int,
    /// The bytes that are still to be read.
    pub input: Seq<u8>,
    /// The bytes written so far.
    pub output: Seq<u8>,
}

impl Machine {
    /// Whether the pointer is on the tape.
    pub open spec fn wf(self) -> bool {
        0 <= self.pointer < self.cells.len()
    }
}

/// How a run ends.
pub ghost enum Outcome {
    /// The program ran to its end and left this machine.
    Done(Machine),
    /// The pointer was about to leave the tape. Nothing ran after that; the
    /// bytes are the output up to then.
    Fault(Error, Seq<u8>),
    /// The budget did not suffice.
    Exhausted,
}

/// Moves the pointer by `delta` cells, or faults if that leaves the tape.
pub open spec fn moved(m: Machine, delta: int) -> Outcome {
    let target = m.pointer + delta;
    if target < 0 {
        Outcome::Fault(Error::PointerUnderflow, m.output)
    } else if target >= m.cells.len() {
        Outcome::Fault(Error::PointerOverflow, m.output)
    } else {
        Outcome::Done(Machine { pointer: target, ..m })
    }
}

/// A cell value after `delta` has been added to it, modulo 256.
pub open spec fn wrapped(cell: u8, delta: int) -> u8 {
    ((cell + delta) % 256) as u8
}

/// Adds `delta` to the cell `offset` cells right of the pointer, or faults if
/// that cell is not on the tape.
pub open spec fn added(m: Machine, delta: int, offset: int) -> Outcome {
    let target = m.pointer + offset;
    if target < 0 {
        Outcome::Fault(Error::PointerUnderflow, m.output)
    } else if target >= m.cells.len() {
        Outcome::Fault(Error::PointerOverflow, m.output)
    } else {
        Outcome::Done(Machine { cells: m.cells.update(target, wrapped(m.cells[target], delta)), ..m })
    }
}

/// The cell value that a read stores: the byte read, or zero at the end of
/// the stream.
pub open spec fn cell_read(byte: Option<u8>) -> u8 {
    match byte {
        Some(byte) => byte,
        None => 0,
    }
}

/// Reads one byte into the cell under the pointer.
pub open spec fn read(m: Machine) -> Machine {
    if m.input.len() > 0 {
        Machine {
            cells: m.cells.update(m.pointer, cell_read(Some(m.input[0]))),
            input: m.input.drop_first(),
            ..m
        }
    } else {
        Machine { cells: m.cells.update(m.pointer, cell_read(None)), ..m }
    }
}

/// Writes the cell under the pointer.
pub open spec fn written(m: Machine) -> Machine {
    Machine { output: m.output.push(m.cells[m.pointer]), ..m }
}

/// Stores zero in the cell under the pointer.
pub open spec fn zeroed(m: Machine) -> Machine {
    Machine { cells: m.cells.update(m.pointer, 0u8), ..m }
}

/// The effect of one command.
pub open spec fn step(command: Command, m: Machine) -> Outcome {
    match command {
        Command::Left => moved(m, -1),
        Command::Right => moved(m, 1),
        Command::Up => added(m, 1, 0),
        Command::Down => added(m, -1, 0),
        Command::In => Outcome::Done(read(m)),
        Command::Out => Outcome::Done(written(m)),
    }
}

/// Runs a syntax tree.
pub open spec fn run_one(node: Syntax, m: Machine, budget: nat) -> Outcome
    decreases budget, node, 0int,
{
    match node {
        Syntax::Op(command) => step(command, m),
        Syntax::Loop(body) => run_loop(body, m, budget),
    }
}

/// Runs a loop with the given body: for as long as the cell under the
/// pointer is not zero, one round of the body.
pub open spec fn run_loop(body: Seq<Syntax>, m: Machine, budget: nat) -> Outcome
    decreases budget, body, 1int,
{
    if m.cells[m.pointer] == 0 {
        Outcome::Done(m)
    } else if budget == 0 {
        Outcome::Exhausted
    } else {
        match run(body, m, (budget - 1) as nat) {
            Outcome::Done(next) => run_loop(body, next, (budget - 1) as nat),
            other => other,
        }
    }
}

/// Runs a program as it was parsed: its trees in order, up to the first that
/// does not run to its end.
pub open spec fn run(program: Seq<Syntax>, m: Machine, budget: nat) -> Outcome
    decreases budget, program, 0int,
{
    if program.len() == 0 {
        Outcome::Done(m)
    } else {
        match run(program.drop_last(), m, budget) {
            Outcome::Done(next) => run_one(program.last(), next, budget),
            other => other,
        }
    }
}

/// Executes an optimized instruction.
pub open spec fn exec_one(node: Optimized, m: Machine, budget: nat) -> Outcome
    decreases budget, node, 0int,
{
    match node {
        Optimized::Move(delta) => moved(m, delta),
        Optimized::Add(delta, offset) => added(m, delta, offset),
        Optimized::Input => Outcome::Done(read(m)),
        Optimized::Output => Outcome::Done(written(m)),
        Optimized::SetZero => Outcome::Done(zeroed(m)),
        Optimized::Loop(body) => exec_loop(body, m, budget),
    }
}

/// Executes a loop with the given body: for as long as the cell under the
/// pointer is not zero, one round of the body.
pub open spec fn exec_loop(body: Seq<Optimized>, m: Machine, budget: nat) -> Outcome
    decreases budget, body, 1int,
{
    if m.cells[m.pointer] == 0 {
        Outcome::Done(m)
    } else if budget == 0 {
        Outcome::Exhausted
    } else {
        match exec(body, m, (budget - 1) as nat) {
            Outcome::Done(next) => exec_loop(body, next, (budget - 1) as nat),
            other => other,
        }
    }
}

/// Executes an optimized program: its instructions in order, up to the first
/// that does not run to its end.
pub open spec fn exec(program: Seq<Optimized>, m: Machine, budget: nat) -> Outcome
    decreases budget, program, 0int,
{
    if program.len() == 0 {
        Outcome::Done(m)
    } else {
        match exec(program.drop_last(), m, budget) {
            Outcome::Done(next) => exec_one(program.last(), next, budget),
            other => other,
        }
    }
}

/// A program stops where a prefix of it stops: if the first `n` instructions
/// do not run to their end, the rest does not run at all.
pub proof fn lemma_exec_stops(program: Seq<Optimized>, n: int, m: Machine, budget: nat)
    requires
        0 <= n <= program.len(),
        !(exec(program.take(n), m, budget) is Done),
    ensures
        exec(program, m, budget) == exec(program.take(n), m, budget),
    decreases program.len() - n,
{
    if n == program.len() {
        assert(program.take(n) =~= program);
    } else {
        assert(program.take(n + 1).drop_last() =~= program.take(n));
        lemma_exec_stops(program, n + 1, m, budget);
    }
}

/// The same for a program as it was parsed.
pub proof fn lemma_run_stops(program: Seq<Syntax>, n: int, m: Machine, budget: nat)
    requires
        0 <= n <= program.len(),
        !(run(program.take(n), m, budget) is Done),
    ensures
        run(program, m, budget) == run(program.take(n), m, budget),
    decreases program.len() - n,
{
    if n == program.len() {
        assert(program.take(n) =~= program);
    } else {
        assert(program.take(n + 1).drop_last() =~= program.take(n));
        lemma_run_stops(program, n + 1, m, budget);
    }
}

/// Executing a program of one instruction is executing that instruction.
pub proof fn lemma_exec_single(node: Optimized, m: Machine, budget: nat)
    ensures
        exec(seq![node], m, budget) == exec_one(node, m, budget),
{
    let one = seq![node];
    assert(one.drop_last() =~= Seq::<Optimized>::empty());
    assert(exec(Seq::<Optimized>::empty(), m, budget) == Outcome::Done(m));
    assert(one.last() == node);
}

/// Executing a program with one more instruction is executing the program
/// and, if that ran to its end, the instruction.
pub proof fn lemma_exec_push(program: Seq<Optimized>, node: Optimized, m: Machine, budget: nat)
    ensures
        exec(program.push(node), m, budget) == match exec(program, m, budget) {
            Outcome::Done(next) => exec_one(node, next, budget),
            other => other,
        },
{
    assert(program.push(node).drop_last() =~= program);
    assert(program.push(node).last() == node);
}

} // verus!
