//! The coalescing pass: a run of moves becomes one move, a run of cell
//! arithmetic one addition.

use vstd::prelude::*;
use crate::ast::{lemma_syntax_of_push, syntax_of, Instruction, Program, Syntax};
use crate::common::Command;
use crate::optimized::{
    lemma_optimized_of_push, optimized_of, Optimized, OptimizedInstruction, OptimizedProgram,
};

verus! {

/// A number brought into the range of a signed byte, modulo 256.
pub open spec fn wrap8(value: int) -> int {
    let low = value % 256;
    if low > 127 {
        low - 256
    } else {
        low
    }
}

/// The run that a left-to-right scan is in the middle of.
pub ghost enum Run {
    /// No run is open.
    Idle,
    /// A run of moves with this net displacement.
    Moving(int),
    /// A run of cell arithmetic with this net change, as a signed byte.
    Adding(int),
}

/// What a scan has made of the text so far: the instructions that are
/// settled, and the run that the next command may still extend.
pub ghost struct Scan {
    pub done: Seq<Optimized>,
    pub run: Run,
}

/// By how many cells a command moves the pointer.
pub open spec fn move_of(command: Command) -> int {
    match command {
        Command::Left => -1,
        Command::Right => 1,
        _ => 0,
    }
}

/// By how much a command changes the cell under the pointer.
pub open spec fn change_of(command: Command) -> int {
    match command {
        Command::Down => -1,
        Command::Up => 1,
        _ => 0,
    }
}

/// The settled instructions once the open run is closed: a run whose net
/// effect is nothing leaves no instruction.
pub open spec fn settle(scan: Scan) -> Seq<Optimized> {
    match scan.run {
        Run::Idle => scan.done,
        Run::Moving(net) => if net == 0 {
            scan.done
        } else {
            scan.done.push(Optimized::Move(net))
        },
        Run::Adding(net) => if net == 0 {
            scan.done
        } else {
            scan.done.push(Optimized::Add(net, 0))
        },
    }
}

/// The scan after one more command.
pub open spec fn feed(scan: Scan, command: Command) -> Scan {
    match command {
        Command::Left | Command::Right => match scan.run {
            Run::Moving(net) => Scan { done: scan.done, run: Run::Moving(net + move_of(command)) },
            _ => Scan { done: settle(scan), run: Run::Moving(move_of(command)) },
        },
        Command::Up | Command::Down => match scan.run {
            Run::Adding(net) => Scan {
                done: scan.done,
                run: Run::Adding(wrap8(net + change_of(command))),
            },
            _ => Scan { done: settle(scan), run: Run::Adding(change_of(command)) },
        },
        Command::In => Scan { done: settle(scan).push(Optimized::Input), run: Run::Idle },
        Command::Out => Scan { done: settle(scan).push(Optimized::Output), run: Run::Idle },
    }
}

/// The scan of a whole program, from left to right. A loop closes the open
/// run and is coalesced by itself.
pub open spec fn scan(program: Seq<Syntax>) -> Scan
    decreases program, 0int,
{
    if program.len() == 0 {
        Scan { done: Seq::empty(), run: Run::Idle }
    } else {
        let before = scan(program.drop_last());
        match program.last() {
            Syntax::Op(command) => feed(before, command),
            Syntax::Loop(body) => Scan {
                done: settle(before).push(Optimized::Loop(coalesce_spec(body))),
                run: Run::Idle,
            },
        }
    }
}

/// The coalesced form of a program.
pub open spec fn coalesce_spec(program: Seq<Syntax>) -> Seq<Optimized>
    decreases program, 1int,
{
    settle(scan(program))
}

/// The run that [`coalesce`] is in the middle of.
enum Pending {
    Idle,
    Moving(i128),
    Adding(i8),
}

impl View for Pending {
    type V = Run;

    closed spec fn view(&self) -> Run {
        match self {
            Pending::Idle => Run::Idle,
            Pending::Moving(net) => Run::Moving(*net as int),
            Pending::Adding(net) => Run::Adding(*net as int),
        }
    }
}

/// Closes the open run: appends its instruction, if it has any effect.
fn flush(done: &mut Vec<OptimizedInstruction>, pending: Pending)
    ensures
        optimized_of(final(done)@) == settle(Scan { done: optimized_of(old(done)@), run: pending@ }),
{
    match pending {
        Pending::Idle => {},
        Pending::Moving(net) => {
            if net != 0 {
                proof {
                    lemma_optimized_of_push(done@, OptimizedInstruction::Move(net));
                }
                done.push(OptimizedInstruction::Move(net));
            }
        },
        Pending::Adding(net) => {
            if net != 0 {
                proof {
                    lemma_optimized_of_push(done@, OptimizedInstruction::Add(net, 0));
                }
                done.push(OptimizedInstruction::Add(net, 0));
            }
        },
    }
}

/// Whether the net displacement of an open run is no more than the number of
/// commands read.
spec fn within(run: Run, read: int) -> bool {
    match run {
        Run::Moving(net) => -read <= net <= read,
        _ => true,
    }
}

/// Merges each run of pointer moves into one `Move` and each run of cell
/// arithmetic into one `Add` at the pointer, with left and down counting as
/// negative. A run ends at an input, an output, a loop or a command of the
/// other kind; a run that comes to nothing leaves no instruction. Loop bodies
/// are coalesced in the same way.
pub fn coalesce(program: &Program) -> (result: OptimizedProgram)
    ensures
        optimized_of(result@) == coalesce_spec(syntax_of(program@)),
    decreases program,
{
    let mut done: Vec<OptimizedInstruction> = Vec::new();
    let mut pending = Pending::Idle;
    let mut i: usize = 0;
    while i < program.len()
        invariant
            i <= program.len(),
            scan(syntax_of(program@.take(i as int))) == (Scan {
                done: optimized_of(done@),
                run: pending@,
            }),
            within(pending@, i as int),
        decreases program.len() - i,
    {
        proof {
            let read = program@.take(i as int);
            assert(program@.take(i + 1) =~= read.push(program[i as int]));
            lemma_syntax_of_push(read, program[i as int]);
            assert(syntax_of(read).push(program[i as int]@).drop_last() =~= syntax_of(read));
        }
        match &program[i] {
            Instruction::Op(command) => {
                match command {
                    Command::Left => {
                        pending = match pending {
                            Pending::Moving(net) => Pending::Moving(net - 1),
                            other => {
                                flush(&mut done, other);
                                Pending::Moving(-1)
                            },
                        };
                    },
                    Command::Right => {
                        pending = match pending {
                            Pending::Moving(net) => Pending::Moving(net + 1),
                            other => {
                                flush(&mut done, other);
                                Pending::Moving(1)
                            },
                        };
                    },
                    Command::Up => {
                        pending = match pending {
                            Pending::Adding(net) => Pending::Adding(net.wrapping_add(1)),
                            other => {
                                flush(&mut done, other);
                                Pending::Adding(1)
                            },
                        };
                    },
                    Command::Down => {
                        pending = match pending {
                            Pending::Adding(net) => Pending::Adding(net.wrapping_sub(1)),
                            other => {
                                flush(&mut done, other);
                                Pending::Adding(-1)
                            },
                        };
                    },
                    Command::In => {
                        flush(&mut done, pending);
                        proof {
                            lemma_optimized_of_push(done@, OptimizedInstruction::Input);
                        }
                        done.push(OptimizedInstruction::Input);
                        pending = Pending::Idle;
                    },
                    Command::Out => {
                        flush(&mut done, pending);
                        proof {
                            lemma_optimized_of_push(done@, OptimizedInstruction::Output);
                        }
                        done.push(OptimizedInstruction::Output);
                        pending = Pending::Idle;
                    },
                }
            },
            Instruction::Loop(body) => {
                let inner = coalesce(body);
                flush(&mut done, pending);
                let node = OptimizedInstruction::Loop(inner);
                proof {
                    lemma_optimized_of_push(done@, node);
                }
                done.push(node);
                pending = Pending::Idle;
            },
        }
        i += 1;
    }
    proof {
        assert(program@.take(i as int) =~= program@);
    }
    flush(&mut done, pending);
    done
}

} // verus!
