//! Laws of the coalescing pass: on which runs the coalesced program does
//! what the program did.
//!
//! A run of moves is merged into its net displacement. A program that
//! meets a fault in the middle of such a run, on its way out and back, is
//! checked at every step; its coalesced form is checked once, where the run
//! ends, and there the pointer may be back on the tape, or off its other
//! end. The pass keeps every run but those. Among the runs that it keeps
//! are every run of a program whose runs of moves keep their direction, and
//! every run of any program that meets no fault.

use vstd::prelude::*;
use crate::ast::Syntax;
use crate::common::{Command, Error};
use crate::laws::machine::{lemma_exec_keeps_tape, lemma_run_keeps_tape};
use crate::optimized::Optimized;
use crate::rle::{change_of, coalesce_spec, feed, move_of, scan, settle, wrap8, Run, Scan};
use crate::semantics::{
    added, exec, exec_loop, exec_one, lemma_exec_push, moved, run, run_loop, run_one, step,
    wrapped, Machine, Outcome,
};

verus! {

/// Whether a tree is a move.
pub open spec fn is_move(node: Syntax) -> bool {
    node == Syntax::Op(Command::Left) || node == Syntax::Op(Command::Right)
}

/// By how many cells a tree moves the pointer, if it is a move.
pub open spec fn shift_of(node: Syntax) -> int {
    match node {
        Syntax::Op(command) => move_of(command),
        _ => 0,
    }
}

/// Whether a pointer at `place` has left a tape of `capacity` cells at the
/// end that `error` names.
pub open spec fn leaves(error: Error, place: int, capacity: nat) -> bool {
    match error {
        Error::PointerUnderflow => place < 0,
        Error::PointerOverflow => place >= capacity,
        _ => false,
    }
}

/// Where the moves of a program that has met a fault in its last run of
/// moves would have taken the pointer by the end of the program, had they
/// not been checked. `None` for a program that has met no fault, or has met
/// it elsewhere.
pub open spec fn overshoot(program: Seq<Syntax>, m: Machine, budget: nat) -> Option<int>
    decreases program.len(),
{
    if program.len() == 0 || !is_move(program.last()) {
        None
    } else {
        let front = program.drop_last();
        match run(front, m, budget) {
            Outcome::Done(reached) => if run_one(program.last(), reached, budget) is Fault {
                Some(reached.pointer + shift_of(program.last()))
            } else {
                None
            },
            Outcome::Fault(_, _) => match overshoot(front, m, budget) {
                Some(place) => Some(place + shift_of(program.last())),
                None => None,
            },
            Outcome::Exhausted => None,
        }
    }
}

/// Whether the coalesced form of a program skips a fault that the program
/// meets before its last run of moves: a fault in a run of moves that, by
/// its end, has not left the tape at the end that the fault names. Loops
/// count with their bodies.
pub open spec fn skips_within(program: Seq<Syntax>, m: Machine, budget: nat) -> bool
    decreases budget, program, 0int,
{
    if program.len() == 0 {
        false
    } else {
        let front = program.drop_last();
        ||| skips_within(front, m, budget)
        ||| {
            &&& !is_move(program.last())
            &&& run(front, m, budget) matches Outcome::Fault(error, _)
            &&& overshoot(front, m, budget) matches Some(place)
            &&& !leaves(error, place, m.cells.len())
        }
        ||| {
            &&& program.last() matches Syntax::Loop(body)
            &&& run(front, m, budget) matches Outcome::Done(reached)
            &&& loop_skips_fault(body, reached, budget)
        }
    }
}

/// Whether the coalesced form of a program skips a fault that the program
/// meets: a fault in a run of moves that, by its end, has not left the tape
/// at the end that the fault names.
pub open spec fn skips_fault(program: Seq<Syntax>, m: Machine, budget: nat) -> bool
    decreases budget, program, 1int,
{
    ||| skips_within(program, m, budget)
    ||| {
        &&& run(program, m, budget) matches Outcome::Fault(error, _)
        &&& overshoot(program, m, budget) matches Some(place)
        &&& !leaves(error, place, m.cells.len())
    }
}

/// Whether the coalesced form of a loop skips a fault that the loop meets
/// in one of its rounds.
pub open spec fn loop_skips_fault(body: Seq<Syntax>, m: Machine, budget: nat) -> bool
    decreases budget, body, 2int,
{
    &&& m.cells[m.pointer] != 0
    &&& budget > 0
    &&& {
        ||| skips_fault(body, m, (budget - 1) as nat)
        ||| {
            &&& run(body, m, (budget - 1) as nat) matches Outcome::Done(next)
            &&& loop_skips_fault(body, next, (budget - 1) as nat)
        }
    }
}

/// Whether two trees in a row are moves in opposite directions.
pub open spec fn opposite(first: Syntax, second: Syntax) -> bool {
    ||| first == Syntax::Op(Command::Left) && second == Syntax::Op(Command::Right)
    ||| first == Syntax::Op(Command::Right) && second == Syntax::Op(Command::Left)
}

/// Whether every run of moves of a program, and of the loops in it, keeps
/// its direction: no move stands next to a move the other way.
pub open spec fn steady(program: Seq<Syntax>) -> bool
    decreases program,
{
    if program.len() == 0 {
        true
    } else {
        &&& steady(program.drop_last())
        &&& (program.last() matches Syntax::Loop(body) ==> steady(body))
        &&& (program.len() >= 2 ==> !opposite(program[program.len() - 2], program.last()))
    }
}

/// The effect of the run that a scan has open.
pub open spec fn carried(m: Machine, open: Run) -> Outcome {
    match open {
        Run::Idle => Outcome::Done(m),
        Run::Moving(net) => moved(m, net),
        Run::Adding(net) => added(m, net, 0),
    }
}

/// The run of what a scan has settled, and then of the run it has open.
pub open spec fn after(scanned: Scan, m: Machine, budget: nat) -> Outcome {
    match exec(scanned.done, m, budget) {
        Outcome::Done(next) => carried(next, scanned.run),
        other => other,
    }
}

/// Closing the open run of a scan changes nothing of what it does.
proof fn lemma_settle(scanned: Scan, m: Machine, budget: nat)
    requires
        m.wf(),
    ensures
        exec(settle(scanned), m, budget) == after(scanned, m, budget),
{
    lemma_exec_keeps_tape(scanned.done, m, budget);
    match scanned.run {
        Run::Idle => {},
        Run::Moving(net) => {
            if net != 0 {
                lemma_exec_push(scanned.done, Optimized::Move(net), m, budget);
            }
        },
        Run::Adding(net) => {
            if net != 0 {
                lemma_exec_push(scanned.done, Optimized::Add(net, 0), m, budget);
            } else if let Outcome::Done(next) = exec(scanned.done, m, budget) {
                assert(next.cells.update(next.pointer, wrapped(next.cells[next.pointer], 0))
                    =~= next.cells);
            }
        },
    }
}

/// Two additions to a cell in a row are one addition of their wrapped sum.
proof fn lemma_wrapped_twice(cell: u8, net: int, unit: int)
    ensures
        wrapped(wrapped(cell, net), unit) == wrapped(cell, wrap8(net + unit)),
{
    let a = (cell + net) % 256;
    let low = (net + unit) % 256;
    assert((a + unit) % 256 == (cell + net + unit) % 256) by (nonlinear_arith)
        requires
            a == (cell + net) % 256,
    ;
    assert((cell + low) % 256 == (cell + net + unit) % 256) by (nonlinear_arith)
        requires
            low == (net + unit) % 256,
    ;
    assert((cell + (low - 256)) % 256 == (cell + low) % 256) by (nonlinear_arith);
}

/// Feeding a command to a scan that has come to a machine adds the effect
/// of the command.
proof fn lemma_feed(before: Scan, command: Command, m: Machine, budget: nat)
    requires
        m.wf(),
        after(before, m, budget) is Done,
    ensures
        after(feed(before, command), m, budget) == step(
            command,
            after(before, m, budget)->Done_0,
        ),
{
    lemma_settle(before, m, budget);
    lemma_exec_keeps_tape(before.done, m, budget);
    lemma_exec_keeps_tape(settle(before), m, budget);
    match command {
        Command::Left | Command::Right => {},
        Command::Up | Command::Down => {
            if let Run::Adding(net) = before.run {
                if let Outcome::Done(next) = exec(before.done, m, budget) {
                    let cell = next.cells[next.pointer];
                    lemma_wrapped_twice(cell, net, change_of(command));
                    let once = next.cells.update(next.pointer, wrapped(cell, net));
                    assert(once.update(next.pointer, wrapped(once[next.pointer], change_of(command)))
                        =~= next.cells.update(
                        next.pointer,
                        wrapped(cell, wrap8(net + change_of(command))),
                    ));
                }
            }
        },
        Command::In => {
            lemma_exec_push(settle(before), Optimized::Input, m, budget);
        },
        Command::Out => {
            lemma_exec_push(settle(before), Optimized::Output, m, budget);
        },
    }
}

/// Feeding a command to a scan that has not come to a machine changes
/// nothing, once the open run is closed or has come to nothing itself.
proof fn lemma_feed_stopped(before: Scan, command: Command, m: Machine, budget: nat)
    requires
        m.wf(),
        !(exec(settle(before), m, budget) is Done),
        exec(before.done, m, budget) is Done ==> move_of(command) == 0,
    ensures
        exec(feed(before, command).done, m, budget) == exec(settle(before), m, budget),
{
    lemma_settle(before, m, budget);
    lemma_exec_keeps_tape(before.done, m, budget);
    match command {
        Command::In => {
            lemma_exec_push(settle(before), Optimized::Input, m, budget);
        },
        Command::Out => {
            lemma_exec_push(settle(before), Optimized::Output, m, budget);
        },
        _ => {},
    }
}

/// Whether a scan stands where the run of a program stands: at the same
/// machine where the program is done; exhausted where it is exhausted; at
/// the same fault where it has met one, but where the fault lies in the
/// last run of moves, which is still open: there the scan stands before
/// that run, which by now comes to the overshoot of the program.
spec fn tracks(scanned: Scan, program: Seq<Syntax>, m: Machine, budget: nat) -> bool {
    match run(program, m, budget) {
        Outcome::Done(reached) => after(scanned, m, budget) == Outcome::Done(reached),
        Outcome::Exhausted => exec(scanned.done, m, budget) is Exhausted,
        Outcome::Fault(error, output) => match overshoot(program, m, budget) {
            Some(place) => {
                &&& exec(scanned.done, m, budget) matches Outcome::Done(stand)
                &&& scanned.run matches Run::Moving(net)
                &&& stand.pointer + net == place
                &&& stand.output == output
            },
            None => exec(scanned.done, m, budget) == Outcome::Fault(error, output),
        },
    }
}

/// A scan stands where the run of the program stands, unless a fault was
/// skipped on the way.
proof fn lemma_scan_tracks(program: Seq<Syntax>, m: Machine, budget: nat)
    requires
        m.wf(),
        !skips_within(program, m, budget),
    ensures
        tracks(scan(program), program, m, budget),
    decreases budget, program, 0int,
{
    if program.len() > 0 {
        let front = program.drop_last();
        let before = scan(front);
        lemma_scan_tracks(front, m, budget);
        lemma_run_keeps_tape(front, m, budget);
        lemma_exec_keeps_tape(before.done, m, budget);
        lemma_settle(before, m, budget);
        assert(run(program, m, budget) == match run(front, m, budget) {
            Outcome::Done(reached) => run_one(program.last(), reached, budget),
            other => other,
        });
        match program.last() {
            Syntax::Op(command) => {
                assert(scan(program) == feed(before, command));
                match run(front, m, budget) {
                    Outcome::Done(reached) => {
                        lemma_feed(before, command, m, budget);
                    },
                    Outcome::Exhausted => {
                        if move_of(command) == 0 || !(before.run is Moving) {
                            lemma_feed_stopped(before, command, m, budget);
                        }
                    },
                    Outcome::Fault(error, output) => {
                        if move_of(command) == 0 || !(before.run is Moving) {
                            lemma_feed_stopped(before, command, m, budget);
                        }
                    },
                }
            },
            Syntax::Loop(body) => {
                let inner = Optimized::Loop(coalesce_spec(body));
                assert(scan(program) == Scan { done: settle(before).push(inner), run: Run::Idle });
                lemma_exec_push(settle(before), inner, m, budget);
                if let Outcome::Done(reached) = run(front, m, budget) {
                    assert(run_one(program.last(), reached, budget) == run_loop(
                        body,
                        reached,
                        budget,
                    ));
                    assert(exec_one(inner, reached, budget) == exec_loop(
                        coalesce_spec(body),
                        reached,
                        budget,
                    ));
                    lemma_loop_agrees(body, reached, budget);
                }
            },
        }
    }
}

/// The coalesced form of a loop does what the loop does, unless it skips a
/// fault.
proof fn lemma_loop_agrees(body: Seq<Syntax>, m: Machine, budget: nat)
    requires
        m.wf(),
        !loop_skips_fault(body, m, budget),
    ensures
        exec_loop(coalesce_spec(body), m, budget) == run_loop(body, m, budget),
    decreases budget, body, 2int,
{
    if m.cells[m.pointer] != 0 && budget > 0 {
        let less = (budget - 1) as nat;
        lemma_scan_agrees(body, m, less);
        if let Outcome::Done(next) = run(body, m, less) {
            lemma_run_keeps_tape(body, m, less);
            lemma_loop_agrees(body, next, less);
        }
    }
}

/// The coalesced form of a program does what the program does, unless it
/// skips a fault.
proof fn lemma_scan_agrees(program: Seq<Syntax>, m: Machine, budget: nat)
    requires
        m.wf(),
        !skips_fault(program, m, budget),
    ensures
        exec(coalesce_spec(program), m, budget) == run(program, m, budget),
    decreases budget, program, 1int,
{
    lemma_scan_tracks(program, m, budget);
    lemma_settle(scan(program), m, budget);
    lemma_exec_keeps_tape(scan(program).done, m, budget);
}

/// The coalescing pass keeps every run in which it skips no fault: the
/// coalesced form of a program does what the program does, on every machine
/// and within every budget, unless the program meets a fault in a run of
/// moves that, by its end, has not left the tape at the end that the fault
/// names.
pub proof fn lemma_coalesce_keeps(program: Seq<Syntax>, m: Machine, budget: nat)
    requires
        m.wf(),
        !skips_fault(program, m, budget),
    ensures
        exec(coalesce_spec(program), m, budget) == run(program, m, budget),
{
    lemma_scan_agrees(program, m, budget);
}

/// Only a run that meets a fault can have one skipped: the coalescing pass
/// keeps every run that ends without a fault.
pub proof fn lemma_skipped_is_fault(program: Seq<Syntax>, m: Machine, budget: nat)
    requires
        skips_fault(program, m, budget),
    ensures
        run(program, m, budget) is Fault,
    decreases budget, program, 1int,
{
    if skips_within(program, m, budget) {
        lemma_skipped_within_is_fault(program, m, budget);
    }
}

/// Only a run that meets a fault can have one skipped on the way.
proof fn lemma_skipped_within_is_fault(program: Seq<Syntax>, m: Machine, budget: nat)
    requires
        skips_within(program, m, budget),
    ensures
        run(program, m, budget) is Fault,
    decreases budget, program, 0int,
{
    let front = program.drop_last();
    if skips_within(front, m, budget) {
        lemma_skipped_within_is_fault(front, m, budget);
    } else if let Syntax::Loop(body) = program.last() {
        if let Outcome::Done(reached) = run(front, m, budget) {
            lemma_skipped_in_loop_is_fault(body, reached, budget);
            assert(run_one(program.last(), reached, budget) == run_loop(body, reached, budget));
        }
    }
}

/// Only a loop that meets a fault can have one skipped.
proof fn lemma_skipped_in_loop_is_fault(body: Seq<Syntax>, m: Machine, budget: nat)
    requires
        loop_skips_fault(body, m, budget),
    ensures
        run_loop(body, m, budget) is Fault,
    decreases budget, body, 2int,
{
    let less = (budget - 1) as nat;
    if skips_fault(body, m, less) {
        lemma_skipped_is_fault(body, m, less);
    } else if let Outcome::Done(next) = run(body, m, less) {
        lemma_skipped_in_loop_is_fault(body, next, less);
    }
}

/// Whether the fault that a steady program has met in its last run of moves
/// is one that the run, taken as one move, meets too: the run has gone on
/// in the direction of the fault.
spec fn goes_out(program: Seq<Syntax>, m: Machine, budget: nat) -> bool {
    overshoot(program, m, budget) matches Some(place) ==> {
        &&& run(program, m, budget) matches Outcome::Fault(error, _)
        &&& leaves(error, place, m.cells.len())
        &&& program.last() == Syntax::Op(Command::Left) ==> error == Error::PointerUnderflow
        &&& program.last() == Syntax::Op(Command::Right) ==> error == Error::PointerOverflow
    }
}

/// No fault of a steady program is skipped on the way, and one in its last
/// run of moves is met by the run as a whole.
proof fn lemma_steady_within(program: Seq<Syntax>, m: Machine, budget: nat)
    requires
        m.wf(),
        steady(program),
    ensures
        !skips_within(program, m, budget),
        goes_out(program, m, budget),
    decreases budget, program, 0int,
{
    if program.len() > 0 {
        let front = program.drop_last();
        lemma_steady_within(front, m, budget);
        lemma_run_keeps_tape(front, m, budget);
        if front.len() > 0 {
            assert(front.last() == program[program.len() - 2]);
        }
        if let Syntax::Loop(body) = program.last() {
            if let Outcome::Done(reached) = run(front, m, budget) {
                lemma_steady_loop(body, reached, budget);
            }
        }
    }
}

/// No fault of a loop with a steady body is skipped.
proof fn lemma_steady_loop(body: Seq<Syntax>, m: Machine, budget: nat)
    requires
        m.wf(),
        steady(body),
    ensures
        !loop_skips_fault(body, m, budget),
    decreases budget, body, 2int,
{
    if m.cells[m.pointer] != 0 && budget > 0 {
        let less = (budget - 1) as nat;
        lemma_steady_skips_nothing(body, m, less);
        if let Outcome::Done(next) = run(body, m, less) {
            lemma_run_keeps_tape(body, m, less);
            lemma_steady_loop(body, next, less);
        }
    }
}

/// No fault of a steady program is skipped: the coalescing pass keeps every
/// run of a program whose runs of moves keep their direction.
pub proof fn lemma_steady_skips_nothing(program: Seq<Syntax>, m: Machine, budget: nat)
    requires
        m.wf(),
        steady(program),
    ensures
        !skips_fault(program, m, budget),
    decreases budget, program, 1int,
{
    lemma_steady_within(program, m, budget);
}

} // verus!
