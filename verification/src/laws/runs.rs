//! Laws of the coalescing pass on a run of one command.

use vstd::prelude::*;
use crate::ast::Syntax;
use crate::common::Command;
use crate::optimized::Optimized;
use crate::rle::{change_of, coalesce_spec, move_of, scan, wrap8, Run, Scan};

verus! {

/// The program that repeats one command `count` times.
pub open spec fn repeat(command: Command, count: nat) -> Seq<Syntax> {
    Seq::new(count, |i: int| Syntax::Op(command))
}

/// A scan of `count` moves in one direction is in a run whose net
/// displacement is their number, negative to the left.
proof fn lemma_scan_moves(command: Command, count: nat)
    requires
        command == Command::Left || command == Command::Right,
        count > 0,
    ensures
        scan(repeat(command, count)) == (Scan {
            done: Seq::empty(),
            run: Run::Moving(count * move_of(command)),
        }),
    decreases count,
{
    let front = (count - 1) as nat;
    assert(repeat(command, count).drop_last() =~= repeat(command, front));
    assert(repeat(command, count).last() == Syntax::Op(command));
    let unit = move_of(command);
    assert(count * unit == front * unit + unit) by (nonlinear_arith)
        requires
            count == front + 1,
    ;
    if front > 0 {
        lemma_scan_moves(command, front);
    } else {
        assert(scan(repeat(command, front)) == (Scan { done: Seq::empty(), run: Run::Idle }));
    }
}

/// A scan of `count` steps on a cell in one direction is in a run whose net
/// change is their number modulo 256, negative for steps down.
proof fn lemma_scan_changes(command: Command, count: nat)
    requires
        command == Command::Up || command == Command::Down,
        count > 0,
    ensures
        scan(repeat(command, count)) == (Scan {
            done: Seq::empty(),
            run: Run::Adding(wrap8(count * change_of(command))),
        }),
    decreases count,
{
    let front = (count - 1) as nat;
    assert(repeat(command, count).drop_last() =~= repeat(command, front));
    assert(repeat(command, count).last() == Syntax::Op(command));
    let unit = change_of(command);
    assert(count * unit == front * unit + unit) by (nonlinear_arith)
        requires
            count == front + 1,
    ;
    if front > 0 {
        lemma_scan_changes(command, front);
    } else {
        assert(scan(repeat(command, front)) == (Scan { done: Seq::empty(), run: Run::Idle }));
    }
}

/// A run of `count` moves in one direction coalesces to one `Move` by
/// `count`, negative to the left.
pub proof fn lemma_coalesce_moves(command: Command, count: nat)
    requires
        command == Command::Left || command == Command::Right,
        count > 0,
    ensures
        coalesce_spec(repeat(command, count)) == seq![
            Optimized::Move(count * move_of(command)),
        ],
{
    lemma_scan_moves(command, count);
    assert(Seq::<Optimized>::empty().push(Optimized::Move(count * move_of(command))) =~= seq![
        Optimized::Move(count * move_of(command)),
    ]);
}

/// A run of `count` steps on a cell in one direction coalesces to one `Add`
/// at the pointer whose delta is `count` modulo 256 as a signed byte,
/// negative for steps down; a run that comes to a multiple of 256 leaves no
/// instruction.
pub proof fn lemma_coalesce_changes(command: Command, count: nat)
    requires
        command == Command::Up || command == Command::Down,
        count > 0,
    ensures
        coalesce_spec(repeat(command, count)) == if wrap8(count * change_of(command)) == 0 {
            Seq::<Optimized>::empty()
        } else {
            seq![Optimized::Add(wrap8(count * change_of(command)), 0)]
        },
{
    lemma_scan_changes(command, count);
    let net = wrap8(count * change_of(command));
    assert(Seq::<Optimized>::empty().push(Optimized::Add(net, 0)) =~= seq![Optimized::Add(net, 0)]);
}

} // verus!
