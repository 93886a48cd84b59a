use bf::ast::{parse_program, Instruction};
use bf::common::Command;
use bf::optimized::OptimizedInstruction;
use bf::optimized::OptimizedInstruction::{Add, Input, Loop, Move, Output, SetZero};
use bf::peephole::optimize;
use bf::rle::coalesce;

fn coalesced(source: &str) -> Vec<OptimizedInstruction> {
    coalesce(&parse_program(source.as_bytes()).unwrap())
}

fn repeat(command: Command, count: usize) -> Vec<Instruction> {
    let mut program = Vec::new();
    for _ in 0..count {
        program.push(Instruction::Op(command));
    }
    program
}

#[test]
fn empty_program_coalesces_to_nothing() {
    assert_eq!(coalesced(""), vec![]);
}

#[test]
fn single_commands_coalesce_to_unit_instructions() {
    assert_eq!(coalesced(">"), vec![Move(1)]);
    assert_eq!(coalesced("<"), vec![Move(-1)]);
    assert_eq!(coalesced("+"), vec![Add(1, 0)]);
    assert_eq!(coalesced("-"), vec![Add(-1, 0)]);
    assert_eq!(coalesced(","), vec![Input]);
    assert_eq!(coalesced("."), vec![Output]);
}

#[test]
fn run_of_moves_coalesces_to_its_count() {
    for count in 1..40usize {
        assert_eq!(coalesce(&repeat(Command::Right, count)), vec![Move(count as i128)]);
        assert_eq!(coalesce(&repeat(Command::Left, count)), vec![Move(-(count as i128))]);
    }
    assert_eq!(coalesce(&repeat(Command::Right, 100_000)), vec![Move(100_000)]);
}

#[test]
fn run_of_arithmetic_coalesces_to_its_count_modulo_256() {
    assert_eq!(coalesce(&repeat(Command::Up, 3)), vec![Add(3, 0)]);
    assert_eq!(coalesce(&repeat(Command::Down, 3)), vec![Add(-3, 0)]);
    assert_eq!(coalesce(&repeat(Command::Up, 127)), vec![Add(127, 0)]);
    assert_eq!(coalesce(&repeat(Command::Up, 128)), vec![Add(-128, 0)]);
    assert_eq!(coalesce(&repeat(Command::Up, 255)), vec![Add(-1, 0)]);
    assert_eq!(coalesce(&repeat(Command::Up, 300)), vec![Add(44, 0)]);
    assert_eq!(coalesce(&repeat(Command::Down, 300)), vec![Add(-44, 0)]);
    assert_eq!(coalesce(&repeat(Command::Down, 128)), vec![Add(-128, 0)]);
    assert_eq!(coalesce(&repeat(Command::Down, 129)), vec![Add(127, 0)]);
}

#[test]
fn run_that_comes_to_nothing_is_dropped() {
    assert_eq!(coalesced("<>"), vec![]);
    assert_eq!(coalesced("+-"), vec![]);
    assert_eq!(coalesced("><><+-+-."), vec![Output]);
    assert_eq!(coalesce(&repeat(Command::Up, 256)), vec![]);
    assert_eq!(coalesce(&repeat(Command::Down, 512)), vec![]);
}

#[test]
fn mixed_directions_coalesce_to_the_net_delta() {
    assert_eq!(coalesced(">>><"), vec![Move(2)]);
    assert_eq!(coalesced("<<>"), vec![Move(-1)]);
    assert_eq!(coalesced("++-+"), vec![Add(2, 0)]);
    assert_eq!(coalesced("--+"), vec![Add(-1, 0)]);
}

#[test]
fn runs_end_at_other_commands() {
    assert_eq!(coalesced(">>++<<--"), vec![Move(2), Add(2, 0), Move(-2), Add(-2, 0)]);
    assert_eq!(coalesced("++.++"), vec![Add(2, 0), Output, Add(2, 0)]);
    assert_eq!(coalesced(">>,>>"), vec![Move(2), Input, Move(2)]);
    assert_eq!(coalesced(">+-<"), vec![Move(1), Move(-1)]);
    assert_eq!(coalesced("+<>+"), vec![Add(1, 0), Add(1, 0)]);
}

#[test]
fn runs_end_at_loops_and_loop_bodies_are_coalesced() {
    assert_eq!(
        coalesced("++[>>++<<-]++"),
        vec![
            Add(2, 0),
            Loop(vec![Move(2), Add(2, 0), Move(-2), Add(-1, 0)]),
            Add(2, 0),
        ]
    );
    assert_eq!(coalesced("[[++]]"), vec![Loop(vec![Loop(vec![Add(2, 0)])])]);
    assert_eq!(coalesced("[]"), vec![Loop(vec![])]);
    assert_eq!(coalesced("[+-]"), vec![Loop(vec![])]);
}

#[test]
fn zeroing_loop_becomes_set_zero() {
    assert_eq!(optimize(&vec![Loop(vec![Add(-1, 0)])]), vec![SetZero]);
    assert_eq!(optimize(&vec![Loop(vec![Add(1, 0)])]), vec![SetZero]);
    assert_eq!(optimize(&coalesced("+++[-].")), vec![Add(3, 0), SetZero, Output]);
    assert_eq!(optimize(&coalesced("[+]")), vec![SetZero]);
}

#[test]
fn other_loops_stay_loops() {
    assert_eq!(optimize(&vec![Loop(vec![])]), vec![Loop(vec![])]);
    assert_eq!(optimize(&vec![Loop(vec![Add(2, 0)])]), vec![Loop(vec![Add(2, 0)])]);
    assert_eq!(optimize(&vec![Loop(vec![Add(-1, 1)])]), vec![Loop(vec![Add(-1, 1)])]);
    assert_eq!(optimize(&vec![Loop(vec![Add(-1, 0), Output])]), vec![Loop(vec![Add(-1, 0), Output])]);
    assert_eq!(optimize(&vec![Loop(vec![Input])]), vec![Loop(vec![Input])]);
    assert_eq!(optimize(&vec![Loop(vec![Move(1)])]), vec![Loop(vec![Move(1)])]);
    assert_eq!(optimize(&vec![Loop(vec![SetZero])]), vec![Loop(vec![SetZero])]);
    assert_eq!(
        optimize(&vec![Loop(vec![Loop(vec![Add(-1, 0)])])]),
        vec![Loop(vec![SetZero])]
    );
}

#[test]
fn instructions_that_are_no_loops_are_kept() {
    let program = vec![Move(7), Add(-3, 2), Input, Output, SetZero, Move(-7)];
    assert_eq!(optimize(&program), vec![Move(7), Add(-3, 2), Input, Output, SetZero, Move(-7)]);
}

#[test]
fn optimizing_twice_is_optimizing_once() {
    let sources = [
        "",
        "+++[-].",
        "[[-]]",
        "[[[-]>[+]<]]",
        "++[>+<-]>[-]",
        ",[.[-],]",
        "[-][-][+]",
        "[->+<]",
    ];
    for source in sources {
        let once = optimize(&coalesced(source));
        let twice = optimize(&once);
        assert_eq!(twice, once);
    }
}
