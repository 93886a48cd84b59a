use bf::ast::{parse_program, Instruction};
use bf::common::{BfResult, Command, Error};
use bf::jit::generate;
use bf::optimized::OptimizedInstruction;
use bf::optimized::OptimizedInstruction::{Add, Input, Loop, Move, Output, SetZero};
use bf::peephole::optimize;
use bf::rle::coalesce;
use bf::rts::{cell_after_read, run, Host, TapeRuntime, DEFAULT_CAPACITY};

const BUDGET: u64 = 1_000_000;

const HELLO_WORLD_SRC: &[u8] = b"++++++[>++++++++++++<-]>.\
      >++++++++++[>++++++++++<-]>+.\
      +++++++..+++.>++++[>+++++++++++<-]>.\
      <+++[>----<-]>.<<<<<+++[>+++++<-]>.\
      >>.+++.------.--------.>>+.";

fn assert_interpret_result(
    program: &Vec<OptimizedInstruction>,
    input: &[u8],
    output: BfResult<&[u8]>,
) {
    let mut tape = TapeRuntime::standard();
    let mut host = Host::new(input.to_vec());
    let result = run(program, &mut tape, &mut host, BUDGET);
    match output {
        Ok(bytes) => {
            assert_eq!(result, Some(Ok(())));
            assert_eq!(host.output().as_slice(), bytes);
        }
        Err(error) => assert_eq!(result, Some(Err(error))),
    }
}

fn assert_parse_interpret(program: &[u8], input: &str, output: BfResult<&str>) {
    let program = parse_program(program).unwrap();
    let program = coalesce(&program);
    let program = optimize(&program);
    assert!(generate(&program, false).is_some());
    assert_interpret_result(&program, input.as_bytes(), output.map(|s| s.as_bytes()));
}

#[test]
fn move_right_once() {
    assert_parse_interpret(b">", "", Ok(""));
}

#[test]
fn move_left_once() {
    assert_parse_interpret(b"<", "", Err(Error::PointerUnderflow));
}

#[test]
fn move_right_forever() {
    assert_parse_interpret(b"+[>+]", "", Err(Error::PointerOverflow));
}

#[test]
fn echo_one_byte() {
    assert_parse_interpret(b",.", "A", Ok("A"));
}

#[test]
fn inc_echo_one_byte() {
    assert_parse_interpret(b",+.", "A", Ok("B"));
}

#[test]
fn hello_world() {
    assert_parse_interpret(HELLO_WORLD_SRC, "", Ok("Hello, World!"));
}

#[test]
fn empty_program_writes_nothing() {
    assert_parse_interpret(b"", "", Ok(""));
    assert_parse_interpret(b"", "ignored", Ok(""));
}

#[test]
fn zeroed_cell_is_written_as_zero() {
    assert_parse_interpret(b"+++[-].", "", Ok("\0"));
}

#[test]
fn move_right_forever_stops_at_the_capacity() {
    let program = optimize(&coalesce(&parse_program(b"+[>+]").unwrap()));
    let mut tape = TapeRuntime::new(5).unwrap();
    let mut host = Host::new(vec![]);
    assert_eq!(run(&program, &mut tape, &mut host, BUDGET), Some(Err(Error::PointerOverflow)));
    assert_eq!(tape.position(), 4);
    assert_eq!(tape.capacity(), 5);
}

#[test]
fn underflow_stops_the_run_at_the_move() {
    let program = vec![Add(65, 0), Output, Move(-1), Output, Add(1, 0)];
    let mut tape = TapeRuntime::new(4).unwrap();
    let mut host = Host::new(vec![]);
    assert_eq!(run(&program, &mut tape, &mut host, BUDGET), Some(Err(Error::PointerUnderflow)));
    assert_eq!(host.output(), &vec![65u8]);
    assert_eq!(tape.contents(), &vec![65u8, 0, 0, 0]);
    assert_eq!(tape.position(), 0);
}

#[test]
fn overflow_stops_the_run_at_the_move() {
    let program = vec![Move(3), Output, Move(1), Output];
    let mut tape = TapeRuntime::new(4).unwrap();
    let mut host = Host::new(vec![]);
    assert_eq!(run(&program, &mut tape, &mut host, BUDGET), Some(Err(Error::PointerOverflow)));
    assert_eq!(host.output(), &vec![0u8]);
    assert_eq!(tape.position(), 3);
}

#[test]
fn move_by_more_than_the_tape_faults_on_its_side() {
    let mut tape = TapeRuntime::new(4).unwrap();
    let mut host = Host::new(vec![]);
    assert_eq!(
        run(&vec![Move(i128::MAX)], &mut tape, &mut host, 0),
        Some(Err(Error::PointerOverflow))
    );
    assert_eq!(
        run(&vec![Move(i128::MIN)], &mut tape, &mut host, 0),
        Some(Err(Error::PointerUnderflow))
    );
    assert_eq!(run(&vec![Move(3), Move(-3)], &mut tape, &mut host, 0), Some(Ok(())));
    assert_eq!(tape.position(), 0);
}

#[test]
fn zeroing_loop_and_set_zero_leave_zero_from_every_value() {
    for delta in [1i8, -1] {
        for value in [0u8, 1, 127, 255] {
            let mut looped = TapeRuntime::new(3).unwrap();
            let mut direct = TapeRuntime::new(3).unwrap();
            looped.store(value);
            direct.store(value);
            let mut host = Host::new(vec![]);
            let budget = if value == 0 { 0 } else { 255 };
            assert_eq!(
                run(&vec![Loop(vec![Add(delta, 0)])], &mut looped, &mut host, budget),
                Some(Ok(()))
            );
            assert_eq!(run(&vec![SetZero], &mut direct, &mut host, 0), Some(Ok(())));
            assert_eq!(looped.contents(), &vec![0u8, 0, 0]);
            assert_eq!(direct.contents(), &vec![0u8, 0, 0]);
            assert_eq!(looped.position(), 0);
            assert_eq!(host.output().len(), 0);
        }
    }
}

#[test]
fn zeroing_loop_needs_a_round_for_each_step() {
    let mut tape = TapeRuntime::new(1).unwrap();
    let mut host = Host::new(vec![]);
    tape.store(200);
    assert_eq!(run(&vec![Loop(vec![Add(-1, 0)])], &mut tape, &mut host, 199), None);
    let mut tape = TapeRuntime::new(1).unwrap();
    tape.store(200);
    assert_eq!(run(&vec![Loop(vec![Add(-1, 0)])], &mut tape, &mut host, 200), Some(Ok(())));
    assert_eq!(tape.load(), 0);
}

#[test]
fn endless_loop_exhausts_every_budget() {
    let program = vec![Add(1, 0), Loop(vec![])];
    for budget in [0u64, 1, 10, 1000] {
        let mut tape = TapeRuntime::new(1).unwrap();
        let mut host = Host::new(vec![]);
        assert_eq!(run(&program, &mut tape, &mut host, budget), None);
    }
}

#[test]
fn cell_arithmetic_wraps() {
    let mut tape = TapeRuntime::new(2).unwrap();
    assert_eq!(tape.add(-1, 0), Ok(()));
    assert_eq!(tape.load(), 255);
    assert_eq!(tape.add(1, 0), Ok(()));
    assert_eq!(tape.load(), 0);
    assert_eq!(tape.add(127, 0), Ok(()));
    assert_eq!(tape.add(127, 0), Ok(()));
    assert_eq!(tape.add(3, 0), Ok(()));
    assert_eq!(tape.load(), 1);
    assert_eq!(tape.add(-128, 1), Ok(()));
    assert_eq!(tape.contents(), &vec![1u8, 128]);
    assert_eq!(tape.position(), 0);
}

#[test]
fn addition_off_the_tape_faults_and_changes_nothing() {
    let mut tape = TapeRuntime::new(2).unwrap();
    assert_eq!(tape.add(1, -1), Err(Error::PointerUnderflow));
    assert_eq!(tape.add(1, 2), Err(Error::PointerOverflow));
    assert_eq!(tape.add(1, i32::MIN), Err(Error::PointerUnderflow));
    assert_eq!(tape.add(1, i32::MAX), Err(Error::PointerOverflow));
    assert_eq!(tape.contents(), &vec![0u8, 0]);
    assert_eq!(tape.shift(1), Ok(()));
    assert_eq!(tape.add(7, -1), Ok(()));
    assert_eq!(tape.add(1, 1), Err(Error::PointerOverflow));
    assert_eq!(tape.contents(), &vec![7u8, 0]);
}

#[test]
fn shift_moves_within_the_tape_only() {
    let mut tape = TapeRuntime::new(10).unwrap();
    assert_eq!(tape.shift(9), Ok(()));
    assert_eq!(tape.position(), 9);
    assert_eq!(tape.shift(1), Err(Error::PointerOverflow));
    assert_eq!(tape.position(), 9);
    assert_eq!(tape.shift(-9), Ok(()));
    assert_eq!(tape.position(), 0);
    assert_eq!(tape.shift(-1), Err(Error::PointerUnderflow));
    assert_eq!(tape.shift(10), Err(Error::PointerOverflow));
    assert_eq!(tape.shift(0), Ok(()));
    assert_eq!(tape.position(), 0);
}

#[test]
fn new_tape_is_zeroed_with_the_pointer_at_the_start() {
    assert!(TapeRuntime::new(0).is_none());
    let tape = TapeRuntime::new(3).unwrap();
    assert_eq!(tape.capacity(), 3);
    assert_eq!(tape.position(), 0);
    assert_eq!(tape.contents(), &vec![0u8, 0, 0]);
    let tape = TapeRuntime::standard();
    assert_eq!(tape.capacity(), DEFAULT_CAPACITY);
    assert_eq!(tape.capacity(), 30_000);
    assert_eq!(tape.position(), 0);
    assert!(tape.contents().iter().all(|cell| *cell == 0));
}

#[test]
fn host_reads_in_order_and_then_the_end_of_the_stream() {
    let mut host = Host::new(vec![1, 2]);
    assert_eq!(host.read_byte(), Some(1));
    assert_eq!(host.read_byte(), Some(2));
    assert_eq!(host.read_byte(), None);
    assert_eq!(host.read_byte(), None);
    host.write_byte(9);
    host.write_byte(8);
    assert_eq!(host.output(), &vec![9u8, 8]);
    assert_eq!(cell_after_read(Some(7)), 7);
    assert_eq!(cell_after_read(None), 0);
}

#[test]
fn read_at_the_end_of_the_stream_stores_zero() {
    let program = vec![Add(5, 0), Input, Output, Input, Output];
    assert_interpret_result(&program, b"x", Ok(b"x\0"));
}

#[test]
fn copy_input_to_output() {
    assert_parse_interpret(b",[.,]", "copy me", Ok("copy me"));
    assert_parse_interpret(b">,[>,]<[.<]", "abc", Ok("cba"));
}

fn lower(program: &Vec<Instruction>) -> Vec<OptimizedInstruction> {
    let mut lowered = Vec::new();
    for instruction in program {
        lowered.push(match instruction {
            Instruction::Op(Command::Left) => Move(-1),
            Instruction::Op(Command::Right) => Move(1),
            Instruction::Op(Command::Up) => Add(1, 0),
            Instruction::Op(Command::Down) => Add(-1, 0),
            Instruction::Op(Command::In) => Input,
            Instruction::Op(Command::Out) => Output,
            Instruction::Loop(body) => Loop(lower(body)),
        });
    }
    lowered
}

fn outcome(
    program: &Vec<OptimizedInstruction>,
    capacity: usize,
    input: &[u8],
) -> (Option<BfResult<()>>, Vec<u8>) {
    let mut tape = TapeRuntime::new(capacity).unwrap();
    let mut host = Host::new(input.to_vec());
    let result = run(program, &mut tape, &mut host, BUDGET);
    (result, host.output().clone())
}

#[test]
fn optimized_programs_do_what_the_programs_do() {
    let sources: [&[u8]; 12] = [
        b"",
        b",.",
        b",+.",
        b"+++[-].",
        b"+[>+]",
        b"<",
        b">>>.<<<<.",
        b",[.,]",
        b",>,<[->+<]>.",
        b"++++[>++++[>++++<-]<-]>>+.",
        b",[->+>+<<]>>[-<<+>>]<.<.",
        HELLO_WORLD_SRC,
    ];
    let inputs: [&[u8]; 4] = [b"", b"A", b"\x03\x04", b"hello"];
    for source in sources {
        let program = parse_program(source).unwrap();
        let direct = lower(&program);
        let optimized = optimize(&coalesce(&program));
        for input in inputs {
            for capacity in [1usize, 2, 3, 300] {
                assert_eq!(
                    outcome(&optimized, capacity, input),
                    outcome(&direct, capacity, input)
                );
            }
        }
    }
}

#[test]
fn merged_moves_skip_the_fault_on_the_way() {
    let program = parse_program(b"<>.").unwrap();
    assert_eq!(outcome(&lower(&program), 4, b""), (Some(Err(Error::PointerUnderflow)), vec![]));
    assert_eq!(outcome(&optimize(&coalesce(&program)), 4, b""), (Some(Ok(())), vec![0]));
}
