use bf::ast::parse_program;
use bf::jit::encoding::{ENTRY, MAX_CODE};
use bf::common::Error;
use bf::jit::{
    assemble, decode_status, generate, load, seal, STATUS_DONE, STATUS_OVERFLOW, STATUS_UNDERFLOW,
};
use bf::optimized::OptimizedInstruction;
use bf::optimized::OptimizedInstruction::{Add, Input, Loop, Move, Output, SetZero};
use bf::peephole::optimize;
use bf::rle::coalesce;

const PREAMBLE: [u8; 68] = [
    0xb8, 0x01, 0x00, 0x00, 0x00, 0xeb, 0x05, 0xb8, 0x02, 0x00, 0x00, 0x00, 0x48, 0x83, 0xc4,
    0x08, 0x41, 0x5f, 0x41, 0x5e, 0x41, 0x5d, 0x41, 0x5c, 0x5d, 0x5b, 0xc3, 0x53, 0x55, 0x41,
    0x54, 0x41, 0x55, 0x41, 0x56, 0x41, 0x57, 0x48, 0x83, 0xec, 0x08, 0x49, 0x89, 0xfc, 0x49,
    0x89, 0xfd, 0x4c, 0x8d, 0x34, 0x37, 0x49, 0x89, 0xd7, 0x48, 0x8d, 0x1d, 0xc3, 0xff, 0xff,
    0xff, 0x48, 0x8d, 0x2d, 0xc3, 0xff, 0xff, 0xff,
];

const EPILOGUE: [u8; 17] = [
    0x31, 0xc0, 0x48, 0x83, 0xc4, 0x08, 0x41, 0x5f, 0x41, 0x5e, 0x41, 0x5d, 0x41, 0x5c, 0x5d,
    0x5b, 0xc3,
];

fn body(program: &Vec<OptimizedInstruction>, unchecked: bool) -> Vec<u8> {
    let code = assemble(program, unchecked).unwrap();
    assert_eq!(&code[..PREAMBLE.len()], &PREAMBLE[..]);
    assert_eq!(&code[code.len() - EPILOGUE.len()..], &EPILOGUE[..]);
    code[PREAMBLE.len()..code.len() - EPILOGUE.len()].to_vec()
}

#[test]
fn empty_program_is_preamble_and_epilogue() {
    let code = assemble(&vec![], false).unwrap();
    assert_eq!(code.len(), 85);
    assert_eq!(body(&vec![], false), Vec::<u8>::new());
    assert_eq!(assemble(&vec![], true).unwrap(), code);
    assert_eq!(ENTRY, 27);
    assert_eq!(code[ENTRY], 0x53);
    assert_eq!(MAX_CODE, 0x7fff_ffff);
}

#[test]
fn input_output_and_set_zero_have_fixed_code() {
    assert_eq!(
        body(&vec![Input], false),
        vec![0x49, 0x8b, 0x3f, 0x41, 0xff, 0x57, 0x08, 0x41, 0x88, 0x04, 0x24]
    );
    assert_eq!(
        body(&vec![Output], false),
        vec![0x49, 0x8b, 0x3f, 0x41, 0x0f, 0xb6, 0x34, 0x24, 0x41, 0xff, 0x57, 0x10]
    );
    assert_eq!(body(&vec![SetZero], false), vec![0x41, 0xc6, 0x04, 0x24, 0x00]);
    assert_eq!(body(&vec![SetZero], true), vec![0x41, 0xc6, 0x04, 0x24, 0x00]);
}

#[test]
fn move_right_is_checked_against_the_end_of_the_tape() {
    assert_eq!(
        body(&vec![Move(0x1122334455667788)], false),
        vec![
            0x48, 0xb8, 0x88, 0x77, 0x66, 0x55, 0x44, 0x33, 0x22, 0x11, 0x49, 0x01, 0xc4, 0x73,
            0x02, 0xff, 0xe5, 0x4d, 0x39, 0xf4, 0x72, 0x02, 0xff, 0xe5,
        ]
    );
    assert_eq!(
        body(&vec![Move(3)], true),
        vec![0x48, 0xb8, 3, 0, 0, 0, 0, 0, 0, 0, 0x49, 0x01, 0xc4]
    );
}

#[test]
fn move_left_is_checked_against_the_start_of_the_tape() {
    assert_eq!(
        body(&vec![Move(-2)], false),
        vec![
            0x48, 0xb8, 2, 0, 0, 0, 0, 0, 0, 0, 0x49, 0x29, 0xc4, 0x73, 0x02, 0xff, 0xe3, 0x4d,
            0x39, 0xec, 0x73, 0x02, 0xff, 0xe3,
        ]
    );
    assert_eq!(
        body(&vec![Move(-0xffff_ffff_ffff_ffff)], true),
        vec![0x48, 0xb8, 0xff, 0xff, 0xff, 0xff, 0xff, 0xff, 0xff, 0xff, 0x49, 0x29, 0xc4]
    );
}

#[test]
fn move_by_nothing_has_no_code() {
    assert_eq!(body(&vec![Move(0)], false), Vec::<u8>::new());
    assert_eq!(body(&vec![Move(0)], true), Vec::<u8>::new());
}

#[test]
fn move_that_fits_no_operand_has_no_code() {
    assert_eq!(assemble(&vec![Move(0x1_0000_0000_0000_0000)], false), None);
    assert_eq!(assemble(&vec![Move(-0x1_0000_0000_0000_0000)], true), None);
    assert_eq!(assemble(&vec![Loop(vec![Output, Move(i128::MAX)])], false), None);
    assert!(generate(&vec![Move(i128::MIN)], false).is_none());
    assert!(assemble(&vec![Move(0xffff_ffff_ffff_ffff)], false).is_some());
}

#[test]
fn addition_at_the_pointer_is_not_checked() {
    assert_eq!(
        body(&vec![Add(1, 0)], false),
        vec![0x41, 0x80, 0x84, 0x24, 0, 0, 0, 0, 0x01]
    );
    assert_eq!(
        body(&vec![Add(-1, 0)], false),
        vec![0x41, 0x80, 0x84, 0x24, 0, 0, 0, 0, 0xff]
    );
    assert_eq!(
        body(&vec![Add(-128, 0)], true),
        vec![0x41, 0x80, 0x84, 0x24, 0, 0, 0, 0, 0x80]
    );
}

#[test]
fn addition_beside_the_pointer_is_checked_on_its_side() {
    assert_eq!(
        body(&vec![Add(0x7f, 0x11223344)], false),
        vec![
            0x49, 0x8d, 0x84, 0x24, 0x44, 0x33, 0x22, 0x11, 0x4c, 0x39, 0xf0, 0x72, 0x02, 0xff,
            0xe5, 0x41, 0x80, 0x84, 0x24, 0x44, 0x33, 0x22, 0x11, 0x7f,
        ]
    );
    assert_eq!(
        body(&vec![Add(5, -1)], false),
        vec![
            0x49, 0x8d, 0x84, 0x24, 0xff, 0xff, 0xff, 0xff, 0x4c, 0x39, 0xe8, 0x73, 0x02, 0xff,
            0xe3, 0x41, 0x80, 0x84, 0x24, 0xff, 0xff, 0xff, 0xff, 0x05,
        ]
    );
    assert_eq!(
        body(&vec![Add(5, -1)], true),
        vec![0x41, 0x80, 0x84, 0x24, 0xff, 0xff, 0xff, 0xff, 0x05]
    );
    assert_eq!(
        body(&vec![Add(1, i32::MIN)], true),
        vec![0x41, 0x80, 0x84, 0x24, 0x00, 0x00, 0x00, 0x80, 0x01]
    );
}

#[test]
fn loop_jumps_are_patched_to_its_ends() {
    assert_eq!(
        body(&vec![Loop(vec![])], false),
        vec![
            0x41, 0x80, 0x3c, 0x24, 0x00, 0x0f, 0x84, 5, 0, 0, 0, 0xe9, 0xf0, 0xff, 0xff, 0xff,
        ]
    );
    assert_eq!(
        body(&vec![Loop(vec![SetZero])], false),
        vec![
            0x41, 0x80, 0x3c, 0x24, 0x00, 0x0f, 0x84, 10, 0, 0, 0, 0x41, 0xc6, 0x04, 0x24, 0x00,
            0xe9, 0xeb, 0xff, 0xff, 0xff,
        ]
    );
}

#[test]
fn nested_loops_are_patched_inside_out() {
    let inner = body(&vec![Loop(vec![Output])], true);
    assert_eq!(inner.len(), 28);
    let outer = body(&vec![Loop(vec![Input, Loop(vec![Output]), SetZero])], true);
    let mut expected = vec![0x41, 0x80, 0x3c, 0x24, 0x00, 0x0f, 0x84, 49, 0, 0, 0];
    expected.extend(body(&vec![Input], true));
    expected.extend(inner);
    expected.extend(body(&vec![SetZero], true));
    expected.extend(vec![0xe9, 0xc4, 0xff, 0xff, 0xff]);
    assert_eq!(outer, expected);
}

#[test]
fn code_of_a_sequence_is_the_code_of_its_instructions_in_order() {
    let program = vec![Input, Add(1, 0), Output, Move(3), Move(-2), SetZero];
    for unchecked in [false, true] {
        let mut expected = Vec::new();
        expected.extend(body(&vec![Input], unchecked));
        expected.extend(body(&vec![Add(1, 0)], unchecked));
        expected.extend(body(&vec![Output], unchecked));
        expected.extend(body(&vec![Move(3)], unchecked));
        expected.extend(body(&vec![Move(-2)], unchecked));
        expected.extend(body(&vec![SetZero], unchecked));
        assert_eq!(body(&program, unchecked), expected);
    }
}

#[test]
fn unchecked_code_holds_no_bounds_checks() {
    let program = optimize(&coalesce(&parse_program(b"+[>+<<-]>>.").unwrap()));
    let checked = assemble(&program, false).unwrap();
    let unchecked = assemble(&program, true).unwrap();
    assert_eq!(checked.len() - unchecked.len(), 3 * 11);
}

#[test]
fn generated_program_holds_the_assembled_code() {
    let program = optimize(&coalesce(&parse_program(b",[.[-],]+++[>+<-]").unwrap()));
    for unchecked in [false, true] {
        let code = assemble(&program, unchecked).unwrap();
        let artifact = generate(&program, unchecked).unwrap();
        assert_eq!(&artifact.code()[..], &code[..]);
        assert_eq!(artifact.start(), ENTRY);
        assert_eq!(artifact.code()[artifact.start()], 0x53);
    }
}

#[test]
fn loaded_program_holds_the_code_it_was_given() {
    let code: Vec<u8> = vec![0x90, 0x90, 0xc3, 0x31, 0xc0, 0xc3];
    let artifact = load(&code, 3).unwrap();
    assert_eq!(&artifact.code()[..], &code[..]);
    assert_eq!(artifact.start(), 3);
    let artifact = load(&code, 0).unwrap();
    assert_eq!(artifact.start(), 0);
    let artifact = load(&code, 6).unwrap();
    assert_eq!(&artifact.code()[..], &code[..]);
    assert_eq!(artifact.start(), 6);
}

#[test]
fn entry_behind_the_code_loads_nothing() {
    let code: Vec<u8> = vec![0xc3];
    assert!(load(&code, 2).is_none());
    assert!(load(&code, 1).is_some());
    assert!(load(&vec![], 0).is_some());
    assert!(load(&vec![], 1).is_none());
}

#[test]
fn sealed_program_is_there_when_the_buffer_is() {
    assert!(seal(None, 0).is_none());
    let buffer = dynasmrt::ExecutableBuffer::new(0).unwrap();
    let artifact = seal(Some(buffer), 5).unwrap();
    assert_eq!(artifact.start(), 5);
    assert_eq!(artifact.code().len(), 0);
}

#[test]
fn status_is_decoded_to_the_result_of_the_run() {
    assert_eq!(STATUS_DONE, 0);
    assert_eq!(STATUS_UNDERFLOW, 1);
    assert_eq!(STATUS_OVERFLOW, 2);
    assert_eq!(decode_status(0), Some(Ok(())));
    assert_eq!(decode_status(1), Some(Err(Error::PointerUnderflow)));
    assert_eq!(decode_status(2), Some(Err(Error::PointerOverflow)));
    assert_eq!(decode_status(3), None);
    assert_eq!(decode_status(u64::MAX), None);
}
