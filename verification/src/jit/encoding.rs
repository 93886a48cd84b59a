//! The machine code of an optimized program, byte for byte.
//!
//! The code is one x86-64 function in the System V calling convention. It
//! takes the address of the first cell in `rdi`, the number of cells in
//! `rsi` and in `rdx` the address of the host linkage: three words, of
//! which the first is handed back to the host on every call, the second is
//! the address of the function that reads a byte (it takes the first word
//! and returns the value for the cell) and the third the address of the
//! function that writes one (it takes the first word and the byte). It
//! returns 0 when the program ran to its end, 1 after a pointer underflow
//! and 2 after a pointer overflow.
//!
//! While it runs, `r12` holds the address of the cell under the pointer,
//! `r13` the address of the first cell, `r14` the address behind the last
//! cell, `r15` the host linkage, and `rbx` and `rbp` the addresses of the
//! two fault exits. No instruction depends on where it stands, but for a
//! loop's two jumps, which are relative to the loop itself.

use vstd::prelude::*;
use vstd::bytes::{spec_u32_to_le_bytes, spec_u64_to_le_bytes};
use crate::optimized::Optimized;

verus! {

/// The largest size of the code of one program: every jump of a loop must
/// fit a signed displacement of 32 bits.
pub const MAX_CODE: usize = 0x7fff_ffff;

/// The offset of the function's first instruction in the code. The fault
/// exits stand before it.
pub const ENTRY: usize = 27;

/// The two's complement of a number in 32 bits.
pub open spec fn low32(value: int) -> u32 {
    if value < 0 {
        (value + 0x1_0000_0000) as u32
    } else {
        value as u32
    }
}

/// The two's complement of a number in 8 bits.
pub open spec fn low8(value: int) -> u8 {
    if value < 0 {
        (value + 0x100) as u8
    } else {
        value as u8
    }
}

/// A signed number of 32 bits as the four bytes of an operand.
pub open spec fn le32(value: int) -> Seq<u8> {
    spec_u32_to_le_bytes(low32(value))
}

/// An unsigned number of 64 bits as the eight bytes of an operand.
pub open spec fn le64(value: int) -> Seq<u8> {
    spec_u64_to_le_bytes(value as u64)
}

/// The fault exits, the common exit and the function's prologue.
///
/// ```text
///  0  mov eax, 1             underflow exit
///  5  jmp 12
///  7  mov eax, 2             overflow exit
/// 12  add rsp, 8             common exit
/// 16  pop r15; pop r14; pop r13; pop r12; pop rbp; pop rbx
/// 26  ret
/// 27  push rbx; push rbp; push r12; push r13; push r14; push r15
/// 37  sub rsp, 8
/// 41  mov r12, rdi
/// 44  mov r13, rdi
/// 47  lea r14, [rdi + rsi]
/// 51  mov r15, rdx
/// 54  lea rbx, [rip - 61]    the underflow exit
/// 61  lea rbp, [rip - 61]    the overflow exit
/// ```
pub open spec fn preamble() -> Seq<u8> {
    seq![
        0xb8u8, 0x01, 0x00, 0x00, 0x00, 0xeb, 0x05, 0xb8, 0x02, 0x00, 0x00, 0x00, 0x48, 0x83,
        0xc4, 0x08, 0x41, 0x5f, 0x41, 0x5e, 0x41, 0x5d, 0x41, 0x5c, 0x5d, 0x5b, 0xc3, 0x53,
        0x55, 0x41, 0x54, 0x41, 0x55, 0x41, 0x56, 0x41, 0x57, 0x48, 0x83, 0xec, 0x08, 0x49,
        0x89, 0xfc, 0x49, 0x89, 0xfd, 0x4c, 0x8d, 0x34, 0x37, 0x49, 0x89, 0xd7, 0x48, 0x8d,
        0x1d, 0xc3, 0xff, 0xff, 0xff, 0x48, 0x8d, 0x2d, 0xc3, 0xff, 0xff, 0xff,
    ]
}

/// The end of a run without a fault.
///
/// ```text
/// xor eax, eax
/// add rsp, 8
/// pop r15; pop r14; pop r13; pop r12; pop rbp; pop rbx
/// ret
/// ```
pub open spec fn epilogue() -> Seq<u8> {
    seq![
        0x31u8, 0xc0, 0x48, 0x83, 0xc4, 0x08, 0x41, 0x5f, 0x41, 0x5e, 0x41, 0x5d, 0x41, 0x5c,
        0x5d, 0x5b, 0xc3,
    ]
}

/// The bounds check behind a move to the right, or before an access to the
/// right of the pointer, with the address to check in `r12` or in `rax`.
///
/// ```text
/// jnc +2; jmp rbp            after a move: the addition did not wrap
/// cmp r12, r14   (or rax)
/// jb +2; jmp rbp
/// ```
pub open spec fn check_right(after_move: bool) -> Seq<u8> {
    if after_move {
        seq![0x73u8, 0x02, 0xff, 0xe5, 0x4d, 0x39, 0xf4, 0x72, 0x02, 0xff, 0xe5]
    } else {
        seq![0x4cu8, 0x39, 0xf0, 0x72, 0x02, 0xff, 0xe5]
    }
}

/// The bounds check behind a move to the left, or before an access to the
/// left of the pointer, with the address to check in `r12` or in `rax`.
///
/// ```text
/// jnc +2; jmp rbx            after a move: the subtraction did not wrap
/// cmp r12, r13   (or rax)
/// jae +2; jmp rbx
/// ```
pub open spec fn check_left(after_move: bool) -> Seq<u8> {
    if after_move {
        seq![0x73u8, 0x02, 0xff, 0xe3, 0x4d, 0x39, 0xec, 0x73, 0x02, 0xff, 0xe3]
    } else {
        seq![0x4cu8, 0x39, 0xe8, 0x73, 0x02, 0xff, 0xe3]
    }
}

/// The code of a move.
///
/// ```text
/// mov rax, |delta|
/// add r12, rax   (sub r12, rax to the left)
/// ```
///
/// and, in checked mode, the bounds check of its direction. A move by
/// nothing has no code.
pub open spec fn encode_move(delta: int, checked: bool) -> Seq<u8> {
    if delta == 0 {
        Seq::empty()
    } else if delta > 0 {
        seq![0x48u8, 0xb8] + le64(delta) + seq![0x49u8, 0x01, 0xc4] + if checked {
            check_right(true)
        } else {
            Seq::empty()
        }
    } else {
        seq![0x48u8, 0xb8] + le64(-delta) + seq![0x49u8, 0x29, 0xc4] + if checked {
            check_left(true)
        } else {
            Seq::empty()
        }
    }
}

/// The code of an addition to a cell.
///
/// ```text
/// add byte [r12 + offset], delta
/// ```
///
/// In checked mode, where the cell is not the one under the pointer, the
/// bounds check of its side stands before it:
///
/// ```text
/// lea rax, [r12 + offset]
/// ```
///
/// and the check of that address.
pub open spec fn encode_add(delta: int, offset: int, checked: bool) -> Seq<u8> {
    let guard = if checked && offset < 0 {
        seq![0x49u8, 0x8d, 0x84, 0x24] + le32(offset) + check_left(false)
    } else if checked && offset > 0 {
        seq![0x49u8, 0x8d, 0x84, 0x24] + le32(offset) + check_right(false)
    } else {
        Seq::empty()
    };
    guard + seq![0x41u8, 0x80, 0x84, 0x24] + le32(offset) + seq![low8(delta)]
}

/// The code of a read.
///
/// ```text
/// mov rdi, [r15]
/// call [r15 + 8]
/// mov [r12], al
/// ```
pub open spec fn encode_input() -> Seq<u8> {
    seq![0x49u8, 0x8b, 0x3f, 0x41, 0xff, 0x57, 0x08, 0x41, 0x88, 0x04, 0x24]
}

/// The code of a write.
///
/// ```text
/// mov rdi, [r15]
/// movzx esi, byte [r12]
/// call [r15 + 16]
/// ```
pub open spec fn encode_output() -> Seq<u8> {
    seq![0x49u8, 0x8b, 0x3f, 0x41, 0x0f, 0xb6, 0x34, 0x24, 0x41, 0xff, 0x57, 0x10]
}

/// The code that stores zero: `mov byte [r12], 0`.
pub open spec fn encode_set_zero() -> Seq<u8> {
    seq![0x41u8, 0xc6, 0x04, 0x24, 0x00]
}

/// The test at the top of a loop, up to the displacement of its jump.
///
/// ```text
/// cmp byte [r12], 0
/// je ...
/// ```
pub open spec fn loop_test() -> Seq<u8> {
    seq![0x41u8, 0x80, 0x3c, 0x24, 0x00, 0x0f, 0x84]
}

/// The code of a loop around a body of this code: the test, which jumps
/// forward over the body and the jump back when the cell is zero, then the
/// body, then the jump back to the test.
pub open spec fn encode_loop(body: Seq<u8>) -> Seq<u8> {
    loop_test() + le32(body.len() as int + 5) + body + seq![0xe9u8] + le32(-(body.len() as int + 16))
}

/// The code of an instruction.
pub open spec fn encode_one(node: Optimized, checked: bool) -> Seq<u8>
    decreases node,
{
    match node {
        Optimized::Move(delta) => encode_move(delta, checked),
        Optimized::Add(delta, offset) => encode_add(delta, offset, checked),
        Optimized::Input => encode_input(),
        Optimized::Output => encode_output(),
        Optimized::SetZero => encode_set_zero(),
        Optimized::Loop(body) => encode_loop(encode(body, checked)),
    }
}

/// The code of a sequence of instructions: the code of each, in order.
pub open spec fn encode(program: Seq<Optimized>, checked: bool) -> Seq<u8>
    decreases program,
{
    if program.len() == 0 {
        Seq::empty()
    } else {
        encode(program.drop_last(), checked) + encode_one(program.last(), checked)
    }
}

/// The code of a whole program.
pub open spec fn machine_code(program: Seq<Optimized>, checked: bool) -> Seq<u8> {
    preamble() + encode(program, checked) + epilogue()
}

/// Whether the numbers of an instruction fit the operands of its code.
pub open spec fn operands_fit_one(node: Optimized) -> bool
    decreases node,
{
    match node {
        Optimized::Move(delta) => -0xffff_ffff_ffff_ffff <= delta <= 0xffff_ffff_ffff_ffff,
        Optimized::Add(delta, offset) => -0x80 <= delta <= 0x7f && -0x8000_0000 <= offset
            <= 0x7fff_ffff,
        Optimized::Loop(body) => operands_fit(body),
        _ => true,
    }
}

/// Whether the numbers of every instruction fit the operands of its code.
pub open spec fn operands_fit(program: Seq<Optimized>) -> bool
    decreases program,
{
    if program.len() == 0 {
        true
    } else {
        operands_fit(program.drop_last()) && operands_fit_one(program.last())
    }
}

/// Whether a program has machine code: its numbers fit their operands and
/// the code is no longer than [`MAX_CODE`].
pub open spec fn fits(program: Seq<Optimized>, checked: bool) -> bool {
    operands_fit(program) && machine_code(program, checked).len() <= MAX_CODE
}

/// A program is at least as long in code as each of its prefixes.
pub proof fn lemma_encode_prefix(program: Seq<Optimized>, n: int, checked: bool)
    requires
        0 <= n <= program.len(),
    ensures
        encode(program.take(n), checked).len() <= encode(program, checked).len(),
        !operands_fit(program.take(n)) ==> !operands_fit(program),
    decreases program.len() - n,
{
    if n == program.len() {
        assert(program.take(n) =~= program);
    } else {
        assert(program.take(n + 1).drop_last() =~= program.take(n));
        lemma_encode_prefix(program, n + 1, checked);
    }
}

/// The code of an instruction does not depend on where it stands: the code
/// of two sequences in a row is the code of each, in a row.
pub proof fn lemma_encode_concat(first: Seq<Optimized>, second: Seq<Optimized>, checked: bool)
    ensures
        encode(first + second, checked) == encode(first, checked) + encode(second, checked),
    decreases second.len(),
{
    if second.len() == 0 {
        assert(first + second =~= first);
        assert(encode(first, checked) + encode(second, checked) =~= encode(first, checked));
    } else {
        lemma_encode_concat(first, second.drop_last(), checked);
        assert((first + second).drop_last() =~= first + second.drop_last());
        assert((first + second).last() == second.last());
        assert(encode(first + second, checked) =~= encode(first, checked) + encode(
            second,
            checked,
        ));
    }
}

/// Whether the two jumps of a loop around a body of this many bytes reach
/// their targets: the displacements of both fit 32 bits with a sign.
pub open spec fn jumps_reach(body: nat) -> bool {
    body + 16 <= 0x8000_0000
}

/// Whether the jumps of every loop of an instruction reach their targets.
pub open spec fn jumps_reach_one(node: Optimized, checked: bool) -> bool
    decreases node,
{
    match node {
        Optimized::Loop(body) => jumps_reach(encode(body, checked).len()) && jumps_reach_all(
            body,
            checked,
        ),
        _ => true,
    }
}

/// Whether the jumps of every loop of a program reach their targets.
pub open spec fn jumps_reach_all(program: Seq<Optimized>, checked: bool) -> bool
    decreases program,
{
    if program.len() == 0 {
        true
    } else {
        jumps_reach_all(program.drop_last(), checked) && jumps_reach_one(program.last(), checked)
    }
}

/// In code of no more than [`MAX_CODE`] bytes every jump of every loop
/// reaches its target.
pub proof fn lemma_jumps_reach(program: Seq<Optimized>, checked: bool)
    requires
        encode(program, checked).len() <= MAX_CODE,
    ensures
        jumps_reach_all(program, checked),
    decreases program,
{
    if program.len() > 0 {
        lemma_jumps_reach(program.drop_last(), checked);
        if let Optimized::Loop(body) = program.last() {
            let inner = encode(body, checked);
            vstd::bytes::lemma_auto_spec_u32_to_from_le_bytes();
            assert(le32(inner.len() as int + 5).len() == 4);
            assert(le32(-(inner.len() as int + 16)).len() == 4);
            assert(encode_one(program.last(), checked) == encode_loop(inner));
            assert(encode_loop(inner).len() == inner.len() + 16);
            lemma_jumps_reach(body, checked);
            assert(jumps_reach_one(program.last(), checked) == (jumps_reach(inner.len())
                && jumps_reach_all(body, checked)));
        } else {
            assert(jumps_reach_one(program.last(), checked));
        }
    }
}

} // verus!
