//! Writes the machine code of a program in one pass, with the forward jump
//! of each loop patched when the loop is closed.

use vstd::prelude::*;
use vstd::bytes::{
    lemma_auto_spec_u32_to_from_le_bytes, spec_u32_to_le_bytes, spec_u64_to_le_bytes,
    u32_to_le_bytes, u64_to_le_bytes,
};
use crate::jit::encoding::{
    encode, encode_add, encode_input, encode_loop, encode_move, encode_one, encode_output,
    encode_set_zero, fits, le32, lemma_encode_prefix, loop_test, machine_code, operands_fit,
    operands_fit_one, preamble, MAX_CODE,
};
use crate::optimized::{
    lemma_optimized_of_index, optimized_of, Optimized, OptimizedInstruction, OptimizedProgram,
};

verus! {

/// The code written so far and the loops that are open in it.
struct Emitter {
    /// The code.
    code: Vec<u8>,
    /// For each open loop, outermost first, the place of the displacement
    /// of its forward jump, which is still to be filled in.
    open: Vec<usize>,
    /// Whether bounds checks are written.
    checked: bool,
}

impl Emitter {
    /// Whether this emitter is `before` with `bytes` written behind its
    /// code, and the same loops open.
    spec fn wrote(&self, before: &Emitter, bytes: Seq<u8>) -> bool {
        &&& self.code@ == before.code@ + bytes
        &&& self.open@ == before.open@
        &&& self.checked == before.checked
    }

    /// An emitter that has written the preamble.
    fn new(checked: bool) -> (emitter: Emitter)
        ensures
            emitter.code@ == preamble(),
            emitter.open@ == Seq::<usize>::empty(),
            emitter.checked == checked,
    {
        let mut emitter = Emitter { code: Vec::new(), open: Vec::new(), checked };
        emitter.put(
            &[
                0xb8, 0x01, 0x00, 0x00, 0x00, 0xeb, 0x05, 0xb8, 0x02, 0x00, 0x00, 0x00, 0x48, 0x83,
                0xc4, 0x08, 0x41, 0x5f, 0x41, 0x5e, 0x41, 0x5d, 0x41, 0x5c, 0x5d, 0x5b, 0xc3, 0x53,
                0x55, 0x41, 0x54, 0x41, 0x55, 0x41, 0x56, 0x41, 0x57, 0x48, 0x83, 0xec, 0x08, 0x49,
                0x89, 0xfc, 0x49, 0x89, 0xfd, 0x4c, 0x8d, 0x34, 0x37, 0x49, 0x89, 0xd7, 0x48, 0x8d,
                0x1d, 0xc3, 0xff, 0xff, 0xff, 0x48, 0x8d, 0x2d, 0xc3, 0xff, 0xff, 0xff,
            ],
        );
        assert(emitter.code@ =~= preamble());
        emitter
    }

    /// Writes bytes.
    fn put(&mut self, bytes: &[u8])
        ensures
            final(self).wrote(old(self), bytes@),
    {
        self.code.extend_from_slice(bytes);
        assert(self.code@ =~= old(self).code@ + bytes@);
    }

    /// Writes an operand of 32 bits.
    fn put32(&mut self, value: u32)
        ensures
            final(self).wrote(old(self), spec_u32_to_le_bytes(value)),
    {
        let bytes = u32_to_le_bytes(value);
        self.code.extend_from_slice(bytes.as_slice());
        assert(self.code@ =~= old(self).code@ + spec_u32_to_le_bytes(value));
    }

    /// Writes an operand of 64 bits.
    fn put64(&mut self, value: u64)
        ensures
            final(self).wrote(old(self), spec_u64_to_le_bytes(value)),
    {
        let bytes = u64_to_le_bytes(value);
        self.code.extend_from_slice(bytes.as_slice());
        assert(self.code@ =~= old(self).code@ + spec_u64_to_le_bytes(value));
    }

    /// Writes a move, unless its distance does not fit an operand.
    fn emit_move(&mut self, delta: i128) -> (ok: bool)
        ensures
            ok == operands_fit_one(Optimized::Move(delta as int)),
            ok ==> final(self).wrote(old(self), encode_move(delta as int, old(self).checked)),
            !ok ==> final(self).wrote(old(self), Seq::empty()),
    {
        let ghost before = *self;
        if delta == 0 {
            assert(self.code@ + Seq::<u8>::empty() =~= self.code@);
            return true;
        }
        if delta > 0xffff_ffff_ffff_ffff || delta < -0xffff_ffff_ffff_ffff {
            assert(self.code@ + Seq::<u8>::empty() =~= self.code@);
            return false;
        }
        // mov rax, |delta|
        self.put(&[0x48, 0xb8]);
        if delta > 0 {
            self.put64(delta as u64);
            // add r12, rax
            self.put(&[0x49, 0x01, 0xc4]);
            if self.checked {
                // jnc +2; jmp rbp; cmp r12, r14; jb +2; jmp rbp
                self.put(&[0x73, 0x02, 0xff, 0xe5, 0x4d, 0x39, 0xf4, 0x72, 0x02, 0xff, 0xe5]);
            }
        } else {
            self.put64((-delta) as u64);
            // sub r12, rax
            self.put(&[0x49, 0x29, 0xc4]);
            if self.checked {
                // jnc +2; jmp rbx; cmp r12, r13; jae +2; jmp rbx
                self.put(&[0x73, 0x02, 0xff, 0xe3, 0x4d, 0x39, 0xec, 0x73, 0x02, 0xff, 0xe3]);
            }
        }
        assert(self.code@ =~= before.code@ + encode_move(delta as int, before.checked));
        true
    }

    /// Writes an addition to a cell.
    fn emit_add(&mut self, delta: i8, offset: i32)
        ensures
            final(self).wrote(
                old(self),
                encode_add(delta as int, offset as int, old(self).checked),
            ),
    {
        let ghost before = *self;
        let place: u32 = if offset < 0 {
            (offset as i64 + 0x1_0000_0000) as u32
        } else {
            offset as u32
        };
        let amount: u8 = if delta < 0 {
            (delta as i16 + 0x100) as u8
        } else {
            delta as u8
        };
        if self.checked && offset < 0 {
            // lea rax, [r12 + offset]
            self.put(&[0x49, 0x8d, 0x84, 0x24]);
            self.put32(place);
            // cmp rax, r13; jae +2; jmp rbx
            self.put(&[0x4c, 0x39, 0xe8, 0x73, 0x02, 0xff, 0xe3]);
        } else if self.checked && offset > 0 {
            // lea rax, [r12 + offset]
            self.put(&[0x49, 0x8d, 0x84, 0x24]);
            self.put32(place);
            // cmp rax, r14; jb +2; jmp rbp
            self.put(&[0x4c, 0x39, 0xf0, 0x72, 0x02, 0xff, 0xe5]);
        }
        // add byte [r12 + offset], delta
        self.put(&[0x41, 0x80, 0x84, 0x24]);
        self.put32(place);
        self.put(&[amount]);
        assert(self.code@ =~= before.code@ + encode_add(
            delta as int,
            offset as int,
            before.checked,
        ));
    }

    /// Writes a read.
    fn emit_input(&mut self)
        ensures
            final(self).wrote(old(self), encode_input()),
    {
        // mov rdi, [r15]; call [r15 + 8]; mov [r12], al
        self.put(&[0x49, 0x8b, 0x3f, 0x41, 0xff, 0x57, 0x08, 0x41, 0x88, 0x04, 0x24]);
        assert(self.code@ =~= old(self).code@ + encode_input());
    }

    /// Writes a write.
    fn emit_output(&mut self)
        ensures
            final(self).wrote(old(self), encode_output()),
    {
        // mov rdi, [r15]; movzx esi, byte [r12]; call [r15 + 16]
        self.put(&[0x49, 0x8b, 0x3f, 0x41, 0x0f, 0xb6, 0x34, 0x24, 0x41, 0xff, 0x57, 0x10]);
        assert(self.code@ =~= old(self).code@ + encode_output());
    }

    /// Writes the store of zero.
    fn emit_set_zero(&mut self)
        ensures
            final(self).wrote(old(self), encode_set_zero()),
    {
        // mov byte [r12], 0
        self.put(&[0x41, 0xc6, 0x04, 0x24, 0x00]);
        assert(self.code@ =~= old(self).code@ + encode_set_zero());
    }

    /// Opens a loop: writes its test with the displacement of the forward
    /// jump left at zero, and notes the place of that displacement.
    fn begin_loop(&mut self)
        ensures
            final(self).code@ == old(self).code@ + loop_test() + seq![0u8, 0u8, 0u8, 0u8],
            final(self).open@ == old(self).open@.push((old(self).code.len() + 7) as usize),
            final(self).checked == old(self).checked,
    {
        // cmp byte [r12], 0; je ...
        self.put(&[0x41, 0x80, 0x3c, 0x24, 0x00, 0x0f, 0x84]);
        let site = self.code.len();
        self.put(&[0x00, 0x00, 0x00, 0x00]);
        self.open.push(site);
        assert(self.code@ =~= old(self).code@ + loop_test() + seq![0u8, 0u8, 0u8, 0u8]);
    }

    /// Closes the innermost open loop: fills in the displacement of its
    /// forward jump, now that the end of the body is known, and writes the
    /// jump back to its test.
    fn end_loop(&mut self)
        requires
            old(self).open.len() > 0,
            old(self).open@.last() + 4 <= old(self).code.len() <= MAX_CODE,
        ensures
            final(self).open@ == old(self).open@.drop_last(),
            final(self).checked == old(self).checked,
            ({
                let site = old(self).open@.last() as int;
                let code = old(self).code@;
                let body = code.len() - site - 4;
                final(self).code@ == code.subrange(0, site) + le32(body + 5) + code.subrange(
                    site + 4,
                    code.len() as int,
                ) + seq![0xe9u8] + le32(-(body + 16))
            }),
    {
        let ghost code = self.code@;
        let site = self.open[self.open.len() - 1];
        self.open.pop();
        let body: usize = self.code.len() - site - 4;
        let forward: u32 = (body as u64 + 5) as u32;
        let back: u32 = (0x1_0000_0000u64 - (body as u64 + 16)) as u32;
        let bytes = u32_to_le_bytes(forward);
        let mut k: usize = 0;
        while k < 4
            invariant
                k <= 4,
                bytes@.len() == 4,
                old(self).open.len() > 0,
                site + 4 <= self.code.len(),
                self.code@.len() == code.len(),
                forall|i: int|
                    0 <= i < code.len() ==> #[trigger] self.code@[i] == if site <= i < site + k {
                        bytes@[i - site]
                    } else {
                        code[i]
                    },
                self.open@ == old(self).open@.drop_last(),
                self.checked == old(self).checked,
            decreases 4 - k,
        {
            self.code.set(site + k, bytes[k]);
            k += 1;
        }
        assert(self.code@ =~= code.subrange(0, site as int) + bytes@ + code.subrange(
            site + 4,
            code.len() as int,
        ));
        // jmp ...
        self.put(&[0xe9]);
        self.put32(back);
    }

    /// Writes one instruction, a loop with its body. Gives up when a
    /// number does not fit its operand or the code grows beyond
    /// [`MAX_CODE`].
    fn emit_one(&mut self, node: &OptimizedInstruction) -> (ok: bool)
        requires
            old(self).code.len() <= MAX_CODE,
        ensures
            ok ==> final(self).wrote(old(self), encode_one(node@, old(self).checked))
                && operands_fit_one(node@),
            !ok ==> {
                ||| !operands_fit_one(node@)
                ||| old(self).code.len() + encode_one(node@, old(self).checked).len() > MAX_CODE
            },
        decreases node,
    {
        match node {
            OptimizedInstruction::Move(delta) => self.emit_move(*delta),
            OptimizedInstruction::Add(delta, offset) => {
                self.emit_add(*delta, *offset);
                true
            },
            OptimizedInstruction::Input => {
                self.emit_input();
                true
            },
            OptimizedInstruction::Output => {
                self.emit_output();
                true
            },
            OptimizedInstruction::SetZero => {
                self.emit_set_zero();
                true
            },
            OptimizedInstruction::Loop(body) => {
                let ghost start = self.code@;
                let ghost inner = encode(optimized_of(body@), self.checked);
                proof {
                    lemma_auto_spec_u32_to_from_le_bytes();
                }
                self.begin_loop();
                if self.code.len() > MAX_CODE {
                    return false;
                }
                if !self.emit_program(body) {
                    return false;
                }
                self.end_loop();
                proof {
                    let whole = start + loop_test() + seq![0u8, 0u8, 0u8, 0u8] + inner;
                    let site = start.len() as int + 7;
                    assert(whole.subrange(0, site) =~= start + loop_test());
                    assert(whole.subrange(site + 4, whole.len() as int) =~= inner);
                    assert(self.code@ =~= start + encode_loop(inner));
                    assert(self.open@ =~= old(self).open@);
                }
                true
            },
        }
    }

    /// Writes a sequence of instructions. Gives up when a number does not
    /// fit its operand or the code grows beyond [`MAX_CODE`].
    fn emit_program(&mut self, program: &Vec<OptimizedInstruction>) -> (ok: bool)
        requires
            old(self).code.len() <= MAX_CODE,
        ensures
            ok ==> {
                &&& final(self).wrote(
                    old(self),
                    encode(optimized_of(program@), old(self).checked),
                )
                &&& final(self).code.len() <= MAX_CODE
                &&& operands_fit(optimized_of(program@))
            },
            !ok ==> {
                ||| !operands_fit(optimized_of(program@))
                ||| old(self).code.len() + encode(optimized_of(program@), old(self).checked).len()
                    > MAX_CODE
            },
        decreases program,
    {
        let ghost before = *self;
        let ghost nodes = optimized_of(program@);
        proof {
            lemma_optimized_of_index(program@);
            assert(self.code@ + Seq::<u8>::empty() =~= self.code@);
        }
        let mut i: usize = 0;
        while i < program.len()
            invariant
                i <= program.len(),
                nodes == optimized_of(program@),
                nodes.len() == program.len(),
                forall|k: int| 0 <= k < program.len() ==> #[trigger] nodes[k] == program[k]@,
                before == *old(self),
                before.code.len() <= MAX_CODE,
                self.wrote(&before, encode(nodes.take(i as int), before.checked)),
                self.code.len() <= MAX_CODE,
                operands_fit(nodes.take(i as int)),
            decreases program.len() - i,
        {
            let ghost start = self.code@;
            proof {
                assert(nodes.take(i + 1).drop_last() =~= nodes.take(i as int));
                assert(nodes.take(i + 1).last() == program[i as int]@);
                lemma_encode_prefix(nodes, i + 1, before.checked);
                assert(encode(nodes.take(i + 1), before.checked) == encode(
                    nodes.take(i as int),
                    before.checked,
                ) + encode_one(program[i as int]@, before.checked));
                assert(operands_fit(nodes.take(i + 1)) == (operands_fit(nodes.take(i as int))
                    && operands_fit_one(program[i as int]@)));
            }
            if !self.emit_one(&program[i]) {
                return false;
            }
            assert(self.code@ =~= before.code@ + encode(nodes.take(i + 1), before.checked));
            if self.code.len() > MAX_CODE {
                return false;
            }
            i += 1;
        }
        proof {
            assert(nodes.take(i as int) =~= nodes);
        }
        true
    }
}

/// Writes the machine code of a program, with bounds checks unless
/// `unchecked`. Returns `None` for a program that has no machine code: one
/// with a move by more than 64 bits can hold, or whose code would be longer
/// than [`MAX_CODE`].
pub fn assemble(program: &OptimizedProgram, unchecked: bool) -> (result: Option<Vec<u8>>)
    ensures
        result is Some <==> fits(optimized_of(program@), !unchecked),
        result matches Some(code) ==> code@ == machine_code(optimized_of(program@), !unchecked),
{
    let mut emitter = Emitter::new(!unchecked);
    if !emitter.emit_program(program) {
        return None;
    }
    emitter.put(
        &[
            0x31, 0xc0, 0x48, 0x83, 0xc4, 0x08, 0x41, 0x5f, 0x41, 0x5e, 0x41, 0x5d, 0x41, 0x5c,
            0x5d, 0x5b, 0xc3,
        ],
    );
    assert(emitter.code@ =~= machine_code(optimized_of(program@), !unchecked));
    if emitter.code.len() > MAX_CODE {
        return None;
    }
    Some(emitter.code)
}

} // verus!
