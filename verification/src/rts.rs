//! The run-time system: the tape, the host's input and output, and the
//! checked execution of an optimized program on them.

use vstd::prelude::*;
use crate::common::{BfResult, Error};
use crate::optimized::{
    lemma_optimized_of_index, optimized_of, OptimizedInstruction, OptimizedProgram,
};
use crate::semantics::{
    cell_read, exec, exec_loop, exec_one, lemma_exec_stops, wrapped, Machine, Outcome,
};

verus! {

/// The number of cells of a tape made by [`TapeRuntime::standard`].
pub const DEFAULT_CAPACITY: usize = 30_000;

/// A tape of byte cells and the pointer into it.
#[derive(Debug)]
pub struct TapeRuntime {
    cells: Vec<u8>,
    pointer: usize,
}

impl TapeRuntime {
    /// The cells of the tape.
    pub closed spec fn cells(&self) -> Seq<u8> {
        self.cells@
    }

    /// The index of the cell under the pointer.
    pub closed spec fn pointer(&self) -> int {
        self.pointer as int
    }

    /// The invariant of a tape: the pointer is on it.
    pub open spec fn wf(&self) -> bool {
        0 <= self.pointer() < self.cells().len()
    }

    /// A tape of `capacity` zeroed cells with the pointer on the first, or
    /// `None` for a tape without cells, which has no place for the pointer.
    pub fn new(capacity: usize) -> (result: Option<TapeRuntime>)
        ensures
            result is Some <==> capacity > 0,
            result matches Some(tape) ==> {
                &&& tape.wf()
                &&& tape.pointer() == 0
                &&& tape.cells() == Seq::new(capacity as nat, |i: int| 0u8)
            },
    {
        if capacity == 0 {
            None
        } else {
            let cells = vec![0u8; capacity];
            assert(cells@ =~= Seq::new(capacity as nat, |i: int| 0u8));
            Some(TapeRuntime { cells, pointer: 0 })
        }
    }

    /// A tape of [`DEFAULT_CAPACITY`] zeroed cells with the pointer on the
    /// first.
    pub fn standard() -> (tape: TapeRuntime)
        ensures
            tape.wf(),
            tape.pointer() == 0,
            tape.cells() == Seq::new(DEFAULT_CAPACITY as nat, |i: int| 0u8),
    {
        let cells = vec![0u8; DEFAULT_CAPACITY];
        assert(cells@ =~= Seq::new(DEFAULT_CAPACITY as nat, |i: int| 0u8));
        TapeRuntime { cells, pointer: 0 }
    }

    /// The number of cells.
    pub fn capacity(&self) -> (capacity: usize)
        ensures
            capacity == self.cells().len(),
    {
        self.cells.len()
    }

    /// The index of the cell under the pointer.
    pub fn position(&self) -> (position: usize)
        ensures
            position == self.pointer(),
    {
        self.pointer
    }

    /// The cells, first to last.
    pub fn contents(&self) -> (cells: &Vec<u8>)
        ensures
            cells@ == self.cells(),
    {
        &self.cells
    }

    /// The value of the cell under the pointer.
    pub fn load(&self) -> (value: u8)
        requires
            self.wf(),
        ensures
            value == self.cells()[self.pointer()],
    {
        self.cells[self.pointer]
    }

    /// Stores `value` in the cell under the pointer.
    pub fn store(&mut self, value: u8)
        requires
            old(self).wf(),
        ensures
            final(self).pointer() == old(self).pointer(),
            final(self).cells() == old(self).cells().update(old(self).pointer(), value),
    {
        let at = self.pointer;
        self.cells.set(at, value);
    }

    /// Moves the pointer by `delta` cells, to the right when positive.
    ///
    /// # Errors
    ///
    /// `PointerUnderflow` when the move would end left of the first cell and
    /// `PointerOverflow` when it would end right of the last. The tape is
    /// then as it was.
    pub fn shift(&mut self, delta: i128) -> (result: BfResult<()>)
        requires
            old(self).wf(),
        ensures
            final(self).cells() == old(self).cells(),
            old(self).pointer() + delta < 0 ==> result == Err::<(), Error>(Error::PointerUnderflow),
            old(self).pointer() + delta >= old(self).cells().len() ==> result == Err::<(), Error>(
                Error::PointerOverflow,
            ),
            result is Err ==> final(self).pointer() == old(self).pointer(),
            0 <= old(self).pointer() + delta < old(self).cells().len() ==> result is Ok
                && final(self).pointer() == old(self).pointer() + delta,
    {
        if delta < 0 {
            if delta < -(self.pointer as i128) {
                return Err(Error::PointerUnderflow);
            }
            self.pointer = (self.pointer as i128 + delta) as usize;
        } else {
            if delta >= (self.cells.len() - self.pointer) as i128 {
                return Err(Error::PointerOverflow);
            }
            self.pointer = self.pointer + delta as usize;
        }
        Ok(())
    }

    /// Adds `delta`, modulo 256, to the cell `offset` cells right of the
    /// pointer. The pointer stays.
    ///
    /// # Errors
    ///
    /// `PointerUnderflow` when that cell would lie left of the first cell
    /// and `PointerOverflow` when it would lie right of the last. The tape
    /// is then as it was.
    pub fn add(&mut self, delta: i8, offset: i32) -> (result: BfResult<()>)
        requires
            old(self).wf(),
        ensures
            final(self).pointer() == old(self).pointer(),
            old(self).pointer() + offset < 0 ==> result == Err::<(), Error>(Error::PointerUnderflow),
            old(self).pointer() + offset >= old(self).cells().len() ==> result == Err::<(), Error>(
                Error::PointerOverflow,
            ),
            result is Err ==> final(self).cells() == old(self).cells(),
            0 <= old(self).pointer() + offset < old(self).cells().len() ==> result is Ok
                && final(self).cells() == old(self).cells().update(
                old(self).pointer() + offset,
                wrapped(old(self).cells()[old(self).pointer() + offset], delta as int),
            ),
    {
        let target: i128 = self.pointer as i128 + offset as i128;
        if target < 0 {
            return Err(Error::PointerUnderflow);
        }
        if target >= self.cells.len() as i128 {
            return Err(Error::PointerOverflow);
        }
        let at = target as usize;
        let sum: i16 = self.cells[at] as i16 + delta as i16;
        let low: i16 = if sum < 0 {
            sum + 256
        } else if sum > 255 {
            sum - 256
        } else {
            sum
        };
        self.cells.set(at, low as u8);
        Ok(())
    }
}

/// The host's side of a run: the bytes that the program may read, and the
/// bytes that it has written.
#[derive(Debug)]
pub struct Host {
    input: Vec<u8>,
    cursor: usize,
    output: Vec<u8>,
}

impl Host {
    /// The bytes that are still to be read.
    pub closed spec fn pending(&self) -> Seq<u8> {
        self.input@.skip(self.cursor as int)
    }

    /// The bytes written so far.
    pub closed spec fn written(&self) -> Seq<u8> {
        self.output@
    }

    /// The invariant of a host: the read position is within the input.
    pub closed spec fn wf(&self) -> bool {
        self.cursor <= self.input.len()
    }

    /// A host that offers `input` and has nothing written.
    pub fn new(input: Vec<u8>) -> (host: Host)
        ensures
            host.wf(),
            host.pending() == input@,
            host.written() == Seq::<u8>::empty(),
    {
        assert(input@.skip(0) =~= input@);
        Host { input, cursor: 0, output: Vec::new() }
    }

    /// Takes the next byte of the input, or `None` at the end of the stream.
    pub fn read_byte(&mut self) -> (byte: Option<u8>)
        requires
            old(self).wf(),
        ensures
            final(self).wf(),
            final(self).written() == old(self).written(),
            match byte {
                Some(byte) => old(self).pending().len() > 0 && byte == old(self).pending()[0]
                    && final(self).pending() == old(self).pending().drop_first(),
                None => old(self).pending().len() == 0 && final(self).pending() == old(
                    self,
                ).pending(),
            },
    {
        if self.cursor < self.input.len() {
            let byte = self.input[self.cursor];
            assert(self.input@.skip(self.cursor as int).drop_first() =~= self.input@.skip(
                self.cursor + 1,
            ));
            self.cursor += 1;
            Some(byte)
        } else {
            None
        }
    }

    /// Appends a byte to the output.
    pub fn write_byte(&mut self, byte: u8)
        ensures
            final(self).wf() == old(self).wf(),
            final(self).pending() == old(self).pending(),
            final(self).written() == old(self).written().push(byte),
    {
        self.output.push(byte);
    }

    /// The bytes written so far.
    pub fn output(&self) -> (output: &Vec<u8>)
        ensures
            output@ == self.written(),
    {
        &self.output
    }
}

/// The value that a read stores in the cell: the byte, or zero at the end of
/// the stream.
pub fn cell_after_read(byte: Option<u8>) -> (cell: u8)
    ensures
        cell == cell_read(byte),
{
    match byte {
        Some(byte) => byte,
        None => 0,
    }
}

/// The machine that a tape and a host make together.
pub open spec fn machine(tape: &TapeRuntime, host: &Host) -> Machine {
    Machine {
        cells: tape.cells(),
        pointer: tape.pointer(),
        input: host.pending(),
        output: host.written(),
    }
}

/// Whether `result` and the machine `after` are what a run with this outcome
/// leaves: the machine at the end of a run that is done, the error and the
/// output of a fault, and `None` when the budget did not suffice.
pub open spec fn reports(outcome: Outcome, result: Option<BfResult<()>>, after: Machine) -> bool {
    match outcome {
        Outcome::Done(m) => result == Some(Ok::<(), Error>(())) && after == m,
        Outcome::Fault(error, output) => result == Some(Err::<(), Error>(error)) && after.output
            == output,
        Outcome::Exhausted => result is None,
    }
}

/// Executes an optimized program on a tape, with pointer bounds checked.
///
/// Returns `Some(Ok(()))` when the program ran to its end, and the tape and
/// the host are then as the program left them. Returns `None` when the
/// budget did not suffice: a loop entered with a budget of `n` may make `n`
/// rounds, and its `k`-th round runs the body with a budget of `n - k`.
///
/// # Errors
///
/// `PointerUnderflow` or `PointerOverflow` at the first instruction that
/// would take the pointer, or the cell that an `Add` names, off the tape.
/// Nothing runs after it: the host holds the output up to then. The cells
/// are not specified.
pub fn run(
    program: &OptimizedProgram,
    tape: &mut TapeRuntime,
    host: &mut Host,
    budget: u64,
) -> (result: Option<BfResult<()>>)
    requires
        old(tape).wf(),
        old(host).wf(),
    ensures
        final(tape).wf(),
        final(host).wf(),
        final(tape).cells().len() == old(tape).cells().len(),
        reports(
            exec(optimized_of(program@), machine(old(tape), old(host)), budget as nat),
            result,
            machine(final(tape), final(host)),
        ),
    decreases budget, program,
{
    let ghost code = optimized_of(program@);
    let ghost start = machine(tape, host);
    let ghost fuel = budget as nat;
    proof {
        lemma_optimized_of_index(program@);
    }
    let mut i: usize = 0;
    while i < program.len()
        invariant
            i <= program.len(),
            code == optimized_of(program@),
            code.len() == program.len(),
            forall|k: int| 0 <= k < program.len() ==> #[trigger] code[k] == program[k]@,
            fuel == budget as nat,
            start == machine(old(tape), old(host)),
            tape.wf(),
            host.wf(),
            tape.cells().len() == start.cells.len(),
            exec(code.take(i as int), start, fuel) == Outcome::Done(machine(tape, host)),
        decreases program.len() - i,
    {
        let ghost before = machine(tape, host);
        proof {
            assert(code.take(i + 1).drop_last() =~= code.take(i as int));
            assert(code.take(i + 1).last() == program[i as int]@);
            assert(exec(code.take(i + 1), start, fuel) == exec_one(program[i as int]@, before, fuel));
        }
        match &program[i] {
            OptimizedInstruction::Move(delta) => {
                match tape.shift(*delta) {
                    Ok(()) => {},
                    Err(error) => {
                        proof {
                            lemma_exec_stops(code, i + 1, start, fuel);
                        }
                        return Some(Err(error));
                    },
                }
            },
            OptimizedInstruction::Add(delta, offset) => {
                match tape.add(*delta, *offset) {
                    Ok(()) => {},
                    Err(error) => {
                        proof {
                            lemma_exec_stops(code, i + 1, start, fuel);
                        }
                        return Some(Err(error));
                    },
                }
            },
            OptimizedInstruction::Input => {
                let byte = host.read_byte();
                tape.store(cell_after_read(byte));
            },
            OptimizedInstruction::Output => {
                host.write_byte(tape.load());
            },
            OptimizedInstruction::SetZero => {
                tape.store(0);
            },
            OptimizedInstruction::Loop(body) => {
                let ghost inner = optimized_of(body@);
                let mut left = budget;
                loop
                    invariant
                        tape.wf(),
                        host.wf(),
                        tape.cells().len() == start.cells.len(),
                        start == machine(old(tape), old(host)),
                        left <= budget,
                        fuel == budget as nat,
                        i < program.len() == code.len(),
                        code == optimized_of(program@),
                        program[i as int] == OptimizedInstruction::Loop(*body),
                        exec(code.take(i + 1), start, fuel) == exec_loop(inner, before, fuel),
                        inner == optimized_of(body@),
                        exec_loop(inner, before, fuel) == exec_loop(
                            inner,
                            machine(tape, host),
                            left as nat,
                        ),
                    ensures
                        tape.wf(),
                        host.wf(),
                        tape.cells().len() == start.cells.len(),
                        exec_loop(inner, before, fuel) == Outcome::Done(machine(tape, host)),
                    decreases left,
                {
                    if tape.load() == 0 {
                        break ;
                    }
                    if left == 0 {
                        proof {
                            lemma_exec_stops(code, i + 1, start, fuel);
                        }
                        return None;
                    }
                    left -= 1;
                    match run(body, tape, host, left) {
                        Some(Ok(())) => {},
                        other => {
                            proof {
                                lemma_exec_stops(code, i + 1, start, fuel);
                            }
                            return other;
                        },
                    }
                }
            },
        }
        i += 1;
    }
    proof {
        assert(code.take(i as int) =~= code);
    }
    Some(Ok(()))
}

} // verus!
