//! The code generator: optimized programs to x86-64 machine code in
//! executable memory.
//!
//! [`assemble`] writes the machine code of a program, which [`encoding`]
//! defines byte for byte. [`generate`] puts that code into executable memory
//! with the `dynasmrt` assembler and returns it as a [`Program`]. Calling
//! the code is left to the caller, who needs `unsafe` for it.
//!
//! In unchecked mode the code holds no bounds checks: a program that moves
//! the pointer off the tape then reads and writes memory that is not its
//! own.

use vstd::prelude::*;
use vstd::slice::slice_subrange;
use crate::common::{BfResult, Error};
use crate::optimized::{optimized_of, OptimizedProgram};

pub mod emitter;
pub mod encoding;

pub use self::emitter::assemble;
use self::encoding::{fits, machine_code, ENTRY};

verus! {

/// `dynasmrt::ExecutableBuffer`, a buffer of executable memory. Of a value
/// of it nothing is known but the bytes that it holds, [`buffer_bytes`].
#[verifier::external_type_specification]
#[verifier::external_body]
pub struct ExExecutableBuffer(dynasmrt::ExecutableBuffer);

/// `dynasmrt::x64::Assembler`, which collects the bytes of the code and
/// moves them into executable memory. Of a value of it nothing is known but
/// the bytes that it has been given, [`assembled`].
#[verifier::external_body]
pub struct Assembly {
    inner: dynasmrt::x64::Assembler,
}

/// The bytes that an assembler has been given since it was made, in order.
pub uninterp spec fn assembled(assembly: Assembly) -> Seq<u8>;

/// The bytes that a buffer of executable memory holds, in order.
pub uninterp spec fn buffer_bytes(buffer: dynasmrt::ExecutableBuffer) -> Seq<u8>;

/// `dynasmrt::Assembler::new`: a new assembler has been given no bytes.
/// `None` stands for the error that it returns when the system gives it no
/// memory.
#[verifier::external_body]
fn new_assembly() -> (result: Option<Assembly>)
    ensures
        result matches Some(assembly) ==> assembled(assembly) == Seq::<u8>::empty(),
{
    match dynasmrt::x64::Assembler::new() {
        Ok(inner) => Some(Assembly { inner }),
        Err(_) => None,
    }
}

/// `Extend::extend` of `dynasmrt::Assembler`: the bytes are appended to
/// those that the assembler has been given.
#[verifier::external_body]
fn extend(assembly: &mut Assembly, bytes: &[u8])
    ensures
        assembled(*final(assembly)) == assembled(*old(assembly)) + bytes@,
{
    assembly.inner.extend(bytes)
}

/// `DynasmApi::offset` of `dynasmrt::Assembler`: the offset of the next
/// byte, which is the number of bytes that the assembler has been given.
#[verifier::external_body]
fn offset(assembly: &Assembly) -> (result: usize)
    ensures
        result == assembled(*assembly).len(),
{
    dynasmrt::DynasmApi::offset(&assembly.inner).0
}

/// `dynasmrt::Assembler::finalize`: the buffer of executable memory that it
/// returns holds the bytes that the assembler has been given. `None` stands
/// for the assembler that it hands back when the buffer is still shared.
/// It panics on a label or a relocation that cannot be resolved, of which
/// this library gives it none, and when the system gives it no memory for
/// the buffer.
#[verifier::external_body]
fn finalize(assembly: Assembly) -> (result: Option<dynasmrt::ExecutableBuffer>)
    ensures
        result matches Some(buffer) ==> buffer_bytes(buffer) == assembled(assembly),
{
    assembly.inner.finalize().ok()
}

/// A program in executable memory.
pub struct Program {
    code: dynasmrt::ExecutableBuffer,
    start: usize,
}

impl Program {
    /// The machine code that the memory holds.
    pub closed spec fn bytes(&self) -> Seq<u8> {
        buffer_bytes(self.code)
    }

    /// The offset in the code of the function's first instruction.
    pub closed spec fn entry(&self) -> int {
        self.start as int
    }

    /// The executable memory.
    pub fn code(&self) -> (code: &dynasmrt::ExecutableBuffer)
        ensures
            buffer_bytes(*code) == self.bytes(),
    {
        &self.code
    }

    /// The offset in the memory at which the function starts.
    pub fn start(&self) -> (start: usize)
        ensures
            start == self.entry(),
    {
        self.start
    }
}

/// Puts machine code into executable memory, with the function's first
/// instruction at `entry`. Returns `None` when `entry` lies behind the end of
/// the code, and when the system gives no memory for it.
pub fn load(code: &Vec<u8>, entry: usize) -> (result: Option<Program>)
    ensures
        entry > code.len() ==> result is None,
        result matches Some(program) ==> program.bytes() == code@ && program.entry() == entry,
{
    if entry > code.len() {
        return None;
    }
    match new_assembly() {
        Some(assembly) => {
            let mut assembly = assembly;
            let bytes = code.as_slice();
            extend(&mut assembly, slice_subrange(bytes, 0, entry));
            let start = offset(&assembly);
            extend(&mut assembly, slice_subrange(bytes, entry, bytes.len()));
            assert(code@.subrange(0, entry as int) + code@.subrange(
                entry as int,
                code.len() as int,
            ) =~= code@);
            seal(finalize(assembly), start)
        },
        None => None,
    }
}

/// The program that a finished assembly makes: the buffer, if there is one,
/// with the offset at which the function starts.
pub fn seal(buffer: Option<dynasmrt::ExecutableBuffer>, start: usize) -> (result: Option<Program>)
    ensures
        result is Some <==> buffer is Some,
        result matches Some(program) ==> program.bytes() == buffer_bytes(buffer->0)
            && program.entry() == start,
{
    match buffer {
        Some(code) => Some(Program { code, start }),
        None => None,
    }
}

/// What the generated function returns when the program ran to its end.
pub const STATUS_DONE: u64 = 0;

/// What the generated function returns after a pointer underflow.
pub const STATUS_UNDERFLOW: u64 = 1;

/// What the generated function returns after a pointer overflow.
pub const STATUS_OVERFLOW: u64 = 2;

/// The result of a run of the generated function, from the status that it
/// returned. `None` for a number that is no status.
pub fn decode_status(status: u64) -> (result: Option<BfResult<()>>)
    ensures
        status == STATUS_DONE ==> result == Some(Ok::<(), Error>(())),
        status == STATUS_UNDERFLOW ==> result == Some(Err::<(), Error>(Error::PointerUnderflow)),
        status == STATUS_OVERFLOW ==> result == Some(Err::<(), Error>(Error::PointerOverflow)),
        status > STATUS_OVERFLOW ==> result is None,
{
    if status == STATUS_DONE {
        Some(Ok(()))
    } else if status == STATUS_UNDERFLOW {
        Some(Err(Error::PointerUnderflow))
    } else if status == STATUS_OVERFLOW {
        Some(Err(Error::PointerOverflow))
    } else {
        None
    }
}

/// Generates the native code of an optimized program, with bounds checks at
/// every move unless `unchecked`.
///
/// The program that is returned holds the machine code of the optimized
/// program and starts at [`ENTRY`]. There is none for a program that has no
/// machine code, and none when the system gives no executable memory.
pub fn generate(program: &OptimizedProgram, unchecked: bool) -> (result: Option<Program>)
    ensures
        !fits(optimized_of(program@), !unchecked) ==> result is None,
        result matches Some(artifact) ==> {
            &&& artifact.bytes() == machine_code(optimized_of(program@), !unchecked)
            &&& artifact.entry() == ENTRY
        },
{
    match assemble(program, unchecked) {
        Some(code) => load(&code, ENTRY),
        None => None,
    }
}

} // verus!
