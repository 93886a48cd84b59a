//! An optimizing compiler for an eight-symbol tape language.
//!
//! A program is parsed into a syntax tree ([`ast`]), its runs of moves and of
//! cell arithmetic are merged ([`rle`]), loops with a closed form are
//! rewritten ([`peephole`]) and the result is turned into x86-64 machine code
//! ([`jit`]). [`semantics`] says what each form of a program means, [`rts`]
//! executes the optimized form on a tape, and [`laws`] relates the stages.

pub mod common;
pub mod ast;
pub mod optimized;
pub mod rle;
pub mod peephole;
pub mod semantics;
pub mod rts;
pub mod laws;
pub mod jit;
