//! Concrete syntax to syntax tree.

use vstd::prelude::*;
use crate::common::{command_byte, command_of, BfResult, Command, Error, LOOP_BEGIN, LOOP_END};
use crate::ast::{syntax_of, Instruction, Program};
use crate::ast::syntax::{
    depth, has_unmatched_end, is_comment, is_symbol, lemma_comment, lemma_depth_concat,
    lemma_dips_concat, lemma_single, lemma_symbols_concat, lemma_unparse_push, symbols, unparse,
    unparse_one, well_nested,
};

verus! {

/// Parses source text into a syntax tree.
///
/// Every byte that is not one of the eight symbols is a comment. The text
/// parses exactly when its brackets are well nested, and the tree is then the
/// one that is written with the symbols of the text.
///
/// # Errors
///
/// `UnmatchedEnd` when a `]` closes nothing, whatever follows it; otherwise
/// `UnmatchedBegin` when a `[` is still open at the end of the text.
pub fn parse_program(input: &[u8]) -> (result: BfResult<Program>)
    ensures
        result is Ok <==> well_nested(input@),
        match result {
            Ok(program) => unparse(syntax_of(program@)) == symbols(input@),
            Err(Error::UnmatchedEnd) => has_unmatched_end(input@),
            Err(Error::UnmatchedBegin) => !has_unmatched_end(input@) && depth(input@) > 0,
            Err(_) => false,
        },
{
    let ghost text = input@;
    match parse_instructions(input, 0) {
        Ok((program, rest)) => {
            proof {
                assert(text.subrange(0, text.len() as int) =~= text);
            }
            if rest == input.len() {
                Ok(program)
            } else {
                proof {
                    let end = choose|end: int| closes_at(text, rest as int, end);
                    lemma_close_dips(text, 0, rest as int, end);
                    assert(text.subrange(0, end + 1) =~= text.take(end + 1));
                    assert(depth(text.take(end + 1)) < 0);
                }
                Err(Error::UnmatchedEnd)
            }
        },
        Err(error) => {
            proof {
                assert(text.subrange(0, text.len() as int) =~= text);
            }
            Err(error)
        },
    }
}

/// Whether the first symbol of `text` at or after `from` is a `]`, at `end`.
spec fn closes_at(text: Seq<u8>, from: int, end: int) -> bool {
    &&& from <= end < text.len()
    &&& is_comment(text.subrange(from, end))
    &&& text[end] == LOOP_END
}

/// A well nested stretch, then a comment, then a `]`: that `]` closes nothing.
proof fn lemma_close_dips(text: Seq<u8>, from: int, rest: int, end: int)
    requires
        0 <= from <= rest,
        well_nested(text.subrange(from, rest)),
        closes_at(text, rest, end),
    ensures
        depth(text.subrange(from, end + 1)) == -1,
{
    let body = text.subrange(from, rest);
    let gap = text.subrange(rest, end);
    lemma_comment(gap);
    lemma_single(text[end]);
    lemma_depth_concat(body, gap);
    lemma_depth_concat(body + gap, seq![text[end]]);
    assert(text.subrange(from, end + 1) =~= body + gap + seq![text[end]]);
}

/// A comment, then one symbol that is no bracket.
proof fn lemma_command_stretch(text: Seq<u8>, from: int, at: int)
    requires
        0 <= from <= at < text.len(),
        is_comment(text.subrange(from, at)),
        text[at] != LOOP_BEGIN,
        text[at] != LOOP_END,
    ensures
        well_nested(text.subrange(from, at + 1)),
        symbols(text.subrange(from, at + 1)) == symbols(seq![text[at]]),
{
    let gap = text.subrange(from, at);
    let one = seq![text[at]];
    lemma_comment(gap);
    lemma_single(text[at]);
    lemma_dips_concat(gap, one, 0, 0, 0);
    lemma_symbols_concat(gap, one);
    assert(text.subrange(from, at + 1) =~= gap + one);
    assert(symbols(gap) + symbols(one) =~= symbols(one));
}

/// A comment, a `[`, a well nested body, a comment and a `]` make one loop.
proof fn lemma_loop_stretch(text: Seq<u8>, from: int, open: int, rest: int, close: int)
    requires
        0 <= from <= open < rest <= close < text.len(),
        is_comment(text.subrange(from, open)),
        text[open] == LOOP_BEGIN,
        well_nested(text.subrange(open + 1, rest)),
        is_comment(text.subrange(rest, close)),
        text[close] == LOOP_END,
    ensures
        well_nested(text.subrange(from, close + 1)),
        symbols(text.subrange(from, close + 1)) == seq![LOOP_BEGIN] + symbols(
            text.subrange(open + 1, rest),
        ) + seq![LOOP_END],
{
    let lead = text.subrange(from, open);
    let begin = seq![text[open]];
    let body = text.subrange(open + 1, rest);
    let gap = text.subrange(rest, close);
    let end = seq![text[close]];
    lemma_comment(lead);
    lemma_comment(gap);
    lemma_single(text[open]);
    lemma_single(text[close]);
    lemma_dips_concat(lead, begin, 0, 0, 0);
    lemma_dips_concat(lead + begin, body, 0, 0, 0);
    lemma_dips_concat(lead + begin + body, gap, 0, 0, 0);
    lemma_dips_concat(lead + begin + body + gap, end, 0, -1, 0);
    lemma_symbols_concat(lead, begin);
    lemma_symbols_concat(lead + begin, body);
    lemma_symbols_concat(lead + begin + body, gap);
    lemma_symbols_concat(lead + begin + body + gap, end);
    assert(text.subrange(from, close + 1) =~= lead + begin + body + gap + end);
    assert(symbols(lead) + symbols(begin) + symbols(body) + symbols(gap) + symbols(end)
        =~= seq![LOOP_BEGIN] + symbols(body) + seq![LOOP_END]);
}

/// A comment, a `[` and a rest that never closes it leave the `[` open.
proof fn lemma_open_stretch(text: Seq<u8>, from: int, open: int)
    requires
        0 <= from <= open < text.len(),
        is_comment(text.subrange(from, open)),
        text[open] == LOOP_BEGIN,
        !has_unmatched_end(text.subrange(open + 1, text.len() as int)),
        depth(text.subrange(open + 1, text.len() as int)) >= 0,
    ensures
        !has_unmatched_end(text.subrange(from, text.len() as int)),
        depth(text.subrange(from, text.len() as int)) > 0,
{
    let lead = text.subrange(from, open);
    let begin = seq![text[open]];
    let tail = text.subrange(open + 1, text.len() as int);
    lemma_comment(lead);
    lemma_single(text[open]);
    lemma_dips_concat(lead, begin, 0, 0, 0);
    lemma_dips_concat(lead + begin, tail, 0, 0, 0);
    assert(text.subrange(from, text.len() as int) =~= lead + begin + tail);
}

/// A well nested stretch followed by a comment up to the end of the text.
proof fn lemma_trailing_comment(text: Seq<u8>, from: int, rest: int)
    requires
        0 <= from <= rest <= text.len(),
        well_nested(text.subrange(from, rest)),
        is_comment(text.subrange(rest, text.len() as int)),
    ensures
        well_nested(text.subrange(from, text.len() as int)),
        symbols(text.subrange(from, text.len() as int)) == symbols(text.subrange(from, rest)),
{
    let body = text.subrange(from, rest);
    let gap = text.subrange(rest, text.len() as int);
    lemma_comment(gap);
    lemma_dips_concat(body, gap, 0, 0, 0);
    lemma_symbols_concat(body, gap);
    assert(text.subrange(from, text.len() as int) =~= body + gap);
    assert(symbols(body) + symbols(gap) =~= symbols(body));
}

/// A comment with one more byte that is no symbol is a comment.
proof fn lemma_comment_grows(text: Seq<u8>, from: int, at: int)
    requires
        0 <= from <= at < text.len(),
        is_comment(text.subrange(from, at)),
        !is_symbol(text[at]),
    ensures
        is_comment(text.subrange(from, at + 1)),
{
    let longer = text.subrange(from, at + 1);
    assert forall|i: int| 0 <= i < longer.len() implies !is_symbol(#[trigger] longer[i]) by {
        if i < at - from {
            assert(longer[i] == text.subrange(from, at)[i]);
        }
    }
}

/// Two well nested stretches in a row.
proof fn lemma_next_stretch(text: Seq<u8>, from: int, mid: int, to: int)
    requires
        0 <= from <= mid <= to <= text.len(),
        well_nested(text.subrange(from, mid)),
        well_nested(text.subrange(mid, to)),
    ensures
        well_nested(text.subrange(from, to)),
        symbols(text.subrange(from, to)) == symbols(text.subrange(from, mid)) + symbols(
            text.subrange(mid, to),
        ),
{
    let a = text.subrange(from, mid);
    let b = text.subrange(mid, to);
    lemma_dips_concat(a, b, 0, 0, 0);
    lemma_symbols_concat(a, b);
    assert(text.subrange(from, to) =~= a + b);
}

/// A well nested stretch followed by a rest in which a `[` stays open.
proof fn lemma_open_after(text: Seq<u8>, from: int, mid: int)
    requires
        0 <= from <= mid <= text.len(),
        well_nested(text.subrange(from, mid)),
        !has_unmatched_end(text.subrange(mid, text.len() as int)),
        depth(text.subrange(mid, text.len() as int)) > 0,
    ensures
        !has_unmatched_end(text.subrange(from, text.len() as int)),
        depth(text.subrange(from, text.len() as int)) > 0,
{
    let a = text.subrange(from, mid);
    let b = text.subrange(mid, text.len() as int);
    lemma_dips_concat(a, b, 0, 0, 0);
    assert(text.subrange(from, text.len() as int) =~= a + b);
}

/// Reads one instruction from `input` at `start`, skipping the comment before
/// it, and says where the text goes on. `None` means that only a comment was
/// left.
fn parse_instruction(input: &[u8], start: usize) -> (result: BfResult<(Option<Instruction>, usize)>)
    requires
        start <= input.len(),
    ensures
        match result {
            Ok((None, next)) => next == input.len() && is_comment(
                input@.subrange(start as int, next as int),
            ),
            Ok((Some(instruction), next)) => {
                &&& start < next <= input.len()
                &&& well_nested(input@.subrange(start as int, next as int))
                &&& symbols(input@.subrange(start as int, next as int)) == unparse_one(
                    instruction@,
                )
            },
            Err(Error::UnmatchedEnd) => exists|end: int| closes_at(input@, start as int, end),
            Err(Error::UnmatchedBegin) => {
                &&& !has_unmatched_end(input@.subrange(start as int, input.len() as int))
                &&& depth(input@.subrange(start as int, input.len() as int)) > 0
            },
            Err(_) => false,
        },
    decreases input.len() - start, 0int,
{
    let ghost text = input@;
    let mut pos = start;
    while pos < input.len()
        invariant
            start <= pos <= input.len(),
            text == input@,
            is_comment(text.subrange(start as int, pos as int)),
        decreases input.len() - pos,
    {
        let c = input[pos];
        let ghost at = pos as int;
        pos += 1;
        if let Some(command) = command_of(c) {
            proof {
                lemma_command_stretch(text, start as int, at);
                lemma_single(c);
            }
            return Ok((Some(Instruction::Op(command)), pos));
        } else if c == LOOP_END {
            proof {
                assert(closes_at(text, start as int, at));
            }
            return Err(Error::UnmatchedEnd);
        } else if c == LOOP_BEGIN {
            match parse_instructions(input, pos) {
                Err(error) => {
                    proof {
                        lemma_open_stretch(text, start as int, at);
                    }
                    return Err(error);
                },
                Ok((program, rest)) => {
                    let mut close = rest;
                    let ghost end = if rest == input.len() {
                        text.len() as int
                    } else {
                        choose|end: int| closes_at(text, rest as int, end)
                    };
                    loop
                        invariant
                            text == input@,
                            start <= at < rest,
                            is_comment(text.subrange(start as int, at)),
                            text[at] == LOOP_BEGIN,
                            well_nested(text.subrange(at + 1, rest as int)),
                            symbols(text.subrange(at + 1, rest as int)) == unparse(
                                syntax_of(program@),
                            ),
                            rest <= close <= end <= input.len(),
                            rest < input.len() ==> closes_at(text, rest as int, end),
                            rest == input.len() ==> end == input.len(),
                        decreases input.len() - close,
                    {
                        if close == input.len() {
                            proof {
                                assert(text.subrange(rest as int, text.len() as int).len() == 0);
                                lemma_trailing_comment(text, at + 1, rest as int);
                                lemma_open_stretch(text, start as int, at);
                            }
                            return Err(Error::UnmatchedBegin);
                        }
                        if input[close] == LOOP_END {
                            proof {
                                if close < end {
                                    assert(text.subrange(rest as int, end)[close - rest]
                                        == text[close as int]);
                                }
                                lemma_loop_stretch(
                                    text,
                                    start as int,
                                    at,
                                    rest as int,
                                    close as int,
                                );
                            }
                            return Ok((Some(Instruction::Loop(program)), close + 1));
                        }
                        close += 1;
                    }
                },
            }
        } else {
            proof {
                assert(command_byte(Command::Left) != c && command_byte(Command::Right) != c);
                assert(command_byte(Command::Up) != c && command_byte(Command::Down) != c);
                assert(command_byte(Command::In) != c && command_byte(Command::Out) != c);
                lemma_comment_grows(text, start as int, at);
            }
        }
    }
    Ok((None, pos))
}

/// Reads instructions from `input` at `start` up to the end of the text or to
/// the comment before a `]` that closes nothing read here, and says where it
/// stopped.
fn parse_instructions(input: &[u8], start: usize) -> (result: BfResult<(Program, usize)>)
    requires
        start <= input.len(),
    ensures
        match result {
            Ok((program, rest)) => {
                &&& start <= rest <= input.len()
                &&& well_nested(input@.subrange(start as int, rest as int))
                &&& symbols(input@.subrange(start as int, rest as int)) == unparse(
                    syntax_of(program@),
                )
                &&& rest < input.len() ==> exists|end: int| closes_at(input@, rest as int, end)
            },
            Err(Error::UnmatchedBegin) => {
                &&& !has_unmatched_end(input@.subrange(start as int, input.len() as int))
                &&& depth(input@.subrange(start as int, input.len() as int)) > 0
            },
            Err(_) => false,
        },
    decreases input.len() - start, 1int,
{
    let ghost text = input@;
    let mut instructions: Vec<Instruction> = Vec::new();
    let mut pos = start;
    proof {
        lemma_comment(text.subrange(start as int, start as int));
    }
    loop
        invariant
            text == input@,
            start <= pos <= input.len(),
            well_nested(text.subrange(start as int, pos as int)),
            symbols(text.subrange(start as int, pos as int)) == unparse(
                syntax_of(instructions@),
            ),
        ensures
            pos < input.len() ==> exists|end: int| closes_at(text, pos as int, end),
        decreases input.len() - pos,
    {
        match parse_instruction(input, pos) {
            Ok((Some(instruction), next)) => {
                proof {
                    lemma_next_stretch(text, start as int, pos as int, next as int);
                    lemma_unparse_push(syntax_of(instructions@), instruction@);
                    assert(instructions@.push(instruction).drop_last() =~= instructions@);
                }
                instructions.push(instruction);
                pos = next;
            },
            Ok((None, next)) => {
                proof {
                    lemma_trailing_comment(text, start as int, pos as int);
                }
                pos = next;
                break ;
            },
            Err(Error::UnmatchedBegin) => {
                proof {
                    lemma_open_after(text, start as int, pos as int);
                }
                return Err(Error::UnmatchedBegin);
            },
            _ => {
                break ;
            },
        }
    }
    Ok((instructions, pos))
}

} // verus!
