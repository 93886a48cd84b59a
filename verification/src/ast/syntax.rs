//! What source text means: which bytes count, how deep a text is nested and
//! how a tree is written down.

use vstd::prelude::*;
use crate::common::{command_byte, LOOP_BEGIN, LOOP_END};
use crate::ast::Syntax;

verus! {

/// Whether a byte is one of the eight symbols; every other byte is a comment.
pub open spec fn is_symbol(byte: u8) -> bool {
    byte == 0x3c || byte == 0x3e || byte == 0x2b || byte == 0x2d || byte == 0x2c || byte == 0x2e
        || byte == LOOP_BEGIN || byte == LOOP_END
}

/// Whether a text holds no symbol at all.
pub open spec fn is_comment(text: Seq<u8>) -> bool {
    forall|i: int| 0 <= i < text.len() ==> !is_symbol(#[trigger] text[i])
}

/// By how much a byte changes the nesting depth.
pub open spec fn step_depth(byte: u8) -> int {
    if byte == LOOP_BEGIN {
        1
    } else if byte == LOOP_END {
        -1
    } else {
        0
    }
}

/// The symbols of a text, in order, with the comments left out.
pub open spec fn symbols(text: Seq<u8>) -> Seq<u8>
    decreases text.len(),
{
    if text.len() == 0 {
        Seq::empty()
    } else if is_symbol(text.last()) {
        symbols(text.drop_last()).push(text.last())
    } else {
        symbols(text.drop_last())
    }
}

/// The number of `[` in a text less the number of `]`.
pub open spec fn depth(text: Seq<u8>) -> int
    decreases text.len(),
{
    if text.len() == 0 {
        0
    } else {
        depth(text.drop_last()) + step_depth(text.last())
    }
}

/// Whether some prefix of the text is nested less deeply than `level`.
pub open spec fn dips_below(text: Seq<u8>, level: int) -> bool {
    exists|n: int| 0 <= n <= text.len() && #[trigger] depth(text.take(n)) < level
}

/// Whether the text holds a `]` that closes no earlier `[`.
pub open spec fn has_unmatched_end(text: Seq<u8>) -> bool {
    dips_below(text, 0)
}

/// Whether every bracket of the text has its partner.
pub open spec fn well_nested(text: Seq<u8>) -> bool {
    !has_unmatched_end(text) && depth(text) == 0
}

/// A tree written down in symbols.
pub open spec fn unparse_one(node: Syntax) -> Seq<u8>
    decreases node,
{
    match node {
        Syntax::Op(command) => seq![command_byte(command)],
        Syntax::Loop(body) => seq![LOOP_BEGIN] + unparse(body) + seq![LOOP_END],
    }
}

/// A program written down in symbols: its trees one after the other.
pub open spec fn unparse(program: Seq<Syntax>) -> Seq<u8>
    decreases program,
{
    if program.len() == 0 {
        Seq::empty()
    } else {
        unparse(program.drop_last()) + unparse_one(program.last())
    }
}

/// The symbols of two texts in a row are the symbols of each, in a row.
pub proof fn lemma_symbols_concat(a: Seq<u8>, b: Seq<u8>)
    ensures
        symbols(a + b) == symbols(a) + symbols(b),
    decreases b.len(),
{
    if b.len() == 0 {
        assert(a + b =~= a);
        assert(symbols(a) + symbols(b) =~= symbols(a));
    } else {
        lemma_symbols_concat(a, b.drop_last());
        assert((a + b).drop_last() =~= a + b.drop_last());
        assert((a + b).last() == b.last());
        if is_symbol(b.last()) {
            assert(symbols(a + b) =~= symbols(a) + symbols(b));
        }
    }
}

/// The depth of two texts in a row is the sum of their depths.
pub proof fn lemma_depth_concat(a: Seq<u8>, b: Seq<u8>)
    ensures
        depth(a + b) == depth(a) + depth(b),
    decreases b.len(),
{
    if b.len() == 0 {
        assert(a + b =~= a);
    } else {
        lemma_depth_concat(a, b.drop_last());
        assert((a + b).drop_last() =~= a + b.drop_last());
        assert((a + b).last() == b.last());
    }
}

/// A text of one byte.
pub proof fn lemma_single(byte: u8)
    ensures
        depth(seq![byte]) == step_depth(byte),
        symbols(seq![byte]) == if is_symbol(byte) { seq![byte] } else { Seq::<u8>::empty() },
        !dips_below(seq![byte], if byte == LOOP_END { -1int } else { 0int }),
{
    let text = seq![byte];
    assert(text.drop_last() =~= Seq::<u8>::empty());
    assert(text.last() == byte);
    assert(depth(text.drop_last()) == 0);
    assert(symbols(text.drop_last()) =~= Seq::<u8>::empty());
    if is_symbol(byte) {
        assert(symbols(text) =~= seq![byte]);
    }
    assert forall|n: int| 0 <= n <= text.len() implies #[trigger] depth(text.take(n))
        >= step_depth(byte) - if byte == LOOP_BEGIN { 1int } else { 0int } by {
        if n == 0 {
            assert(text.take(0) =~= Seq::<u8>::empty());
        } else {
            assert(text.take(1) =~= text);
        }
    }
}

/// A comment has no symbols and changes no depth, nor does any prefix of it.
pub proof fn lemma_comment(text: Seq<u8>)
    requires
        is_comment(text),
    ensures
        symbols(text) == Seq::<u8>::empty(),
        depth(text) == 0,
        !dips_below(text, 0),
    decreases text.len(),
{
    if text.len() > 0 {
        lemma_comment(text.drop_last());
        assert(!is_symbol(text[text.len() - 1]));
        assert forall|n: int| 0 <= n <= text.len() implies #[trigger] depth(text.take(n)) >= 0 by {
            if n < text.len() {
                assert(text.take(n) =~= text.drop_last().take(n));
            } else {
                assert(text.take(n) =~= text);
            }
        }
    } else {
        assert forall|n: int| 0 <= n <= text.len() implies #[trigger] depth(text.take(n)) >= 0 by {
            assert(text.take(n) =~= text);
        }
    }
}

/// How deep the prefixes of two texts in a row can fall: as deep as those of
/// the first, or as those of the second below the depth of the first.
pub proof fn lemma_dips_concat(a: Seq<u8>, b: Seq<u8>, floor_a: int, floor_b: int, floor: int)
    requires
        !dips_below(a, floor_a),
        !dips_below(b, floor_b),
        floor <= floor_a,
        floor <= depth(a) + floor_b,
    ensures
        !dips_below(a + b, floor),
        depth(a + b) == depth(a) + depth(b),
{
    lemma_depth_concat(a, b);
    assert forall|n: int| 0 <= n <= (a + b).len() implies #[trigger] depth((a + b).take(n))
        >= floor by {
        if n <= a.len() {
            assert((a + b).take(n) =~= a.take(n));
        } else {
            let m = n - a.len();
            assert((a + b).take(n) =~= a + b.take(m));
            lemma_depth_concat(a, b.take(m));
        }
    }
}

/// A program of one more tree is written as the program and then the tree.
pub proof fn lemma_unparse_push(program: Seq<Syntax>, node: Syntax)
    ensures
        unparse(program.push(node)) == unparse(program) + unparse_one(node),
{
    assert(program.push(node).drop_last() =~= program);
}

} // verus!
