//! Laws of the written form of a program: it is well nested, and no two
//! programs are written alike, so the program that a text parses to is the
//! only one that is written with the symbols of the text.

use vstd::prelude::*;
use crate::ast::syntax::{
    depth, lemma_depth_concat, lemma_dips_concat, lemma_single, unparse, unparse_one, well_nested,
};
use crate::ast::Syntax;
use crate::common::{command_byte, LOOP_BEGIN, LOOP_END};

verus! {

/// The written form of a program is well nested.
pub proof fn lemma_unparse_nested(program: Seq<Syntax>)
    ensures
        well_nested(unparse(program)),
    decreases program, 1int,
{
    if program.len() == 0 {
        assert forall|n: int| 0 <= n <= unparse(program).len() implies #[trigger] depth(
            unparse(program).take(n),
        ) >= 0 by {
            assert(unparse(program).take(n) =~= Seq::<u8>::empty());
        }
    } else {
        lemma_unparse_nested(program.drop_last());
        lemma_unparse_one_nested(program.last());
        lemma_dips_concat(unparse(program.drop_last()), unparse_one(program.last()), 0, 0, 0);
    }
}

/// The written form of a tree is well nested and not empty. That of a loop
/// is nested at least once from behind its `[` up to its `]`.
pub proof fn lemma_unparse_one_nested(node: Syntax)
    ensures
        well_nested(unparse_one(node)),
        unparse_one(node).len() >= 1,
        node matches Syntax::Op(command) ==> unparse_one(node).last() == command_byte(command),
        node is Loop ==> unparse_one(node).last() == LOOP_END && unparse_one(node).len() >= 2,
        node is Loop ==> forall|n: int|
            1 <= n < unparse_one(node).len() ==> #[trigger] depth(unparse_one(node).take(n)) >= 1,
    decreases node, 0int,
{
    match node {
        Syntax::Op(command) => {
            lemma_single(command_byte(command));
        },
        Syntax::Loop(body) => {
            let begin = seq![LOOP_BEGIN];
            let inner = unparse(body);
            let end = seq![LOOP_END];
            let text = unparse_one(node);
            lemma_unparse_nested(body);
            lemma_single(LOOP_BEGIN);
            lemma_single(LOOP_END);
            lemma_dips_concat(begin, inner, 0, 0, 0);
            lemma_dips_concat(begin + inner, end, 0, -1, 0);
            assert forall|n: int| 1 <= n < text.len() implies #[trigger] depth(text.take(n))
                >= 1 by {
                assert(text.take(n) =~= begin + inner.take(n - 1));
                lemma_depth_concat(begin, inner.take(n - 1));
            }
        },
    }
}

/// The command that a byte stands for is the only one.
proof fn lemma_command_byte(first: crate::common::Command, second: crate::common::Command)
    requires
        command_byte(first) == command_byte(second),
    ensures
        first == second,
{
}

/// No two programs are written alike.
pub proof fn lemma_unparse_injective(first: Seq<Syntax>, second: Seq<Syntax>)
    requires
        unparse(first) == unparse(second),
    ensures
        first == second,
    decreases first,
{
    let text = unparse(first);
    if first.len() == 0 {
        if second.len() > 0 {
            lemma_unparse_one_nested(second.last());
        }
        assert(first =~= second);
    } else if second.len() == 0 {
        lemma_unparse_one_nested(first.last());
    } else {
        let a = first.drop_last();
        let b = second.drop_last();
        let x = unparse_one(first.last());
        let y = unparse_one(second.last());
        lemma_unparse_one_nested(first.last());
        lemma_unparse_one_nested(second.last());
        assert(text == unparse(a) + x);
        assert(text == unparse(b) + y);
        assert(text.last() == x.last());
        assert(text.last() == y.last());
        match (first.last(), second.last()) {
            (Syntax::Op(c), Syntax::Op(d)) => {
                lemma_command_byte(c, d);
            },
            (Syntax::Loop(inner), Syntax::Loop(other)) => {
                assert(x =~= text.skip(text.len() - x.len()));
                assert(y =~= text.skip(text.len() - y.len()));
                if x.len() < y.len() {
                    lemma_no_loop_behind(y, x, text);
                } else {
                    lemma_no_loop_behind(x, y, text);
                }
                assert(unparse(inner) =~= x.subrange(1, x.len() - 1));
                assert(unparse(other) =~= y.subrange(1, y.len() - 1));
                lemma_unparse_injective(inner, other);
            },
            _ => {},
        }
        assert(unparse(a) =~= text.take(text.len() - x.len()));
        assert(unparse(b) =~= text.take(text.len() - y.len()));
        lemma_unparse_injective(a, b);
        assert(first =~= a.push(first.last()));
        assert(second =~= b.push(second.last()));
    }
}

/// A text that is nested at least once from behind its first byte up to its
/// last, and is at depth zero as a whole, has no shorter end that is at
/// depth zero.
proof fn lemma_no_loop_behind(long: Seq<u8>, short: Seq<u8>, text: Seq<u8>)
    requires
        2 <= short.len() <= long.len() <= text.len(),
        long == text.skip(text.len() - long.len()),
        short == text.skip(text.len() - short.len()),
        depth(long) == 0,
        depth(short) == 0,
        forall|n: int| 1 <= n < long.len() ==> #[trigger] depth(long.take(n)) >= 1,
    ensures
        short.len() == long.len(),
{
    if short.len() < long.len() {
        let n = long.len() - short.len();
        assert(long =~= long.take(n) + short);
        lemma_depth_concat(long.take(n), short);
    }
}

} // verus!
