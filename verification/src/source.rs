//! The source text of a program, and that parsing it gives the program
//! back.

use crate::parser::{
    close_all, close_innermost, fed, feed, parsed, plain_op, ParserError, CLOSE, DECREMENT,
    INCREMENT, INPUT, LEFT, OPEN, OUTPUT, RIGHT,
};
use crate::vm::Op;
use vstd::prelude::*;

verus! {

/// The instructions that a source text can stand for: the six that a
/// character stands for, and loops of them.
pub open spec fn is_written(op: Op) -> bool
    decreases op,
{
    match op {
        Op::Add(value, offset) => offset == 0 && (value == 1 || value == 255),
        Op::Move(offset) => offset == 1 || offset == -1,
        Op::Write(offset) => offset == 0,
        Op::Read(offset) => offset == 0,
        Op::Loop(body) => forall|i: int| 0 <= i < body.len() ==> is_written(#[trigger] body[i]),
        Op::Assign(_, _) => false,
    }
}

/// A program of instructions that a source text can stand for.
pub open spec fn all_written(code: Seq<Op>) -> bool {
    forall|i: int| 0 <= i < code.len() ==> is_written(#[trigger] code[i])
}

/// The characters that stand for an instruction.
pub open spec fn op_source(op: Op) -> Seq<u8>
    decreases op,
{
    match op {
        Op::Add(value, _) => if value == 1 {
            seq![INCREMENT]
        } else {
            seq![DECREMENT]
        },
        Op::Move(offset) => if offset == 1 {
            seq![RIGHT]
        } else {
            seq![LEFT]
        },
        Op::Write(_) => seq![OUTPUT],
        Op::Read(_) => seq![INPUT],
        Op::Loop(body) => seq![OPEN] + source_of(body) + seq![CLOSE],
        Op::Assign(_, _) => Seq::empty(),
    }
}

/// The source text of a program: the characters of its instructions, in
/// order, every loop between its brackets.
pub open spec fn source_of(code: Seq<Op>) -> Seq<u8>
    decreases code,
{
    if code.len() == 0 {
        Seq::empty()
    } else {
        source_of(code.drop_last()) + op_source(code.last())
    }
}

/// The open bodies with more instructions at the end of the innermost.
pub open spec fn extended(open: Seq<Seq<Op>>, code: Seq<Op>) -> Seq<Seq<Op>> {
    open.drop_last().push(open.last() + code)
}

/// Feeding two texts one after the other is feeding them end to end.
proof fn lemma_fed_concat(open: Seq<Seq<Op>>, a: Seq<u8>, b: Seq<u8>)
    ensures
        fed(open, a + b) == match fed(open, a) {
            Some(then) => fed(then, b),
            None => None,
        },
    decreases b.len(),
{
    if b.len() == 0 {
        assert(a + b =~= a);
    } else {
        assert((a + b).drop_last() =~= a + b.drop_last());
        assert((a + b).last() == b.last());
        lemma_fed_concat(open, a, b.drop_last());
    }
}

/// Feeding one character is one step.
proof fn lemma_fed_one(open: Seq<Seq<Op>>, byte: u8)
    ensures
        fed(open, seq![byte]) == feed(open, byte),
{
    assert(seq![byte].drop_last() =~= Seq::<u8>::empty());
    assert(fed(open, seq![byte].drop_last()) == Some(open));
}

/// Feeding the characters of an instruction appends the instruction to the
/// innermost open body.
proof fn lemma_fed_op(open: Seq<Seq<Op>>, op: Op)
    requires
        open.len() >= 1,
        is_written(op),
    ensures
        fed(open, op_source(op)) == Some(extended(open, seq![op])),
    decreases op, 1nat,
{
    match op {
        Op::Loop(body) => {
            let inside = open.push(Seq::empty());
            let text = source_of(body);
            lemma_fed_concat(open, seq![OPEN] + text, seq![CLOSE]);
            lemma_fed_concat(open, seq![OPEN], text);
            lemma_fed_one(open, OPEN);
            assert(all_written(body));
            lemma_fed_code(inside, body);
            let filled = extended(inside, body);
            lemma_fed_one(filled, CLOSE);
            assert(filled.last() =~= body);
            assert(filled[filled.len() - 2] == open.last());
            assert(filled.take(filled.len() - 2) =~= open.drop_last());
            assert(open.last().push(op) =~= open.last() + seq![op]);
            assert(close_innermost(filled) =~= extended(open, seq![op]));
        },
        _ => {
            let byte = op_source(op)[0];
            assert(op_source(op) =~= seq![byte]);
            lemma_fed_one(open, byte);
            assert(plain_op(byte) == Some(op));
            assert(open.last().push(op) =~= open.last() + seq![op]);
        },
    }
}

/// Feeding the source text of a program appends the program to the
/// innermost open body.
proof fn lemma_fed_code(open: Seq<Seq<Op>>, code: Seq<Op>)
    requires
        open.len() >= 1,
        all_written(code),
    ensures
        fed(open, source_of(code)) == Some(extended(open, code)),
    decreases code, 0nat,
{
    if code.len() == 0 {
        assert(open.last() + code =~= open.last());
        assert(extended(open, code) =~= open);
    } else {
        let before = code.drop_last();
        let op = code.last();
        assert(all_written(before));
        assert(is_written(op));
        lemma_fed_code(open, before);
        let then = extended(open, before);
        lemma_fed_op(then, op);
        lemma_fed_concat(open, source_of(before), op_source(op));
        assert(then.drop_last() =~= open.drop_last());
        assert(then.last() + seq![op] =~= open.last() + code);
    }
}

/// Parsing the source text of a program gives the program back.
pub proof fn lemma_parse_of_source(code: Seq<Op>)
    requires
        all_written(code),
    ensures
        parsed(source_of(code)) == Ok::<Seq<Op>, ParserError>(code),
{
    let start = seq![Seq::<Op>::empty()];
    lemma_fed_code(start, code);
    let end = extended(start, code);
    assert(end.len() == 1);
    assert(end[0] =~= code);
    assert(close_all(end) == end[0]);
}

} // verus!
