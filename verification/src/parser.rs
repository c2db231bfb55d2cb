//! From a source text to a program.

use crate::vm::{lemma_loop_model, Instruction, Op};
use vstd::prelude::*;
use vstd::string::StringExecFns;

verus! {

/// Why a source text is not a program.
#[derive(Debug, PartialEq, Eq)]
pub enum ParserError {
    /// The source could not be read; the text says why.
    IOError(String),
    /// A `]` closes a loop that no `[` has opened.
    UnexpectedBracket,
}

/// How an error is worded for the caller.
pub open spec fn error_text(error: ParserError) -> Seq<char> {
    match error {
        ParserError::IOError(reason) => "cannot read the source: "@ + reason@,
        ParserError::UnexpectedBracket => "unexpected `]`: no loop is open"@,
    }
}

impl Clone for ParserError {
    fn clone(&self) -> (copy: Self)
        ensures
            error_text(copy) == error_text(*self),
    {
        match self {
            ParserError::IOError(reason) => ParserError::IOError(reason.clone()),
            ParserError::UnexpectedBracket => ParserError::UnexpectedBracket,
        }
    }
}

impl ParserError {
    /// Words the error for the caller.
    pub fn to_text(&self) -> (text: String)
        ensures
            text@ == error_text(*self),
    {
        match self {
            ParserError::IOError(reason) => String::from_str("cannot read the source: ").concat(
                reason.as_str(),
            ),
            ParserError::UnexpectedBracket => String::from_str("unexpected `]`: no loop is open"),
        }
    }
}

/// `+`: add one to the cell under the cursor.
pub const INCREMENT: u8 = 43;

/// `-`: take one from the cell under the cursor.
pub const DECREMENT: u8 = 45;

/// `<`: move the cursor one cell to the left.
pub const LEFT: u8 = 60;

/// `>`: move the cursor one cell to the right.
pub const RIGHT: u8 = 62;

/// `.`: write the cell under the cursor.
pub const OUTPUT: u8 = 46;

/// `,`: read into the cell under the cursor.
pub const INPUT: u8 = 44;

/// `[`: open a loop.
pub const OPEN: u8 = 91;

/// `]`: close the innermost open loop.
pub const CLOSE: u8 = 93;

/// The instruction that a character stands for, if it stands for one that
/// is not a bracket.
pub open spec fn plain_op(byte: u8) -> Option<Op> {
    if byte == INCREMENT {
        Some(Op::Add(1, 0))
    } else if byte == DECREMENT {
        Some(Op::Add(255, 0))
    } else if byte == LEFT {
        Some(Op::Move(-1isize))
    } else if byte == RIGHT {
        Some(Op::Move(1))
    } else if byte == OUTPUT {
        Some(Op::Write(0))
    } else if byte == INPUT {
        Some(Op::Read(0))
    } else {
        None
    }
}

/// Closes the innermost open loop: its body becomes one `Loop` at the end
/// of the body around it.
pub open spec fn close_innermost(open: Seq<Seq<Op>>) -> Seq<Seq<Op>>
    recommends
        open.len() >= 2,
{
    let around = open[open.len() - 2];
    open.take(open.len() - 2).push(around.push(Op::Loop(open.last())))
}

/// The bodies that are open after one more character: the first is the
/// program itself, the last the innermost open loop. `[` opens a loop and
/// `]` closes the innermost one; no loop to close is the one error. The six
/// other characters of the language append their instruction to the
/// innermost body, and every other character is skipped.
pub open spec fn feed(open: Seq<Seq<Op>>, byte: u8) -> Option<Seq<Seq<Op>>>
    recommends
        open.len() >= 1,
{
    if byte == OPEN {
        Some(open.push(Seq::empty()))
    } else if byte == CLOSE {
        if open.len() >= 2 {
            Some(close_innermost(open))
        } else {
            None
        }
    } else {
        match plain_op(byte) {
            Some(op) => Some(open.drop_last().push(open.last().push(op))),
            None => Some(open),
        }
    }
}

/// The bodies that are open after more characters, or nothing if a `]` had
/// no loop to close.
pub open spec fn fed(open: Seq<Seq<Op>>, bytes: Seq<u8>) -> Option<Seq<Seq<Op>>>
    decreases bytes.len(),
{
    if bytes.len() == 0 {
        Some(open)
    } else {
        match fed(open, bytes.drop_last()) {
            Some(then) => feed(then, bytes.last()),
            None => None,
        }
    }
}

/// The bodies that are open after the whole source, of which only the
/// program itself is open at the start.
pub open spec fn read(source: Seq<u8>) -> Option<Seq<Seq<Op>>> {
    fed(seq![Seq::empty()], source)
}

/// The program that is left when every loop still open at the end of the
/// source is closed there.
pub open spec fn close_all(open: Seq<Seq<Op>>) -> Seq<Op>
    recommends
        open.len() >= 1,
    decreases open.len(),
{
    if open.len() >= 2 {
        close_all(close_innermost(open))
    } else {
        open[0]
    }
}

/// The program that a source text stands for.
pub open spec fn parsed(source: Seq<u8>) -> Result<Seq<Op>, ParserError> {
    match read(source) {
        Some(open) => Ok(close_all(open)),
        None => Err(ParserError::UnexpectedBracket),
    }
}

/// Once a `]` has had no loop to close, no continuation of the source is a
/// program.
pub proof fn lemma_read_failure_stays(source: Seq<u8>, n: int)
    requires
        0 <= n <= source.len(),
        read(source.take(n)) is None,
    ensures
        read(source) is None,
    decreases source.len() - n,
{
    if n < source.len() {
        assert(source.take(n + 1).drop_last() =~= source.take(n));
        lemma_read_failure_stays(source, n + 1);
    } else {
        assert(source.take(n) =~= source);
    }
}

/// Closes the innermost open loop of the stack.
fn close_loop(stack: &mut Vec<Vec<Instruction>>)
    requires
        old(stack).len() >= 2,
    ensures
        final(stack).len() == old(stack).len() - 1,
        final(stack).deep_view() == close_innermost(old(stack).deep_view()),
{
    let ghost open = stack.deep_view();
    let body = stack.pop().unwrap();
    let mut around = stack.pop().unwrap();
    let ghost shorter = stack.deep_view();
    proof {
        lemma_loop_model(body);
        assert(body.deep_view() == open.last());
        assert(around.deep_view() == open[open.len() - 2]);
    }
    let ghost before = around.deep_view();
    around.push(Instruction::Loop(body));
    assert(around.deep_view() =~= before.push(Op::Loop(open.last())));
    stack.push(around);
    assert(shorter =~= open.take(open.len() - 2));
    assert(stack.deep_view() =~= close_innermost(open));
}

/// Appends an instruction to the innermost open body of the stack.
fn append(stack: &mut Vec<Vec<Instruction>>, instruction: Instruction)
    requires
        old(stack).len() >= 1,
    ensures
        final(stack).len() == old(stack).len(),
        final(stack).deep_view() == old(stack).deep_view().drop_last().push(
            old(stack).deep_view().last().push(instruction.deep_view()),
        ),
{
    let ghost open = stack.deep_view();
    let mut innermost = stack.pop().unwrap();
    let ghost shorter = stack.deep_view();
    let ghost before = innermost.deep_view();
    assert(before == open.last());
    innermost.push(instruction);
    assert(innermost.deep_view() =~= before.push(instruction.deep_view()));
    stack.push(innermost);
    assert(shorter =~= open.drop_last());
    assert(stack.deep_view() =~= open.drop_last().push(
        open.last().push(instruction.deep_view()),
    ));
}

/// Parses a source text. Every character but the eight of the language is
/// skipped. A loop still open at the end of the source is closed there; a
/// `]` with no loop to close is the one error.
pub fn parse(source: &[u8]) -> (outcome: Result<Vec<Instruction>, ParserError>)
    ensures
        match parsed(source@) {
            Ok(code) => outcome matches Ok(instructions) && instructions.deep_view() == code,
            Err(_) => outcome matches Err(error) && error == ParserError::UnexpectedBracket,
        },
{
    let mut stack: Vec<Vec<Instruction>> = Vec::new();
    stack.push(Vec::new());
    let mut i: usize = 0;
    assert(source@.take(0) =~= Seq::<u8>::empty());
    assert(stack.deep_view() =~~= seq![Seq::<Op>::empty()]);
    while i < source.len()
        invariant
            i <= source.len(),
            stack.len() >= 1,
            read(source@.take(i as int)) == Some(stack.deep_view()),
        decreases source.len() - i,
    {
        let byte = source[i];
        proof {
            assert(source@.take(i + 1).drop_last() =~= source@.take(i as int));
            assert(source@.take(i + 1).last() == byte);
        }
        if byte == OPEN {
            let ghost open = stack.deep_view();
            stack.push(Vec::new());
            assert(stack.deep_view() =~~= open.push(Seq::empty()));
        } else if byte == CLOSE {
            if stack.len() >= 2 {
                close_loop(&mut stack);
            } else {
                proof {
                    lemma_read_failure_stays(source@, i + 1);
                }
                return Err(ParserError::UnexpectedBracket);
            }
        } else if byte == INCREMENT {
            append(&mut stack, Instruction::Add(1, 0));
        } else if byte == DECREMENT {
            append(&mut stack, Instruction::Add(255, 0));
        } else if byte == LEFT {
            append(&mut stack, Instruction::Move(-1));
        } else if byte == RIGHT {
            append(&mut stack, Instruction::Move(1));
        } else if byte == OUTPUT {
            append(&mut stack, Instruction::Write(0));
        } else if byte == INPUT {
            append(&mut stack, Instruction::Read(0));
        }
        i += 1;
    }
    assert(source@.take(source.len() as int) =~= source@);
    while stack.len() >= 2
        invariant
            stack.len() >= 1,
            read(source@) is Some,
            close_all(stack.deep_view()) == close_all(read(source@).unwrap()),
        decreases stack.len(),
    {
        close_loop(&mut stack);
    }
    let code = stack.pop().unwrap();
    Ok(code)
}

} // verus!
