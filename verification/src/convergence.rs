//! Why the passes of the optimizer come to an end: a pass never adds a
//! loop, a pass that removes none has reached a fixed point, and so a
//! program is at its fixed point after as many passes as it has
//! instructions.

use crate::optimizer::{
    cells_ops, emitted, fold_state, is_linear, is_run, lemma_run_length, lemma_run_length_is,
    lookup, optimized, pass, run_length, simplified_loop, zero_at_cursor, Cell,
};
use crate::refold::{
    is_untouched, lemma_emitted_is_run, lemma_fold_never_longer, lemma_fold_state_ordered,
    lemma_refold,
};
use crate::vm::{loop_count, op_loop_count, Op};
use vstd::prelude::*;

verus! {

/// The loops of two programs put end to end are those of the one and those
/// of the other.
pub proof fn lemma_loop_count_concat(a: Seq<Op>, b: Seq<Op>)
    ensures
        loop_count(a + b) == loop_count(a) + loop_count(b),
    decreases b.len(),
{
    if b.len() == 0 {
        assert(a + b =~= a);
    } else {
        assert((a + b).drop_last() =~= a + b.drop_last());
        assert((a + b).last() == b.last());
        lemma_loop_count_concat(a, b.drop_last());
    }
}

/// The loops of a program are those before a point and those from it on.
pub proof fn lemma_loop_count_split(code: Seq<Op>, at: int)
    requires
        0 <= at <= code.len(),
    ensures
        loop_count(code) == loop_count(code.take(at)) + loop_count(code.skip(at)),
{
    assert(code =~= code.take(at) + code.skip(at));
    lemma_loop_count_concat(code.take(at), code.skip(at));
}

/// The loops of a program are those of its first instruction and those of
/// the rest.
pub proof fn lemma_loop_count_first(code: Seq<Op>)
    requires
        code.len() > 0,
    ensures
        loop_count(code) == op_loop_count(code[0]) + loop_count(code.skip(1)),
{
    lemma_loop_count_split(code, 1);
    assert(code.take(1).drop_last() =~= Seq::<Op>::empty());
    assert(code.take(1).last() == code[0]);
    assert(loop_count(code.take(1).drop_last()) == 0);
    assert(loop_count(code.take(1)) == op_loop_count(code[0]));
}

/// A run holds no loop.
pub proof fn lemma_run_has_no_loop(run: Seq<Op>)
    requires
        is_run(run),
    ensures
        loop_count(run) == 0,
    decreases run.len(),
{
    if run.len() > 0 {
        assert(is_linear(run.last()));
        assert(op_loop_count(run.last()) == 0);
        lemma_run_has_no_loop(run.drop_last());
    }
}

/// Simplifying a loop never adds a loop, and where it removes none the loop
/// stands as it was.
pub proof fn lemma_simplified_loop_count(body: Seq<Op>)
    ensures
        op_loop_count(simplified_loop(body)) <= 1 + loop_count(body),
        op_loop_count(simplified_loop(body)) == 1 + loop_count(body) ==> simplified_loop(body)
            == Op::Loop(body),
    decreases body,
{
    if body.len() == 1 {
        lemma_loop_count_first(body);
        assert(body.skip(1) =~= Seq::<Op>::empty());
        match body[0] {
            Op::Loop(inner) => {
                lemma_simplified_loop_count(inner);
            },
            _ => {},
        }
    }
}

/// A pass never adds a loop.
pub proof fn lemma_pass_adds_no_loop(code: Seq<Op>, zero: bool)
    ensures
        loop_count(optimized(code, zero)) <= loop_count(code),
    decreases code,
{
    if code.len() == 0 {
    } else if is_linear(code[0]) {
        let n = run_length(code) as int;
        let block = fold_state(code.take(n));
        lemma_run_length(code);
        lemma_pass_adds_no_loop(code.skip(n), zero_at_cursor(block));
        lemma_emitted_is_run(block);
        lemma_run_has_no_loop(emitted(block));
        lemma_loop_count_concat(
            emitted(block),
            optimized(code.skip(n), zero_at_cursor(block)),
        );
        lemma_loop_count_split(code, n);
    } else {
        lemma_loop_count_first(code);
        match code[0] {
            Op::Loop(body) => {
                if zero {
                    lemma_pass_adds_no_loop(code.skip(1), true);
                } else {
                    lemma_pass_adds_no_loop(body, false);
                    lemma_pass_adds_no_loop(code.skip(1), false);
                    lemma_simplified_loop_count(optimized(body, false));
                    let head = seq![simplified_loop(optimized(body, false))];
                    lemma_loop_count_concat(head, optimized(code.skip(1), false));
                    lemma_loop_count_first(head);
                    assert(head.skip(1) =~= Seq::<Op>::empty());
                }
            },
            other => {
                lemma_pass_adds_no_loop(code.skip(1), false);
                let head = seq![other];
                lemma_loop_count_concat(head, optimized(code.skip(1), false));
                lemma_loop_count_first(head);
                assert(head.skip(1) =~= Seq::<Op>::empty());
            },
        }
    }
}

/// Among cells that are emitted as nothing, whatever is found is untouched.
pub proof fn lemma_silent_cells(cells: Seq<Cell>, offset: isize)
    requires
        cells_ops(cells).len() == 0,
    ensures
        lookup(cells, offset) matches Some(cell) ==> is_untouched(cell),
    decreases cells.len(),
{
    if cells.len() > 0 {
        lemma_silent_cells(cells.drop_last(), offset);
    }
}

/// A pass that removes no loop has reached a fixed point: a second pass
/// gives the same program again. (A cell known to be zero at the start is
/// only ever known before a loop, a `Read` or a `Write`, or at the end.)
pub proof fn lemma_stable(code: Seq<Op>, zero: bool)
    requires
        zero ==> code.len() == 0 || !is_linear(code[0]),
        loop_count(optimized(code, zero)) == loop_count(code),
    ensures
        optimized(optimized(code, zero), zero) == optimized(code, zero),
        code.len() > 0 && !is_linear(code[0]) ==> optimized(code, zero).len() > 0 && !is_linear(
            optimized(code, zero)[0],
        ),
    decreases code,
{
    let out = optimized(code, zero);
    if code.len() == 0 {
    } else if is_linear(code[0]) {
        let n = run_length(code) as int;
        let block = fold_state(code.take(n));
        let known = zero_at_cursor(block);
        let rest = code.skip(n);
        let folded = emitted(block);
        let tail = optimized(rest, known);
        lemma_run_length(code);
        lemma_emitted_is_run(block);
        lemma_run_has_no_loop(folded);
        lemma_run_has_no_loop(code.take(n));
        lemma_loop_count_concat(folded, tail);
        lemma_loop_count_split(code, n);
        lemma_pass_adds_no_loop(rest, known);
        if rest.len() > 0 {
            assert(rest[0] == code[n]);
        }
        lemma_stable(rest, known);
        if folded.len() == 0 {
            assert(out =~= tail);
            lemma_silent_cells(block.cells, block.cursor_offset);
        } else {
            assert(out[0] == folded[0]);
            assert(is_linear(folded[0]));
            assert forall|i: int| 0 <= i < folded.len() implies is_linear(#[trigger] out[i]) by {
                assert(out[i] == folded[i]);
            }
            if folded.len() < out.len() {
                assert(out[folded.len() as int] == tail[0]);
            }
            lemma_run_length_is(out, folded.len() as int);
            assert(out.take(folded.len() as int) =~= folded);
            assert(out.skip(folded.len() as int) =~= tail);
            lemma_fold_state_ordered(code.take(n));
            lemma_refold(block);
        }
    } else {
        lemma_loop_count_first(code);
        let rest = code.skip(1);
        match code[0] {
            Op::Loop(body) => {
                if zero {
                    lemma_pass_adds_no_loop(rest, true);
                } else {
                    let inner = optimized(body, false);
                    let head = seq![simplified_loop(inner)];
                    let tail = optimized(rest, false);
                    lemma_pass_adds_no_loop(body, false);
                    lemma_pass_adds_no_loop(rest, false);
                    lemma_simplified_loop_count(inner);
                    lemma_loop_count_concat(head, tail);
                    lemma_loop_count_first(head);
                    assert(head.skip(1) =~= Seq::<Op>::empty());
                    lemma_stable(body, false);
                    lemma_stable(rest, false);
                    assert(out[0] == Op::Loop(inner));
                    assert(out.skip(1) =~= tail);
                }
            },
            other => {
                let head = seq![other];
                let tail = optimized(rest, false);
                lemma_pass_adds_no_loop(rest, false);
                lemma_loop_count_concat(head, tail);
                lemma_loop_count_first(head);
                assert(head.skip(1) =~= Seq::<Op>::empty());
                lemma_stable(rest, false);
                assert(out[0] == other);
                assert(out.skip(1) =~= tail);
            },
        }
    }
}

/// How far a program is from its fixed point: the number of its loops, and
/// one more while a pass still changes it.
pub open spec fn distance(code: Seq<Op>) -> nat {
    if pass(code) == code {
        loop_count(code)
    } else {
        loop_count(code) + 1
    }
}

/// A pass that changes a program brings it nearer to its fixed point.
pub proof fn lemma_pass_approaches(code: Seq<Op>)
    requires
        pass(code) != code,
    ensures
        distance(pass(code)) < distance(code),
{
    lemma_pass_adds_no_loop(code, false);
    if loop_count(pass(code)) == loop_count(code) {
        lemma_stable(code, false);
    }
}

/// The program that the passes converge to: the first one, from the given
/// program on, that a pass leaves as it is.
pub open spec fn fixed_point(code: Seq<Op>) -> Seq<Op>
    decreases distance(code),
    via fixed_point_is_reached
{
    if pass(code) == code {
        code
    } else {
        fixed_point(pass(code))
    }
}

#[via_fn]
proof fn fixed_point_is_reached(code: Seq<Op>) {
    if pass(code) != code {
        lemma_pass_approaches(code);
    }
}

/// The fixed point is one: a pass leaves it as it is.
pub proof fn lemma_fixed_point_is_fixed(code: Seq<Op>)
    ensures
        pass(fixed_point(code)) == fixed_point(code),
    decreases distance(code),
{
    if pass(code) != code {
        lemma_pass_approaches(code);
        lemma_fixed_point_is_fixed(pass(code));
    }
}

/// Optimizing a converged program returns it unchanged.
pub proof fn lemma_converged_is_kept(code: Seq<Op>)
    requires
        pass(code) == code,
    ensures
        fixed_point(code) == code,
{
}

/// Optimizing twice gives what optimizing once gives.
pub proof fn lemma_optimize_idempotent(code: Seq<Op>)
    ensures
        fixed_point(fixed_point(code)) == fixed_point(code),
{
    lemma_fixed_point_is_fixed(code);
}

/// The number of instructions in an instruction: itself and, for a loop,
/// those of its body.
pub open spec fn op_size(op: Op) -> nat
    decreases op,
{
    match op {
        Op::Loop(body) => 1 + instruction_count(body),
        _ => 1,
    }
}

/// The number of instructions in a program, those inside loops included.
pub open spec fn instruction_count(code: Seq<Op>) -> nat
    decreases code,
{
    if code.len() == 0 {
        0
    } else {
        instruction_count(code.drop_last()) + op_size(code.last())
    }
}

/// The program after the given number of passes.
pub open spec fn passes(code: Seq<Op>, n: nat) -> Seq<Op>
    decreases n,
{
    if n == 0 {
        code
    } else {
        passes(pass(code), (n - 1) as nat)
    }
}

/// The instructions of two programs put end to end are those of the one and
/// those of the other.
pub proof fn lemma_instruction_count_concat(a: Seq<Op>, b: Seq<Op>)
    ensures
        instruction_count(a + b) == instruction_count(a) + instruction_count(b),
    decreases b.len(),
{
    if b.len() == 0 {
        assert(a + b =~= a);
    } else {
        assert((a + b).drop_last() =~= a + b.drop_last());
        assert((a + b).last() == b.last());
        lemma_instruction_count_concat(a, b.drop_last());
    }
}

/// The instructions of a program are its first one's and those of the rest.
pub proof fn lemma_instruction_count_first(code: Seq<Op>)
    requires
        code.len() > 0,
    ensures
        instruction_count(code) == op_size(code[0]) + instruction_count(code.skip(1)),
{
    assert(code =~= code.take(1) + code.skip(1));
    lemma_instruction_count_concat(code.take(1), code.skip(1));
    assert(code.take(1).drop_last() =~= Seq::<Op>::empty());
    assert(code.take(1).last() == code[0]);
    assert(instruction_count(code.take(1).drop_last()) == 0);
    assert(instruction_count(code.take(1)) == op_size(code[0]));
}

/// A program has no more loops than instructions.
pub proof fn lemma_loops_within_count(code: Seq<Op>)
    ensures
        loop_count(code) <= instruction_count(code),
    decreases code,
{
    if code.len() > 0 {
        lemma_loops_within_count(code.drop_last());
        match code.last() {
            Op::Loop(body) => {
                lemma_loops_within_count(body);
            },
            _ => {},
        }
        assert(op_loop_count(code.last()) <= op_size(code.last()));
    }
}

/// A run has as many instructions as it is long.
pub proof fn lemma_run_instruction_count(run: Seq<Op>)
    requires
        is_run(run),
    ensures
        instruction_count(run) == run.len(),
    decreases run.len(),
{
    if run.len() > 0 {
        assert(is_linear(run.last()));
        assert(op_size(run.last()) == 1);
        lemma_run_instruction_count(run.drop_last());
    }
}

/// Simplifying a loop never adds an instruction.
pub proof fn lemma_simplified_loop_size(body: Seq<Op>)
    ensures
        op_size(simplified_loop(body)) <= 1 + instruction_count(body),
    decreases body,
{
    if body.len() == 1 {
        lemma_instruction_count_first(body);
        assert(body.skip(1) =~= Seq::<Op>::empty());
        match body[0] {
            Op::Loop(inner) => {
                lemma_simplified_loop_size(inner);
            },
            _ => {},
        }
    }
}

/// A pass never makes a program longer: what it gives has no more
/// instructions, those inside loops included, than what it was given.
pub proof fn lemma_pass_never_longer(code: Seq<Op>, zero: bool)
    ensures
        instruction_count(optimized(code, zero)) <= instruction_count(code),
    decreases code,
{
    if code.len() == 0 {
    } else if is_linear(code[0]) {
        let n = run_length(code) as int;
        let block = fold_state(code.take(n));
        let tail = optimized(code.skip(n), zero_at_cursor(block));
        lemma_run_length(code);
        lemma_pass_never_longer(code.skip(n), zero_at_cursor(block));
        lemma_emitted_is_run(block);
        lemma_run_instruction_count(emitted(block));
        lemma_run_instruction_count(code.take(n));
        lemma_fold_never_longer(code.take(n));
        lemma_instruction_count_concat(emitted(block), tail);
        assert(code =~= code.take(n) + code.skip(n));
        lemma_instruction_count_concat(code.take(n), code.skip(n));
    } else {
        lemma_instruction_count_first(code);
        let rest = code.skip(1);
        match code[0] {
            Op::Loop(body) => {
                if zero {
                    lemma_pass_never_longer(rest, true);
                } else {
                    let inner = optimized(body, false);
                    let head = seq![simplified_loop(inner)];
                    lemma_pass_never_longer(body, false);
                    lemma_pass_never_longer(rest, false);
                    lemma_simplified_loop_size(inner);
                    lemma_instruction_count_concat(head, optimized(rest, false));
                    lemma_instruction_count_first(head);
                    assert(head.skip(1) =~= Seq::<Op>::empty());
                }
            },
            other => {
                let head = seq![other];
                lemma_pass_never_longer(rest, false);
                lemma_instruction_count_concat(head, optimized(rest, false));
                lemma_instruction_count_first(head);
                assert(head.skip(1) =~= Seq::<Op>::empty());
            },
        }
    }
}

/// Simplifying a loop whose body is made of loops alone gives a loop made
/// of loops alone.
proof fn lemma_simplified_loop_of_loops(body: Seq<Op>)
    requires
        loop_count(body) == instruction_count(body),
    ensures
        op_loop_count(simplified_loop(body)) == op_size(simplified_loop(body)),
    decreases body,
{
    if body.len() == 1 {
        lemma_loop_count_first(body);
        lemma_instruction_count_first(body);
        assert(body.skip(1) =~= Seq::<Op>::empty());
        match body[0] {
            Op::Loop(inner) => {
                lemma_simplified_loop_of_loops(inner);
            },
            _ => {},
        }
    }
}

/// A pass over a program made of loops alone gives a program made of loops
/// alone.
proof fn lemma_pass_of_loops(code: Seq<Op>)
    requires
        loop_count(code) == instruction_count(code),
    ensures
        loop_count(pass(code)) == instruction_count(pass(code)),
    decreases code,
{
    if code.len() > 0 {
        let rest = code.skip(1);
        lemma_loop_count_first(code);
        lemma_instruction_count_first(code);
        lemma_loops_within_count(rest);
        match code[0] {
            Op::Loop(body) => {
                lemma_loops_within_count(body);
                let inner = optimized(body, false);
                let head = seq![simplified_loop(inner)];
                let tail = optimized(rest, false);
                lemma_pass_of_loops(body);
                lemma_pass_of_loops(rest);
                lemma_simplified_loop_of_loops(inner);
                lemma_loop_count_concat(head, tail);
                lemma_instruction_count_concat(head, tail);
                lemma_loop_count_first(head);
                lemma_instruction_count_first(head);
                assert(head.skip(1) =~= Seq::<Op>::empty());
            },
            _ => {},
        }
    }
}

/// A bound on the number of passes that still change a program: none for a
/// converged one; else the number of its loops, and one more unless it is
/// made of loops alone.
pub open spec fn passes_needed(code: Seq<Op>) -> nat {
    if pass(code) == code {
        0
    } else if loop_count(code) == instruction_count(code) {
        loop_count(code)
    } else {
        loop_count(code) + 1
    }
}

/// Each pass that changes a program lowers the bound on the passes that
/// are still needed.
proof fn lemma_passes_needed_falls(code: Seq<Op>)
    requires
        pass(code) != code,
    ensures
        passes_needed(pass(code)) < passes_needed(code),
{
    let next = pass(code);
    lemma_pass_adds_no_loop(code, false);
    if loop_count(next) == loop_count(code) {
        lemma_stable(code, false);
    }
    if loop_count(code) == instruction_count(code) {
        lemma_pass_of_loops(code);
        if code.len() == 0 {
            assert(pass(code) =~= code);
        }
        lemma_instruction_count_first(code);
    }
}

/// No more passes are needed than the program has instructions.
proof fn lemma_passes_needed_within_count(code: Seq<Op>)
    ensures
        passes_needed(code) <= instruction_count(code),
{
    lemma_loops_within_count(code);
}

/// After as many passes as are needed, and after any more, the program is
/// at its fixed point.
pub proof fn lemma_passes_reach_fixed_point(code: Seq<Op>, n: nat)
    requires
        n >= passes_needed(code),
    ensures
        passes(code, n) == fixed_point(code),
    decreases n,
{
    if n > 0 {
        if pass(code) != code {
            lemma_passes_needed_falls(code);
        }
        lemma_passes_reach_fixed_point(pass(code), (n - 1) as nat);
        assert(passes(code, n) == passes(pass(code), (n - 1) as nat));
        assert(fixed_point(code) == fixed_point(pass(code)));
    } else {
        if code.len() == 0 {
            assert(pass(code) =~= code);
        } else {
            lemma_instruction_count_first(code);
        }
        assert(fixed_point(code) == code);
    }
}

/// The passes converge within as many passes as the program has
/// instructions, those inside loops included: after that many the program
/// is at its fixed point.
pub proof fn lemma_converges_within_count(code: Seq<Op>)
    ensures
        passes(code, instruction_count(code)) == fixed_point(code),
        pass(passes(code, instruction_count(code))) == passes(code, instruction_count(code)),
{
    lemma_passes_needed_within_count(code);
    lemma_passes_reach_fixed_point(code, instruction_count(code));
    lemma_fixed_point_is_fixed(code);
}

/// Optimizing never makes a program longer.
pub proof fn lemma_optimize_never_longer(code: Seq<Op>)
    ensures
        instruction_count(fixed_point(code)) <= instruction_count(code),
    decreases distance(code),
{
    if pass(code) != code {
        lemma_pass_approaches(code);
        lemma_pass_never_longer(code, false);
        lemma_optimize_never_longer(pass(code));
    }
}

} // verus!
