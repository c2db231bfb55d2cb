//! Optimizing keeps the meaning of a program on the machine.

use crate::convergence::{distance, fixed_point, lemma_pass_approaches};
use crate::optimizer::{
    emitted, fold_state, is_clearing, is_linear, lemma_run_length, optimized, pass, run_length,
    simplified_loop, zero_at_cursor,
};
use crate::soundness::{applied, lemma_emitted_run, lemma_summary_tracks_run};
use crate::vm::{looped, machine_wf, performed, ran, stepped, Machine, Op, RuntimeError};
use vstd::prelude::*;

verus! {

/// Running two programs end to end is running the second on what the first
/// leaves; where the first fails, so does the whole.
pub proof fn lemma_ran_concat(a: Seq<Op>, b: Seq<Op>, machine: Machine, limit: nat)
    ensures
        ran(a + b, machine, limit) == match ran(a, machine, limit) {
            Ok(mid) => ran(b, mid, limit),
            Err(error) => Err(error),
        },
    decreases b.len(),
{
    if b.len() == 0 {
        assert(a + b =~= a);
    } else {
        assert((a + b).drop_last() =~= a + b.drop_last());
        assert((a + b).last() == b.last());
        lemma_ran_concat(a, b.drop_last(), machine, limit);
    }
}

/// Running a program is performing its first instruction and running the
/// rest on what that leaves.
pub proof fn lemma_ran_first(code: Seq<Op>, machine: Machine, limit: nat)
    requires
        code.len() > 0,
    ensures
        ran(code, machine, limit) == match performed(code[0], machine, limit) {
            Ok(mid) => ran(code.skip(1), mid, limit),
            Err(error) => Err(error),
        },
{
    let head = code.take(1);
    assert(code =~= head + code.skip(1));
    lemma_ran_concat(head, code.skip(1), machine, limit);
    assert(head.drop_last() =~= Seq::<Op>::empty());
    assert(head.last() == code[0]);
    assert(ran(head.drop_last(), machine, limit) == Ok::<Machine, RuntimeError>(machine));
    assert(ran(head, machine, limit) == performed(code[0], machine, limit));
}

/// One instruction leaves the tape at its length and the cursor on it.
pub proof fn lemma_stepped_keeps_wf(machine: Machine, op: Op)
    requires
        machine_wf(machine),
    ensures
        stepped(machine, op) matches Ok(next) ==> machine_wf(next),
{
}

/// A loop that ends leaves the tape at its length, the cursor on it, and
/// zero in the cell under the cursor.
pub proof fn lemma_looped_ends_at_zero(body: Seq<Op>, machine: Machine, limit: nat, round: nat)
    requires
        machine_wf(machine),
    ensures
        looped(body, machine, limit, round) matches Ok(end) ==> machine_wf(end) && end.memory[end.cursor]
            == 0,
    decreases body, limit - round + 1,
{
    if machine.memory[machine.cursor] != 0 && round < limit {
        lemma_ran_keeps_wf(body, machine, limit);
        match ran(body, machine, limit) {
            Ok(next) => {
                lemma_looped_ends_at_zero(body, next, limit, round + 1);
            },
            Err(_) => {},
        }
    }
}

/// An instruction that ends leaves the tape at its length and the cursor on
/// it.
pub proof fn lemma_performed_keeps_wf(op: Op, machine: Machine, limit: nat)
    requires
        machine_wf(machine),
    ensures
        performed(op, machine, limit) matches Ok(end) ==> machine_wf(end),
    decreases op, 0nat,
{
    match op {
        Op::Loop(body) => {
            lemma_looped_ends_at_zero(body, machine, limit, 0);
        },
        _ => {
            lemma_stepped_keeps_wf(machine, op);
        },
    }
}

/// A program that ends leaves the tape at its length and the cursor on it.
pub proof fn lemma_ran_keeps_wf(code: Seq<Op>, machine: Machine, limit: nat)
    requires
        machine_wf(machine),
    ensures
        ran(code, machine, limit) matches Ok(end) ==> machine_wf(end),
    decreases code, 0nat,
{
    if code.len() > 0 {
        lemma_ran_keeps_wf(code.drop_last(), machine, limit);
        match ran(code.drop_last(), machine, limit) {
            Ok(mid) => {
                lemma_performed_keeps_wf(code.last(), mid, limit);
            },
            Err(_) => {},
        }
    }
}

/// A loop around one clearing instruction, where it ends, has done nothing
/// but set the cell under the cursor to zero.
pub proof fn lemma_clearing_loop(op: Op, machine: Machine, limit: nat, round: nat)
    requires
        machine_wf(machine),
        is_clearing(op),
        looped(seq![op], machine, limit, round) is Ok,
    ensures
        looped(seq![op], machine, limit, round) == Ok::<Machine, RuntimeError>(
            Machine { memory: machine.memory.update(machine.cursor, 0), ..machine },
        ),
    decreases limit - round,
{
    let body = seq![op];
    if machine.memory[machine.cursor] == 0 {
        assert(machine.memory.update(machine.cursor, 0) =~= machine.memory);
    } else {
        assert(body.drop_last() =~= Seq::<Op>::empty());
        assert(body.last() == op);
        assert(ran(body.drop_last(), machine, limit) == Ok::<Machine, RuntimeError>(machine));
        assert(ran(body, machine, limit) == performed(op, machine, limit));
        assert(performed(op, machine, limit) == stepped(machine, op));
        let next = stepped(machine, op).unwrap();
        lemma_clearing_loop(op, next, limit, round + 1);
        assert(next.memory.update(next.cursor, 0) =~= machine.memory.update(machine.cursor, 0));
    }
}

/// What a loop is simplified to does what the loop does, where the loop
/// ends.
pub proof fn lemma_simplified_loop_meaning(body: Seq<Op>, machine: Machine, limit: nat)
    requires
        machine_wf(machine),
        looped(body, machine, limit, 0) is Ok,
    ensures
        performed(simplified_loop(body), machine, limit) == looped(body, machine, limit, 0),
    decreases body,
{
    if body.len() == 1 {
        assert(body =~= seq![body[0]]);
        match body[0] {
            Op::Loop(inner) => {
                if machine.memory[machine.cursor] != 0 {
                    assert(body.drop_last() =~= Seq::<Op>::empty());
                    assert(ran(body.drop_last(), machine, limit) == Ok::<Machine, RuntimeError>(
                        machine,
                    ));
                    assert(ran(body, machine, limit) == performed(body[0], machine, limit));
                    assert(performed(body[0], machine, limit) == looped(inner, machine, limit, 0));
                    lemma_looped_ends_at_zero(inner, machine, limit, 0);
                    let end = looped(inner, machine, limit, 0).unwrap();
                    assert(looped(body, end, limit, 1) == Ok::<Machine, RuntimeError>(end));
                }
                lemma_simplified_loop_meaning(inner, machine, limit);
            },
            only => {
                if is_clearing(only) {
                    lemma_clearing_loop(only, machine, limit, 0);
                }
            },
        }
    }
}

/// A loop whose body has been through a pass does what the loop did, where
/// that ended.
pub proof fn lemma_loop_of_pass(body: Seq<Op>, machine: Machine, limit: nat, round: nat)
    requires
        machine_wf(machine),
        looped(body, machine, limit, round) is Ok,
    ensures
        looped(optimized(body, false), machine, limit, round) == looped(
            body,
            machine,
            limit,
            round,
        ),
    decreases body, limit - round + 1,
{
    if machine.memory[machine.cursor] != 0 {
        lemma_pass_keeps_meaning(body, false, machine, limit);
        lemma_ran_keeps_wf(body, machine, limit);
        let next = ran(body, machine, limit).unwrap();
        lemma_loop_of_pass(body, next, limit, round + 1);
    }
}

/// A pass keeps the meaning of a program: on every machine on which the
/// program ends, what the pass makes of it ends too, and leaves the same
/// machine. `zero` may be claimed only where the cell under the cursor
/// holds zero.
pub proof fn lemma_pass_keeps_meaning(code: Seq<Op>, zero: bool, machine: Machine, limit: nat)
    requires
        machine_wf(machine),
        zero ==> machine.memory[machine.cursor] == 0,
        ran(code, machine, limit) is Ok,
    ensures
        ran(optimized(code, zero), machine, limit) == ran(code, machine, limit),
    decreases code, 0nat,
{
    let out = optimized(code, zero);
    if code.len() == 0 {
    } else if is_linear(code[0]) {
        let n = run_length(code) as int;
        lemma_run_length(code);
        let run = code.take(n);
        let rest = code.skip(n);
        let block = fold_state(run);
        let known = zero_at_cursor(block);
        assert(code =~= run + rest);
        lemma_ran_concat(run, rest, machine, limit);
        lemma_summary_tracks_run(run, machine, limit);
        lemma_emitted_run(block, machine, limit);
        let mid = applied(block, machine);
        lemma_ran_keeps_wf(run, machine, limit);
        assert(((machine.cursor + block.cursor_offset) - machine.cursor) as isize
            == block.cursor_offset);
        lemma_pass_keeps_meaning(rest, known, mid, limit);
        lemma_ran_concat(emitted(block), optimized(rest, known), machine, limit);
    } else {
        let rest = code.skip(1);
        lemma_ran_first(code, machine, limit);
        match code[0] {
            Op::Loop(body) => {
                if zero {
                    lemma_pass_keeps_meaning(rest, true, machine, limit);
                } else {
                    let inner = optimized(body, false);
                    lemma_loop_of_pass(body, machine, limit, 0);
                    lemma_simplified_loop_meaning(inner, machine, limit);
                    lemma_looped_ends_at_zero(body, machine, limit, 0);
                    let mid = looped(body, machine, limit, 0).unwrap();
                    lemma_pass_keeps_meaning(rest, false, mid, limit);
                    assert(out[0] == simplified_loop(inner));
                    assert(out.skip(1) =~= optimized(rest, false));
                    lemma_ran_first(out, machine, limit);
                }
            },
            other => {
                lemma_stepped_keeps_wf(machine, other);
                let mid = stepped(machine, other).unwrap();
                lemma_pass_keeps_meaning(rest, false, mid, limit);
                assert(out[0] == other);
                assert(out.skip(1) =~= optimized(rest, false));
                lemma_ran_first(out, machine, limit);
            },
        }
    }
}

/// Optimizing keeps the meaning of a program: on every machine on which
/// the program ends, the optimized program ends too, with the same tape and
/// cursor, the same input left and the same output written.
pub proof fn lemma_optimize_keeps_meaning(code: Seq<Op>, machine: Machine, limit: nat)
    requires
        machine_wf(machine),
        ran(code, machine, limit) is Ok,
    ensures
        ran(fixed_point(code), machine, limit) == ran(code, machine, limit),
    decreases distance(code),
{
    if pass(code) != code {
        lemma_pass_approaches(code);
        lemma_pass_keeps_meaning(code, false, machine, limit);
        lemma_optimize_keeps_meaning(pass(code), machine, limit);
    }
}

} // verus!
