//! Folding keeps the meaning of a run on the machine.

use crate::optimizer::{
    apply, cell_ops, cells_ops, displaced, emitted, fold_state, is_linear, is_run, lookup,
    ordered, upsert, Block, Cell, MemoryCellState,
};
use crate::refold::{lemma_emitted_is_run, lemma_lookup_absent, lemma_upsert_ordered};
use crate::vm::{
    byte_sum, located, machine_wf, performed, ran, stepped, Machine, Op, RuntimeError,
    MEMORY_SIZE,
};
use vstd::prelude::*;

verus! {

/// After `upsert` the cell is found at its offset, and every other offset
/// is found as before.
pub proof fn lemma_lookup_upsert(cells: Seq<Cell>, cell: Cell, offset: isize)
    ensures
        lookup(upsert(cells, cell), offset) == if offset == cell.offset {
            Some(cell)
        } else {
            lookup(cells, offset)
        },
    decreases cells.len(),
{
    let out = upsert(cells, cell);
    if cells.len() == 0 {
        assert(out.drop_last() =~= Seq::<Cell>::empty());
        assert(lookup(out.drop_last(), offset) is None);
    } else if cells.last().offset < cell.offset {
        assert(out.drop_last() =~= cells);
    } else if cells.last().offset == cell.offset {
        assert(out.drop_last() =~= cells.drop_last());
    } else {
        let inner = upsert(cells.drop_last(), cell);
        lemma_lookup_upsert(cells.drop_last(), cell, offset);
        assert(out.drop_last() =~= inner);
    }
}

/// What a summary says of the tape cell at `at`, for a block that started
/// on the given machine: the assigned value, or what the cell held with the
/// relative value added, or what it held.
pub open spec fn cell_after(cells: Seq<Cell>, start: Machine, at: int) -> u8 {
    match lookup(cells, (at - start.cursor) as isize) {
        Some(cell) => match cell.state {
            MemoryCellState::Assigned => cell.value,
            MemoryCellState::Relative => byte_sum(cell.value, start.memory[at]),
        },
        None => start.memory[at],
    }
}

/// The machine that a summary describes, for a block that started on the
/// given machine.
pub open spec fn applied(block: Block, start: Machine) -> Machine {
    Machine {
        memory: Seq::new(MEMORY_SIZE as nat, |at: int| cell_after(block.cells, start, at)),
        cursor: start.cursor + block.cursor_offset,
        input: start.input,
        output: start.output,
    }
}

/// Every cell of the summary lies on the tape, and so does the cursor at
/// the end of the block.
pub open spec fn within_tape(block: Block, start: Machine) -> bool {
    &&& 0 <= start.cursor + block.cursor_offset < MEMORY_SIZE
    &&& forall|i: int|
        0 <= i < block.cells.len() ==> 0 <= start.cursor + (#[trigger] block.cells[i]).offset
            < MEMORY_SIZE
}

/// Recording a cell in the summary describes the machine with that one
/// tape cell changed to what the record says.
proof fn lemma_record_tracks_store(before: Block, cell: Cell, start: Machine, value: u8)
    requires
        machine_wf(start),
        ordered(before.cells),
        within_tape(before, start),
        0 <= start.cursor + cell.offset < MEMORY_SIZE,
        value == match cell.state {
            MemoryCellState::Assigned => cell.value,
            MemoryCellState::Relative => byte_sum(
                cell.value,
                start.memory[start.cursor + cell.offset],
            ),
        },
    ensures
        ({
            let after = Block {
                cells: upsert(before.cells, cell),
                cursor_offset: before.cursor_offset,
            };
            &&& applied(after, start).memory == applied(before, start).memory.update(
                start.cursor + cell.offset,
                value,
            )
            &&& within_tape(after, start)
            &&& ordered(after.cells)
        }),
{
    let after = Block { cells: upsert(before.cells, cell), cursor_offset: before.cursor_offset };
    let at = start.cursor + cell.offset;
    lemma_upsert_ordered(before.cells, cell);
    assert forall|p: int| 0 <= p < MEMORY_SIZE implies cell_after(after.cells, start, p) == (if p
        == at {
        value
    } else {
        cell_after(before.cells, start, p)
    }) by {
        lemma_lookup_upsert(before.cells, cell, (p - start.cursor) as isize);
    }
    assert(applied(after, start).memory =~= applied(before, start).memory.update(at, value));
    assert forall|i: int| 0 <= i < after.cells.len() implies 0 <= start.cursor + (
    #[trigger] after.cells[i]).offset < MEMORY_SIZE by {
        if after.cells[i] != cell {
            let j = choose|j: int| 0 <= j < before.cells.len() && before.cells[j] == after.cells[i];
            assert(0 <= start.cursor + before.cells[j].offset < MEMORY_SIZE);
        }
    }
}

/// The sum of two bytes modulo 256 is their sum, less 256 where it is
/// that large.
proof fn lemma_byte_sum_wraps_once(a: u8, b: u8)
    ensures
        byte_sum(a, b) == if a + b >= 256 {
            a + b - 256
        } else {
            a + b
        },
{
}

/// The sum of bytes modulo 256 does not depend on how it is bracketed.
proof fn lemma_byte_sum_assoc(a: u8, b: u8, c: u8)
    ensures
        byte_sum(byte_sum(a, b), c) == byte_sum(a, byte_sum(b, c)),
{
    lemma_byte_sum_wraps_once(a, b);
    lemma_byte_sum_wraps_once(b, c);
    lemma_byte_sum_wraps_once(byte_sum(a, b), c);
    lemma_byte_sum_wraps_once(a, byte_sum(b, c));
}

/// The summary after one more instruction describes the machine after that
/// instruction, where the machine performs it without leaving the tape.
proof fn lemma_apply_tracks_step(before: Block, op: Op, start: Machine)
    requires
        machine_wf(start),
        ordered(before.cells),
        within_tape(before, start),
        is_linear(op),
        stepped(applied(before, start), op) is Ok,
    ensures
        stepped(applied(before, start), op) == Ok::<Machine, RuntimeError>(
            applied(apply(before, op), start),
        ),
        within_tape(apply(before, op), start),
        ordered(apply(before, op).cells),
{
    let mid = applied(before, start);
    let after = apply(before, op);
    let end = stepped(mid, op).unwrap();
    match op {
        Op::Move(offset) => {
            assert(applied(after, start).memory =~= end.memory);
        },
        Op::Assign(value, offset) => {
            let key = displaced(before.cursor_offset, offset);
            assert(key == before.cursor_offset + offset);
            let cell = Cell { offset: key, value, state: MemoryCellState::Assigned };
            lemma_record_tracks_store(before, cell, start, value);
        },
        Op::Add(value, offset) => {
            let at = mid.cursor + offset;
            let key = displaced(before.cursor_offset, offset);
            assert(key == before.cursor_offset + offset);
            assert((at - start.cursor) as isize == key);
            match lookup(before.cells, key) {
                Some(prior) => {
                    let cell = Cell {
                        offset: key,
                        value: byte_sum(value, prior.value),
                        state: prior.state,
                    };
                    lemma_byte_sum_assoc(value, prior.value, start.memory[at]);
                    lemma_record_tracks_store(
                        before,
                        cell,
                        start,
                        byte_sum(value, mid.memory[at]),
                    );
                },
                None => {
                    let cell = Cell { offset: key, value, state: MemoryCellState::Relative };
                    lemma_record_tracks_store(
                        before,
                        cell,
                        start,
                        byte_sum(value, mid.memory[at]),
                    );
                },
            }
        },
        _ => {},
    }
}

/// The summary of a run that the machine performs without leaving the tape
/// describes the machine after the run.
pub proof fn lemma_summary_tracks_run(run: Seq<Op>, start: Machine, limit: nat)
    requires
        is_run(run),
        machine_wf(start),
        ran(run, start, limit) is Ok,
    ensures
        ran(run, start, limit) == Ok::<Machine, RuntimeError>(applied(fold_state(run), start)),
        within_tape(fold_state(run), start),
        ordered(fold_state(run).cells),
    decreases run.len(),
{
    if run.len() == 0 {
        assert(applied(fold_state(run), start).memory =~= start.memory);
    } else {
        let op = run.last();
        let before = fold_state(run.drop_last());
        assert(is_linear(op));
        assert(is_run(run.drop_last()));
        lemma_summary_tracks_run(run.drop_last(), start, limit);
        assert(performed(op, applied(before, start), limit) == stepped(
            applied(before, start),
            op,
        ));
        lemma_apply_tracks_step(before, op, start);
    }
}

/// What the cells of a summary are emitted as, performed on the machine on
/// which the block started, leaves every cell as the summary says and the
/// cursor where it was.
proof fn lemma_cells_ops_run(cells: Seq<Cell>, start: Machine, limit: nat)
    requires
        machine_wf(start),
        ordered(cells),
        within_tape(Block { cells, cursor_offset: 0 }, start),
    ensures
        ran(cells_ops(cells), start, limit) == Ok::<Machine, RuntimeError>(
            applied(Block { cells, cursor_offset: 0 }, start),
        ),
    decreases cells.len(),
{
    let whole = Block { cells, cursor_offset: 0 };
    if cells.len() == 0 {
        assert(applied(whole, start).memory =~= start.memory);
    } else {
        let rest = cells.drop_last();
        let last = cells.last();
        let part = Block { cells: rest, cursor_offset: 0 };
        assert forall|i: int| 0 <= i < rest.len() implies 0 <= start.cursor + (
        #[trigger] rest[i]).offset < MEMORY_SIZE by {
            assert(rest[i] == cells[i]);
        }
        lemma_cells_ops_run(rest, start, limit);
        let mid = applied(part, start);
        let at = start.cursor + last.offset;
        assert(cells[cells.len() - 1] == last);
        assert forall|i: int| 0 <= i < rest.len() implies rest[i].offset != last.offset by {
            assert(rest[i] == cells[i]);
        }
        lemma_lookup_absent(rest, last.offset);
        assert(mid.memory[at] == start.memory[at]);
        if cell_ops(last).len() == 0 {
            assert(cells_ops(cells) =~= cells_ops(rest));
            assert(applied(whole, start).memory =~= mid.memory);
        } else {
            let op = cell_ops(last)[0];
            assert(cells_ops(cells) =~= cells_ops(rest).push(op));
            assert(cells_ops(cells).drop_last() =~= cells_ops(rest));
            assert(performed(op, mid, limit) == stepped(mid, op));
            assert(located(mid, last.offset) == Ok::<int, RuntimeError>(at));
            let end = stepped(mid, op).unwrap();
            assert(applied(whole, start).memory =~= end.memory);
        }
    }
}

/// What a summary is emitted as, performed on the machine on which the
/// block started, gives the machine that the summary describes.
pub proof fn lemma_emitted_run(block: Block, start: Machine, limit: nat)
    requires
        machine_wf(start),
        ordered(block.cells),
        within_tape(block, start),
    ensures
        ran(emitted(block), start, limit) == Ok::<Machine, RuntimeError>(applied(block, start)),
{
    let still = Block { cells: block.cells, cursor_offset: 0 };
    assert forall|i: int| 0 <= i < still.cells.len() implies 0 <= start.cursor + (
    #[trigger] still.cells[i]).offset < MEMORY_SIZE by {
        assert(still.cells[i] == block.cells[i]);
    }
    lemma_cells_ops_run(block.cells, start, limit);
    let mid = applied(still, start);
    if block.cursor_offset != 0 {
        let op = Op::Move(block.cursor_offset);
        assert(emitted(block) =~= cells_ops(block.cells).push(op));
        assert(emitted(block).drop_last() =~= cells_ops(block.cells));
        assert(performed(op, mid, limit) == stepped(mid, op));
        assert(applied(block, start).memory =~= mid.memory);
    } else {
        assert(emitted(block) =~= cells_ops(block.cells));
        assert(applied(block, start).memory =~= mid.memory);
    }
}

/// A run fails in one way only: by reaching outside the tape.
pub proof fn lemma_run_fails_one_way(run: Seq<Op>, start: Machine, limit: nat)
    requires
        is_run(run),
    ensures
        ran(run, start, limit) matches Err(error) ==> error == RuntimeError::OutOfMemoryBounds,
    decreases run.len(),
{
    if run.len() > 0 {
        assert(is_linear(run.last()));
        assert(is_run(run.drop_last()));
        lemma_run_fails_one_way(run.drop_last(), start, limit);
        match ran(run.drop_last(), start, limit) {
            Ok(mid) => {
                assert(performed(run.last(), mid, limit) == stepped(mid, run.last()));
            },
            Err(_) => {},
        }
    }
}

/// Folding keeps the meaning of a run: on every machine on which the run
/// ends without leaving the tape, the folded run ends too, with the same
/// tape, the same cursor, and input and output untouched. Where the run
/// leaves the tape, the folded run may still end, as it goes to no cell
/// that the run only passes; where the folded run fails too, the two fail
/// alike.
pub proof fn lemma_fold_preserves_run(run: Seq<Op>, start: Machine, limit: nat)
    requires
        is_run(run),
        machine_wf(start),
        ran(run, start, limit) is Ok || ran(emitted(fold_state(run)), start, limit) is Err,
    ensures
        ran(emitted(fold_state(run)), start, limit) == ran(run, start, limit),
{
    if ran(run, start, limit) is Ok {
        lemma_summary_tracks_run(run, start, limit);
        lemma_emitted_run(fold_state(run), start, limit);
    } else {
        lemma_emitted_is_run(fold_state(run));
        lemma_run_fails_one_way(run, start, limit);
        lemma_run_fails_one_way(emitted(fold_state(run)), start, limit);
    }
}

} // verus!
