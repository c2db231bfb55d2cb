//! What a summary emits is a run; folding that run changes nothing, and
//! folding never makes a run longer.

use crate::optimizer::{
    apply, cell_ops, cells_ops, displaced, emitted, fold_state, is_run, lookup, ordered, upsert,
    zero_at_cursor, Block, Cell, MemoryCellState,
};
use crate::vm::Op;
use vstd::prelude::*;

verus! {

/// A cell of which the block says nothing: relative, with nothing added.
pub open spec fn is_untouched(cell: Cell) -> bool {
    cell.state == MemoryCellState::Relative && cell.value == 0
}

/// The cells that are emitted as an instruction, in their order.
pub open spec fn lasting(cells: Seq<Cell>) -> Seq<Cell>
    decreases cells.len(),
{
    if cells.len() == 0 {
        Seq::empty()
    } else if is_untouched(cells.last()) {
        lasting(cells.drop_last())
    } else {
        lasting(cells.drop_last()).push(cells.last())
    }
}

/// Offsets that no cell has are not found.
pub proof fn lemma_lookup_absent(cells: Seq<Cell>, offset: isize)
    requires
        forall|i: int| 0 <= i < cells.len() ==> cells[i].offset != offset,
    ensures
        lookup(cells, offset) is None,
    decreases cells.len(),
{
    if cells.len() > 0 {
        lemma_lookup_absent(cells.drop_last(), offset);
    }
}

/// The lasting cells are among the cells: a bound on every offset is a
/// bound on theirs.
pub proof fn lemma_lasting_below(cells: Seq<Cell>, bound: isize)
    requires
        forall|i: int| 0 <= i < cells.len() ==> cells[i].offset < bound,
    ensures
        forall|i: int| 0 <= i < lasting(cells).len() ==> lasting(cells)[i].offset < bound,
    decreases cells.len(),
{
    if cells.len() > 0 {
        lemma_lasting_below(cells.drop_last(), bound);
    }
}

/// Putting a cell among ordered cells keeps them ordered, and adds no other
/// cell.
pub proof fn lemma_upsert_ordered(cells: Seq<Cell>, cell: Cell)
    requires
        ordered(cells),
    ensures
        ordered(upsert(cells, cell)),
        forall|i: int|
            0 <= i < upsert(cells, cell).len() ==> #[trigger] upsert(cells, cell)[i] == cell
                || exists|j: int| 0 <= j < cells.len() && cells[j] == upsert(cells, cell)[i],
    decreases cells.len(),
{
    let out = upsert(cells, cell);
    if cells.len() == 0 {
    } else if cells.last().offset < cell.offset {
        assert forall|i: int| 0 <= i < out.len() implies #[trigger] out[i] == cell || exists|j: int|
            0 <= j < cells.len() && cells[j] == out[i] by {
            if i < cells.len() {
                assert(cells[i] == out[i]);
            }
        }
    } else if cells.last().offset == cell.offset {
        assert forall|i: int| 0 <= i < out.len() implies #[trigger] out[i] == cell || exists|j: int|
            0 <= j < cells.len() && cells[j] == out[i] by {
            if i < cells.len() - 1 {
                assert(cells[i] == out[i]);
            }
        }
    } else {
        let rest = cells.drop_last();
        let inner = upsert(rest, cell);
        lemma_upsert_ordered(rest, cell);
        assert forall|i: int| 0 <= i < out.len() implies #[trigger] out[i] == cell || exists|j: int|
            0 <= j < cells.len() && cells[j] == out[i] by {
            if i < inner.len() {
                if inner[i] != cell {
                    let j = choose|j: int| 0 <= j < rest.len() && rest[j] == inner[i];
                    assert(cells[j] == out[i]);
                }
            } else {
                assert(cells[cells.len() - 1] == out[i]);
            }
        }
        assert forall|i: int, j: int| 0 <= i < j < out.len() implies out[i].offset
            < out[j].offset by {
            if j == inner.len() {
                if inner[i] != cell {
                    let k = choose|k: int| 0 <= k < rest.len() && rest[k] == inner[i];
                    assert(cells[k].offset < cells[cells.len() - 1].offset);
                }
            }
        }
    }
}

/// The cells of a summary are always in strictly increasing order of
/// offset.
pub proof fn lemma_fold_state_ordered(run: Seq<Op>)
    ensures
        ordered(fold_state(run).cells),
    decreases run.len(),
{
    if run.len() > 0 {
        let before = fold_state(run.drop_last());
        lemma_fold_state_ordered(run.drop_last());
        match run.last() {
            Op::Assign(value, offset) => {
                lemma_upsert_ordered(
                    before.cells,
                    Cell {
                        offset: displaced(before.cursor_offset, offset),
                        value,
                        state: MemoryCellState::Assigned,
                    },
                );
            },
            Op::Add(value, offset) => {
                let at = displaced(before.cursor_offset, offset);
                let cell = match lookup(before.cells, at) {
                    Some(prior) => Cell {
                        offset: at,
                        value: crate::vm::byte_sum(value, prior.value),
                        state: prior.state,
                    },
                    None => Cell { offset: at, value, state: MemoryCellState::Relative },
                };
                lemma_upsert_ordered(before.cells, cell);
            },
            _ => {},
        }
    }
}

/// Summarising what ordered cells are emitted as gives the lasting cells
/// back, with the cursor where it was.
pub proof fn lemma_fold_of_cells_ops(cells: Seq<Cell>)
    requires
        ordered(cells),
    ensures
        fold_state(cells_ops(cells)) == (Block { cells: lasting(cells), cursor_offset: 0 }),
    decreases cells.len(),
{
    if cells.len() > 0 {
        let rest = cells.drop_last();
        let last = cells.last();
        lemma_fold_of_cells_ops(rest);
        if is_untouched(last) {
            assert(cells_ops(cells) =~= cells_ops(rest));
        } else {
            let op = cell_ops(last)[0];
            assert(cells_ops(cells) =~= cells_ops(rest).push(op));
            assert(cells_ops(cells).drop_last() =~= cells_ops(rest));
            assert forall|i: int| 0 <= i < rest.len() implies rest[i].offset < last.offset by {
                assert(rest[i] == cells[i]);
            }
            lemma_lasting_below(rest, last.offset);
            lemma_lookup_absent(lasting(rest), last.offset);
            assert(displaced(0, last.offset) == last.offset);
            let before = Block { cells: lasting(rest), cursor_offset: 0 };
            assert(upsert(lasting(rest), last) == lasting(rest).push(last));
            assert(apply(before, op).cells == lasting(rest).push(last));
        }
    }
}

/// The lasting cells are emitted as all the cells are.
pub proof fn lemma_cells_ops_lasting(cells: Seq<Cell>)
    ensures
        cells_ops(lasting(cells)) == cells_ops(cells),
    decreases cells.len(),
{
    if cells.len() > 0 {
        let rest = cells.drop_last();
        lemma_cells_ops_lasting(rest);
        if is_untouched(cells.last()) {
            assert(cells_ops(cells) =~= cells_ops(rest));
        } else {
            assert(lasting(cells).drop_last() =~= lasting(rest));
        }
    }
}

/// Among the lasting cells an offset is found as among all of them, unless
/// its cell is untouched.
pub proof fn lemma_lookup_lasting(cells: Seq<Cell>, offset: isize)
    requires
        ordered(cells),
    ensures
        lookup(lasting(cells), offset) == match lookup(cells, offset) {
            Some(cell) => if is_untouched(cell) {
                None
            } else {
                Some(cell)
            },
            None => None,
        },
    decreases cells.len(),
{
    if cells.len() > 0 {
        let rest = cells.drop_last();
        let last = cells.last();
        lemma_lookup_lasting(rest, offset);
        if last.offset == offset {
            if is_untouched(last) {
                assert forall|i: int| 0 <= i < rest.len() implies rest[i].offset < offset by {
                    assert(rest[i] == cells[i]);
                }
                lemma_lasting_below(rest, offset);
                lemma_lookup_absent(lasting(rest), offset);
            }
        } else {
            if !is_untouched(last) {
                assert(lasting(cells).drop_last() =~= lasting(rest));
            }
        }
    }
}

/// Folding what a summary emits changes nothing: the same instructions are
/// emitted again, and the same is known of the cell under the cursor.
pub proof fn lemma_refold(block: Block)
    requires
        ordered(block.cells),
    ensures
        emitted(fold_state(emitted(block))) == emitted(block),
        zero_at_cursor(fold_state(emitted(block))) == zero_at_cursor(block),
{
    lemma_fold_of_cells_ops(block.cells);
    lemma_cells_ops_lasting(block.cells);
    lemma_lookup_lasting(block.cells, block.cursor_offset);
    if block.cursor_offset != 0 {
        let ops = cells_ops(block.cells);
        assert(emitted(block) =~= ops.push(Op::Move(block.cursor_offset)));
        assert(emitted(block).drop_last() =~= ops);
        assert(displaced(0, block.cursor_offset) == block.cursor_offset);
    } else {
        assert(emitted(block) =~= cells_ops(block.cells));
    }
}

/// Putting a cell among the cells adds at most one.
pub proof fn lemma_upsert_length(cells: Seq<Cell>, cell: Cell)
    ensures
        upsert(cells, cell).len() <= cells.len() + 1,
    decreases cells.len(),
{
    if cells.len() > 0 && cells.last().offset > cell.offset {
        lemma_upsert_length(cells.drop_last(), cell);
    }
}

/// No more instructions are emitted than there are cells.
pub proof fn lemma_cells_ops_length(cells: Seq<Cell>)
    ensures
        cells_ops(cells).len() <= cells.len(),
    decreases cells.len(),
{
    if cells.len() > 0 {
        lemma_cells_ops_length(cells.drop_last());
    }
}

/// A summary is emitted as at most one instruction for each cell, and one
/// more for the cursor.
pub proof fn lemma_emitted_length(block: Block)
    ensures
        emitted(block).len() <= block.cells.len() + 1,
        block.cursor_offset == 0 ==> emitted(block).len() <= block.cells.len(),
{
    lemma_cells_ops_length(block.cells);
}

/// A summary never holds more than the run gave it: each cell stands for
/// an instruction of the run, and so does a displaced cursor.
pub proof fn lemma_fold_state_size(run: Seq<Op>)
    ensures
        fold_state(run).cells.len() + (if fold_state(run).cursor_offset != 0 {
            1nat
        } else {
            0nat
        }) <= run.len(),
    decreases run.len(),
{
    if run.len() > 0 {
        let before = fold_state(run.drop_last());
        lemma_fold_state_size(run.drop_last());
        match run.last() {
            Op::Assign(value, offset) => {
                lemma_upsert_length(
                    before.cells,
                    Cell {
                        offset: displaced(before.cursor_offset, offset),
                        value,
                        state: MemoryCellState::Assigned,
                    },
                );
            },
            Op::Add(value, offset) => {
                let at = displaced(before.cursor_offset, offset);
                let cell = match lookup(before.cells, at) {
                    Some(prior) => Cell {
                        offset: at,
                        value: crate::vm::byte_sum(value, prior.value),
                        state: prior.state,
                    },
                    None => Cell { offset: at, value, state: MemoryCellState::Relative },
                };
                lemma_upsert_length(before.cells, cell);
            },
            _ => {},
        }
    }
}

/// Folding never makes a run longer.
pub proof fn lemma_fold_never_longer(run: Seq<Op>)
    ensures
        emitted(fold_state(run)).len() <= run.len(),
{
    lemma_fold_state_size(run);
    lemma_emitted_length(fold_state(run));
}

/// What the cells of a summary are emitted as is a run.
pub proof fn lemma_cells_ops_is_run(cells: Seq<Cell>)
    ensures
        is_run(cells_ops(cells)),
    decreases cells.len(),
{
    if cells.len() > 0 {
        lemma_cells_ops_is_run(cells.drop_last());
    }
}

/// What a summary is emitted as is a run.
pub proof fn lemma_emitted_is_run(block: Block)
    ensures
        is_run(emitted(block)),
{
    lemma_cells_ops_is_run(block.cells);
}

} // verus!
