//! The summary of a run as a mapping, and what follows from that: the
//! order of the instructions of a run matters only as far as it changes
//! the mapping.

use crate::optimizer::{
    apply, displaced, fold_state, lookup, ordered, upsert, Block, Cell, MemoryCellState,
};
use crate::refold::{lemma_fold_state_ordered, lemma_lookup_absent, lemma_upsert_ordered};
use crate::soundness::lemma_lookup_upsert;
use crate::vm::{byte_sum, Op};
use vstd::prelude::*;

verus! {

/// What is found at an offset is a cell of that offset.
proof fn lemma_lookup_found(cells: Seq<Cell>, offset: isize)
    ensures
        lookup(cells, offset) matches Some(cell) ==> cell.offset == offset,
    decreases cells.len(),
{
    if cells.len() > 0 && cells.last().offset != offset {
        lemma_lookup_found(cells.drop_last(), offset);
    }
}

/// Ordered cells are determined by what is found in them: two orderings of
/// cells in which every offset finds the same are one.
pub proof fn lemma_ordered_cells_unique(a: Seq<Cell>, b: Seq<Cell>)
    requires
        ordered(a),
        ordered(b),
        forall|offset: isize| lookup(a, offset) == lookup(b, offset),
    ensures
        a == b,
    decreases a.len() + b.len(),
{
    if a.len() == 0 {
        if b.len() > 0 {
            assert(lookup(b, b.last().offset) == Some(b.last()));
            assert(lookup(a, b.last().offset) is None);
        }
        assert(a =~= b);
    } else if b.len() == 0 {
        assert(lookup(a, a.last().offset) == Some(a.last()));
        assert(lookup(b, a.last().offset) is None);
    } else {
        let x = a.last();
        let y = b.last();
        assert(lookup(a, x.offset) == Some(x));
        assert(lookup(b, y.offset) == Some(y));
        if x.offset < y.offset {
            assert forall|i: int| 0 <= i < a.len() implies a[i].offset != y.offset by {
                if i < a.len() - 1 {
                    assert(a[i].offset < a[a.len() - 1].offset);
                }
            }
            lemma_lookup_absent(a, y.offset);
        } else if y.offset < x.offset {
            assert forall|i: int| 0 <= i < b.len() implies b[i].offset != x.offset by {
                if i < b.len() - 1 {
                    assert(b[i].offset < b[b.len() - 1].offset);
                }
            }
            lemma_lookup_absent(b, x.offset);
        }
        assert(x == y);
        let shorter_a = a.drop_last();
        let shorter_b = b.drop_last();
        assert forall|offset: isize| lookup(shorter_a, offset) == lookup(shorter_b, offset) by {
            if offset == x.offset {
                assert forall|i: int| 0 <= i < shorter_a.len() implies shorter_a[i].offset
                    != offset by {
                    assert(a[i].offset < a[a.len() - 1].offset);
                }
                assert forall|i: int| 0 <= i < shorter_b.len() implies shorter_b[i].offset
                    != offset by {
                    assert(b[i].offset < b[b.len() - 1].offset);
                }
                lemma_lookup_absent(shorter_a, offset);
                lemma_lookup_absent(shorter_b, offset);
            } else {
                assert(lookup(a, offset) == lookup(shorter_a, offset));
                assert(lookup(b, offset) == lookup(shorter_b, offset));
            }
        }
        assert forall|i: int, j: int| 0 <= i < j < shorter_a.len() implies shorter_a[i].offset
            < shorter_a[j].offset by {
            assert(a[i].offset < a[j].offset);
        }
        assert forall|i: int, j: int| 0 <= i < j < shorter_b.len() implies shorter_b[i].offset
            < shorter_b[j].offset by {
            assert(b[i].offset < b[j].offset);
        }
        lemma_ordered_cells_unique(shorter_a, shorter_b);
        assert(a =~= shorter_a.push(x));
        assert(b =~= shorter_b.push(y));
    }
}

/// The summary of a run walked on from a given summary.
pub open spec fn fold_over(block: Block, run: Seq<Op>) -> Block
    decreases run.len(),
{
    if run.len() == 0 {
        block
    } else {
        apply(fold_over(block, run.drop_last()), run.last())
    }
}

/// The summary of two runs end to end is that of the second, walked on
/// from the summary of the first.
pub proof fn lemma_fold_state_concat(a: Seq<Op>, b: Seq<Op>)
    ensures
        fold_state(a + b) == fold_over(fold_state(a), b),
    decreases b.len(),
{
    if b.len() == 0 {
        assert(a + b =~= a);
    } else {
        assert((a + b).drop_last() =~= a + b.drop_last());
        assert((a + b).last() == b.last());
        lemma_fold_state_concat(a, b.drop_last());
    }
}

/// The cell that an `Add` or an `Assign` records in a summary, and nothing
/// for any other instruction.
pub open spec fn recorded(block: Block, op: Op) -> Option<Cell> {
    match op {
        Op::Assign(value, offset) => Some(
            Cell {
                offset: displaced(block.cursor_offset, offset),
                value,
                state: MemoryCellState::Assigned,
            },
        ),
        Op::Add(value, offset) => {
            let at = displaced(block.cursor_offset, offset);
            match lookup(block.cells, at) {
                Some(prior) => Some(
                    Cell { offset: at, value: byte_sum(value, prior.value), state: prior.state },
                ),
                None => Some(Cell { offset: at, value, state: MemoryCellState::Relative }),
            }
        },
        _ => None,
    }
}

/// An `Add` or an `Assign` changes a summary by the cell that it records.
proof fn lemma_apply_records(block: Block, op: Op)
    requires
        op is Add || op is Assign,
        ordered(block.cells),
    ensures
        recorded(block, op) matches Some(cell) && apply(block, op) == (Block {
            cells: upsert(block.cells, cell),
            cursor_offset: block.cursor_offset,
        }) && ordered(apply(block, op).cells),
{
    lemma_upsert_ordered(block.cells, recorded(block, op).unwrap());
}

/// Two sums of bytes modulo 256 may be taken in either order.
proof fn lemma_byte_sum_exchange(a: u8, b: u8, c: u8)
    ensures
        byte_sum(a, byte_sum(b, c)) == byte_sum(b, byte_sum(a, c)),
{
    let bc = byte_sum(b, c);
    let ac = byte_sum(a, c);
    assert(bc == if b + c >= 256 {
        b + c - 256
    } else {
        b + c
    });
    assert(ac == if a + c >= 256 {
        a + c - 256
    } else {
        a + c
    });
    assert(byte_sum(a, bc) == if a + bc >= 256 {
        a + bc - 256
    } else {
        a + bc
    });
    assert(byte_sum(b, ac) == if b + ac >= 256 {
        b + ac - 256
    } else {
        b + ac
    });
}

/// Two instructions that follow each other in a run may change places
/// where that cannot matter: both are `Add`, or each is an `Add` or an
/// `Assign` and they go to different cells.
pub open spec fn may_swap(first: Op, second: Op) -> bool {
    ||| first is Add && second is Add
    ||| first matches Op::Add(_, p) && second matches Op::Assign(_, q) && p != q
    ||| first matches Op::Assign(_, p) && second matches Op::Add(_, q) && p != q
    ||| first matches Op::Assign(_, p) && second matches Op::Assign(_, q) && p != q
}

/// The offset that an `Add` or an `Assign` goes to.
pub open spec fn offset_of(op: Op) -> isize {
    match op {
        Op::Add(_, offset) => offset,
        Op::Assign(_, offset) => offset,
        Op::Move(offset) => offset,
        Op::Read(offset) => offset,
        Op::Write(offset) => offset,
        Op::Loop(_) => 0,
    }
}

/// Different offsets from one cursor are different cells, also around the
/// wrap.
proof fn lemma_displaced_injective(cursor: isize, p: isize, q: isize)
    requires
        p != q,
    ensures
        displaced(cursor, p) != displaced(cursor, q),
{
}

/// Applying two instructions that may change places gives the same
/// summary in either order.
proof fn lemma_apply_exchange(block: Block, first: Op, second: Op)
    requires
        ordered(block.cells),
        may_swap(first, second),
    ensures
        apply(apply(block, first), second) == apply(apply(block, second), first),
{
    lemma_apply_records(block, first);
    lemma_apply_records(block, second);
    let one = apply(block, first);
    let two = apply(block, second);
    lemma_apply_records(one, second);
    lemma_apply_records(two, first);
    let a = apply(one, second);
    let b = apply(two, first);
    let x = recorded(block, first).unwrap();
    let y = recorded(block, second).unwrap();
    let x_late = recorded(two, first).unwrap();
    let y_late = recorded(one, second).unwrap();
    lemma_lookup_upsert(block.cells, x, y.offset);
    lemma_lookup_upsert(block.cells, y, x.offset);
    if offset_of(first) != offset_of(second) {
        lemma_displaced_injective(block.cursor_offset, offset_of(first), offset_of(second));
    } else {
        match (first, second, lookup(block.cells, x.offset)) {
            (Op::Add(v, _), Op::Add(w, _), Some(prior)) => {
                lemma_byte_sum_exchange(v, w, prior.value);
            },
            (Op::Add(v, _), Op::Add(w, _), None) => {
                assert(byte_sum(w, v) == byte_sum(v, w));
            },
            _ => {},
        }
    }
    assert forall|offset: isize| lookup(a.cells, offset) == lookup(b.cells, offset) by {
        lemma_lookup_upsert(block.cells, x, offset);
        lemma_lookup_upsert(block.cells, y, offset);
        lemma_lookup_upsert(one.cells, y_late, offset);
        lemma_lookup_upsert(two.cells, x_late, offset);
    }
    lemma_ordered_cells_unique(a.cells, b.cells);
}

/// The order of the instructions of a run does not matter where they may
/// change places: exchanging two neighbours that are both `Add`, or that
/// go to different cells without a `Move` between them, leaves the summary
/// of the run as it was.
pub proof fn lemma_fold_state_exchange(before: Seq<Op>, first: Op, second: Op, after: Seq<Op>)
    requires
        may_swap(first, second),
    ensures
        fold_state(before + seq![first, second] + after) == fold_state(
            before + seq![second, first] + after,
        ),
{
    let block = fold_state(before);
    lemma_fold_state_ordered(before);
    lemma_apply_exchange(block, first, second);
    let one = before + seq![first, second];
    let two = before + seq![second, first];
    assert(one.drop_last() =~= before.push(first));
    assert(before.push(first).drop_last() =~= before);
    assert(fold_state(before.push(first)) == apply(block, first));
    assert(two.drop_last() =~= before.push(second));
    assert(before.push(second).drop_last() =~= before);
    assert(fold_state(before.push(second)) == apply(block, second));
    assert(fold_state(one) == apply(apply(block, first), second));
    assert(fold_state(two) == apply(apply(block, second), first));
    lemma_fold_state_concat(one, after);
    lemma_fold_state_concat(two, after);
}

/// The last write wins: an `Assign` makes an `Add` or an `Assign` to the
/// same cell just before it superfluous.
pub proof fn lemma_fold_state_overwrite(before: Seq<Op>, earlier: Op, value: u8, after: Seq<Op>)
    requires
        earlier is Add || earlier is Assign,
    ensures
        fold_state(before + seq![earlier, Op::Assign(value, offset_of(earlier))] + after)
            == fold_state(before + seq![Op::Assign(value, offset_of(earlier))] + after),
{
    let block = fold_state(before);
    let last = Op::Assign(value, offset_of(earlier));
    lemma_fold_state_ordered(before);
    lemma_apply_records(block, earlier);
    lemma_apply_records(block, last);
    let mid = apply(block, earlier);
    lemma_apply_records(mid, last);
    let a = apply(mid, last);
    let b = apply(block, last);
    let x = recorded(block, earlier).unwrap();
    let y = recorded(block, last).unwrap();
    assert forall|offset: isize| lookup(a.cells, offset) == lookup(b.cells, offset) by {
        lemma_lookup_upsert(block.cells, x, offset);
        lemma_lookup_upsert(block.cells, y, offset);
        lemma_lookup_upsert(mid.cells, y, offset);
    }
    lemma_ordered_cells_unique(a.cells, b.cells);
    let one = before + seq![earlier, last];
    let two = before + seq![last];
    assert(one.drop_last() =~= before.push(earlier));
    assert(before.push(earlier).drop_last() =~= before);
    assert(fold_state(before.push(earlier)) == apply(block, earlier));
    assert(two.drop_last() =~= before);
    assert(fold_state(one) == apply(apply(block, earlier), last));
    assert(fold_state(two) == apply(block, last));
    lemma_fold_state_concat(one, after);
    lemma_fold_state_concat(two, after);
}

/// The cells as a mapping from offset to value and tag.
pub open spec fn mapping(cells: Seq<Cell>) -> Map<isize, (u8, MemoryCellState)> {
    Map::new(
        |offset: isize| lookup(cells, offset) is Some,
        |offset: isize| (lookup(cells, offset).unwrap().value, lookup(cells, offset).unwrap().state),
    )
}

/// Putting a cell among the cells is inserting it into the mapping.
pub proof fn lemma_mapping_upsert(cells: Seq<Cell>, cell: Cell)
    ensures
        mapping(upsert(cells, cell)) == mapping(cells).insert(
            cell.offset,
            (cell.value, cell.state),
        ),
{
    let after = mapping(upsert(cells, cell));
    let inserted = mapping(cells).insert(cell.offset, (cell.value, cell.state));
    assert forall|offset: isize| #[trigger]
        after.contains_key(offset) == inserted.contains_key(offset) && (after.contains_key(offset)
            ==> after[offset] == inserted[offset]) by {
        lemma_lookup_upsert(cells, cell, offset);
    }
    assert(after =~= inserted);
}

/// One mapping has one ordering: ordered cells are determined by their
/// mapping, so that what a summary emits depends on nothing else.
pub proof fn lemma_mapping_determines_cells(a: Seq<Cell>, b: Seq<Cell>)
    requires
        ordered(a),
        ordered(b),
        mapping(a) == mapping(b),
    ensures
        a == b,
{
    assert forall|offset: isize| lookup(a, offset) == lookup(b, offset) by {
        lemma_lookup_found(a, offset);
        lemma_lookup_found(b, offset);
        assert(mapping(a).contains_key(offset) == (lookup(a, offset) is Some));
        assert(mapping(b).contains_key(offset) == (lookup(b, offset) is Some));
        if lookup(a, offset) is Some {
            let x = lookup(a, offset).unwrap();
            let y = lookup(b, offset).unwrap();
            assert(mapping(a)[offset] == (x.value, x.state));
            assert(mapping(b)[offset] == (y.value, y.state));
            assert(x == y);
        }
    }
    lemma_ordered_cells_unique(a, b);
}

} // verus!
