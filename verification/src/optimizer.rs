//! One pass of the optimizer: runs of `Add`, `Assign` and `Move` are folded
//! into their net effect, loops that only clear a cell become an
//! assignment, and loops that can never run are dropped.

use crate::refold::lemma_fold_never_longer;
use crate::vm::{byte_sum, lemma_loop_model, Instruction, Op};
use vstd::prelude::*;
use vstd::wrapping::isize_specs;

verus! {

/// What a block is known to have done to one cell.
#[derive(Copy, Clone, Debug, PartialEq, Eq, Structural)]
pub enum MemoryCellState {
    /// The cell holds the value, whatever it held before the block.
    Assigned,
    /// The value has been added to what the cell held before the block.
    Relative,
}

/// One touched cell of a block: its offset from the cursor at the start of
/// the block, and the value that the block leaves there or adds to it.
#[derive(Copy, Clone, Debug, PartialEq, Eq)]
pub struct Cell {
    pub offset: isize,
    pub value: u8,
    pub state: MemoryCellState,
}

/// The model of a block's summary: the touched cells in increasing order of
/// offset, and the net displacement of the cursor.
pub struct Block {
    pub cells: Seq<Cell>,
    pub cursor_offset: isize,
}

/// The summary of a straight run of `Add`, `Assign` and `Move`: the net
/// effect on every cell that the run touches and on the cursor.
#[derive(Debug)]
pub struct BlockState {
    /// The touched cells, in strictly increasing order of offset, so that
    /// what is emitted from them never depends on the order of insertion.
    pub mem: Vec<Cell>,
    pub cursor_offset: isize,
}

impl View for BlockState {
    type V = Block;

    open spec fn view(&self) -> Block {
        Block { cells: self.mem@, cursor_offset: self.cursor_offset }
    }
}

/// Offsets strictly increase along the cells: no offset occurs twice.
pub open spec fn ordered(cells: Seq<Cell>) -> bool {
    forall|i: int, j: int| 0 <= i < j < cells.len() ==> cells[i].offset < cells[j].offset
}

/// The entry for `offset`, if the cells hold one.
pub open spec fn lookup(cells: Seq<Cell>, offset: isize) -> Option<Cell>
    decreases cells.len(),
{
    if cells.len() == 0 {
        None
    } else if cells.last().offset == offset {
        Some(cells.last())
    } else {
        lookup(cells.drop_last(), offset)
    }
}

/// The cells with `cell` put in its place by offset: it replaces the entry
/// of the same offset, or goes between its neighbours.
pub open spec fn upsert(cells: Seq<Cell>, cell: Cell) -> Seq<Cell>
    decreases cells.len(),
{
    if cells.len() == 0 {
        seq![cell]
    } else if cells.last().offset < cell.offset {
        cells.push(cell)
    } else if cells.last().offset == cell.offset {
        cells.drop_last().push(cell)
    } else {
        upsert(cells.drop_last(), cell).push(cells.last())
    }
}

/// An offset taken from a cursor position, with the machine's wrap-around.
pub open spec fn displaced(cursor: isize, offset: isize) -> isize {
    isize_specs::wrapping_add(cursor, offset)
}

/// `Add`, `Assign` and `Move`: the instructions that a block is made of.
pub open spec fn is_linear(op: Op) -> bool {
    op is Add || op is Assign || op is Move
}

/// A run holds nothing but `Add`, `Assign` and `Move`.
pub open spec fn is_run(code: Seq<Op>) -> bool {
    forall|i: int| 0 <= i < code.len() ==> is_linear(#[trigger] code[i])
}

/// The summary after one more instruction.
///
/// - `Move` displaces the cursor and touches no cell.
/// - `Assign` makes the cell assigned, whatever was known of it.
/// - `Add` adds to the value known of the cell and keeps its tag; a cell not
///   touched before counts as relative zero.
pub open spec fn apply(block: Block, op: Op) -> Block {
    match op {
        Op::Move(offset) => Block {
            cells: block.cells,
            cursor_offset: displaced(block.cursor_offset, offset),
        },
        Op::Assign(value, offset) => Block {
            cells: upsert(
                block.cells,
                Cell {
                    offset: displaced(block.cursor_offset, offset),
                    value,
                    state: MemoryCellState::Assigned,
                },
            ),
            cursor_offset: block.cursor_offset,
        },
        Op::Add(value, offset) => {
            let at = displaced(block.cursor_offset, offset);
            let cell = match lookup(block.cells, at) {
                Some(prior) => Cell {
                    offset: at,
                    value: byte_sum(value, prior.value),
                    state: prior.state,
                },
                None => Cell { offset: at, value, state: MemoryCellState::Relative },
            };
            Block { cells: upsert(block.cells, cell), cursor_offset: block.cursor_offset }
        },
        _ => block,
    }
}

/// The summary of a run, walked from left to right from the empty summary.
pub open spec fn fold_state(run: Seq<Op>) -> Block
    decreases run.len(),
{
    if run.len() == 0 {
        Block { cells: Seq::empty(), cursor_offset: 0 }
    } else {
        apply(fold_state(run.drop_last()), run.last())
    }
}

/// What one cell of a summary is emitted as: an `Assign` if it is assigned,
/// an `Add` if it is relative and not zero, and nothing if it is relative
/// zero.
pub open spec fn cell_ops(cell: Cell) -> Seq<Op> {
    match cell.state {
        MemoryCellState::Assigned => seq![Op::Assign(cell.value, cell.offset)],
        MemoryCellState::Relative => if cell.value != 0 {
            seq![Op::Add(cell.value, cell.offset)]
        } else {
            Seq::empty()
        },
    }
}

/// What the cells of a summary are emitted as, in their order.
pub open spec fn cells_ops(cells: Seq<Cell>) -> Seq<Op>
    decreases cells.len(),
{
    if cells.len() == 0 {
        Seq::empty()
    } else {
        cells_ops(cells.drop_last()) + cell_ops(cells.last())
    }
}

/// The instructions that replace a block: its cells in increasing order of
/// offset, then one `Move` if the cursor has been displaced.
pub open spec fn emitted(block: Block) -> Seq<Op> {
    cells_ops(block.cells) + if block.cursor_offset != 0 {
        seq![Op::Move(block.cursor_offset)]
    } else {
        Seq::empty()
    }
}

/// The block proves that the cell under the cursor holds zero at its end.
pub open spec fn zero_at_cursor(block: Block) -> bool {
    lookup(block.cells, block.cursor_offset) matches Some(cell) && cell.value == 0 && cell.state
        == MemoryCellState::Assigned
}

/// With `at` the place that `offset` has or would have among ordered cells,
/// looking it up means looking at that place.
pub proof fn lemma_lookup_at(cells: Seq<Cell>, offset: isize, at: int)
    requires
        ordered(cells),
        0 <= at <= cells.len(),
        forall|i: int| 0 <= i < at ==> cells[i].offset < offset,
        forall|i: int| at <= i < cells.len() ==> cells[i].offset >= offset,
    ensures
        lookup(cells, offset) == if at < cells.len() && cells[at].offset == offset {
            Some(cells[at])
        } else {
            None
        },
    decreases cells.len(),
{
    if cells.len() > 0 && cells.last().offset != offset {
        let rest = cells.drop_last();
        if at == cells.len() {
            lemma_lookup_at(rest, offset, at - 1);
        } else {
            lemma_lookup_at(rest, offset, at);
        }
    }
}

/// With `at` the place that the cell's offset has or would have among
/// ordered cells, `upsert` replaces or inserts there, and the result is
/// ordered.
pub proof fn lemma_upsert_at(cells: Seq<Cell>, cell: Cell, at: int)
    requires
        ordered(cells),
        0 <= at <= cells.len(),
        forall|i: int| 0 <= i < at ==> cells[i].offset < cell.offset,
        forall|i: int| at <= i < cells.len() ==> cells[i].offset >= cell.offset,
    ensures
        upsert(cells, cell) == if at < cells.len() && cells[at].offset == cell.offset {
            cells.update(at, cell)
        } else {
            cells.insert(at, cell)
        },
        ordered(upsert(cells, cell)),
    decreases cells.len(),
{
    if cells.len() == 0 {
        assert(cells.insert(0, cell) =~= seq![cell]);
    } else if cells.last().offset < cell.offset {
        assert(cells.insert(at, cell) =~= cells.push(cell));
    } else if cells.last().offset == cell.offset {
        assert(cells.update(at, cell) =~= cells.drop_last().push(cell));
    } else {
        let rest = cells.drop_last();
        lemma_upsert_at(rest, cell, at);
        if at < rest.len() && rest[at].offset == cell.offset {
            assert(cells.update(at, cell) =~= rest.update(at, cell).push(cells.last()));
        } else {
            assert(cells.insert(at, cell) =~= rest.insert(at, cell).push(cells.last()));
        }
    }
}

impl BlockState {
    /// The entries are in strictly increasing order of offset.
    pub open spec fn wf(&self) -> bool {
        ordered(self.mem@)
    }

    /// The summary of the empty run.
    pub fn new() -> (state: Self)
        ensures
            state.wf(),
            state@ == fold_state(Seq::empty()),
    {
        BlockState { mem: Vec::new(), cursor_offset: 0 }
    }

    /// The place that `offset` has or would have among the entries.
    fn position(&self, offset: isize) -> (at: usize)
        requires
            self.wf(),
        ensures
            at <= self.mem.len(),
            forall|i: int| 0 <= i < at ==> self.mem[i].offset < offset,
            forall|i: int| at <= i < self.mem.len() ==> self.mem[i].offset >= offset,
    {
        let mut at: usize = 0;
        while at < self.mem.len() && self.mem[at].offset < offset
            invariant
                at <= self.mem.len(),
                forall|i: int| 0 <= i < at ==> self.mem[i].offset < offset,
            decreases self.mem.len() - at,
        {
            at += 1;
        }
        at
    }

    /// The entry for `offset`, if the block has touched that cell.
    pub fn get(&self, offset: isize) -> (found: Option<Cell>)
        requires
            self.wf(),
        ensures
            found == lookup(self@.cells, offset),
    {
        let at = self.position(offset);
        proof {
            lemma_lookup_at(self.mem@, offset, at as int);
        }
        if at < self.mem.len() && self.mem[at].offset == offset {
            Some(self.mem[at])
        } else {
            None
        }
    }

    /// Whether the block proves that the cell under the cursor holds zero
    /// at its end.
    pub fn proves_zero(&self) -> (proved: bool)
        requires
            self.wf(),
        ensures
            proved == zero_at_cursor(self@),
    {
        match self.get(self.cursor_offset) {
            Some(cell) => cell.value == 0 && cell.state == MemoryCellState::Assigned,
            None => false,
        }
    }

    /// The instructions that replace the block.
    pub fn emit(&self) -> (code: Vec<Instruction>)
        ensures
            code.deep_view() == emitted(self@),
    {
        let mut code: Vec<Instruction> = Vec::new();
        let mut i: usize = 0;
        assert(code.deep_view() =~= cells_ops(self.mem@.take(0)));
        while i < self.mem.len()
            invariant
                i <= self.mem.len(),
                code.deep_view() == cells_ops(self.mem@.take(i as int)),
            decreases self.mem.len() - i,
        {
            let cell = self.mem[i];
            let ghost before = code.deep_view();
            proof {
                assert(self.mem@.take(i + 1).drop_last() =~= self.mem@.take(i as int));
            }
            match cell.state {
                MemoryCellState::Assigned => {
                    code.push(Instruction::Assign(cell.value, cell.offset));
                },
                MemoryCellState::Relative => {
                    if cell.value != 0 {
                        code.push(Instruction::Add(cell.value, cell.offset));
                    }
                },
            }
            assert(code.deep_view() =~= before + cell_ops(cell));
            i += 1;
        }
        assert(self.mem@.take(self.mem.len() as int) =~= self.mem@);
        if self.cursor_offset != 0 {
            code.push(Instruction::Move(self.cursor_offset));
        }
        assert(code.deep_view() =~= emitted(self@));
        code
    }

    /// Records `cell`, in place of what was known of its offset.
    pub fn insert(&mut self, cell: Cell)
        requires
            old(self).wf(),
        ensures
            final(self).wf(),
            final(self)@.cells == upsert(old(self)@.cells, cell),
            final(self)@.cursor_offset == old(self)@.cursor_offset,
    {
        let at = self.position(cell.offset);
        proof {
            lemma_upsert_at(self.mem@, cell, at as int);
        }
        if at < self.mem.len() && self.mem[at].offset == cell.offset {
            self.mem.set(at, cell);
        } else {
            self.mem.insert(at, cell);
        }
    }
}

/// Summarises a run: walks it from left to right, keeping the net
/// displacement of the cursor and, for every cell touched, what the run
/// leaves there.
pub fn get_state(code: &Vec<Instruction>) -> (state: BlockState)
    requires
        is_run(code.deep_view()),
    ensures
        state.wf(),
        state@ == fold_state(code.deep_view()),
{
    let ghost run = code.deep_view();
    let mut state = BlockState::new();
    let mut i: usize = 0;
    assert(run.take(0) =~= Seq::empty());
    while i < code.len()
        invariant
            run == code.deep_view(),
            is_run(run),
            i <= code.len(),
            state.wf(),
            state@ == fold_state(run.take(i as int)),
        decreases code.len() - i,
    {
        proof {
            assert(run.take(i + 1).drop_last() =~= run.take(i as int));
            assert(run.take(i + 1).last() == code[i as int].deep_view());
            assert(is_linear(run[i as int]));
        }
        match &code[i] {
            Instruction::Add(x, offset) => {
                let at = state.cursor_offset.wrapping_add(*offset);
                let cell = match state.get(at) {
                    Some(prior) => Cell {
                        offset: at,
                        value: x.wrapping_add(prior.value),
                        state: prior.state,
                    },
                    None => Cell { offset: at, value: *x, state: MemoryCellState::Relative },
                };
                state.insert(cell);
            },
            Instruction::Move(offset) => {
                state.cursor_offset = state.cursor_offset.wrapping_add(*offset);
            },
            Instruction::Assign(x, offset) => {
                let at = state.cursor_offset.wrapping_add(*offset);
                state.insert(Cell { offset: at, value: *x, state: MemoryCellState::Assigned });
            },
            _ => {},
        }
        i += 1;
    }
    assert(run.take(code.len() as int) =~= run);
    state
}

/// Folds a run into the shortest sequence with the same effect: one
/// instruction for each cell that the run changes, in increasing order of
/// offset, then one `Move` if the cursor ends elsewhere.
pub fn optimize_set(code: &Vec<Instruction>) -> (optimized: Vec<Instruction>)
    requires
        is_run(code.deep_view()),
    ensures
        optimized.deep_view() == emitted(fold_state(code.deep_view())),
        optimized.len() <= code.len(),
{
    let state = get_state(code);
    proof {
        lemma_fold_never_longer(code.deep_view());
    }
    state.emit()
}

/// The three bodies of one instruction that make a loop a zeroing idiom:
/// counting the cell up or down by one until it is zero, or setting it to
/// zero.
pub open spec fn is_clearing(op: Op) -> bool {
    op == Op::Add(1, 0) || op == Op::Add(255, 0) || op == Op::Assign(0, 0)
}

/// What a loop with the given, already optimized, body becomes.
///
/// - A body of one clearing instruction makes the loop `Assign(0, 0)`.
/// - A body that is one loop is unwrapped, and the inner body judged in its
///   place.
/// - Any other body stays wrapped in its loop.
pub open spec fn simplified_loop(body: Seq<Op>) -> Op
    decreases body,
{
    if body.len() == 1 {
        match body[0] {
            Op::Loop(inner) => simplified_loop(inner),
            only => if is_clearing(only) {
                Op::Assign(0, 0)
            } else {
                Op::Loop(body)
            },
        }
    } else {
        Op::Loop(body)
    }
}

/// The length of the run that a program starts with.
pub open spec fn run_length(code: Seq<Op>) -> nat
    decreases code.len(),
{
    if code.len() > 0 && is_linear(code[0]) {
        1 + run_length(code.skip(1))
    } else {
        0
    }
}

/// The run that a program starts with lies within it, and it is maximal: it
/// holds linear instructions only, and what follows it is not one.
pub proof fn lemma_run_length(code: Seq<Op>)
    ensures
        run_length(code) <= code.len(),
        is_run(code.take(run_length(code) as int)),
        run_length(code) < code.len() ==> !is_linear(code[run_length(code) as int]),
    decreases code.len(),
{
    if code.len() > 0 && is_linear(code[0]) {
        let rest = code.skip(1);
        lemma_run_length(rest);
        let n = run_length(rest) as int;
        assert forall|i: int| 0 <= i < n + 1 implies is_linear(#[trigger] code.take(n + 1)[i]) by {
            if i > 0 {
                assert(code.take(n + 1)[i] == rest.take(n)[i - 1]);
            }
        }
        if n + 1 < code.len() {
            assert(code[n + 1] == rest[n]);
        }
    }
}

/// A prefix of linear instructions that ends where the program ends or
/// where another kind of instruction stands is the run that the program
/// starts with.
pub proof fn lemma_run_length_is(code: Seq<Op>, n: int)
    requires
        0 <= n <= code.len(),
        forall|i: int| 0 <= i < n ==> is_linear(#[trigger] code[i]),
        n < code.len() ==> !is_linear(code[n]),
    ensures
        run_length(code) == n,
    decreases n,
{
    if n > 0 {
        let rest = code.skip(1);
        assert(is_linear(code[0]));
        assert forall|i: int| 0 <= i < n - 1 implies is_linear(#[trigger] rest[i]) by {
            assert(rest[i] == code[i + 1]);
        }
        if n - 1 < rest.len() {
            assert(rest[n - 1] == code[n]);
        }
        lemma_run_length_is(rest, n - 1);
    }
}

/// One pass of the optimizer over a program. `zero` says whether the cell
/// under the cursor is known to hold zero where the program starts.
///
/// - A maximal run of linear instructions is replaced by what its summary
///   emits, and the summary says whether the cell under the cursor is known
///   to be zero after it.
/// - A loop that starts where the cell under the cursor is known to be zero
///   is dropped, and the cell is still known to be zero after it.
/// - Any other loop has its body optimized by one pass and is then
///   simplified; nothing is known after it.
/// - `Read` and `Write` stay as they are; nothing is known after them.
pub open spec fn optimized(code: Seq<Op>, zero: bool) -> Seq<Op>
    decreases code,
{
    if code.len() == 0 {
        Seq::empty()
    } else if is_linear(code[0]) {
        let n = run_length(code) as int;
        let block = fold_state(code.take(n));
        proof {
            lemma_run_length(code);
        }
        emitted(block) + optimized(code.skip(n), zero_at_cursor(block))
    } else {
        match code[0] {
            Op::Loop(body) => if zero {
                optimized(code.skip(1), true)
            } else {
                seq![simplified_loop(optimized(body, false))] + optimized(code.skip(1), false)
            },
            other => seq![other] + optimized(code.skip(1), false),
        }
    }
}

/// One pass of the optimizer over a whole program, of which nothing is
/// known at its start.
pub open spec fn pass(code: Seq<Op>) -> Seq<Op> {
    optimized(code, false)
}

/// Replaces a loop, given its optimized body, by something simpler where a
/// rule allows it.
pub fn optimize_loop(instructions: Vec<Instruction>) -> (simplified: Instruction)
    ensures
        simplified.deep_view() == simplified_loop(instructions.deep_view()),
    decreases instructions,
{
    proof {
        lemma_loop_model(instructions);
    }
    if instructions.len() == 1 {
        let ghost body = instructions.deep_view();
        let mut instructions = instructions;
        let only = instructions.pop().unwrap();
        assert(only.deep_view() == body[0]);
        assert(body =~= seq![only.deep_view()]);
        match only {
            Instruction::Loop(x) => {
                proof {
                    lemma_loop_model(x);
                }
                optimize_loop(x)
            },
            Instruction::Add(value, offset) => {
                if offset == 0 && (value == 1 || value == 255) {
                    Instruction::Assign(0, 0)
                } else {
                    rewrap(instructions, Instruction::Add(value, offset))
                }
            },
            Instruction::Assign(value, offset) => {
                if offset == 0 && value == 0 {
                    Instruction::Assign(0, 0)
                } else {
                    rewrap(instructions, Instruction::Assign(value, offset))
                }
            },
            other => rewrap(instructions, other),
        }
    } else {
        Instruction::Loop(instructions)
    }
}

/// The loop whose body is the one instruction.
fn rewrap(emptied: Vec<Instruction>, only: Instruction) -> (wrapped: Instruction)
    requires
        emptied.len() == 0,
    ensures
        wrapped.deep_view() == Op::Loop(seq![only.deep_view()]),
{
    let mut body = emptied;
    body.push(only);
    proof {
        lemma_loop_model(body);
        assert(body.deep_view() =~= seq![only.deep_view()]);
    }
    Instruction::Loop(body)
}

/// Whether the instruction is an `Add`, an `Assign` or a `Move`.
fn linear(instruction: &Instruction) -> (yes: bool)
    ensures
        yes == is_linear(instruction.deep_view()),
{
    match instruction {
        Instruction::Add(_, _) | Instruction::Move(_) | Instruction::Assign(_, _) => true,
        _ => false,
    }
}

/// One pass over a program: every maximal run is folded, every loop that
/// provably never runs is dropped, and every other loop has its body
/// optimized and is then simplified.
pub fn optimize_instructions(code: &Vec<Instruction>) -> (optimized_code: Vec<Instruction>)
    ensures
        optimized_code.deep_view() == pass(code.deep_view()),
    decreases code,
{
    let ghost ops = code.deep_view();
    let mut optimized_code: Vec<Instruction> = Vec::new();
    let mut zero = false;
    let mut i: usize = 0;
    assert(ops.skip(0) =~= ops);
    assert(optimized_code.deep_view() + optimized(ops, false) =~= optimized(ops, false));
    while i < code.len()
        invariant
            ops == code.deep_view(),
            i <= code.len(),
            optimized_code.deep_view() + optimized(ops.skip(i as int), zero) == optimized(
                ops,
                false,
            ),
        decreases code.len() - i,
    {
        let ghost rest = ops.skip(i as int);
        let ghost before = optimized_code.deep_view();
        assert(rest[0] == code[i as int].deep_view());
        if linear(&code[i]) {
            let start = i;
            let mut set: Vec<Instruction> = Vec::new();
            while i < code.len() && linear(&code[i])
                invariant
                    ops == code.deep_view(),
                    start <= i <= code.len(),
                    set.deep_view() == ops.subrange(start as int, i as int),
                    is_run(set.deep_view()),
                decreases code.len() - i,
            {
                let ghost collected = set.deep_view();
                let copy = code[i].clone();
                assert(copy.deep_view() == ops[i as int]);
                set.push(copy);
                assert(set.deep_view() =~= collected.push(copy.deep_view()));
                assert(set.deep_view() =~= ops.subrange(start as int, i + 1));
                i += 1;
            }
            proof {
                let n = i - start;
                assert forall|k: int| 0 <= k < n implies is_linear(#[trigger] rest[k]) by {
                    assert(rest[k] == set.deep_view()[k]);
                }
                if n < rest.len() {
                    assert(rest[n] == code[i as int].deep_view());
                }
                lemma_run_length_is(rest, n);
                assert(rest.take(n) =~= set.deep_view());
                assert(rest.skip(n) =~= ops.skip(i as int));
            }
            let state = get_state(&set);
            zero = state.proves_zero();
            let mut folded = state.emit();
            let ghost added = folded.deep_view();
            optimized_code.append(&mut folded);
            assert(optimized_code.deep_view() =~= before + added);
            assert(before + (added + optimized(ops.skip(i as int), zero)) =~= (before + added)
                + optimized(ops.skip(i as int), zero));
        } else {
            proof {
                assert(rest.skip(1) =~= ops.skip(i + 1));
            }
            match &code[i] {
                Instruction::Loop(inner) => {
                    proof {
                        lemma_loop_model(*inner);
                    }
                    if !zero {
                        let body = optimize_instructions(inner);
                        let simplified = optimize_loop(body);
                        optimized_code.push(simplified);
                        assert(optimized_code.deep_view() =~= before + seq![
                            simplified.deep_view(),
                        ]);
                        assert(before + (seq![simplified.deep_view()] + optimized(
                            ops.skip(i + 1),
                            false,
                        )) =~= (before + seq![simplified.deep_view()]) + optimized(
                            ops.skip(i + 1),
                            false,
                        ));
                    }
                },
                other => {
                    let kept = other.clone();
                    optimized_code.push(kept);
                    zero = false;
                    assert(optimized_code.deep_view() =~= before + seq![kept.deep_view()]);
                    assert(before + (seq![kept.deep_view()] + optimized(ops.skip(i + 1), false))
                        =~= (before + seq![kept.deep_view()]) + optimized(ops.skip(i + 1), false));
                },
            }
            i += 1;
        }
    }
    assert(ops.skip(code.len() as int) =~= Seq::empty());
    assert(optimized_code.deep_view() + Seq::empty() =~= optimized_code.deep_view());
    optimized_code
}

/// The signal that a pass has changed nothing: the program has converged.
#[derive(Debug, PartialEq, Eq)]
pub struct MaximumOptimizationReached;

/// Runs one pass over the program. A program that the pass changes is
/// returned in its new form; one that it leaves as it is has converged.
pub fn optimize(code: &Vec<Instruction>) -> (outcome: Result<
    Vec<Instruction>,
    MaximumOptimizationReached,
>)
    ensures
        match outcome {
            Ok(optimized_code) => optimized_code.deep_view() == pass(code.deep_view())
                && pass(code.deep_view()) != code.deep_view(),
            Err(_) => pass(code.deep_view()) == code.deep_view(),
        },
{
    let optimized_instr = optimize_instructions(code);
    if !crate::vm::same_code(&optimized_instr, code) {
        Ok(optimized_instr)
    } else {
        Err(MaximumOptimizationReached)
    }
}

} // verus!
