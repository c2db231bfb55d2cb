use tape_compiler::optimizer::{
    get_state, optimize, optimize_instructions, optimize_loop, optimize_set, BlockState, Cell,
    MaximumOptimizationReached, MemoryCellState,
};
use tape_compiler::vm::Instruction;
use tape_compiler::vm::Instruction::{Add, Assign, Loop, Move, Read, Write};

#[test]
fn three_increments_fold_to_one_add() {
    let run = vec![Add(1, 0), Add(1, 0), Add(1, 0)];
    assert_eq!(optimize_set(&run), vec![Add(3, 0)]);
    let state = get_state(&run);
    assert_eq!(
        state.mem,
        vec![Cell { offset: 0, value: 3, state: MemoryCellState::Relative }]
    );
    assert_eq!(state.cursor_offset, 0);
}

#[test]
fn add_after_assign_stays_assigned() {
    let run = vec![Assign(5, 0), Add(1, 0), Add(1, 0), Add(1, 0)];
    assert_eq!(optimize_set(&run), vec![Assign(8, 0)]);
}

#[test]
fn assign_overwrites_earlier_adds() {
    let run = vec![Add(9, 2), Assign(4, 2)];
    assert_eq!(optimize_set(&run), vec![Assign(4, 2)]);
}

#[test]
fn add_wraps_around_at_256() {
    assert_eq!(optimize_set(&vec![Add(200, 0), Add(100, 0)]), vec![Add(44, 0)]);
    assert_eq!(optimize_set(&vec![Assign(255, 1), Add(1, 1)]), vec![Assign(0, 1)]);
}

#[test]
fn adds_that_cancel_emit_nothing() {
    assert_eq!(optimize_set(&vec![Add(1, 0), Add(255, 0)]), Vec::<Instruction>::new());
}

#[test]
fn opposite_moves_emit_no_move() {
    assert_eq!(optimize_set(&vec![Move(3), Move(-3)]), Vec::<Instruction>::new());
    let state = get_state(&vec![Move(3), Move(-3)]);
    assert_eq!(state.cursor_offset, 0);
    assert!(state.mem.is_empty());
}

#[test]
fn offsets_are_taken_from_the_moved_cursor() {
    let run = vec![Move(2), Add(1, 0), Move(-1), Add(2, 0), Assign(7, -5)];
    assert_eq!(optimize_set(&run), vec![Assign(7, -4), Add(2, 1), Add(1, 2), Move(1)]);
}

#[test]
fn emission_is_in_order_of_offset() {
    let a = vec![Add(1, 5), Add(1, -5), Add(1, 0)];
    let b = vec![Add(1, 0), Add(1, 5), Add(1, -5)];
    let expected = vec![Add(1, -5), Add(1, 0), Add(1, 5)];
    assert_eq!(optimize_set(&a), expected);
    assert_eq!(optimize_set(&b), expected);
}

#[test]
fn cursor_displacement_wraps_around() {
    let run = vec![Move(isize::MAX), Move(1)];
    assert_eq!(optimize_set(&run), vec![Move(isize::MIN)]);
    let run = vec![Move(isize::MIN), Add(1, -1)];
    assert_eq!(optimize_set(&run), vec![Add(1, isize::MAX), Move(isize::MIN)]);
}

#[test]
fn folding_a_folded_run_changes_nothing() {
    let run = vec![Move(2), Add(1, 0), Move(-1), Add(2, 0), Assign(7, -5), Add(3, 9), Add(253, 9)];
    let once = optimize_set(&run);
    assert_eq!(optimize_set(&once), once);
}

#[test]
fn block_state_keeps_entries_ordered() {
    let mut state = BlockState::new();
    state.insert(Cell { offset: 4, value: 1, state: MemoryCellState::Relative });
    state.insert(Cell { offset: -2, value: 2, state: MemoryCellState::Assigned });
    state.insert(Cell { offset: 1, value: 3, state: MemoryCellState::Relative });
    state.insert(Cell { offset: 4, value: 9, state: MemoryCellState::Assigned });
    assert_eq!(
        state.mem,
        vec![
            Cell { offset: -2, value: 2, state: MemoryCellState::Assigned },
            Cell { offset: 1, value: 3, state: MemoryCellState::Relative },
            Cell { offset: 4, value: 9, state: MemoryCellState::Assigned },
        ]
    );
    assert_eq!(state.get(1), Some(Cell { offset: 1, value: 3, state: MemoryCellState::Relative }));
    assert_eq!(state.get(0), None);
    assert_eq!(state.emit(), vec![Assign(2, -2), Add(3, 1), Assign(9, 4)]);
}

#[test]
fn block_state_proves_zero_only_when_assigned() {
    assert!(get_state(&vec![Assign(0, 0)]).proves_zero());
    assert!(get_state(&vec![Assign(0, 3), Move(3)]).proves_zero());
    assert!(get_state(&vec![Assign(1, 0), Add(255, 0)]).proves_zero());
    assert!(!get_state(&vec![Add(1, 0), Add(255, 0)]).proves_zero());
    assert!(!get_state(&vec![Assign(0, 0), Move(1)]).proves_zero());
    assert!(!get_state(&vec![Assign(1, 0)]).proves_zero());
    assert!(!get_state(&Vec::new()).proves_zero());
}

#[test]
fn decrement_loop_becomes_assign_zero() {
    assert_eq!(optimize_loop(vec![Add(255, 0)]), Assign(0, 0));
    assert_eq!(optimize_instructions(&vec![Loop(vec![Add(255, 0)])]), vec![Assign(0, 0)]);
}

#[test]
fn increment_and_clear_loops_become_assign_zero() {
    assert_eq!(optimize_loop(vec![Add(1, 0)]), Assign(0, 0));
    assert_eq!(optimize_loop(vec![Assign(0, 0)]), Assign(0, 0));
}

#[test]
fn other_single_instruction_loops_stay() {
    assert_eq!(optimize_loop(vec![Add(2, 0)]), Loop(vec![Add(2, 0)]));
    assert_eq!(optimize_loop(vec![Add(1, 1)]), Loop(vec![Add(1, 1)]));
    assert_eq!(optimize_loop(vec![Assign(0, 1)]), Loop(vec![Assign(0, 1)]));
    assert_eq!(optimize_loop(vec![Assign(1, 0)]), Loop(vec![Assign(1, 0)]));
    assert_eq!(optimize_loop(vec![Move(1)]), Loop(vec![Move(1)]));
    assert_eq!(optimize_loop(vec![Read(0)]), Loop(vec![Read(0)]));
    assert_eq!(optimize_loop(vec![Write(0)]), Loop(vec![Write(0)]));
    assert_eq!(optimize_loop(Vec::new()), Loop(Vec::new()));
}

#[test]
fn a_loop_around_one_loop_is_unwrapped() {
    assert_eq!(optimize_loop(vec![Loop(vec![Add(255, 0)])]), Assign(0, 0));
    assert_eq!(
        optimize_loop(vec![Loop(vec![Loop(vec![Move(1), Add(1, 0)])])]),
        Loop(vec![Move(1), Add(1, 0)])
    );
}

#[test]
fn longer_bodies_stay_wrapped() {
    assert_eq!(
        optimize_loop(vec![Add(1, 0), Move(1)]),
        Loop(vec![Add(1, 0), Move(1)])
    );
}

#[test]
fn loop_after_assigned_zero_is_dropped() {
    let program = vec![Assign(0, 0), Loop(vec![Move(1), Write(0)]), Write(0)];
    assert_eq!(optimize_instructions(&program), vec![Assign(0, 0), Write(0)]);
}

#[test]
fn loop_after_assigned_zero_under_moved_cursor_is_dropped() {
    let program = vec![Assign(0, 2), Move(2), Loop(vec![Write(0)])];
    assert_eq!(optimize_instructions(&program), vec![Assign(0, 2), Move(2)]);
}

#[test]
fn every_loop_in_a_row_after_assigned_zero_is_dropped() {
    let program = vec![Assign(0, 0), Loop(vec![Write(0)]), Loop(vec![Read(0)]), Add(1, 0)];
    assert_eq!(optimize_instructions(&program), vec![Assign(0, 0), Add(1, 0)]);
}

#[test]
fn loop_after_relative_zero_is_kept() {
    let program = vec![Add(1, 0), Add(255, 0), Loop(vec![Write(0)])];
    assert_eq!(optimize_instructions(&program), vec![Loop(vec![Write(0)])]);
}

#[test]
fn loop_at_the_start_is_kept() {
    let program = vec![Loop(vec![Write(0)])];
    assert_eq!(optimize_instructions(&program), program);
}

#[test]
fn loop_after_a_barrier_is_kept() {
    let program = vec![Assign(0, 0), Write(0), Loop(vec![Write(0)])];
    assert_eq!(optimize_instructions(&program), program);
    let program = vec![Assign(0, 0), Loop(vec![Write(0)]), Write(0), Loop(vec![Write(0)])];
    assert_eq!(
        optimize_instructions(&program),
        vec![Assign(0, 0), Write(0), Loop(vec![Write(0)])]
    );
}

#[test]
fn loop_after_assigned_nonzero_is_kept() {
    let program = vec![Assign(1, 0), Loop(vec![Write(0)])];
    assert_eq!(optimize_instructions(&program), program);
}

#[test]
fn runs_are_folded_between_barriers() {
    let program = vec![
        Add(1, 0),
        Add(1, 0),
        Write(0),
        Move(1),
        Move(1),
        Read(0),
        Add(1, 0),
        Add(255, 0),
    ];
    assert_eq!(
        optimize_instructions(&program),
        vec![Add(2, 0), Write(0), Move(2), Read(0)]
    );
}

#[test]
fn nested_bodies_are_optimized_by_the_same_pass() {
    let program = vec![Loop(vec![Add(1, 0), Add(1, 0), Loop(vec![Add(255, 0)]), Move(1), Move(1)])];
    assert_eq!(
        optimize_instructions(&program),
        vec![Loop(vec![Add(2, 0), Assign(0, 0), Move(2)])]
    );
}

#[test]
fn optimize_reports_a_changed_program() {
    let program = vec![Add(1, 0), Add(1, 0)];
    assert_eq!(optimize(&program), Ok(vec![Add(2, 0)]));
}

#[test]
fn optimize_reports_convergence() {
    assert_eq!(optimize(&vec![Add(2, 0)]), Err(MaximumOptimizationReached));
    assert_eq!(optimize(&Vec::new()), Err(MaximumOptimizationReached));
    assert_eq!(
        optimize(&vec![Loop(vec![Write(0), Move(1)])]),
        Err(MaximumOptimizationReached)
    );
}

#[test]
fn a_reordering_pass_counts_as_a_change() {
    assert_eq!(optimize(&vec![Add(1, 1), Add(1, 0)]), Ok(vec![Add(1, 0), Add(1, 1)]));
    assert_eq!(optimize(&vec![Add(1, 0), Add(1, 1)]), Err(MaximumOptimizationReached));
}

#[test]
fn folding_never_makes_a_run_longer() {
    let runs = vec![
        Vec::new(),
        vec![Move(1)],
        vec![Add(1, 0)],
        vec![Move(1), Add(1, 0)],
        vec![Add(1, 0), Add(1, 1), Add(1, 2)],
        vec![Move(4), Add(1, 0), Add(1, 1), Add(1, 2), Assign(0, -9)],
        vec![Add(1, 0), Move(1), Add(1, 0), Move(1), Add(1, 0), Move(-2)],
    ];
    for run in runs {
        assert!(optimize_set(&run).len() <= run.len());
    }
}

#[test]
fn new_block_state_is_empty() {
    let state = BlockState::new();
    assert!(state.mem.is_empty());
    assert_eq!(state.cursor_offset, 0);
    assert_eq!(state.emit(), Vec::<Instruction>::new());
    assert!(!state.proves_zero());
}

#[test]
fn neighbouring_adds_may_change_places() {
    let one = vec![Move(1), Add(3, 0), Add(5, 2), Add(7, 0), Move(-4), Add(1, 0)];
    let two = vec![Move(1), Add(5, 2), Add(3, 0), Add(7, 0), Move(-4), Add(1, 0)];
    let three = vec![Move(1), Add(5, 2), Add(7, 0), Add(3, 0), Move(-4), Add(1, 0)];
    let expected = vec![Add(1, -3), Add(10, 1), Add(5, 3), Move(-3)];
    assert_eq!(optimize_set(&one), expected);
    assert_eq!(optimize_set(&two), expected);
    assert_eq!(optimize_set(&three), expected);
}

#[test]
fn writes_to_different_cells_may_change_places() {
    let one = vec![Assign(3, 0), Add(5, 1), Assign(9, 2)];
    let two = vec![Add(5, 1), Assign(9, 2), Assign(3, 0)];
    assert_eq!(optimize_set(&one), vec![Assign(3, 0), Add(5, 1), Assign(9, 2)]);
    assert_eq!(optimize_set(&two), optimize_set(&one));
}

#[test]
fn add_and_assign_to_one_cell_may_not_change_places() {
    assert_eq!(optimize_set(&vec![Add(1, 0), Assign(5, 0)]), vec![Assign(5, 0)]);
    assert_eq!(optimize_set(&vec![Assign(5, 0), Add(1, 0)]), vec![Assign(6, 0)]);
}

#[test]
fn the_last_assign_wins() {
    assert_eq!(
        optimize_set(&vec![Move(2), Assign(1, 3), Assign(2, 3), Add(4, 0)]),
        optimize_set(&vec![Move(2), Assign(2, 3), Add(4, 0)])
    );
    assert_eq!(
        optimize_set(&vec![Add(200, -1), Assign(2, -1), Move(1)]),
        vec![Assign(2, -1), Move(1)]
    );
}
