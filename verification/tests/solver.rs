use sudoku_solver::grid::{grid_in_range, grid_is_valid, grid_respects_puzzle};
use sudoku_solver::solver::{brute_force, SearchStep, Solver};

/// A complete valid arrangement used as a fixture by several scenarios.
fn full_solution() -> [[usize; 9]; 9] {
    [
        [1, 2, 3, 4, 5, 6, 7, 8, 9],
        [4, 5, 6, 7, 8, 9, 1, 2, 3],
        [7, 8, 9, 1, 2, 3, 4, 5, 6],
        [2, 1, 4, 3, 6, 5, 8, 9, 7],
        [3, 6, 5, 8, 9, 7, 2, 1, 4],
        [8, 9, 7, 2, 1, 4, 3, 6, 5],
        [5, 3, 1, 6, 4, 2, 9, 7, 8],
        [6, 4, 2, 9, 7, 8, 5, 3, 1],
        [9, 7, 8, 5, 3, 1, 6, 4, 2],
    ]
}

/// `full_solution` with the digits 1 and 7 swapped, so that the digit at
/// (0,0) is 7.
fn full_solution_with_seven() -> [[usize; 9]; 9] {
    let mut g = full_solution();
    for row in g.iter_mut() {
        for cell in row.iter_mut() {
            if *cell == 1 {
                *cell = 7;
            } else if *cell == 7 {
                *cell = 1;
            }
        }
    }
    g
}

#[test]
fn single_empty_cell_unique_digit_seven() {
    // A puzzle whose only empty cell is (0,0), where only 7 fits: exactly one
    // snapshot, holding 7 at (0,0), then success.
    let mut puzzle = full_solution_with_seven();
    puzzle[0][0] = 0;
    let board = puzzle;
    let (snaps, outcome) = brute_force(board, puzzle, 1_000_000);
    assert_eq!(snaps.len(), 1);
    assert_eq!(snaps[0][0][0], 7);
    assert_eq!(snaps[0], full_solution_with_seven());
    assert_eq!(outcome, SearchStep::Solved(full_solution_with_seven()));

    // Pulled one event at a time: the one snapshot, then success.
    let mut solver = Solver::new(board, puzzle);
    assert_eq!(
        solver.next_event(1_000_000),
        SearchStep::Snapshot(full_solution_with_seven())
    );
    assert_eq!(
        solver.next_event(1_000_000),
        SearchStep::Solved(full_solution_with_seven())
    );
}

#[test]
fn empty_puzzle_long_run_ends_in_full_solution() {
    // An entirely empty puzzle is satisfiable; the search emits a long
    // sequence of snapshots and the last one is a full valid solution.
    let zero = [[0usize; 9]; 9];
    let (snaps, outcome) = brute_force(zero, zero, 1_000_000);
    // One snapshot per successful placement, none for rejected digits: this
    // search places digits 391 times before the grid is full.
    assert_eq!(snaps.len(), 391);
    let last = snaps[snaps.len() - 1];
    match outcome {
        SearchStep::Solved(g) => {
            assert_eq!(g, last);
            assert!(grid_is_valid(&g));
            assert!(grid_in_range(&g));
            for row in 0..9 {
                for col in 0..9 {
                    assert!(g[row][col] >= 1 && g[row][col] <= 9);
                }
            }
        }
        other => panic!("search did not finish: {:?}", other),
    }
}

#[test]
fn complete_puzzle_reports_completion_at_once() {
    // A puzzle identical to its own solution: no placement snapshot at all,
    // just the one final board, unchanged.
    let g = full_solution();
    let (snaps, outcome) = brute_force(g, g, 1_000_000);
    assert_eq!(snaps.len(), 0);
    assert_eq!(outcome, SearchStep::Solved(g));

    let mut solver = Solver::new(g, g);
    assert_eq!(solver.next_event(1_000), SearchStep::Solved(g));
}

#[test]
fn consumer_cancels_after_three_snapshots() {
    // The consumer stops pulling after three snapshots: the engine is simply
    // dropped mid-search and no fourth snapshot is ever produced.
    let zero = [[0usize; 9]; 9];
    let mut solver = Solver::new(zero, zero);
    let mut seen: Vec<[[usize; 9]; 9]> = Vec::new();
    while seen.len() < 3 {
        match solver.next_event(1_000_000) {
            SearchStep::Snapshot(g) => seen.push(g),
            other => panic!("search ended before three snapshots: {:?}", other),
        }
    }
    drop(solver);
    assert_eq!(seen.len(), 3);
    for g in &seen {
        assert!(grid_is_valid(g));
    }
}

#[test]
fn identical_runs_produce_identical_traces() {
    // Determinism: two independent runs on the same inputs yield the same
    // ordered snapshots and the same outcome.
    let mut puzzle = full_solution();
    for row in 0..9 {
        for col in 0..9 {
            if (row + col) % 2 == 0 {
                puzzle[row][col] = 0;
            }
        }
    }
    let (snaps_a, outcome_a) = brute_force(puzzle, puzzle, 1_000_000);
    let (snaps_b, outcome_b) = brute_force(puzzle, puzzle, 1_000_000);
    assert_eq!(snaps_a, snaps_b);
    assert_eq!(outcome_a, outcome_b);
    assert!(!snaps_a.is_empty());
}

#[test]
fn snapshots_are_valid_and_respect_fixed_cells() {
    // Every snapshot honors the fixed cells of the puzzle and is free of
    // row, column and box conflicts.
    let mut puzzle = full_solution();
    for row in 3..9 {
        for col in 0..9 {
            puzzle[row][col] = 0;
        }
    }
    let (snaps, outcome) = brute_force(puzzle, puzzle, 10_000_000);
    assert!(matches!(outcome, SearchStep::Solved(_)));
    assert!(!snaps.is_empty());
    for g in &snaps {
        assert!(grid_in_range(g));
        assert!(grid_is_valid(g));
        assert!(grid_respects_puzzle(g, &puzzle));
    }
}

#[test]
fn unsatisfiable_puzzle_reports_exhaustion() {
    // (0,0) is free but its row already holds 1..=8 and its column holds 9:
    // no digit fits, and the search retreats past the first cell.
    let mut puzzle = [[0usize; 9]; 9];
    for col in 1..9 {
        puzzle[0][col] = col;
    }
    puzzle[1][0] = 9;
    let (snaps, outcome) = brute_force(puzzle, puzzle, 1_000_000);
    assert_eq!(snaps.len(), 0);
    assert_eq!(outcome, SearchStep::Exhausted);
}

#[test]
fn tiny_budget_runs_out_of_fuel() {
    let zero = [[0usize; 9]; 9];
    let mut solver = Solver::new(zero, zero);
    // One micro-step is one digit trial; digit 1 is placed at (0,0) at once.
    assert_eq!(solver.next_event(0), SearchStep::OutOfFuel);
    match solver.next_event(1) {
        SearchStep::Snapshot(g) => assert_eq!(g[0][0], 1),
        other => panic!("expected a snapshot: {:?}", other),
    }
}

#[test]
fn resumed_search_continues_where_it_stopped() {
    // Pulling events one at a time walks the same trace as one long run.
    let mut puzzle = full_solution();
    for col in 0..9 {
        puzzle[0][col] = 0;
    }
    let (all_snaps, outcome) = brute_force(puzzle, puzzle, 1_000_000);
    let mut solver = Solver::new(puzzle, puzzle);
    let mut pulled: Vec<[[usize; 9]; 9]> = Vec::new();
    let ended = loop {
        match solver.next_event(1_000_000) {
            SearchStep::Snapshot(g) => pulled.push(g),
            other => break other,
        }
    };
    assert_eq!(pulled, all_snaps);
    assert_eq!(ended, outcome);
}
