//! The Sudoku board holder: the working board a player edits, the puzzle and
//! solution it was loaded from, and the board's difficulty.

use vstd::prelude::*;

use crate::grid::{Grid, grid_seq, grids_equal, zero_board, lemma_rc_index};

verus! {

/// How hard the loaded puzzle is said to be.
#[derive(Debug, Clone, Copy, PartialEq, Eq, Structural)]
pub enum Difficulty {
    Easy,
    Medium,
    Hard,
}

/// A Sudoku game: the board being worked on, and the puzzle, solution and
/// difficulty it was loaded with, each optional.
#[derive(Clone)]
pub struct Sudoku {
    /// The board in whatever state it is at; kept displayable throughout.
    board: Grid,
    /// The puzzle the board can be reset to.
    puzzle: Option<Grid>,
    /// The solution the board can be checked against.
    solution: Option<Grid>,
    /// The difficulty the puzzle was requested at.
    difficulty: Option<Difficulty>,
}

impl Sudoku {
    /// The cells of the working board, in row-major order.
    pub closed spec fn spec_board(self) -> Seq<usize> {
        grid_seq(self.board)
    }

    /// The cells of the loaded puzzle, if one was set.
    pub closed spec fn spec_puzzle(self) -> Option<Seq<usize>> {
        match self.puzzle {
            Some(g) => Some(grid_seq(g)),
            None => None,
        }
    }

    /// The cells of the loaded solution, if one was set.
    pub closed spec fn spec_solution(self) -> Option<Seq<usize>> {
        match self.solution {
            Some(g) => Some(grid_seq(g)),
            None => None,
        }
    }

    /// The difficulty, if one was set.
    pub closed spec fn spec_difficulty(self) -> Option<Difficulty> {
        self.difficulty
    }

    /// An empty game: an all-zero board and nothing loaded.
    pub fn new() -> (s: Sudoku)
        ensures
            s.spec_board() == zero_board(),
            s.spec_puzzle() is None,
            s.spec_solution() is None,
            s.spec_difficulty() is None,
    {
        let s = Sudoku { board: [[0; 9]; 9], puzzle: None, solution: None, difficulty: None };
        proof {
            assert(s.spec_board() =~= zero_board());
        }
        s
    }

    /// The working board.
    pub fn get_board(&self) -> (r: Grid)
        ensures
            grid_seq(r) == self.spec_board(),
    {
        self.board
    }

    /// Replaces the working board.
    pub fn set_board(&mut self, board: Grid)
        ensures
            final (self).spec_board() == grid_seq(board),
            final (self).spec_puzzle() == old(self).spec_puzzle(),
            final (self).spec_solution() == old(self).spec_solution(),
            final (self).spec_difficulty() == old(self).spec_difficulty(),
    {
        self.board = board;
    }

    /// The loaded puzzle, if any.
    pub fn get_puzzle(&self) -> (r: Option<Grid>)
        ensures
            r is Some <==> self.spec_puzzle() is Some,
            r matches Some(g) ==> self.spec_puzzle() == Some(grid_seq(g)),
    {
        self.puzzle
    }

    /// Loads a puzzle.
    pub fn set_puzzle(&mut self, puzzle: Grid)
        ensures
            final (self).spec_puzzle() == Some(grid_seq(puzzle)),
            final (self).spec_board() == old(self).spec_board(),
            final (self).spec_solution() == old(self).spec_solution(),
            final (self).spec_difficulty() == old(self).spec_difficulty(),
    {
        self.puzzle = Some(puzzle);
    }

    /// The loaded solution, if any.
    pub fn get_solution(&self) -> (r: Option<Grid>)
        ensures
            r is Some <==> self.spec_solution() is Some,
            r matches Some(g) ==> self.spec_solution() == Some(grid_seq(g)),
    {
        self.solution
    }

    /// Loads a solution.
    pub fn set_solution(&mut self, solution: Grid)
        ensures
            final (self).spec_solution() == Some(grid_seq(solution)),
            final (self).spec_board() == old(self).spec_board(),
            final (self).spec_puzzle() == old(self).spec_puzzle(),
            final (self).spec_difficulty() == old(self).spec_difficulty(),
    {
        self.solution = Some(solution);
    }

    /// Empties the board and forgets the puzzle, solution and difficulty.
    pub fn clear_board(&mut self)
        ensures
            final (self).spec_board() == zero_board(),
            final (self).spec_puzzle() is None,
            final (self).spec_solution() is None,
            final (self).spec_difficulty() is None,
    {
        self.board = [[0; 9]; 9];
        self.puzzle = None;
        self.solution = None;
        self.difficulty = None;
        proof {
            assert(self.spec_board() =~= zero_board());
        }
    }

    /// Writes `num` into the board cell at `row`, `col`.
    pub fn update_cell(&mut self, row: usize, col: usize, num: usize)
        requires
            row < 9,
            col < 9,
        ensures
            final (self).spec_board() == old(self).spec_board().update(
                9 * row as int + col as int,
                num,
            ),
            final (self).spec_puzzle() == old(self).spec_puzzle(),
            final (self).spec_solution() == old(self).spec_solution(),
            final (self).spec_difficulty() == old(self).spec_difficulty(),
    {
        let mut r = self.board[row];
        r[col] = num;
        self.board[row] = r;
        proof {
            lemma_rc_index(row as int, col as int);
            assert forall|k: int| 0 <= k < 81 implies final (self).spec_board()[k] == old(
                self,
            ).spec_board().update(9 * row as int + col as int, num)[k] by {
                crate::grid::lemma_cell_index(k);
            }
            assert(final (self).spec_board() =~= old(self).spec_board().update(
                9 * row as int + col as int,
                num,
            ));
        }
    }

    /// The difficulty, if one was set.
    pub fn get_difficulty(&self) -> (r: Option<Difficulty>)
        ensures
            r == self.spec_difficulty(),
    {
        self.difficulty
    }

    /// Sets or clears the difficulty.
    pub fn set_difficulty(&mut self, diff: Option<Difficulty>)
        ensures
            final (self).spec_difficulty() == diff,
            final (self).spec_board() == old(self).spec_board(),
            final (self).spec_puzzle() == old(self).spec_puzzle(),
            final (self).spec_solution() == old(self).spec_solution(),
    {
        self.difficulty = diff;
    }

    /// Puts the board back to the loaded puzzle; with no puzzle loaded the
    /// board stays as it is.
    pub fn reset(&mut self)
        ensures
            old(self).spec_puzzle() matches Some(p) ==> final (self).spec_board() == p,
            old(self).spec_puzzle() is None ==> final (self).spec_board() == old(
                self,
            ).spec_board(),
            final (self).spec_puzzle() == old(self).spec_puzzle(),
            final (self).spec_solution() == old(self).spec_solution(),
            final (self).spec_difficulty() == old(self).spec_difficulty(),
    {
        if let Some(puzzle) = self.puzzle {
            self.board = puzzle;
        }
    }

    /// Whether the board matches the loaded solution; false when no solution
    /// was loaded.
    pub fn won(&self) -> (r: bool)
        ensures
            r == (self.spec_solution() matches Some(s) && s == self.spec_board()),
    {
        match self.solution {
            Some(solution) => grids_equal(&solution, &self.board),
            None => false,
        }
    }
}

} // verus!

