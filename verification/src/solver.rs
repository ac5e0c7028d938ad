//! Brute-force backtracking search over a Sudoku grid.
//!
//! The engine walks a linear cursor over the 81 cells. At a free cell it
//! increments the cell's digit until a digit is unique in its row, column and
//! 3x3 box (advance), or the digits are exhausted (reset the cell and
//! retreat). Fixed cells are skipped in the direction of travel. A snapshot of
//! the board is handed out after every successful placement; the consumer
//! pulls snapshots one at a time and may simply stop pulling to cancel the
//! search. A search that retreats past the first cell reports exhaustion
//! instead of running without bound.

use vstd::prelude::*;

use crate::grid::{
    Grid, grid_seq, in_range, can_place, valid_board, cell_ok, respects_puzzle, complete,
    solved_board, sees, cells_to_grid, grid_to_cells, can_place_digit,
};

verus! {

/// Where the search stands: still running, finished with a full solution, or
/// out of candidates (the cursor retreated past the first cell).
#[derive(Clone, Copy, Debug, PartialEq, Eq, Structural)]
pub enum SearchStatus {
    Running,
    Solved,
    Exhausted,
}

/// The mathematical state of a search: both grids as row-major sequences,
/// the cursor, the direction of travel and the status.
pub ghost struct SearchModel {
    pub puzzle: Seq<usize>,
    pub board: Seq<usize>,
    pub cursor: int,
    pub forward: bool,
    pub status: SearchStatus,
}

/// The state a search starts from.
pub open spec fn init_model(board: Seq<usize>, puzzle: Seq<usize>) -> SearchModel {
    SearchModel {
        puzzle: puzzle,
        board: board,
        cursor: 0,
        forward: true,
        status: SearchStatus::Running,
    }
}

/// Every cell before `n` is assigned.
pub open spec fn prefix_filled(b: Seq<usize>, n: int) -> bool {
    forall|i: int| 0 <= i < n ==> #[trigger] b[i] != 0
}

/// Shape invariant of a search state: grids of 81 digits in range, the board
/// agreeing with the puzzle on fixed cells, the cursor in bounds, and every
/// cell behind the cursor assigned.
pub open spec fn wf_model(m: SearchModel) -> bool {
    &&& m.puzzle.len() == 81
    &&& m.board.len() == 81
    &&& in_range(m.puzzle)
    &&& in_range(m.board)
    &&& respects_puzzle(m.board, m.puzzle)
    &&& 0 <= m.cursor <= 81
    &&& (m.status is Running ==> m.cursor < 81)
    &&& (m.status is Solved ==> m.cursor == 81)
    &&& prefix_filled(m.board, m.cursor)
}

/// Validity invariant of a search state: away from the cursor cell the board
/// is conflict-free, and it is conflict-free outright unless a trial digit
/// may be sitting at the cursor (that is, whenever the cursor stands on a
/// fixed cell, and in every terminal state).
pub open spec fn inv_valid(m: SearchModel) -> bool {
    &&& (m.status is Running ==> valid_board(m.board.update(m.cursor, 0usize)))
    &&& (m.status is Running && m.puzzle[m.cursor] != 0 ==> valid_board(m.board))
    &&& (!(m.status is Running) ==> valid_board(m.board))
}

/// One micro-step of the search: a single digit trial at a free cell, or a
/// single cursor move over a fixed cell.
pub open spec fn spec_step(m: SearchModel) -> SearchModel {
    let i = m.cursor;
    if m.puzzle[i] == 0 {
        let d = m.board[i] as int + 1;
        if d == 10 {
            if i == 0 {
                SearchModel {
                    puzzle: m.puzzle,
                    board: m.board.update(i, 0usize),
                    cursor: i,
                    forward: m.forward,
                    status: SearchStatus::Exhausted,
                }
            } else {
                SearchModel {
                    puzzle: m.puzzle,
                    board: m.board.update(i, 0usize),
                    cursor: i - 1,
                    forward: false,
                    status: SearchStatus::Running,
                }
            }
        } else {
            if can_place(m.board, i, d as usize) {
                SearchModel {
                    puzzle: m.puzzle,
                    board: m.board.update(i, d as usize),
                    cursor: i + 1,
                    forward: true,
                    status: if i + 1 == 81 {
                        SearchStatus::Solved
                    } else {
                        SearchStatus::Running
                    },
                }
            } else {
                SearchModel {
                    puzzle: m.puzzle,
                    board: m.board.update(i, d as usize),
                    cursor: i,
                    forward: m.forward,
                    status: SearchStatus::Running,
                }
            }
        }
    } else {
        if i == 0 && !m.forward {
            SearchModel {
                puzzle: m.puzzle,
                board: m.board,
                cursor: i,
                forward: m.forward,
                status: SearchStatus::Exhausted,
            }
        } else if m.forward {
            SearchModel {
                puzzle: m.puzzle,
                board: m.board,
                cursor: i + 1,
                forward: true,
                status: if i + 1 == 81 {
                    SearchStatus::Solved
                } else {
                    SearchStatus::Running
                },
            }
        } else {
            SearchModel {
                puzzle: m.puzzle,
                board: m.board,
                cursor: i - 1,
                forward: false,
                status: SearchStatus::Running,
            }
        }
    }
}

/// Whether the step taken from `m` places a digit, and so emits a snapshot.
pub open spec fn step_emits(m: SearchModel) -> bool {
    &&& m.status is Running
    &&& m.puzzle[m.cursor] == 0
    &&& m.board[m.cursor] as int + 1 < 10
    &&& can_place(m.board, m.cursor, (m.board[m.cursor] + 1) as usize)
}

/// A micro-step preserves the shape invariant, keeps the puzzle unchanged,
/// preserves the validity invariant, and emits only conflict-free boards.
pub proof fn lemma_step_preserves(m: SearchModel)
    requires
        wf_model(m),
        m.status is Running,
    ensures
        wf_model(spec_step(m)),
        spec_step(m).puzzle == m.puzzle,
        inv_valid(m) ==> inv_valid(spec_step(m)),
        step_emits(m) && inv_valid(m) ==> valid_board(spec_step(m).board),
{
    let i = m.cursor;
    let m2 = spec_step(m);
    if m.puzzle[i] == 0 {
        let d = m.board[i] as int + 1;
        if d == 10 {
            let b2 = m.board.update(i, 0usize);
            assert(prefix_filled(b2, m2.cursor));
            if inv_valid(m) {
                assert(valid_board(b2));
                if m2.status is Running {
                    lemma_remove_preserves_valid(b2, m2.cursor);
                    assert(valid_board(b2.update(m2.cursor, 0usize)));
                }
            }
        } else {
            let b2 = m.board.update(i, d as usize);
            if can_place(m.board, i, d as usize) {
                assert(prefix_filled(b2, m2.cursor));
                if inv_valid(m) {
                    lemma_place_preserves_valid(m.board, i, d as usize);
                    assert(valid_board(b2));
                    if m2.status is Running {
                        lemma_remove_preserves_valid(b2, m2.cursor);
                    }
                }
            } else {
                if inv_valid(m) {
                    assert(b2.update(i, 0usize) =~= m.board.update(i, 0usize));
                    assert(valid_board(b2.update(i, 0usize)));
                }
            }
        }
    } else {
        assert(m.board[i] != 0);
        if !(i == 0 && !m.forward) {
            if inv_valid(m) {
                assert(valid_board(m.board));
                if m2.status is Running {
                    lemma_remove_preserves_valid(m.board, m2.cursor);
                }
            }
        }
    }
}

/// Clearing one cell of a conflict-free board leaves it conflict-free.
proof fn lemma_remove_preserves_valid(b: Seq<usize>, i: int)
    requires
        b.len() == 81,
        0 <= i < 81,
        valid_board(b),
    ensures
        valid_board(b.update(i, 0usize)),
{
    let b2 = b.update(i, 0usize);
    assert forall|j: int| 0 <= j < 81 implies #[trigger] cell_ok(b2, j) by {
        if j != i && b2[j] != 0 {
            assert(cell_ok(b, j));
            assert forall|k: int| 0 <= k < 81 && #[trigger] sees(j, k) implies b2[k] != b2[j] by {
                if k != i {
                    assert(b[k] != b[j]);
                }
            }
        }
    }
}

/// Placing a digit that is unique in its row, column and box onto a board
/// that is conflict-free away from that cell yields a conflict-free board.
proof fn lemma_place_preserves_valid(b: Seq<usize>, i: int, d: usize)
    requires
        b.len() == 81,
        0 <= i < 81,
        1 <= d <= 9,
        valid_board(b.update(i, 0usize)),
        can_place(b, i, d),
    ensures
        valid_board(b.update(i, d)),
{
    let b0 = b.update(i, 0usize);
    let b2 = b.update(i, d);
    assert forall|j: int| 0 <= j < 81 implies #[trigger] cell_ok(b2, j) by {
        if j == i {
            assert forall|k: int| 0 <= k < 81 && #[trigger] sees(i, k) implies b2[k] != d by {
                assert(b[k] != d);
            }
        } else if b2[j] != 0 {
            assert(cell_ok(b0, j));
            assert(b0[j] == b2[j]);
            assert forall|k: int| 0 <= k < 81 && #[trigger] sees(j, k) implies b2[k] != b2[j] by {
                if k == i {
                    assert(sees(i, j));
                    assert(b[j] != d);
                } else {
                    assert(b0[k] != b0[j]);
                }
            }
        }
    }
}

/// What one pull from the engine yields: a snapshot of the board after a
/// successful placement, the final board of a finished search, exhaustion of
/// the search space, or an exhausted step budget.
#[derive(Clone, Copy, Debug, PartialEq, Eq)]
pub enum SearchStep {
    Snapshot(Grid),
    Solved(Grid),
    Exhausted,
    OutOfFuel,
}

/// The mathematical value of a pulled event.
pub ghost enum EventModel {
    Snapshot(Seq<usize>),
    Solved(Seq<usize>),
    Exhausted,
    OutOfFuel,
}

impl View for SearchStep {
    type V = EventModel;

    open spec fn view(&self) -> EventModel {
        match *self {
            SearchStep::Snapshot(g) => EventModel::Snapshot(grid_seq(g)),
            SearchStep::Solved(g) => EventModel::Solved(grid_seq(g)),
            SearchStep::Exhausted => EventModel::Exhausted,
            SearchStep::OutOfFuel => EventModel::OutOfFuel,
        }
    }
}

/// Driving the search from `m` for at most `fuel` micro-steps, up to the next
/// event: the state it stops in and the event it yields.
pub open spec fn spec_drive(m: SearchModel, fuel: nat) -> (SearchModel, EventModel)
    decreases fuel,
{
    if m.status is Solved {
        (m, EventModel::Solved(m.board))
    } else if m.status is Exhausted {
        (m, EventModel::Exhausted)
    } else if fuel == 0 {
        (m, EventModel::OutOfFuel)
    } else {
        let m2 = spec_step(m);
        if step_emits(m) {
            (m2, EventModel::Snapshot(m2.board))
        } else if m2.status is Solved {
            (m2, EventModel::Solved(m2.board))
        } else if m2.status is Exhausted {
            (m2, EventModel::Exhausted)
        } else {
            spec_drive(m2, (fuel - 1) as nat)
        }
    }
}

/// The backtracking search engine over one working grid.
///
/// Snapshots are pulled from it one at a time; dropping the engine cancels
/// the search with nothing further emitted.
pub struct Solver {
    puzzle: [usize; 81],
    cells: [usize; 81],
    cursor: usize,
    forward: bool,
    status: SearchStatus,
}

impl View for Solver {
    type V = SearchModel;

    closed spec fn view(&self) -> SearchModel {
        SearchModel {
            puzzle: self.puzzle@,
            board: self.cells@,
            cursor: self.cursor as int,
            forward: self.forward,
            status: self.status,
        }
    }
}

impl Solver {
    /// A search positioned at the first cell of `board`, treating the nonzero
    /// cells of `puzzle` as fixed.
    pub fn new(board: Grid, puzzle: Grid) -> (s: Solver)
        requires
            in_range(grid_seq(board)),
            in_range(grid_seq(puzzle)),
            respects_puzzle(grid_seq(board), grid_seq(puzzle)),
        ensures
            s@ == init_model(grid_seq(board), grid_seq(puzzle)),
            wf_model(s@),
            valid_board(grid_seq(board)) ==> inv_valid(s@),
    {
        let s = Solver {
            puzzle: grid_to_cells(&puzzle),
            cells: grid_to_cells(&board),
            cursor: 0,
            forward: true,
            status: SearchStatus::Running,
        };
        proof {
            if valid_board(grid_seq(board)) {
                lemma_remove_preserves_valid(grid_seq(board), 0);
            }
        }
        s
    }

    /// One micro-step; returns whether a digit was placed (a snapshot is due).
    fn step(&mut self) -> (emitted: bool)
        requires
            wf_model(old(self)@),
            old(self)@.status is Running,
        ensures
            final(self)@ == spec_step(old(self)@),
            emitted == step_emits(old(self)@),
            wf_model(final(self)@),
            inv_valid(old(self)@) ==> inv_valid(final(self)@),
    {
        proof {
            lemma_step_preserves(self@);
        }
        let i = self.cursor;
        if self.puzzle[i] == 0 {
            let d = self.cells[i] + 1;
            if d == 10 {
                self.cells[i] = 0;
                if i == 0 {
                    self.status = SearchStatus::Exhausted;
                } else {
                    self.cursor = i - 1;
                    self.forward = false;
                }
                false
            } else {
                let ok = can_place_digit(&self.cells, i, d);
                self.cells[i] = d;
                if ok {
                    self.cursor = i + 1;
                    self.forward = true;
                    if i + 1 == 81 {
                        self.status = SearchStatus::Solved;
                    }
                    true
                } else {
                    false
                }
            }
        } else {
            if i == 0 && !self.forward {
                self.status = SearchStatus::Exhausted;
                false
            } else if self.forward {
                self.cursor = i + 1;
                if i + 1 == 81 {
                    self.status = SearchStatus::Solved;
                }
                false
            } else {
                self.cursor = i - 1;
                false
            }
        }
    }

    /// Runs the search up to the next event, but for at most `fuel`
    /// micro-steps: the snapshot of the next successful placement, the final
    /// board of a finished search, or exhaustion. The search suspends after
    /// each event; calling again resumes it, and a caller that stops calling
    /// cancels the search with nothing further emitted.
    pub fn next_event(&mut self, fuel: u64) -> (r: SearchStep)
        requires
            wf_model(old(self)@),
        ensures
            (final(self)@, r@) == spec_drive(old(self)@, fuel as nat),
            wf_model(final(self)@),
            final(self)@.puzzle == old(self)@.puzzle,
            inv_valid(old(self)@) ==> inv_valid(final(self)@),
    {
        match self.status {
            SearchStatus::Solved => {
                return SearchStep::Solved(cells_to_grid(&self.cells));
            },
            SearchStatus::Exhausted => {
                return SearchStep::Exhausted;
            },
            SearchStatus::Running => {},
        }
        let ghost m0 = self@;
        let mut k = fuel;
        while k > 0
            invariant
                m0 == old(self)@,
                wf_model(self@),
                self@.status is Running,
                self@.puzzle == m0.puzzle,
                k <= fuel,
                spec_drive(m0, fuel as nat) == spec_drive(self@, k as nat),
                inv_valid(m0) ==> inv_valid(self@),
            decreases k,
        {
            let ghost before = self@;
            let ghost kb = k as nat;
            let emitted = self.step();
            k = k - 1;
            proof {
                lemma_step_preserves(before);
                assert(self@ == spec_step(before));
                assert(spec_drive(m0, fuel as nat) == spec_drive(before, kb));
            }
            if emitted {
                proof {
                    assert(spec_drive(before, kb) == (self@, EventModel::Snapshot(
                        self@.board,
                    )));
                }
                return SearchStep::Snapshot(cells_to_grid(&self.cells));
            }
            match self.status {
                SearchStatus::Solved => {
                    proof {
                        assert(spec_drive(before, kb) == (self@, EventModel::Solved(
                            self@.board,
                        )));
                    }
                    return SearchStep::Solved(cells_to_grid(&self.cells));
                },
                SearchStatus::Exhausted => {
                    proof {
                        assert(spec_drive(before, kb) == (self@, EventModel::Exhausted));
                    }
                    return SearchStep::Exhausted;
                },
                SearchStatus::Running => {},
            }
        }
        SearchStep::OutOfFuel
    }
}

/// The full trace of a search run: the state it stops in, every snapshot it
/// emits, in order, and how it ends.
pub ghost struct RunResult {
    pub state: SearchModel,
    pub snapshots: Seq<Seq<usize>>,
    pub outcome: EventModel,
}

/// Running the search from `m` for at most `fuel` micro-steps, collecting
/// every emitted snapshot.
pub open spec fn spec_run(m: SearchModel, fuel: nat) -> RunResult
    decreases fuel,
{
    if m.status is Solved {
        RunResult { state: m, snapshots: Seq::empty(), outcome: EventModel::Solved(m.board) }
    } else if m.status is Exhausted {
        RunResult { state: m, snapshots: Seq::empty(), outcome: EventModel::Exhausted }
    } else if fuel == 0 {
        RunResult { state: m, snapshots: Seq::empty(), outcome: EventModel::OutOfFuel }
    } else {
        let m2 = spec_step(m);
        let rest = spec_run(m2, (fuel - 1) as nat);
        if step_emits(m) {
            RunResult {
                state: rest.state,
                snapshots: seq![m2.board] + rest.snapshots,
                outcome: rest.outcome,
            }
        } else {
            rest
        }
    }
}

/// A run keeps the shape invariant, never touches the puzzle, and preserves
/// the validity invariant; a terminal event carries the board of the state
/// the run stops in.
pub proof fn lemma_run_invariants(m: SearchModel, fuel: nat)
    requires
        wf_model(m),
    ensures
        wf_model(spec_run(m, fuel).state),
        spec_run(m, fuel).state.puzzle == m.puzzle,
        inv_valid(m) ==> inv_valid(spec_run(m, fuel).state),
        spec_run(m, fuel).outcome matches EventModel::Solved(b) ==> b == spec_run(
            m,
            fuel,
        ).state.board && spec_run(m, fuel).state.status is Solved,
    decreases fuel,
{
    if m.status is Running && fuel > 0 {
        lemma_step_preserves(m);
        lemma_run_invariants(spec_step(m), (fuel - 1) as nat);
    }
}

/// Validity invariant: in a run that starts from a conflict-free board,
/// every emitted snapshot is a legal partial assignment — every assigned
/// cell's digit is unique within its row, its column and its 3x3 box.
pub proof fn lemma_run_snapshots_valid(m: SearchModel, fuel: nat)
    requires
        wf_model(m),
        inv_valid(m),
    ensures
        forall|k: int|
            0 <= k < spec_run(m, fuel).snapshots.len() ==> valid_board(
                #[trigger] spec_run(m, fuel).snapshots[k],
            ),
    decreases fuel,
{
    let run = spec_run(m, fuel);
    if m.status is Running && fuel > 0 {
        let m2 = spec_step(m);
        let rest = spec_run(m2, (fuel - 1) as nat);
        lemma_step_preserves(m);
        lemma_run_snapshots_valid(m2, (fuel - 1) as nat);
        if step_emits(m) {
            assert forall|k: int| 0 <= k < run.snapshots.len() implies valid_board(
                #[trigger] run.snapshots[k],
            ) by {
                if k == 0 {
                    assert(run.snapshots[0] == m2.board);
                } else {
                    assert(run.snapshots[k] == rest.snapshots[k - 1]);
                }
            }
        }
    }
}

/// Fixed-cell preservation: every snapshot of a run, and the final board of
/// a finished run, holds the puzzle's digit at every fixed cell.
pub proof fn lemma_run_respects_puzzle(m: SearchModel, fuel: nat)
    requires
        wf_model(m),
    ensures
        forall|k: int|
            0 <= k < spec_run(m, fuel).snapshots.len() ==> respects_puzzle(
                #[trigger] spec_run(m, fuel).snapshots[k],
                m.puzzle,
            ),
        spec_run(m, fuel).outcome matches EventModel::Solved(b) ==> respects_puzzle(b, m.puzzle),
    decreases fuel,
{
    let run = spec_run(m, fuel);
    lemma_run_invariants(m, fuel);
    if m.status is Running && fuel > 0 {
        let m2 = spec_step(m);
        let rest = spec_run(m2, (fuel - 1) as nat);
        lemma_step_preserves(m);
        lemma_run_respects_puzzle(m2, (fuel - 1) as nat);
        if step_emits(m) {
            assert forall|k: int| 0 <= k < run.snapshots.len() implies respects_puzzle(
                #[trigger] run.snapshots[k],
                m.puzzle,
            ) by {
                if k == 0 {
                    assert(run.snapshots[0] == m2.board);
                } else {
                    assert(run.snapshots[k] == rest.snapshots[k - 1]);
                }
            }
        }
    }
}

/// Completion correctness: if a run from a conflict-free board finishes, the
/// final board is complete — no empty cell — and free of row, column and box
/// conflicts.
pub proof fn lemma_run_completion(m: SearchModel, fuel: nat)
    requires
        wf_model(m),
        inv_valid(m),
    ensures
        spec_run(m, fuel).outcome matches EventModel::Solved(b) ==> solved_board(b),
{
    lemma_run_invariants(m, fuel);
    let st = spec_run(m, fuel).state;
    if spec_run(m, fuel).outcome is Solved {
        assert(st.cursor == 81);
        assert forall|i: int| 0 <= i < 81 implies 1 <= #[trigger] st.board[i] <= 9 by {
            assert(st.board[i] != 0);
            assert(st.board[i] <= 9);
        }
    }
}

/// Determinism: the whole trace of a run — its snapshots, their order and
/// its outcome — is a function of the puzzle, the starting board and the
/// step budget alone; two runs of the same search cannot differ.
pub proof fn lemma_run_deterministic(m1: SearchModel, m2: SearchModel, fuel1: nat, fuel2: nat)
    requires
        m1 == m2,
        fuel1 == fuel2,
    ensures
        spec_run(m1, fuel1) == spec_run(m2, fuel2),
{
}

/// What one pulled event guarantees: a snapshot or final board is the board
/// of the state the engine suspends in; from a conflict-free start it is
/// conflict-free, and a final board is moreover complete.
pub proof fn lemma_drive_event(m: SearchModel, fuel: nat)
    requires
        wf_model(m),
    ensures
        spec_drive(m, fuel).1 matches EventModel::Snapshot(b) ==> b == spec_drive(
            m,
            fuel,
        ).0.board && respects_puzzle(b, m.puzzle) && (inv_valid(m) ==> valid_board(b)),
        spec_drive(m, fuel).1 matches EventModel::Solved(b) ==> b == spec_drive(m, fuel).0.board
            && respects_puzzle(b, m.puzzle) && complete(b) && (inv_valid(m) ==> solved_board(b)),
    decreases fuel,
{
    if m.status is Solved {
        assert forall|i: int| 0 <= i < 81 implies 1 <= #[trigger] m.board[i] <= 9 by {
            assert(m.board[i] != 0);
            assert(m.board[i] <= 9);
        }
    } else if m.status is Exhausted || fuel == 0 {
    } else {
        let m2 = spec_step(m);
        lemma_step_preserves(m);
        if step_emits(m) {
        } else if m2.status is Solved {
            assert forall|i: int| 0 <= i < 81 implies 1 <= #[trigger] m2.board[i] <= 9 by {
                assert(m2.board[i] != 0);
                assert(m2.board[i] <= 9);
            }
        } else if m2.status is Exhausted {
        } else {
            lemma_drive_event(m2, (fuel - 1) as nat);
        }
    }
}

/// The row-major views of a sequence of grids.
pub open spec fn snaps_of(v: Seq<Grid>) -> Seq<Seq<usize>> {
    v.map_values(|g: Grid| grid_seq(g))
}

/// Runs the whole search at once, for at most `fuel` micro-steps: every
/// emitted snapshot in order, and the terminal event.
pub fn brute_force(board: Grid, puzzle: Grid, fuel: u64) -> (r: (Vec<Grid>, SearchStep))
    requires
        in_range(grid_seq(board)),
        in_range(grid_seq(puzzle)),
        respects_puzzle(grid_seq(board), grid_seq(puzzle)),
    ensures
        ({
            let run = spec_run(init_model(grid_seq(board), grid_seq(puzzle)), fuel as nat);
            &&& snaps_of(r.0@) == run.snapshots
            &&& r.1@ == run.outcome
            &&& !(r.1 is Snapshot)
        }),
{
    let mut s = Solver::new(board, puzzle);
    let ghost m0 = s@;
    let mut snaps: Vec<Grid> = Vec::new();
    let mut k = fuel;
    proof {
        assert(snaps_of(snaps@) =~= Seq::<Seq<usize>>::empty());
    }
    loop
        invariant
            wf_model(s@),
            k <= fuel,
            spec_run(m0, fuel as nat).state == spec_run(s@, k as nat).state,
            spec_run(m0, fuel as nat).snapshots =~= snaps_of(snaps@) + spec_run(
                s@,
                k as nat,
            ).snapshots,
            spec_run(m0, fuel as nat).outcome == spec_run(s@, k as nat).outcome,
            m0 == init_model(grid_seq(board), grid_seq(puzzle)),
        decreases k,
    {
        match s.status {
            SearchStatus::Solved => {
                proof {
                    assert(spec_run(m0, fuel as nat).snapshots =~= snaps_of(snaps@));
                }
                return (snaps, SearchStep::Solved(cells_to_grid(&s.cells)));
            },
            SearchStatus::Exhausted => {
                proof {
                    assert(spec_run(m0, fuel as nat).snapshots =~= snaps_of(snaps@));
                }
                return (snaps, SearchStep::Exhausted);
            },
            SearchStatus::Running => {},
        }
        if k == 0 {
            proof {
                assert(spec_run(m0, fuel as nat).snapshots =~= snaps_of(snaps@));
            }
            return (snaps, SearchStep::OutOfFuel);
        }
        let ghost before = s@;
        let ghost kb = k as nat;
        let emitted = s.step();
        k = k - 1;
        proof {
            lemma_step_preserves(before);
        }
        if emitted {
            let g = cells_to_grid(&s.cells);
            let ghost old_snaps = snaps@;
            snaps.push(g);
            proof {
                assert(snaps_of(snaps@) =~= snaps_of(old_snaps).push(grid_seq(g)));
                assert(spec_run(before, kb).snapshots =~= seq![s@.board] + spec_run(
                    s@,
                    k as nat,
                ).snapshots);
                assert(snaps_of(old_snaps) + spec_run(before, kb).snapshots =~= snaps_of(
                    snaps@,
                ) + spec_run(s@, k as nat).snapshots);
            }
        }
    }
}

} // verus!
