//! The 9x9 grid: its mathematical view as a row-major sequence of 81 digits,
//! the Sudoku uniqueness predicates, and executable checks for them.

use vstd::prelude::*;

verus! {

/// A Sudoku board: 9 rows of 9 cells, each holding a digit 0..=9, 0 meaning empty.
pub type Grid = [[usize; 9]; 9];

/// Row index (0..9) of the linear cell index `i` (0..81).
pub open spec fn row_of(i: int) -> int {
    i / 9
}

/// Column index (0..9) of the linear cell index `i` (0..81).
pub open spec fn col_of(i: int) -> int {
    i % 9
}

/// The cells of a grid in row-major order.
pub open spec fn grid_seq(g: Grid) -> Seq<usize> {
    Seq::new(81, |i: int| g[row_of(i)][col_of(i)])
}

/// Every cell holds a digit in 0..=9.
pub open spec fn in_range(b: Seq<usize>) -> bool {
    forall|i: int| 0 <= i < 81 ==> #[trigger] b[i] <= 9
}

/// Box row (0..3) of the linear cell index `i`.
pub open spec fn box_row_of(i: int) -> int {
    row_of(i) / 3
}

/// Box column (0..3) of the linear cell index `i`.
pub open spec fn box_col_of(i: int) -> int {
    col_of(i) / 3
}

/// Cells `i` and `j` lie in the same 3x3 box.
pub open spec fn same_box(i: int, j: int) -> bool {
    box_row_of(i) == box_row_of(j) && box_col_of(i) == box_col_of(j)
}

/// Two distinct cells see each other when they share a row, a column or a 3x3 box.
pub open spec fn sees(i: int, j: int) -> bool {
    i != j && (row_of(i) == row_of(j) || col_of(i) == col_of(j) || same_box(i, j))
}

/// Digit `d` may stand at cell `i`: no cell that sees `i` holds `d`.
pub open spec fn can_place(b: Seq<usize>, i: int, d: usize) -> bool {
    forall|j: int| 0 <= j < 81 && #[trigger] sees(i, j) ==> b[j] != d
}

/// The digit assigned at cell `i` (if any) is unique within its row, column and box.
pub open spec fn cell_ok(b: Seq<usize>, i: int) -> bool {
    b[i] == 0 || can_place(b, i, b[i])
}

/// Every assigned (nonzero) cell is unique within its row, its column and its box.
pub open spec fn valid_board(b: Seq<usize>) -> bool {
    forall|i: int| 0 <= i < 81 ==> #[trigger] cell_ok(b, i)
}

/// The board holds the puzzle's digit wherever the puzzle assigns one.
pub open spec fn respects_puzzle(b: Seq<usize>, p: Seq<usize>) -> bool {
    forall|i: int| 0 <= i < 81 && #[trigger] p[i] != 0 ==> b[i] == p[i]
}

/// Every cell is assigned a digit 1..=9.
pub open spec fn complete(b: Seq<usize>) -> bool {
    forall|i: int| 0 <= i < 81 ==> 1 <= #[trigger] b[i] <= 9
}

/// A full Sudoku solution: complete and free of row, column and box conflicts.
pub open spec fn solved_board(b: Seq<usize>) -> bool {
    complete(b) && valid_board(b)
}

/// Whether cells `i` and `j` see each other (same row, column or box, and distinct).
pub fn sees_cells(i: usize, j: usize) -> (r: bool)
    requires
        i < 81,
        j < 81,
    ensures
        r == sees(i as int, j as int),
{
    let ri = i / 9;
    let ci = i % 9;
    let rj = j / 9;
    let cj = j % 9;
    i != j && (ri == rj || ci == cj || (ri / 3 == rj / 3 && ci / 3 == cj / 3))
}

/// The cells of a grid, flattened to row-major order.
pub fn grid_to_cells(g: &Grid) -> (r: [usize; 81])
    ensures
        r@ == grid_seq(*g),
{
    let mut r: [usize; 81] = [0; 81];
    let mut i: usize = 0;
    while i < 81
        invariant
            i <= 81,
            forall|k: int| 0 <= k < i ==> r@[k] == grid_seq(*g)[k],
        decreases 81 - i,
    {
        let row = i / 9;
        let col = i % 9;
        r[i] = g[row][col];
        i += 1;
    }
    assert(r@ =~= grid_seq(*g));
    r
}

/// A grid rebuilt from 81 row-major cells.
pub fn cells_to_grid(a: &[usize; 81]) -> (g: Grid)
    ensures
        grid_seq(g) == a@,
{
    let mut g: Grid = [[0; 9]; 9];
    let mut row: usize = 0;
    while row < 9
        invariant
            row <= 9,
            forall|k: int| 0 <= k < 81 && row_of(k) < row ==> grid_seq(g)[k] == a@[k],
        decreases 9 - row,
    {
        let mut r: [usize; 9] = [0; 9];
        let mut col: usize = 0;
        while col < 9
            invariant
                col <= 9,
                row < 9,
                forall|c: int| 0 <= c < col ==> r@[c] == a@[row * 9 + c],
            decreases 9 - col,
        {
            r[col] = a[row * 9 + col];
            col += 1;
        }
        let ghost old_g = g;
        g[row] = r;
        assert forall|k: int| 0 <= k < 81 && row_of(k) < row + 1 implies grid_seq(g)[k]
            == a@[k] by {
            lemma_cell_index(k);
            if row_of(k) < row {
                assert(grid_seq(old_g)[k] == a@[k]);
            } else {
                assert(row_of(k) == row);
                assert(k == row * 9 + col_of(k));
            }
        }
        row += 1;
    }
    assert(grid_seq(g) =~= a@);
    g
}

/// The all-empty board.
pub open spec fn zero_board() -> Seq<usize> {
    Seq::new(81, |i: int| 0usize)
}

/// Whether two grids hold the same digits everywhere.
pub fn grids_equal(a: &Grid, b: &Grid) -> (r: bool)
    ensures
        r == (grid_seq(*a) == grid_seq(*b)),
{
    let mut i: usize = 0;
    while i < 81
        invariant
            i <= 81,
            forall|k: int| 0 <= k < i ==> grid_seq(*a)[k] == grid_seq(*b)[k],
        decreases 81 - i,
    {
        let row = i / 9;
        let col = i % 9;
        if a[row][col] != b[row][col] {
            assert(grid_seq(*a)[i as int] != grid_seq(*b)[i as int]);
            return false;
        }
        i += 1;
    }
    proof {
        assert(grid_seq(*a) =~= grid_seq(*b));
    }
    true
}

/// Whether every cell of `g` holds a digit 0..=9.
pub fn grid_in_range(g: &Grid) -> (r: bool)
    ensures
        r == in_range(grid_seq(*g)),
{
    let mut i: usize = 0;
    while i < 81
        invariant
            i <= 81,
            forall|k: int| 0 <= k < i ==> grid_seq(*g)[k] <= 9,
        decreases 81 - i,
    {
        let row = i / 9;
        let col = i % 9;
        if g[row][col] > 9 {
            assert(grid_seq(*g)[i as int] > 9);
            return false;
        }
        i += 1;
    }
    true
}

/// Whether `b` holds the digit of `p` at every fixed (nonzero) cell of `p`.
pub fn grid_respects_puzzle(b: &Grid, p: &Grid) -> (r: bool)
    ensures
        r == respects_puzzle(grid_seq(*b), grid_seq(*p)),
{
    let mut i: usize = 0;
    while i < 81
        invariant
            i <= 81,
            forall|k: int|
                0 <= k < i && grid_seq(*p)[k] != 0 ==> grid_seq(*b)[k] == #[trigger] grid_seq(
                    *p,
                )[k],
        decreases 81 - i,
    {
        let row = i / 9;
        let col = i % 9;
        if p[row][col] != 0 && b[row][col] != p[row][col] {
            assert(grid_seq(*p)[i as int] != 0 && grid_seq(*b)[i as int] != grid_seq(
                *p,
            )[i as int]);
            return false;
        }
        i += 1;
    }
    true
}

/// Whether digit `d` may stand at cell `i` of the flattened board: no cell
/// of the same row, column or 3x3 box holds `d`.
pub fn can_place_digit(cells: &[usize; 81], i: usize, d: usize) -> (r: bool)
    requires
        i < 81,
    ensures
        r == can_place(cells@, i as int, d),
{
    let mut j: usize = 0;
    while j < 81
        invariant
            j <= 81,
            i < 81,
            forall|k: int| 0 <= k < j && #[trigger] sees(i as int, k) ==> cells@[k] != d,
        decreases 81 - j,
    {
        if sees_cells(i, j) && cells[j] == d {
            assert(!can_place(cells@, i as int, d));
            return false;
        }
        j += 1;
    }
    true
}

/// Whether `g` is a legal partial assignment: every assigned cell's digit is
/// unique within its row, its column and its 3x3 box.
pub fn grid_is_valid(g: &Grid) -> (r: bool)
    ensures
        r == valid_board(grid_seq(*g)),
{
    let cells = grid_to_cells(g);
    let mut i: usize = 0;
    while i < 81
        invariant
            i <= 81,
            cells@ == grid_seq(*g),
            forall|k: int| 0 <= k < i ==> #[trigger] cell_ok(cells@, k),
        decreases 81 - i,
    {
        if cells[i] != 0 && !can_place_digit(&cells, i, cells[i]) {
            assert(!cell_ok(cells@, i as int));
            return false;
        }
        i += 1;
    }
    true
}

/// A grid read from exactly 81 ASCII digit characters in row-major order,
/// the encoding the puzzle services reply with; any other input is rejected.
pub fn parse_grid(s: &Vec<u8>) -> (r: Option<Grid>)
    ensures
        r is Some <==> (s@.len() == 81 && forall|i: int|
            0 <= i < 81 ==> 48 <= #[trigger] s@[i] <= 57),
        r matches Some(g) ==> forall|i: int|
            0 <= i < 81 ==> grid_seq(g)[i] == (s@[i] - 48) as usize,
        r matches Some(g) ==> in_range(grid_seq(g)),
{
    if s.len() != 81 {
        return None;
    }
    let mut cells: [usize; 81] = [0; 81];
    let mut i: usize = 0;
    while i < 81
        invariant
            i <= 81,
            s@.len() == 81,
            forall|k: int| 0 <= k < i ==> 48 <= #[trigger] s@[k] <= 57,
            forall|k: int| 0 <= k < i ==> cells@[k] == (s@[k] - 48) as usize,
            forall|k: int| 0 <= k < i ==> #[trigger] cells@[k] <= 9,
        decreases 81 - i,
    {
        let c = s[i];
        if c < 48 || c > 57 {
            return None;
        }
        cells[i] = (c - 48) as usize;
        i += 1;
    }
    let g = cells_to_grid(&cells);
    Some(g)
}

/// A linear index decomposes into its row and column: `i == 9 * (i / 9) + i % 9`.
pub proof fn lemma_cell_index(i: int)
    requires
        0 <= i < 81,
    ensures
        i == 9 * row_of(i) + col_of(i),
        0 <= row_of(i) < 9,
        0 <= col_of(i) < 9,
{
}

/// A row-column pair is recovered from its linear index.
pub proof fn lemma_rc_index(r: int, c: int)
    requires
        0 <= r < 9,
        0 <= c < 9,
    ensures
        0 <= 9 * r + c < 81,
        row_of(9 * r + c) == r,
        col_of(9 * r + c) == c,
{
}

/// Digit `d` appears somewhere in row `r` of board `b`.
pub open spec fn row_has(b: Seq<usize>, r: int, d: usize) -> bool {
    exists|i: int| 0 <= i < 81 && #[trigger] row_of(i) == r && b[i] == d
}

/// Digit `d` appears somewhere in column `c` of board `b`.
pub open spec fn col_has(b: Seq<usize>, c: int, d: usize) -> bool {
    exists|i: int| 0 <= i < 81 && #[trigger] col_of(i) == c && b[i] == d
}

/// Digit `d` appears somewhere in the box at box row `br`, box column `bc`.
pub open spec fn box_has(b: Seq<usize>, br: int, bc: int, d: usize) -> bool {
    exists|i: int|
        0 <= i < 81 && #[trigger] box_row_of(i) == br && box_col_of(i) == bc && b[i] == d
}

/// Nine pairwise distinct digits, each in 1..=9, include every digit 1..=9.
proof fn lemma_nine_distinct_digits(vals: Seq<int>)
    requires
        vals.len() == 9,
        forall|a: int, b: int| 0 <= a < 9 && 0 <= b < 9 && a != b ==> vals[a] != vals[b],
        forall|k: int| 0 <= k < 9 ==> 1 <= #[trigger] vals[k] <= 9,
    ensures
        forall|d: int| 1 <= d <= 9 ==> #[trigger] vals.contains(d),
{
    assert forall|d: int| 1 <= d <= 9 implies #[trigger] vals.contains(d) by {
        if !vals.contains(d) {
            assert(vals.no_duplicates());
            vals.unique_seq_to_set();
            let range = vstd::set_lib::set_int_range(1, 10);
            vstd::set_lib::lemma_int_range(1, 10);
            let smaller = range.remove(d);
            assert(range.contains(d));
            assert(smaller.len() == 8);
            assert(vals.to_set().subset_of(smaller)) by {
                assert forall|v: int| vals.to_set().contains(v) implies smaller.contains(v) by {
                    let k = choose|k: int| 0 <= k < vals.len() && vals[k] == v;
                    assert(1 <= vals[k] <= 9);
                }
            }
            vstd::set_lib::lemma_len_subset(vals.to_set(), smaller);
            assert(vals.to_set().len() == 9);
            assert(false);
        }
    }
}

/// In a solved board every row, every column and every 3x3 box holds each
/// digit 1..=9 exactly once: each appears (the clauses below), and no digit
/// repeats (`valid_board`).
pub proof fn lemma_solved_permutation(b: Seq<usize>)
    requires
        b.len() == 81,
        solved_board(b),
    ensures
        forall|r: int, d: usize| 0 <= r < 9 && 1 <= d <= 9 ==> #[trigger] row_has(b, r, d),
        forall|c: int, d: usize| 0 <= c < 9 && 1 <= d <= 9 ==> #[trigger] col_has(b, c, d),
        forall|br: int, bc: int, d: usize|
            0 <= br < 3 && 0 <= bc < 3 && 1 <= d <= 9 ==> #[trigger] box_has(b, br, bc, d),
{
    assert forall|r: int, d: usize| 0 <= r < 9 && 1 <= d <= 9 implies #[trigger] row_has(
        b,
        r,
        d,
    ) by {
        let vals = Seq::new(9, |c: int| b[9 * r + c] as int);
        assert forall|a: int, e: int| 0 <= a < 9 && 0 <= e < 9 && a != e implies vals[a]
            != vals[e] by {
            lemma_rc_index(r, a);
            lemma_rc_index(r, e);
            assert(sees(9 * r + a, 9 * r + e));
            assert(cell_ok(b, 9 * r + a));
        }
        assert forall|k: int| 0 <= k < 9 implies 1 <= #[trigger] vals[k] <= 9 by {
            lemma_rc_index(r, k);
        }
        lemma_nine_distinct_digits(vals);
        assert(vals.contains(d as int));
        let c = choose|c: int| 0 <= c < vals.len() && vals[c] == d as int;
        lemma_rc_index(r, c);
        assert(row_of(9 * r + c) == r && b[9 * r + c] == d);
    }
    assert forall|c: int, d: usize| 0 <= c < 9 && 1 <= d <= 9 implies #[trigger] col_has(
        b,
        c,
        d,
    ) by {
        let vals = Seq::new(9, |r: int| b[9 * r + c] as int);
        assert forall|a: int, e: int| 0 <= a < 9 && 0 <= e < 9 && a != e implies vals[a]
            != vals[e] by {
            lemma_rc_index(a, c);
            lemma_rc_index(e, c);
            assert(sees(9 * a + c, 9 * e + c));
            assert(cell_ok(b, 9 * a + c));
        }
        assert forall|k: int| 0 <= k < 9 implies 1 <= #[trigger] vals[k] <= 9 by {
            lemma_rc_index(k, c);
        }
        lemma_nine_distinct_digits(vals);
        assert(vals.contains(d as int));
        let r = choose|r: int| 0 <= r < vals.len() && vals[r] == d as int;
        lemma_rc_index(r, c);
        assert(col_of(9 * r + c) == c && b[9 * r + c] == d);
    }
    assert forall|br: int, bc: int, d: usize|
        0 <= br < 3 && 0 <= bc < 3 && 1 <= d <= 9 implies #[trigger] box_has(b, br, bc, d) by {
        let vals = Seq::new(9, |k: int| b[9 * (3 * br + k / 3) + 3 * bc + k % 3] as int);
        assert forall|a: int, e: int| 0 <= a < 9 && 0 <= e < 9 && a != e implies vals[a]
            != vals[e] by {
            let ra = 3 * br + a / 3;
            let ca = 3 * bc + a % 3;
            let re = 3 * br + e / 3;
            let ce = 3 * bc + e % 3;
            lemma_rc_index(ra, ca);
            lemma_rc_index(re, ce);
            assert(ra / 3 == br && re / 3 == br && ca / 3 == bc && ce / 3 == bc);
            assert(ra != re || ca != ce);
            assert(same_box(9 * ra + ca, 9 * re + ce));
            assert(sees(9 * ra + ca, 9 * re + ce));
            assert(cell_ok(b, 9 * ra + ca));
        }
        assert forall|k: int| 0 <= k < 9 implies 1 <= #[trigger] vals[k] <= 9 by {
            lemma_rc_index(3 * br + k / 3, 3 * bc + k % 3);
        }
        lemma_nine_distinct_digits(vals);
        assert(vals.contains(d as int));
        let k = choose|k: int| 0 <= k < vals.len() && vals[k] == d as int;
        let r = 3 * br + k / 3;
        let c = 3 * bc + k % 3;
        lemma_rc_index(r, c);
        assert(box_row_of(9 * r + c) == br && box_col_of(9 * r + c) == bc && b[9 * r + c] == d);
    }
}

} // verus!
