//! The Killer Sudoku board: a 9x9 grid of digits (0 marks an empty
//! cell), a parallel grid of cage descriptors, and an optional
//! reference solution kept for fixtures. All constraint checking lives
//! here: cage-sum feasibility, cell occupancy, and row/column/box
//! uniqueness.

use vstd::multiset::Multiset;
use vstd::prelude::*;

use crate::cage::{Cage, CageColor};
use crate::counting::{count_upto, lemma_count_upto_multiset, lemma_count_upto_pos,
    lemma_count_upto_two, lemma_sum_upto_push, sum_upto};

verus! {

// ------------------------------------------------------------------
// The mathematical model of a board
// ------------------------------------------------------------------

/// Ghost model of a board: four sequences of 81 entries in row-major
/// order (the cell at column `x`, row `y` sits at index `y * 9 + x`).
#[verifier::ext_equal]
pub struct BoardView {
    /// Digits currently on the grid, 0 for an empty cell.
    pub grid: Seq<int>,
    /// The reference solution carried by fixtures (0 when unknown).
    pub solved: Seq<int>,
    /// Cage identity of each cell.
    pub cage_index: Seq<int>,
    /// Target sum of each cell's cage; a value of 0 or less marks an
    /// unconstrained cell.
    pub cage_sum: Seq<int>,
}

/// The multiset {1, 2, ..., 9}: what every row, column and box of a
/// finished board must hold.
pub open spec fn digit_multiset() -> Multiset<int> {
    Multiset::empty().insert(1).insert(2).insert(3).insert(4).insert(5).insert(6).insert(7).insert(
        8,
    ).insert(9)
}

/// Leftmost column of the 3x3 box containing column `x`.
pub open spec fn box_corner(x: int) -> int {
    (x / 3) * 3
}

impl BoardView {
    /// Well-formed: all four sequences cover the 81 cells and every
    /// grid entry is a digit 0..9.
    pub open spec fn wf(self) -> bool {
        &&& self.grid.len() == 81
        &&& self.solved.len() == 81
        &&& self.cage_index.len() == 81
        &&& self.cage_sum.len() == 81
        &&& forall|i: int| 0 <= i < 81 ==> 0 <= #[trigger] self.grid[i] <= 9
    }

    /// The digit at column `x`, row `y`.
    pub open spec fn cell(self, x: int, y: int) -> int {
        self.grid[y * 9 + x]
    }

    /// The same board with the digit at (`x`, `y`) replaced by `v`.
    pub open spec fn with_cell(self, x: int, y: int, v: int) -> BoardView {
        BoardView { grid: self.grid.update(y * 9 + x, v), ..self }
    }

    /// Sum of the digits placed in cage `c` among the first `n` cells
    /// (empty cells contribute 0).
    pub open spec fn cage_filled_sum_upto(self, c: int, n: int) -> int
        decreases n,
    {
        if n <= 0 {
            0
        } else {
            self.cage_filled_sum_upto(c, n - 1) + if self.cage_index[n - 1] == c {
                self.grid[n - 1]
            } else {
                0int
            }
        }
    }

    /// Sum of the digits currently placed in cage `c`.
    pub open spec fn cage_filled_sum(self, c: int) -> int {
        self.cage_filled_sum_upto(c, 81)
    }

    /// Number of cells of cage `c` among the first `n` cells.
    pub open spec fn cage_size_upto(self, c: int, n: int) -> int
        decreases n,
    {
        if n <= 0 {
            0
        } else {
            self.cage_size_upto(c, n - 1) + if self.cage_index[n - 1] == c {
                1int
            } else {
                0int
            }
        }
    }

    /// Number of cells of cage `c` on the whole board.
    pub open spec fn cage_size_of(self, c: int) -> int {
        self.cage_size_upto(c, 81)
    }

    /// Number of still-empty cells of cage `c` among the first `n`.
    pub open spec fn cage_empty_upto(self, c: int, n: int) -> int
        decreases n,
    {
        if n <= 0 {
            0
        } else {
            self.cage_empty_upto(c, n - 1) + if self.cage_index[n - 1] == c && self.grid[n - 1]
                == 0 {
                1int
            } else {
                0int
            }
        }
    }

    /// Number of still-empty cells of cage `c` on the whole board.
    pub open spec fn cage_empty_of(self, c: int) -> int {
        self.cage_empty_upto(c, 81)
    }

    /// Number of empty cells among the first `n` cells.
    pub open spec fn empty_upto(self, n: int) -> int
        decreases n,
    {
        if n <= 0 {
            0
        } else {
            self.empty_upto(n - 1) + if self.grid[n - 1] == 0 {
                1int
            } else {
                0int
            }
        }
    }

    /// Number of empty cells on the whole board.
    pub open spec fn empty_count(self) -> int {
        self.empty_upto(81)
    }

    /// Row `y`, left to right.
    pub open spec fn row_seq(self, y: int) -> Seq<int> {
        Seq::new(9, |x: int| self.cell(x, y))
    }

    /// Column `x`, top to bottom.
    pub open spec fn col_seq(self, x: int) -> Seq<int> {
        Seq::new(9, |y: int| self.cell(x, y))
    }

    /// Box `b` (0..9, row-major over boxes), in row-major cell order.
    pub open spec fn box_seq(self, b: int) -> Seq<int> {
        Seq::new(9, |k: int| self.cell((b % 3) * 3 + k % 3, (b / 3) * 3 + k / 3))
    }

    /// Whether digit `d` may be placed at (`x`, `y`): the cage stays
    /// feasible (and is completed exactly when (`x`, `y`) is its last
    /// empty cell), the cell is empty, and `d` appears nowhere in the
    /// cell's row, column or 3x3 box.
    pub open spec fn possible(self, x: int, y: int, d: int) -> bool {
        let c = self.cage_index[y * 9 + x];
        let target = self.cage_sum[y * 9 + x];
        &&& (target > 0 ==> {
            let cur = self.cage_filled_sum(c);
            &&& (self.cage_empty_of(c) == 1 ==> d == target - cur)
            &&& d + cur <= target
        })
        &&& self.cell(x, y) == 0
        &&& forall|i: int| 0 <= i < 9 ==> self.cell(i, y) != d
        &&& forall|i: int| 0 <= i < 9 ==> self.cell(x, i) != d
        &&& forall|i: int, j: int|
            box_corner(x) <= i < box_corner(x) + 3 && box_corner(y) <= j < box_corner(y) + 3
                ==> self.cell(i, j) != d
    }

    /// No digit repeats among the filled cells of any row.
    pub open spec fn rows_ok(self) -> bool {
        forall|x1: int, x2: int, y: int|
            0 <= x1 < 9 && 0 <= x2 < 9 && 0 <= y < 9 && x1 != x2 && #[trigger] self.cell(x1, y)
                != 0 ==> self.cell(x1, y) != #[trigger] self.cell(x2, y)
    }

    /// No digit repeats among the filled cells of any column.
    pub open spec fn cols_ok(self) -> bool {
        forall|x: int, y1: int, y2: int|
            0 <= x < 9 && 0 <= y1 < 9 && 0 <= y2 < 9 && y1 != y2 && #[trigger] self.cell(x, y1)
                != 0 ==> self.cell(x, y1) != #[trigger] self.cell(x, y2)
    }

    /// No digit repeats among the filled cells of any 3x3 box.
    pub open spec fn boxes_ok(self) -> bool {
        forall|x1: int, y1: int, x2: int, y2: int|
            0 <= x1 < 9 && 0 <= y1 < 9 && 0 <= x2 < 9 && 0 <= y2 < 9 && box_corner(x1)
                == box_corner(x2) && box_corner(y1) == box_corner(y2) && (x1 != x2 || y1 != y2)
                && #[trigger] self.cell(x1, y1) != 0 ==> self.cell(x1, y1) != #[trigger] self.cell(
                x2,
                y2,
            )
    }

    /// Cells of one cage all carry the same target sum.
    pub open spec fn cages_coherent(self) -> bool {
        forall|i: int, j: int|
            0 <= i < 81 && 0 <= j < 81 && #[trigger] self.cage_index[i] == #[trigger] self.cage_index[j]
                ==> self.cage_sum[i] == self.cage_sum[j]
    }

    /// Every constrained cage is feasible: its placed digits never
    /// exceed the target, and a fully placed cage meets it exactly.
    pub open spec fn cages_ok(self) -> bool {
        forall|i: int|
            0 <= i < 81 && #[trigger] self.cage_sum[i] > 0 ==> {
                &&& self.cage_filled_sum(self.cage_index[i]) <= self.cage_sum[i]
                &&& (self.cage_empty_of(self.cage_index[i]) == 0 ==> self.cage_filled_sum(
                    self.cage_index[i],
                ) == self.cage_sum[i])
            }
    }

    /// A partially filled board that violates no constraint.
    pub open spec fn valid(self) -> bool {
        &&& self.rows_ok()
        &&& self.cols_ok()
        &&& self.boxes_ok()
        &&& self.cages_coherent()
        &&& self.cages_ok()
    }

    /// Every cell holds a digit 1..9.
    pub open spec fn full(self) -> bool {
        forall|i: int| 0 <= i < 81 ==> #[trigger] self.grid[i] != 0
    }

    /// Every row, column and 3x3 box, read as a multiset, is exactly
    /// {1, ..., 9}.
    pub open spec fn finished(self) -> bool {
        forall|o: int|
            0 <= o < 9 ==> {
                &&& #[trigger] self.row_seq(o).to_multiset() == digit_multiset()
                &&& self.col_seq(o).to_multiset() == digit_multiset()
                &&& self.box_seq(o).to_multiset() == digit_multiset()
            }
    }

    /// No digit repeats among the filled cells of any one cage.
    pub open spec fn cage_distinct(self) -> bool {
        forall|i: int, j: int|
            0 <= i < 81 && 0 <= j < 81 && i != j && #[trigger] self.cage_index[i]
                == #[trigger] self.cage_index[j] && self.grid[i] != 0 ==> self.grid[i]
                != self.grid[j]
    }

    /// The digits of cage `c` among the first `n` cells, in cell
    /// order (empty cells contribute a 0 entry).
    pub open spec fn cage_values_upto(self, c: int, n: int) -> Seq<int>
        decreases n,
    {
        if n <= 0 {
            Seq::empty()
        } else if self.cage_index[n - 1] == c {
            self.cage_values_upto(c, n - 1).push(self.grid[n - 1])
        } else {
            self.cage_values_upto(c, n - 1)
        }
    }

    /// `self` is a solution of the board `start`: a full, valid,
    /// finished board over the same cages that keeps every digit
    /// `start` already had.
    pub open spec fn solves(self, start: BoardView) -> bool {
        &&& self.wf()
        &&& self.cage_index == start.cage_index
        &&& self.cage_sum == start.cage_sum
        &&& forall|i: int|
            0 <= i < 81 && #[trigger] start.grid[i] != 0 ==> self.grid[i] == start.grid[i]
        &&& self.full()
        &&& self.valid()
        &&& self.finished()
    }
}

// ------------------------------------------------------------------
// The executable board
// ------------------------------------------------------------------

/// A 9x9 Killer Sudoku board. The three vectors hold the 81 cells in
/// row-major order.
#[derive(Debug, Clone, PartialEq)]
pub struct Board {
    grid: Vec<i32>,
    solved_grid: Vec<i32>,
    cage_grid: Vec<Cage>,
}

/// Puzzle difficulty, measured as the number of pre-filled cells of a
/// randomly generated board.
pub enum Difficulty {
    Easy,
    Normal,
    Hard,
}

/// Number of cells that a generated board of the given difficulty has
/// filled in.
pub open spec fn difficulty_cells(d: Difficulty) -> int {
    match d {
        Difficulty::Easy => 32,
        Difficulty::Normal => 24,
        Difficulty::Hard => 17,
    }
}

/// Display colour of cage index `c`, cycling through the four colours.
pub open spec fn color_of(c: int) -> CageColor {
    if c % 4 == 0 {
        CageColor::Yellow
    } else if c % 4 == 1 {
        CageColor::Green
    } else if c % 4 == 2 {
        CageColor::Red
    } else {
        CageColor::Blue
    }
}

impl View for Board {
    type V = BoardView;

    closed spec fn view(&self) -> BoardView {
        BoardView {
            grid: self.grid@.map_values(|v: i32| v as int),
            solved: self.solved_grid@.map_values(|v: i32| v as int),
            cage_index: self.cage_grid@.map_values(|c: Cage| c.index as int),
            cage_sum: self.cage_grid@.map_values(|c: Cage| c.sum as int),
        }
    }
}

/// A vector of 81 equal `i32` entries.
fn filled81(v: i32) -> (r: Vec<i32>)
    ensures
        r@.len() == 81,
        forall|i: int| 0 <= i < 81 ==> r@[i] == v,
{
    let mut out: Vec<i32> = Vec::new();
    let mut i: usize = 0;
    while i < 81
        invariant
            i <= 81,
            out@.len() == i,
            forall|k: int| 0 <= k < i ==> out@[k] == v,
        decreases 81 - i,
    {
        out.push(v);
        i = i + 1;
    }
    out
}

impl Default for Board {
    /// An empty board: no digits, no reference solution, and every
    /// cell in the single unconstrained cage 0.
    fn default() -> (r: Board)
        ensures
            r@.wf(),
            r@.valid(),
            forall|i: int| 0 <= i < 81 ==> r@.grid[i] == 0,
            forall|i: int| 0 <= i < 81 ==> r@.solved[i] == 0,
            forall|i: int| 0 <= i < 81 ==> r@.cage_index[i] == 0,
            forall|i: int| 0 <= i < 81 ==> r@.cage_sum[i] == 0,
    {
        let mut cage_grid: Vec<Cage> = Vec::new();
        let mut i: usize = 0;
        while i < 81
            invariant
                i <= 81,
                cage_grid@.len() == i,
                forall|k: int| 0 <= k < i ==> #[trigger] cage_grid@[k] == (Cage {
                    index: 0,
                    sum: 0,
                }),
            decreases 81 - i,
        {
            cage_grid.push(Cage { index: 0, sum: 0 });
            i = i + 1;
        }
        Board { grid: filled81(0), solved_grid: filled81(0), cage_grid }
    }
}

/// Relies on `rand::thread_rng` and `Rng::gen_range`: a number drawn
/// uniformly below `n`; `gen_range` panics only on an empty range,
/// which the precondition rules out. Nothing else can be promised of a
/// random draw.
#[verifier::external_body]
fn random_below(n: usize) -> (r: usize)
    requires
        n > 0,
    ensures
        r < n,
{
    rand::Rng::gen_range(&mut rand::thread_rng(), 0..n)
}

impl Board {
    /// The digit at column `x`, row `y`; 0 for an empty cell.
    pub fn get_value(&self, x: usize, y: usize) -> (r: i32)
        requires
            self@.wf(),
            x < 9,
            y < 9,
        ensures
            r == self@.cell(x as int, y as int),
    {
        self.grid[y * 9 + x]
    }

    /// The target sum of the cage that (`x`, `y`) belongs to.
    pub fn get_sum(&self, x: usize, y: usize) -> (r: i32)
        requires
            self@.wf(),
            x < 9,
            y < 9,
        ensures
            r == self@.cage_sum[y * 9 + x],
    {
        self.cage_grid[y * 9 + x].sum
    }

    /// Display colour of the cage that (`x`, `y`) belongs to.
    pub fn get_color(&self, x: usize, y: usize) -> (r: CageColor)
        requires
            self@.wf(),
            x < 9,
            y < 9,
        ensures
            r == color_of(self@.cage_index[y * 9 + x]),
    {
        let m = self.cage_grid[y * 9 + x].index % 4;
        if m == 0 {
            CageColor::Yellow
        } else if m == 1 {
            CageColor::Green
        } else if m == 2 {
            CageColor::Red
        } else {
            CageColor::Blue
        }
    }

    /// Writes `num` at (`x`, `y`) without any validity check; writing
    /// 0 clears the cell. Reserved for search internals and board
    /// construction: the caller answers for constraint correctness.
    pub fn unchecked_set_num(&mut self, x: usize, y: usize, num: i32)
        requires
            old(self)@.wf(),
            x < 9,
            y < 9,
            0 <= num <= 9,
        ensures
            final(self)@ == old(self)@.with_cell(x as int, y as int, num as int),
            final(self)@.wf(),
    {
        let ghost pre = self@;
        self.grid.set(y * 9 + x, num);
        proof {
            assert(final(self)@ =~= pre.with_cell(x as int, y as int, num as int));
        }
    }

    /// Number of cells in the cage that (`x`, `y`) belongs to.
    pub fn get_cage_size(&self, x: usize, y: usize) -> (r: usize)
        requires
            self@.wf(),
            x < 9,
            y < 9,
        ensures
            r == self@.cage_size_of(self@.cage_index[y * 9 + x]),
    {
        let index = self.cage_grid[y * 9 + x].index;
        let ghost c = self@.cage_index[y * 9 + x as int];
        let mut count: usize = 0;
        let mut i: usize = 0;
        while i < 81
            invariant
                i <= 81,
                count == self@.cage_size_upto(c, i as int),
                count <= i,
            decreases 81 - i,
        {
            if self.cage_grid[i].index == index {
                count = count + 1;
            }
            i = i + 1;
        }
        count
    }

    /// Number of still-empty cells in the cage that (`x`, `y`)
    /// belongs to.
    pub fn get_cage_size_left(&self, x: usize, y: usize) -> (r: usize)
        requires
            self@.wf(),
            x < 9,
            y < 9,
        ensures
            r == self@.cage_empty_of(self@.cage_index[y * 9 + x]),
    {
        let index = self.cage_grid[y * 9 + x].index;
        let ghost c = self@.cage_index[y * 9 + x as int];
        let mut count: usize = 0;
        let mut i: usize = 0;
        while i < 81
            invariant
                i <= 81,
                count == self@.cage_empty_upto(c, i as int),
                count <= i,
            decreases 81 - i,
        {
            if self.cage_grid[i].index == index && self.grid[i] == 0 {
                count = count + 1;
            }
            i = i + 1;
        }
        count
    }

    /// Sum of the digits currently placed in the cage with identity
    /// `index`.
    fn cage_filled_sum_exec(&self, index: usize) -> (r: i32)
        requires
            self@.wf(),
        ensures
            r == self@.cage_filled_sum(index as int),
            0 <= r <= 729,
    {
        let mut sum: i32 = 0;
        let mut i: usize = 0;
        while i < 81
            invariant
                i <= 81,
                sum == self@.cage_filled_sum_upto(index as int, i as int),
                0 <= sum <= 9 * i,
            decreases 81 - i,
        {
            proof {
                assert(self@.grid[i as int] == self.grid@[i as int] as int);
            }
            if self.cage_grid[i].index == index {
                sum = sum + self.grid[i];
            }
            i = i + 1;
        }
        sum
    }

    /// Whether placing `num` at (`x`, `y`) violates no constraint; the
    /// board is not changed.
    pub fn is_possible(&self, x: usize, y: usize, num: i32) -> (r: bool)
        requires
            self@.wf(),
            x < 9,
            y < 9,
            0 <= num <= 9,
        ensures
            r == self@.possible(x as int, y as int, num as int),
    {
        let cage = self.cage_grid[y * 9 + x];
        let ghost c = self@.cage_index[y * 9 + x as int];
        if cage.sum > 0 {
            let current_sum = self.cage_filled_sum_exec(cage.index);
            let empty_left = self.get_cage_size_left(x, y);
            if empty_left == 1 && num != cage.sum - current_sum {
                return false;
            }
            if num + current_sum > cage.sum {
                return false;
            }
        }
        if self.grid[y * 9 + x] != 0 {
            return false;
        }
        let box_x = (x / 3) * 3;
        let box_y = (y / 3) * 3;
        let mut j: usize = 0;
        while j < 3
            invariant
                j <= 3,
                forall|a: int, b: int|
                    box_x <= a < box_x + 3 && box_y <= b < box_y + j ==> self@.cell(a, b) != num,
            decreases 3 - j,
        {
            let mut i: usize = 0;
            while i < 3
                invariant
                    i <= 3,
                    j < 3,
                    forall|a: int, b: int|
                        box_x <= a < box_x + 3 && box_y <= b < box_y + j ==> self@.cell(a, b)
                            != num,
                    forall|a: int|
                        box_x <= a < box_x + i ==> #[trigger] self@.cell(a, box_y + j) != num,
                decreases 3 - i,
            {
                if self.grid[(box_y + j) * 9 + box_x + i] == num {
                    proof {
                        assert(box_corner(x as int) == box_x as int);
                        assert(box_corner(y as int) == box_y as int);
                        assert(self@.cell(box_x + i as int, box_y + j as int) == num as int);
                    }
                    return false;
                }
                i = i + 1;
            }
            j = j + 1;
        }
        let mut o: usize = 0;
        while o < 9
            invariant
                o <= 9,
                forall|i: int| 0 <= i < o ==> self@.cell(i, y as int) != num,
                forall|i: int| 0 <= i < o ==> self@.cell(x as int, i) != num,
            decreases 9 - o,
        {
            if self.grid[y * 9 + o] == num {
                proof {
                    assert(self@.cell(o as int, y as int) == num as int);
                }
                return false;
            }
            if self.grid[o * 9 + x] == num {
                proof {
                    assert(self@.cell(x as int, o as int) == num as int);
                }
                return false;
            }
            o = o + 1;
        }
        true
    }

    /// Checked write: places `num` at (`x`, `y`) when that placement
    /// passes every constraint check, and silently leaves the board
    /// unchanged otherwise.
    pub fn set_num(&mut self, x: usize, y: usize, num: i32)
        requires
            old(self)@.wf(),
            x < 9,
            y < 9,
            0 <= num <= 9,
        ensures
            final(self)@ == if old(self)@.possible(x as int, y as int, num as int) {
                old(self)@.with_cell(x as int, y as int, num as int)
            } else {
                old(self)@
            },
            final(self)@.wf(),
    {
        if !self.is_possible(x, y, num) {
            return ;
        }
        self.unchecked_set_num(x, y, num);
    }

    /// One random placement attempt: a bounded number of random draws
    /// of a cell and digit, then a deterministic scan. Fails only when
    /// the board allows no placement at all.
    fn place_one_random(&mut self) -> (r: bool)
        requires
            old(self)@.wf(),
            old(self)@.valid(),
        ensures
            final(self)@.wf(),
            final(self)@.valid(),
            final(self)@.cage_index == old(self)@.cage_index,
            final(self)@.cage_sum == old(self)@.cage_sum,
            final(self)@.solved == old(self)@.solved,
            r ==> final(self)@.empty_count() == old(self)@.empty_count() - 1,
            !r ==> final(self)@ == old(self)@ && (forall|x: int, y: int, d: int|
                0 <= x < 9 && 0 <= y < 9 && 1 <= d <= 9 ==> !old(self)@.possible(x, y, d)),
    {
        let ghost b0 = self@;
        let mut tries: usize = 0;
        while tries < 100
            invariant
                tries <= 100,
                self@ == b0,
            decreases 100 - tries,
        {
            let i = random_below(81);
            let num = (random_below(9) + 1) as i32;
            let x = i % 9;
            let y = i / 9;
            proof {
                assert(x < 9 && y < 9) by (nonlinear_arith)
                    requires 0 <= i < 81, x == i % 9, y == i / 9;
            }
            if self.is_possible(x, y, num) {
                proof {
                    lemma_place_preserves_valid(b0, x as int, y as int, num as int);
                    lemma_with_cell_counts(b0, x as int, y as int, num as int, 0, 81);
                }
                self.unchecked_set_num(x, y, num);
                return true;
            }
            tries = tries + 1;
        }
        let mut y: usize = 0;
        while y < 9
            invariant
                y <= 9,
                self@ == b0,
                forall|a: int, b: int, d: int|
                    0 <= a < 9 && 0 <= b < y && 1 <= d <= 9 ==> !b0.possible(a, b, d),
            decreases 9 - y,
        {
            let mut x: usize = 0;
            while x < 9
                invariant
                    x <= 9,
                    y < 9,
                    self@ == b0,
                    forall|a: int, b: int, d: int|
                        0 <= a < 9 && 0 <= b < y && 1 <= d <= 9 ==> !b0.possible(a, b, d),
                    forall|a: int, d: int|
                        0 <= a < x && 1 <= d <= 9 ==> !b0.possible(a, y as int, d),
                decreases 9 - x,
            {
                let mut d: i32 = 1;
                while d <= 9
                    invariant
                        1 <= d <= 10,
                        x < 9,
                        y < 9,
                        self@ == b0,
                        forall|e: int| 1 <= e < d ==> !b0.possible(x as int, y as int, e),
                    decreases 10 - d,
                {
                    if self.is_possible(x, y, d) {
                        proof {
                            lemma_place_preserves_valid(b0, x as int, y as int, d as int);
                            lemma_with_cell_counts(b0, x as int, y as int, d as int, 0, 81);
                        }
                        self.unchecked_set_num(x, y, d);
                        return true;
                    }
                    d = d + 1;
                }
                x = x + 1;
            }
            y = y + 1;
        }
        false
    }

    /// A random plain (uncaged) board of the given difficulty: digits
    /// are drawn and placed at random cells under the full placement
    /// check until the difficulty's cell count is reached. In the
    /// degenerate case of a board that allows no further placement at
    /// all, the board is returned with the placements made so far.
    pub fn gen_random(difficulty: Difficulty) -> (r: Board)
        ensures
            r@.wf(),
            r@.valid(),
            forall|i: int| 0 <= i < 81 ==> r@.cage_index[i] == 0,
            forall|i: int| 0 <= i < 81 ==> r@.cage_sum[i] == 0,
            forall|i: int| 0 <= i < 81 ==> r@.solved[i] == 0,
            r@.empty_count() >= 81 - difficulty_cells(difficulty),
            r@.empty_count() > 81 - difficulty_cells(difficulty) ==> (forall|x: int, y: int, d: int|
                0 <= x < 9 && 0 <= y < 9 && 1 <= d <= 9 ==> !r@.possible(x, y, d)),
    {
        let ghost dc = difficulty_cells(difficulty);
        let amt: usize = match difficulty {
            Difficulty::Easy => 32,
            Difficulty::Normal => 24,
            Difficulty::Hard => 17,
        };
        let mut board = Board::default();
        proof {
            lemma_zero_board(board@, 0, 81);
        }
        let mut placed: usize = 0;
        while placed < amt
            invariant
                placed <= amt,
                amt == dc,
                board@.wf(),
                board@.valid(),
                forall|i: int| 0 <= i < 81 ==> board@.cage_index[i] == 0,
                forall|i: int| 0 <= i < 81 ==> board@.cage_sum[i] == 0,
                forall|i: int| 0 <= i < 81 ==> board@.solved[i] == 0,
                board@.empty_count() == 81 - placed,
            decreases amt - placed,
        {
            let ok = board.place_one_random();
            if !ok {
                return board;
            }
            placed = placed + 1;
        }
        board
    }

    /// Builds a plain (uncaged) board from one archive record: two
    /// 81-character digit strings read in row-major order, the puzzle
    /// (0 for blank) and its full solution. Returns `None` when either
    /// string is not exactly 81 ASCII digits.
    pub fn from_archive_record(values: &[u8], solution: &[u8]) -> (r: Option<Board>)
        ensures
            match r {
                Some(b) => {
                    &&& values@.len() == 81
                    &&& solution@.len() == 81
                    &&& forall|i: int|
                        0 <= i < 81 ==> 48 <= #[trigger] values@[i] <= 57 && 48 <= #[trigger] solution@[i] <= 57
                    &&& b@.wf()
                    &&& forall|i: int| 0 <= i < 81 ==> #[trigger] b@.grid[i] == values@[i] - 48
                    &&& forall|i: int| 0 <= i < 81 ==> #[trigger] b@.solved[i] == solution@[i] - 48
                    &&& forall|i: int| 0 <= i < 81 ==> #[trigger] b@.cage_index[i] == 0
                    &&& forall|i: int| 0 <= i < 81 ==> #[trigger] b@.cage_sum[i] == 0
                },
                None => !(values@.len() == 81 && solution@.len() == 81 && forall|i: int|
                    0 <= i < 81 ==> 48 <= #[trigger] values@[i] <= 57 && 48 <= solution@[i] <= 57),
            },
    {
        if values.len() != 81 || solution.len() != 81 {
            return None;
        }
        let mut board = Board::default();
        let mut i: usize = 0;
        while i < 81
            invariant
                i <= 81,
                values@.len() == 81,
                solution@.len() == 81,
                board@.wf(),
                forall|k: int| 0 <= k < i ==> 48 <= #[trigger] values@[k] <= 57,
                forall|k: int| 0 <= k < i ==> 48 <= #[trigger] solution@[k] <= 57,
                forall|k: int| 0 <= k < i ==> #[trigger] board@.grid[k] == values@[k] - 48,
                forall|k: int| 0 <= k < i ==> #[trigger] board@.solved[k] == solution@[k] - 48,
                forall|k: int| i <= k < 81 ==> #[trigger] board@.grid[k] == 0,
                forall|k: int| i <= k < 81 ==> #[trigger] board@.solved[k] == 0,
                forall|k: int| 0 <= k < 81 ==> #[trigger] board@.cage_index[k] == 0,
                forall|k: int| 0 <= k < 81 ==> #[trigger] board@.cage_sum[k] == 0,
            decreases 81 - i,
        {
            let v = values[i];
            let s = solution[i];
            if v < 48 || v > 57 || s < 48 || s > 57 {
                return None;
            }
            let x = i % 9;
            let y = i / 9;
            proof {
                assert(i as int == y as int * 9 + x && x < 9 && y < 9) by (nonlinear_arith)
                    requires 0 <= i < 81, x == i as int % 9, y == i as int / 9;
            }
            board.unchecked_set_num(x, y, (v - 48) as i32);
            board.set_solved_cell(x, y, (s - 48) as i32);
            proof {
                assert(48 <= values@[i as int] <= 57);
                assert(48 <= solution@[i as int] <= 57);
            }
            i = i + 1;
        }
        Some(board)
    }

    /// Writes one cell of the reference solution; used only while a
    /// board is being built from an archive record.
    fn set_solved_cell(&mut self, x: usize, y: usize, num: i32)
        requires
            old(self)@.wf(),
            x < 9,
            y < 9,
            0 <= num <= 9,
        ensures
            final(self)@ == (BoardView {
                solved: old(self)@.solved.update(y * 9 + x, num as int),
                ..old(self)@
            }),
            final(self)@.wf(),
    {
        let ghost pre = self@;
        self.solved_grid.set(y * 9 + x, num);
        proof {
            assert(final(self)@ =~= (BoardView {
                solved: pre.solved.update(y as int * 9 + x, num as int),
                ..pre
            }));
        }
    }

    /// The grid as nine rows of nine digits, consuming the board.
    pub fn get_grid(self) -> (r: Vec<Vec<i32>>)
        requires
            self@.wf(),
        ensures
            r@.len() == 9,
            forall|y: int| 0 <= y < 9 ==> #[trigger] r@[y]@.len() == 9,
            forall|x: int, y: int|
                0 <= x < 9 && 0 <= y < 9 ==> #[trigger] r@[y]@[x] == self@.cell(x, y),
    {
        let mut out: Vec<Vec<i32>> = Vec::new();
        let mut y: usize = 0;
        while y < 9
            invariant
                y <= 9,
                self@.wf(),
                out@.len() == y,
                forall|b: int| 0 <= b < y ==> #[trigger] out@[b]@.len() == 9,
                forall|a: int, b: int|
                    0 <= a < 9 && 0 <= b < y ==> #[trigger] out@[b]@[a] == self@.cell(a, b),
            decreases 9 - y,
        {
            let mut row: Vec<i32> = Vec::new();
            let mut x: usize = 0;
            while x < 9
                invariant
                    x <= 9,
                    y < 9,
                    self@.wf(),
                    row@.len() == x,
                    forall|a: int| 0 <= a < x ==> #[trigger] row@[a] == self@.cell(a, y as int),
                decreases 9 - x,
            {
                row.push(self.grid[y * 9 + x]);
                x = x + 1;
            }
            out.push(row);
            y = y + 1;
        }
        out
    }

    /// Whether the board is completely and consistently filled: every
    /// row, column and 3x3 box is a permutation of the digits 1..9.
    /// Cage sums are not re-checked here; they are maintained
    /// incrementally by the checked write path.
    pub fn is_finished(&self) -> (r: bool)
        requires
            self@.wf(),
        ensures
            r == self@.finished(),
    {
        let mut i: usize = 0;
        while i < 81
            invariant
                i <= 81,
                forall|k: int| 0 <= k < i ==> #[trigger] self@.grid[k] != 0,
            decreases 81 - i,
        {
            if self.grid[i] == 0 {
                proof {
                    let y = i as int / 9;
                    let x = i as int % 9;
                    assert(i as int == y * 9 + x && 0 <= x < 9 && 0 <= y < 9) by (nonlinear_arith)
                        requires 0 <= i < 81, x == i as int % 9, y == i as int / 9;
                    assert(self@.row_seq(y)[x] == 0);
                    lemma_unit_zero_not_digits(self@.row_seq(y), x);
                    assert(self@.finished() ==> self@.row_seq(y).to_multiset()
                        == digit_multiset());
                }
                return false;
            }
            i = i + 1;
        }
        let mut o: usize = 0;
        while o < 9
            invariant
                o <= 9,
                forall|k: int| 0 <= k < 81 ==> #[trigger] self@.grid[k] != 0,
                forall|u: int|
                    0 <= u < o ==> #[trigger] self@.row_seq(u).to_multiset() == digit_multiset(),
                forall|u: int|
                    0 <= u < o ==> #[trigger] self@.col_seq(u).to_multiset() == digit_multiset(),
                forall|u: int|
                    0 <= u < o ==> #[trigger] self@.box_seq(u).to_multiset() == digit_multiset(),
            decreases 9 - o,
        {
            let bx = (o % 3) * 3;
            let by = (o / 3) * 3;
            let mut d: i32 = 1;
            while d <= 9
                invariant
                    1 <= d <= 10,
                    forall|e: int|
                        1 <= e < d ==> #[trigger] count_upto(self@.row_seq(o as int), e, 9) == 1,
                    forall|e: int|
                        1 <= e < d ==> #[trigger] count_upto(self@.col_seq(o as int), e, 9) == 1,
                    forall|e: int|
                        1 <= e < d ==> #[trigger] count_upto(self@.box_seq(o as int), e, 9) == 1,
                decreases 10 - d,
            {
                let mut cnt_row: usize = 0;
                let mut cnt_col: usize = 0;
                let mut cnt_box: usize = 0;
                let mut k: usize = 0;
                while k < 9
                    invariant
                        k <= 9,
                        cnt_row == count_upto(self@.row_seq(o as int), d as int, k as int),
                        cnt_col == count_upto(self@.col_seq(o as int), d as int, k as int),
                        cnt_box == count_upto(self@.box_seq(o as int), d as int, k as int),
                        cnt_row <= k,
                        cnt_col <= k,
                        cnt_box <= k,
                    decreases 9 - k,
                {
                    proof {
                        assert(0 <= k as int % 3 < 3 && 0 <= k as int / 3 < 3) by (nonlinear_arith)
                            requires 0 <= k < 9;
                        assert(self@.row_seq(o as int)[k as int] == self@.grid[o as int * 9 + k]);
                        assert(self@.col_seq(o as int)[k as int] == self@.grid[k as int * 9 + o]);
                        assert(self@.box_seq(o as int)[k as int] == self@.grid[(by + k as int / 3)
                            * 9 + bx + k as int % 3]);
                    }
                    if self.grid[o * 9 + k] == d {
                        cnt_row = cnt_row + 1;
                    }
                    if self.grid[k * 9 + o] == d {
                        cnt_col = cnt_col + 1;
                    }
                    if self.grid[(by + k / 3) * 9 + bx + k % 3] == d {
                        cnt_box = cnt_box + 1;
                    }
                    k = k + 1;
                }
                if cnt_row != 1 {
                    proof {
                        lemma_unit_count_not_digits(self@.row_seq(o as int), d as int);
                        assert(self@.finished() ==> self@.row_seq(o as int).to_multiset()
                            == digit_multiset());
                    }
                    return false;
                }
                if cnt_col != 1 {
                    proof {
                        lemma_unit_count_not_digits(self@.col_seq(o as int), d as int);
                        assert(self@.finished() ==> self@.row_seq(o as int).to_multiset()
                            == digit_multiset() && self@.col_seq(o as int).to_multiset()
                            == digit_multiset());
                    }
                    return false;
                }
                if cnt_box != 1 {
                    proof {
                        lemma_unit_count_not_digits(self@.box_seq(o as int), d as int);
                        assert(self@.finished() ==> self@.row_seq(o as int).to_multiset()
                            == digit_multiset() && self@.box_seq(o as int).to_multiset()
                            == digit_multiset());
                    }
                    return false;
                }
                d = d + 1;
            }
            proof {
                assert forall|i2: int| 0 <= i2 < 9 implies 1 <= #[trigger] self@.row_seq(
                    o as int,
                )[i2] <= 9 && 1 <= self@.col_seq(o as int)[i2] <= 9 && 1 <= self@.box_seq(
                    o as int,
                )[i2] <= 9 by {
                    assert(0 <= i2 % 3 < 3 && 0 <= i2 / 3 < 3) by (nonlinear_arith)
                        requires 0 <= i2 < 9;
                    assert(self@.grid[o as int * 9 + i2] != 0);
                    assert(self@.grid[i2 * 9 + o] != 0);
                    assert(self@.grid[((o as int / 3) * 3 + i2 / 3) * 9 + (o as int % 3) * 3 + i2
                        % 3] != 0);
                }
                lemma_unit_is_digits(self@.row_seq(o as int));
                lemma_unit_is_digits(self@.col_seq(o as int));
                lemma_unit_is_digits(self@.box_seq(o as int));
            }
            o = o + 1;
        }
        true
    }
}


// ------------------------------------------------------------------
// The documented sample puzzle
// ------------------------------------------------------------------

/// Cage identity of each cell of the sample puzzle, row-major.
pub open spec fn sample_cages() -> Seq<int> {
    seq![
        1, 1, 2, 2, 2, 3, 4, 5, 6, 7, 7, 8, 8, 3, 3, 4,
        5, 6, 7, 7, 9, 9, 3, 10, 11, 11, 6, 12, 13, 13, 9, 14,
        10, 11, 15, 6, 12, 16, 16, 17, 14, 10, 15, 15, 18, 19, 16, 20,
        17, 14, 21, 22, 22, 18, 19, 20, 20, 17, 23, 21, 21, 24, 24, 19,
        25, 26, 23, 23, 27, 27, 24, 24, 19, 25, 26, 23, 28, 28, 28, 29,
        29
    ]
}

/// Target sum of each cage of the sample puzzle, by cage identity
/// (identity 0 is unused).
pub open spec fn sample_sums() -> Seq<int> {
    seq![
        0, 3, 15, 22, 4, 16, 15, 25, 17, 9, 8, 20, 6, 14, 17, 17,
        13, 20, 12, 27, 6, 20, 6, 10, 14, 8, 16, 15, 13, 17
    ]
}

/// The sample puzzle's unique solution, row-major.
pub open spec fn sample_solution() -> Seq<int> {
    seq![
        2, 1, 5, 6, 4, 7, 3, 9, 8, 3, 6, 8, 9, 5, 2, 1,
        7, 4, 7, 9, 4, 3, 8, 1, 6, 5, 2, 5, 8, 6, 2, 7,
        4, 9, 3, 1, 1, 4, 2, 5, 9, 3, 8, 6, 7, 9, 7, 3,
        8, 1, 6, 4, 2, 5, 8, 2, 1, 7, 3, 9, 5, 4, 6, 6,
        5, 9, 4, 2, 8, 7, 1, 3, 4, 3, 7, 1, 6, 5, 2, 8,
        9
    ]
}

/// The cage descriptor of cell `i` of the sample puzzle.
fn sample_cage_at(i: usize) -> (r: Cage)
    requires
        i < 81,
    ensures
        r.index as int == sample_cages()[i as int],
        r.sum as int == sample_sums()[sample_cages()[i as int]],
        1 <= r.index <= 29,
        r.sum > 0,
{
    match i {
            0 => Cage { index: 1, sum: 3 },
            1 => Cage { index: 1, sum: 3 },
            2 => Cage { index: 2, sum: 15 },
            3 => Cage { index: 2, sum: 15 },
            4 => Cage { index: 2, sum: 15 },
            5 => Cage { index: 3, sum: 22 },
            6 => Cage { index: 4, sum: 4 },
            7 => Cage { index: 5, sum: 16 },
            8 => Cage { index: 6, sum: 15 },
            9 => Cage { index: 7, sum: 25 },
            10 => Cage { index: 7, sum: 25 },
            11 => Cage { index: 8, sum: 17 },
            12 => Cage { index: 8, sum: 17 },
            13 => Cage { index: 3, sum: 22 },
            14 => Cage { index: 3, sum: 22 },
            15 => Cage { index: 4, sum: 4 },
            16 => Cage { index: 5, sum: 16 },
            17 => Cage { index: 6, sum: 15 },
            18 => Cage { index: 7, sum: 25 },
            19 => Cage { index: 7, sum: 25 },
            20 => Cage { index: 9, sum: 9 },
            21 => Cage { index: 9, sum: 9 },
            22 => Cage { index: 3, sum: 22 },
            23 => Cage { index: 10, sum: 8 },
            24 => Cage { index: 11, sum: 20 },
            25 => Cage { index: 11, sum: 20 },
            26 => Cage { index: 6, sum: 15 },
            27 => Cage { index: 12, sum: 6 },
            28 => Cage { index: 13, sum: 14 },
            29 => Cage { index: 13, sum: 14 },
            30 => Cage { index: 9, sum: 9 },
            31 => Cage { index: 14, sum: 17 },
            32 => Cage { index: 10, sum: 8 },
            33 => Cage { index: 11, sum: 20 },
            34 => Cage { index: 15, sum: 17 },
            35 => Cage { index: 6, sum: 15 },
            36 => Cage { index: 12, sum: 6 },
            37 => Cage { index: 16, sum: 13 },
            38 => Cage { index: 16, sum: 13 },
            39 => Cage { index: 17, sum: 20 },
            40 => Cage { index: 14, sum: 17 },
            41 => Cage { index: 10, sum: 8 },
            42 => Cage { index: 15, sum: 17 },
            43 => Cage { index: 15, sum: 17 },
            44 => Cage { index: 18, sum: 12 },
            45 => Cage { index: 19, sum: 27 },
            46 => Cage { index: 16, sum: 13 },
            47 => Cage { index: 20, sum: 6 },
            48 => Cage { index: 17, sum: 20 },
            49 => Cage { index: 14, sum: 17 },
            50 => Cage { index: 21, sum: 20 },
            51 => Cage { index: 22, sum: 6 },
            52 => Cage { index: 22, sum: 6 },
            53 => Cage { index: 18, sum: 12 },
            54 => Cage { index: 19, sum: 27 },
            55 => Cage { index: 20, sum: 6 },
            56 => Cage { index: 20, sum: 6 },
            57 => Cage { index: 17, sum: 20 },
            58 => Cage { index: 23, sum: 10 },
            59 => Cage { index: 21, sum: 20 },
            60 => Cage { index: 21, sum: 20 },
            61 => Cage { index: 24, sum: 14 },
            62 => Cage { index: 24, sum: 14 },
            63 => Cage { index: 19, sum: 27 },
            64 => Cage { index: 25, sum: 8 },
            65 => Cage { index: 26, sum: 16 },
            66 => Cage { index: 23, sum: 10 },
            67 => Cage { index: 23, sum: 10 },
            68 => Cage { index: 27, sum: 15 },
            69 => Cage { index: 27, sum: 15 },
            70 => Cage { index: 24, sum: 14 },
            71 => Cage { index: 24, sum: 14 },
            72 => Cage { index: 19, sum: 27 },
            73 => Cage { index: 25, sum: 8 },
            74 => Cage { index: 26, sum: 16 },
            75 => Cage { index: 23, sum: 10 },
            76 => Cage { index: 28, sum: 13 },
            77 => Cage { index: 28, sum: 13 },
            78 => Cage { index: 28, sum: 13 },
            79 => Cage { index: 29, sum: 17 },
            80 => Cage { index: 29, sum: 17 },
        _ => Cage { index: 0, sum: 0 },
    }
}

/// The solution digit of cell `i` of the sample puzzle.
fn sample_solution_at(i: usize) -> (r: i32)
    requires
        i < 81,
    ensures
        r as int == sample_solution()[i as int],
        1 <= r <= 9,
{
    match i {
            0 => 2,
            1 => 1,
            2 => 5,
            3 => 6,
            4 => 4,
            5 => 7,
            6 => 3,
            7 => 9,
            8 => 8,
            9 => 3,
            10 => 6,
            11 => 8,
            12 => 9,
            13 => 5,
            14 => 2,
            15 => 1,
            16 => 7,
            17 => 4,
            18 => 7,
            19 => 9,
            20 => 4,
            21 => 3,
            22 => 8,
            23 => 1,
            24 => 6,
            25 => 5,
            26 => 2,
            27 => 5,
            28 => 8,
            29 => 6,
            30 => 2,
            31 => 7,
            32 => 4,
            33 => 9,
            34 => 3,
            35 => 1,
            36 => 1,
            37 => 4,
            38 => 2,
            39 => 5,
            40 => 9,
            41 => 3,
            42 => 8,
            43 => 6,
            44 => 7,
            45 => 9,
            46 => 7,
            47 => 3,
            48 => 8,
            49 => 1,
            50 => 6,
            51 => 4,
            52 => 2,
            53 => 5,
            54 => 8,
            55 => 2,
            56 => 1,
            57 => 7,
            58 => 3,
            59 => 9,
            60 => 5,
            61 => 4,
            62 => 6,
            63 => 6,
            64 => 5,
            65 => 9,
            66 => 4,
            67 => 2,
            68 => 8,
            69 => 7,
            70 => 1,
            71 => 3,
            72 => 4,
            73 => 3,
            74 => 7,
            75 => 1,
            76 => 6,
            77 => 5,
            78 => 2,
            79 => 8,
            80 => 9,
        _ => 0,
    }
}

impl Board {
    /// The documented 9x9 sample puzzle: 29 cages with their target
    /// sums, an empty grid, and the known unique solution kept as the
    /// reference solution.
    pub fn sample_puzzle() -> (r: Board)
        ensures
            r@.wf(),
            r@.valid(),
            forall|i: int| 0 <= i < 81 ==> r@.grid[i] == 0,
            r@.cage_index == sample_cages(),
            forall|i: int| 0 <= i < 81 ==> r@.cage_sum[i] == sample_sums()[r@.cage_index[i]],
            r@.solved == sample_solution(),
    {
        let mut cage_grid: Vec<Cage> = Vec::new();
        let mut i: usize = 0;
        while i < 81
            invariant
                i <= 81,
                cage_grid@.len() == i,
                forall|k: int|
                    0 <= k < i ==> #[trigger] cage_grid@[k].index as int == sample_cages()[k]
                        && cage_grid@[k].sum as int == sample_sums()[sample_cages()[k]],
            decreases 81 - i,
        {
            cage_grid.push(sample_cage_at(i));
            i = i + 1;
        }
        let mut solved_grid: Vec<i32> = Vec::new();
        let mut j: usize = 0;
        while j < 81
            invariant
                j <= 81,
                solved_grid@.len() == j,
                forall|k: int|
                    0 <= k < j ==> #[trigger] solved_grid@[k] as int == sample_solution()[k],
            decreases 81 - j,
        {
            solved_grid.push(sample_solution_at(j));
            j = j + 1;
        }
        let r = Board { grid: filled81(0), solved_grid, cage_grid };
        proof {
            assert(r@.cage_index =~= sample_cages());
            assert(r@.solved =~= sample_solution());
            assert(r@.wf());
            lemma_zero_board(r@, 0, 81);
            assert forall|i2: int|
                0 <= i2 < 81 && #[trigger] r@.cage_sum[i2] > 0 implies {
                &&& r@.cage_filled_sum(r@.cage_index[i2]) <= r@.cage_sum[i2]
                &&& (r@.cage_empty_of(r@.cage_index[i2]) == 0 ==> r@.cage_filled_sum(
                    r@.cage_index[i2],
                ) == r@.cage_sum[i2])
            } by {
                let c = r@.cage_index[i2];
                lemma_zero_board(r@, c, 81);
                lemma_cage_empty_pos(r@, c, 81, i2);
            }
            assert(r@.valid());
        }
        r
    }
}

// ------------------------------------------------------------------
// Lemmas about units (rows, columns, boxes) as multisets
// ------------------------------------------------------------------

/// The multiset {1, ..., 9} holds each digit 1..9 exactly once and
/// nothing else.
pub proof fn lemma_digit_multiset_count(e: int)
    ensures
        digit_multiset().count(e) == if 1 <= e <= 9 {
            1int
        } else {
            0int
        },
{
    broadcast use vstd::multiset::group_multiset_axioms;

}

/// A 9-cell unit whose cells are digits 1..9, each appearing exactly
/// once, reads as the multiset {1, ..., 9}.
pub proof fn lemma_unit_is_digits(s: Seq<int>)
    requires
        s.len() == 9,
        forall|i: int| 0 <= i < 9 ==> 1 <= #[trigger] s[i] <= 9,
        forall|d: int| 1 <= d <= 9 ==> #[trigger] count_upto(s, d, 9) == 1,
    ensures
        s.to_multiset() == digit_multiset(),
{
    broadcast use vstd::seq_lib::group_to_multiset_ensures;
    broadcast use vstd::multiset::group_multiset_axioms;

    let m = s.to_multiset();
    let dm = digit_multiset();
    assert forall|e: int| m.count(e) == dm.count(e) by {
        lemma_digit_multiset_count(e);
        if 1 <= e <= 9 {
            lemma_count_upto_multiset(s, e);
        } else {
            assert(!s.contains(e));
        }
    }
    assert(m =~= dm);
}

/// A unit holding an empty cell is not a permutation of 1..9.
pub proof fn lemma_unit_zero_not_digits(s: Seq<int>, i: int)
    requires
        s.len() == 9,
        0 <= i < 9,
        s[i] == 0,
    ensures
        s.to_multiset() != digit_multiset(),
{
    lemma_count_upto_pos(s, 0, i, 9);
    lemma_count_upto_multiset(s, 0);
    lemma_digit_multiset_count(0);
}

/// A unit where some digit 1..9 does not appear exactly once is not a
/// permutation of 1..9.
pub proof fn lemma_unit_count_not_digits(s: Seq<int>, d: int)
    requires
        s.len() == 9,
        1 <= d <= 9,
        count_upto(s, d, 9) != 1,
    ensures
        s.to_multiset() != digit_multiset(),
{
    lemma_count_upto_multiset(s, d);
    lemma_digit_multiset_count(d);
}

// ------------------------------------------------------------------
// Lemmas about placements and cage sums
// ------------------------------------------------------------------

/// Effect of a single-cell write on the cage and emptiness counters.
pub proof fn lemma_with_cell_counts(b: BoardView, x: int, y: int, v: int, c: int, n: int)
    requires
        b.grid.len() == 81,
        0 <= x < 9,
        0 <= y < 9,
        n <= 81,
    ensures
        b.with_cell(x, y, v).cage_filled_sum_upto(c, n) == b.cage_filled_sum_upto(c, n) + if y * 9
            + x < n && b.cage_index[y * 9 + x] == c {
            v - b.grid[y * 9 + x]
        } else {
            0int
        },
        b.with_cell(x, y, v).cage_empty_upto(c, n) == b.cage_empty_upto(c, n) + if y * 9 + x < n
            && b.cage_index[y * 9 + x] == c {
            (if v == 0 {
                1int
            } else {
                0int
            }) - (if b.grid[y * 9 + x] == 0 {
                1int
            } else {
                0int
            })
        } else {
            0int
        },
        b.with_cell(x, y, v).cage_size_upto(c, n) == b.cage_size_upto(c, n),
        b.with_cell(x, y, v).empty_upto(n) == b.empty_upto(n) + if y * 9 + x < n {
            (if v == 0 {
                1int
            } else {
                0int
            }) - (if b.grid[y * 9 + x] == 0 {
                1int
            } else {
                0int
            })
        } else {
            0int
        },
    decreases n,
{
    if n > 0 {
        lemma_with_cell_counts(b, x, y, v, c, n - 1);
    }
}

/// The counters are non-negative, and a cage never has more empty
/// cells than cells.
pub proof fn lemma_counts_nonneg(b: BoardView, c: int, n: int)
    ensures
        0 <= b.cage_empty_upto(c, n) <= b.cage_size_upto(c, n),
        n >= 0 ==> b.cage_size_upto(c, n) <= n,
        b.empty_upto(n) >= 0,
    decreases n,
{
    if n > 0 {
        lemma_counts_nonneg(b, c, n - 1);
    }
}

/// A full board has no empty cells in any cage, nor anywhere at all.
pub proof fn lemma_full_no_empties(b: BoardView, c: int, n: int)
    requires
        forall|i: int| 0 <= i < n ==> #[trigger] b.grid[i] != 0,
    ensures
        b.cage_empty_upto(c, n) == 0,
        b.empty_upto(n) == 0,
    decreases n,
{
    if n > 0 {
        lemma_full_no_empties(b, c, n - 1);
    }
}

/// On an all-empty board nothing is placed: every cage sums to zero
/// and every cell counts as empty.
pub proof fn lemma_zero_board(b: BoardView, c: int, n: int)
    requires
        forall|i: int| 0 <= i < n ==> #[trigger] b.grid[i] == 0,
    ensures
        b.cage_filled_sum_upto(c, n) == 0,
        b.cage_empty_upto(c, n) == b.cage_size_upto(c, n),
        n >= 0 ==> b.empty_upto(n) == n,
    decreases n,
{
    if n > 0 {
        lemma_zero_board(b, c, n - 1);
    }
}

/// An empty cage cell in range makes the cage's empty counter positive.
pub proof fn lemma_cage_empty_pos(b: BoardView, c: int, n: int, pos: int)
    requires
        0 <= pos < n,
        b.cage_index[pos] == c,
        b.grid[pos] == 0,
    ensures
        b.cage_empty_upto(c, n) >= 1,
    decreases n,
{
    lemma_counts_nonneg(b, c, pos);
    if pos < n - 1 {
        lemma_cage_empty_pos(b, c, n - 1, pos);
    }
}

/// Boards with equal cage assignments have equal cage sizes.
pub proof fn lemma_cage_size_congruent(a: BoardView, b: BoardView, c: int, n: int)
    requires
        a.cage_index == b.cage_index,
    ensures
        a.cage_size_upto(c, n) == b.cage_size_upto(c, n),
    decreases n,
{
    if n > 0 {
        lemma_cage_size_congruent(a, b, c, n - 1);
    }
}

/// Sum of `sol`'s digits over the first `n` cells of cage `c` that are
/// still empty in `b`.
pub open spec fn hole_sum_upto(b: BoardView, sol: BoardView, c: int, n: int) -> int
    decreases n,
{
    if n <= 0 {
        0
    } else {
        hole_sum_upto(b, sol, c, n - 1) + if b.cage_index[n - 1] == c && b.grid[n - 1] == 0 {
            sol.grid[n - 1]
        } else {
            0int
        }
    }
}

/// On a board extended by a solution, a cage's sum in the solution is
/// its placed sum plus the solution's digits over its empty cells.
pub proof fn lemma_sum_decomposition(b: BoardView, sol: BoardView, c: int, n: int)
    requires
        sol.cage_index == b.cage_index,
        forall|i: int| 0 <= i < 81 && #[trigger] b.grid[i] != 0 ==> sol.grid[i] == b.grid[i],
        n <= 81,
    ensures
        sol.cage_filled_sum_upto(c, n) == b.cage_filled_sum_upto(c, n) + hole_sum_upto(
            b,
            sol,
            c,
            n,
        ),
    decreases n,
{
    if n > 0 {
        lemma_sum_decomposition(b, sol, c, n - 1);
    }
}

/// On a full, well-formed solution every hole contributes a digit
/// 1..9, so the hole sum is bracketed by the number of holes.
pub proof fn lemma_hole_sum_bounds(b: BoardView, sol: BoardView, c: int, n: int)
    requires
        sol.wf(),
        sol.full(),
        n <= 81,
    ensures
        b.cage_empty_upto(c, n) <= hole_sum_upto(b, sol, c, n) <= 9 * b.cage_empty_upto(c, n),
    decreases n,
{
    if n > 0 {
        lemma_hole_sum_bounds(b, sol, c, n - 1);
    }
}

/// Bracketing the hole sum around one known hole at `pos`.
pub proof fn lemma_hole_sum_single(b: BoardView, sol: BoardView, c: int, n: int, pos: int)
    requires
        sol.wf(),
        sol.full(),
        0 <= pos < n <= 81,
        b.cage_index[pos] == c,
        b.grid[pos] == 0,
    ensures
        hole_sum_upto(b, sol, c, n) >= sol.grid[pos] + (b.cage_empty_upto(c, n) - 1),
        hole_sum_upto(b, sol, c, n) <= sol.grid[pos] + 9 * (b.cage_empty_upto(c, n) - 1),
    decreases n,
{
    if pos == n - 1 {
        lemma_hole_sum_bounds(b, sol, c, n - 1);
    } else {
        lemma_hole_sum_single(b, sol, c, n - 1, pos);
    }
}

/// A finished board has no empty cells.
pub proof fn lemma_finished_full(b: BoardView)
    requires
        b.wf(),
        b.finished(),
    ensures
        b.full(),
{
    assert forall|i: int| 0 <= i < 81 implies #[trigger] b.grid[i] != 0 by {
        let y = i / 9;
        let x = i % 9;
        assert(i == y * 9 + x && 0 <= x < 9 && 0 <= y < 9) by (nonlinear_arith)
            requires 0 <= i < 81, x == i % 9, y == i / 9;
        if b.grid[i] == 0 {
            assert(b.row_seq(y)[x] == 0);
            lemma_unit_zero_not_digits(b.row_seq(y), x);
            assert(b.row_seq(y).to_multiset() == digit_multiset());
        }
    }
}

/// Whether a board is finished depends on its grid alone.
pub proof fn lemma_finished_congruent(a: BoardView, b: BoardView)
    requires
        a.grid == b.grid,
    ensures
        a.finished() == b.finished(),
{
    assert forall|o: int|
        0 <= o < 9 implies #[trigger] a.row_seq(o).to_multiset() == b.row_seq(o).to_multiset()
        && a.col_seq(o).to_multiset() == b.col_seq(o).to_multiset() && a.box_seq(o).to_multiset()
        == b.box_seq(o).to_multiset() by {
        assert(a.row_seq(o) =~= b.row_seq(o));
        assert(a.col_seq(o) =~= b.col_seq(o));
        assert(a.box_seq(o) =~= b.box_seq(o));
    }
    if a.finished() {
        assert forall|o: int|
            0 <= o < 9 implies #[trigger] b.row_seq(o).to_multiset() == digit_multiset()
            && b.col_seq(o).to_multiset() == digit_multiset() && b.box_seq(o).to_multiset()
            == digit_multiset() by {
            assert(a.row_seq(o).to_multiset() == digit_multiset());
            assert(a.col_seq(o).to_multiset() == digit_multiset());
            assert(a.box_seq(o).to_multiset() == digit_multiset());
        }
    }
    if b.finished() {
        assert forall|o: int|
            0 <= o < 9 implies #[trigger] a.row_seq(o).to_multiset() == digit_multiset()
            && a.col_seq(o).to_multiset() == digit_multiset() && a.box_seq(o).to_multiset()
            == digit_multiset() by {
            assert(b.row_seq(o).to_multiset() == digit_multiset());
            assert(b.col_seq(o).to_multiset() == digit_multiset());
            assert(b.box_seq(o).to_multiset() == digit_multiset());
        }
    }
}

/// Clearing a cell that was just speculatively filled restores the
/// board exactly: `unchecked_set_num(x, y, 0)` after a placement at an
/// empty cell undoes it.
pub proof fn lemma_place_then_clear(b: BoardView, x: int, y: int, d: int)
    requires
        b.grid.len() == 81,
        0 <= x < 9,
        0 <= y < 9,
        b.cell(x, y) == 0,
    ensures
        b.with_cell(x, y, d).with_cell(x, y, 0) == b,
{
    assert(b.with_cell(x, y, d).with_cell(x, y, 0).grid =~= b.grid);
    assert(b.with_cell(x, y, d).with_cell(x, y, 0) =~= b);
}

/// Any digit that an existing solution of the board puts at an empty
/// cell passes the placement check at that cell.
pub proof fn lemma_solution_digit_possible(sol: BoardView, b: BoardView, x: int, y: int)
    requires
        b.wf(),
        sol.solves(b),
        0 <= x < 9,
        0 <= y < 9,
        b.cell(x, y) == 0,
    ensures
        b.possible(x, y, sol.cell(x, y)),
{
    let pos = y * 9 + x;
    let d = sol.grid[pos];
    assert(sol.grid[pos] != 0);
    assert(1 <= d <= 9);
    // Row: a second occurrence of d in row y would appear twice in the
    // solution's row, contradicting the permutation property.
    assert forall|i: int| 0 <= i < 9 implies b.cell(i, y) != d by {
        if b.cell(i, y) == d {
            assert(sol.cell(i, y) == d);
            assert(sol.row_seq(y)[i] == d);
            assert(sol.row_seq(y)[x] == d);
            assert(i != x);
            if i < x {
                lemma_count_upto_two(sol.row_seq(y), d, i, x, 9);
            } else {
                lemma_count_upto_two(sol.row_seq(y), d, x, i, 9);
            }
            lemma_count_upto_multiset(sol.row_seq(y), d);
            lemma_digit_multiset_count(d);
            assert(sol.row_seq(y).to_multiset() == digit_multiset());
            assert(false);
        }
    }
    // Column: the same argument down column x.
    assert forall|j: int| 0 <= j < 9 implies b.cell(x, j) != d by {
        if b.cell(x, j) == d {
            assert(sol.cell(x, j) == d);
            assert(sol.col_seq(x)[j] == d);
            assert(sol.col_seq(x)[y] == d);
            assert(j != y);
            if j < y {
                lemma_count_upto_two(sol.col_seq(x), d, j, y, 9);
            } else {
                lemma_count_upto_two(sol.col_seq(x), d, y, j, 9);
            }
            lemma_count_upto_multiset(sol.col_seq(x), d);
            lemma_digit_multiset_count(d);
            assert(sol.col_seq(x).to_multiset() == digit_multiset());
            assert(false);
        }
    }
    // Box: a second occurrence inside the cell's 3x3 box would appear
    // twice in the solution's box.
    assert forall|i: int, j: int|
        box_corner(x) <= i < box_corner(x) + 3 && box_corner(y) <= j < box_corner(y)
            + 3 implies b.cell(i, j) != d by {
        if b.cell(i, j) == d {
            let bo = (y / 3) * 3 + x / 3;
            let k1 = (j - box_corner(y)) * 3 + (i - box_corner(x));
            let k2 = (y - box_corner(y)) * 3 + (x - box_corner(x));
            assert(0 <= bo < 9 && (bo % 3) * 3 == box_corner(x) && (bo / 3) * 3 == box_corner(y))
                by (nonlinear_arith)
                requires 0 <= x < 9, 0 <= y < 9, bo == (y / 3) * 3 + x / 3;
            assert(0 <= k1 < 9 && k1 % 3 == i - box_corner(x) && k1 / 3 == j - box_corner(y))
                by (nonlinear_arith)
                requires
                    box_corner(x) <= i < box_corner(x) + 3,
                    box_corner(y) <= j < box_corner(y) + 3,
                    k1 == (j - box_corner(y)) * 3 + (i - box_corner(x));
            assert(0 <= k2 < 9 && k2 % 3 == x - box_corner(x) && k2 / 3 == y - box_corner(y))
                by (nonlinear_arith)
                requires
                    box_corner(x) <= x < box_corner(x) + 3,
                    box_corner(y) <= y < box_corner(y) + 3,
                    k2 == (y - box_corner(y)) * 3 + (x - box_corner(x));
            assert(sol.cell(i, j) == d);
            assert(sol.box_seq(bo)[k1] == d);
            assert(sol.box_seq(bo)[k2] == d);
            assert(k1 != k2);
            if k1 < k2 {
                lemma_count_upto_two(sol.box_seq(bo), d, k1, k2, 9);
            } else {
                lemma_count_upto_two(sol.box_seq(bo), d, k2, k1, 9);
            }
            lemma_count_upto_multiset(sol.box_seq(bo), d);
            lemma_digit_multiset_count(d);
            assert(sol.box_seq(bo).to_multiset() == digit_multiset());
            assert(false);
        }
    }
    // Cage feasibility: the solution completes this cage exactly, and
    // each of its other empty cells takes a digit of at least 1.
    let c = b.cage_index[pos];
    let target = b.cage_sum[pos];
    if target > 0 {
        assert(sol.cage_sum[pos] > 0);
        assert(sol.cage_filled_sum(sol.cage_index[pos]) <= sol.cage_sum[pos]);
        lemma_full_no_empties(sol, c, 81);
        assert(sol.cage_filled_sum(c) == target);
        lemma_sum_decomposition(b, sol, c, 81);
        lemma_hole_sum_single(b, sol, c, 81, pos);
        lemma_cage_empty_pos(b, c, 81, pos);
        let k = b.cage_empty_of(c);
        assert(k >= 1);
        assert(b.cage_filled_sum(c) + d + (k - 1) <= target);
        if k == 1 {
            assert(hole_sum_upto(b, sol, c, 81) == d);
            assert(d == target - b.cage_filled_sum(c));
        }
    }
}

/// The digit sequence of a cage: its length is the cage's size, its
/// sum is the cage's placed sum, it holds the digit of every cage
/// cell, and each of its entries comes from some cage cell.
pub proof fn lemma_cage_values(b: BoardView, c: int, n: int)
    requires
        n <= 81,
    ensures
        b.cage_values_upto(c, n).len() == b.cage_size_upto(c, n),
        sum_upto(b.cage_values_upto(c, n), b.cage_values_upto(c, n).len() as int)
            == b.cage_filled_sum_upto(c, n),
        forall|m: int|
            0 <= m < b.cage_values_upto(c, n).len() ==> exists|j: int|
                0 <= j < n && b.cage_index[j] == c && b.grid[j] == #[trigger] b.cage_values_upto(
                    c,
                    n,
                )[m],
        forall|j: int|
            0 <= j < n && b.cage_index[j] == c ==> b.cage_values_upto(c, n).contains(
                #[trigger] b.grid[j],
            ),
    decreases n,
{
    lemma_counts_nonneg(b, c, n);
    if n > 0 {
        lemma_cage_values(b, c, n - 1);
        let q = b.cage_values_upto(c, n - 1);
        if b.cage_index[n - 1] == c {
            lemma_sum_upto_push(q, b.grid[n - 1]);
            let qn = q.push(b.grid[n - 1]);
            assert forall|m: int| 0 <= m < qn.len() implies exists|j: int|
                0 <= j < n && b.cage_index[j] == c && b.grid[j] == #[trigger] qn[m] by {
                if m < q.len() {
                    assert(qn[m] == q[m]);
                    let j = choose|j: int| 0 <= j < n - 1 && b.cage_index[j] == c && b.grid[j]
                        == q[m];
                    assert(0 <= j < n && b.cage_index[j] == c && b.grid[j] == qn[m]);
                } else {
                    assert(qn[m] == b.grid[n - 1]);
                    assert(0 <= n - 1 < n && b.cage_index[n - 1] == c && b.grid[n - 1] == qn[m]);
                }
            }
            assert forall|j: int| 0 <= j < n && b.cage_index[j] == c implies qn.contains(
                #[trigger] b.grid[j],
            ) by {
                if j < n - 1 {
                    assert(q.contains(b.grid[j]));
                    let m = choose|m: int| 0 <= m < q.len() && q[m] == b.grid[j];
                    assert(qn[m] == b.grid[j]);
                } else {
                    assert(qn[q.len() as int] == b.grid[n - 1]);
                }
            }
        }
    }
}

/// On a board whose cages repeat no digit, a fully placed cage's digit
/// sequence has no duplicates.
pub proof fn lemma_cage_values_distinct(b: BoardView, c: int, n: int)
    requires
        b.cage_distinct(),
        b.full(),
        n <= 81,
    ensures
        b.cage_values_upto(c, n).no_duplicates(),
    decreases n,
{
    if n > 0 {
        lemma_cage_values_distinct(b, c, n - 1);
        lemma_cage_values(b, c, n - 1);
        let q = b.cage_values_upto(c, n - 1);
        if b.cage_index[n - 1] == c {
            let qn = q.push(b.grid[n - 1]);
            assert forall|m1: int, m2: int|
                0 <= m1 < qn.len() && 0 <= m2 < qn.len() && m1 != m2 implies qn[m1] != qn[m2] by {
                if m1 < q.len() && m2 < q.len() {
                    assert(qn[m1] == q[m1] && qn[m2] == q[m2]);
                } else {
                    let mo = if m1 < q.len() {
                        m1
                    } else {
                        m2
                    };
                    assert(qn[mo] == q[mo]);
                    let j = choose|j: int| 0 <= j < n - 1 && b.cage_index[j] == c && b.grid[j]
                        == q[mo];
                    assert(b.grid[j] != b.grid[n - 1]);
                }
            }
        }
    }
}

/// A placement that passes the placement check keeps the board valid.
pub proof fn lemma_place_preserves_valid(b: BoardView, x: int, y: int, d: int)
    requires
        b.wf(),
        b.valid(),
        0 <= x < 9,
        0 <= y < 9,
        1 <= d <= 9,
        b.possible(x, y, d),
    ensures
        b.with_cell(x, y, d).wf(),
        b.with_cell(x, y, d).valid(),
{
    let b2 = b.with_cell(x, y, d);
    let pos = y * 9 + x;
    assert forall|i: int, j: int| 0 <= i < 9 && 0 <= j < 9 implies #[trigger] b2.cell(i, j) == (
    if i == x && j == y {
        d
    } else {
        b.cell(i, j)
    }) by {
        assert(j * 9 + i == pos <==> i == x && j == y);
    }
    assert(b2.wf()) by {
        assert(forall|i: int| 0 <= i < 81 ==> 0 <= #[trigger] b2.grid[i] <= 9);
    }
    assert(b2.rows_ok());
    assert(b2.cols_ok());
    assert(b2.boxes_ok());
    assert(b2.cages_coherent());
    let c = b.cage_index[pos];
    assert forall|i: int| 0 <= i < 81 && #[trigger] b2.cage_sum[i] > 0 implies {
        &&& b2.cage_filled_sum(b2.cage_index[i]) <= b2.cage_sum[i]
        &&& (b2.cage_empty_of(b2.cage_index[i]) == 0 ==> b2.cage_filled_sum(b2.cage_index[i])
            == b2.cage_sum[i])
    } by {
        let ci = b.cage_index[i];
        lemma_with_cell_counts(b, x, y, d, ci, 81);
        if ci == c {
            assert(b.cage_sum[i] == b.cage_sum[pos]);
            assert(b.cage_sum[pos] > 0);
            assert(b2.cage_filled_sum(ci) == b.cage_filled_sum(c) + d);
            assert(b2.cage_empty_of(ci) == b.cage_empty_of(c) - 1);
            if b.cage_empty_of(c) == 1 {
                assert(d == b.cage_sum[pos] - b.cage_filled_sum(c));
            }
        }
    }
}

} // verus!
