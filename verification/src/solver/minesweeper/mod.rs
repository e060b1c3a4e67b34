use vstd::prelude::*;

pub(crate) mod inference;
pub mod probability;

use crate::solver::sets::{Pos, lemma_push_contains, lemma_push_no_dup, lemma_card, ascending, sorted_positions};
use inference::{Constraint, Demand, holds, all_hold, consistent, squares_of, positions, reduce, dead,
    trivial_spent, subset_spent, lemma_squares_of, lemma_holds_reduce, lemma_holds_diff, inference};
use probability::{Estimate, distinct_cells, complete_for, has_cell, mine_probabilities, sound_for, possible_layout, agrees, least_guess, small_clusters, connected,
    chained_by, shares};

verus! {

/// What is known of one square of the board.
#[derive(Debug, Clone, Copy, PartialEq, Eq, Structural)]
pub enum Cell {
    Unknown,
    Number(u8),
    Flag,
}

/// A move the solver proposes.
#[derive(Debug, Clone, Copy, PartialEq, Eq, Structural)]
pub enum Action {
    Reveal { x: i32, y: i32 },
    Flag { x: i32, y: i32 },
}

/// The player's view of a minesweeper board; `grid[y][x]` is the square at column `x`, row `y`.
#[derive(Debug, Clone)]
pub struct Board {
    pub rows: i32,
    pub cols: i32,
    pub mine_count: i32,
    pub grid: Vec<Vec<Cell>>,
}

impl Board {
    /// The grid as rows of squares.
    pub open spec fn cells(&self) -> Seq<Seq<Cell>> {
        self.grid@.map_values(|r: Vec<Cell>| r@)
    }

    /// The grid has `rows` rows of `cols` squares each.
    pub open spec fn wf(&self) -> bool {
        &&& self.rows >= 0
        &&& self.cols >= 0
        &&& self.cells().len() == self.rows
        &&& forall|y: int| 0 <= y < self.rows ==> (#[trigger] self.cells()[y]).len() == self.cols
    }

    /// `(x, y)` names a square that the grid holds.
    pub open spec fn in_grid(&self, x: int, y: int) -> bool {
        0 <= y < self.cells().len() && 0 <= x < self.cells()[y].len()
    }

    pub open spec fn in_bounds(&self, x: int, y: int) -> bool {
        0 <= x < self.cols && 0 <= y < self.rows
    }

    /// The square at `(x, y)`; outside the board every square reads as unknown.
    pub open spec fn at(&self, x: int, y: int) -> Cell {
        if self.in_bounds(x, y) {
            self.cells()[y][x]
        } else {
            Cell::Unknown
        }
    }

    /// The grid after writing `c` at `(x, y)`, where that square exists in the grid.
    pub open spec fn cells_with(&self, x: int, y: int, c: Cell) -> Seq<Seq<Cell>> {
        self.cells().update(y, self.cells()[y].update(x, c))
    }

    pub fn new(rows: i32, cols: i32, mine_count: i32) -> (b: Self)
        requires
            rows >= 0,
            cols >= 0,
        ensures
            b.wf(),
            b.rows == rows,
            b.cols == cols,
            b.mine_count == mine_count,
            forall|x: int, y: int| b.in_bounds(x, y) ==> b.at(x, y) == Cell::Unknown,
    {
        let mut grid: Vec<Vec<Cell>> = Vec::new();
        let mut y: i32 = 0;
        while y < rows
            invariant
                0 <= y <= rows,
                cols >= 0,
                grid@.len() == y,
                forall|j: int| 0 <= j < y ==> (#[trigger] grid@[j])@.len() == cols
                    && forall|i: int| 0 <= i < cols ==> grid@[j]@[i] == Cell::Unknown,
            decreases rows - y,
        {
            let mut row: Vec<Cell> = Vec::new();
            let mut x: i32 = 0;
            while x < cols
                invariant
                    0 <= x <= cols,
                    row@.len() == x,
                    forall|i: int| 0 <= i < x ==> row@[i] == Cell::Unknown,
                decreases cols - x,
            {
                row.push(Cell::Unknown);
                x += 1;
            }
            grid.push(row);
            y += 1;
        }
        Board { rows, cols, mine_count, grid }
    }

    fn put(&mut self, x: i32, y: i32, c: Cell)
        requires
            old(self).in_grid(x as int, y as int),
        ensures
            final(self).rows == old(self).rows,
            final(self).cols == old(self).cols,
            final(self).mine_count == old(self).mine_count,
            final(self).cells() == old(self).cells_with(x as int, y as int, c),
    {
        let yy = y as usize;
        self.grid[yy].set(x as usize, c);
    }

    /// Writes the number `n` at `(x, y)` where the grid has that square; elsewhere nothing changes.
    pub fn set_number(&mut self, x: i32, y: i32, n: u8)
        ensures
            final(self).rows == old(self).rows,
            final(self).cols == old(self).cols,
            final(self).mine_count == old(self).mine_count,
            old(self).in_grid(x as int, y as int) ==>
                final(self).cells() == old(self).cells_with(x as int, y as int, Cell::Number(n)),
            !old(self).in_grid(x as int, y as int) ==> final(self).cells() == old(self).cells(),
    {
        if y >= 0 && (y as usize) < self.grid.len() && x >= 0 && (x as usize) < self.grid[y as usize].len() {
            self.put(x, y, Cell::Number(n));
        }
    }

    /// Marks `(x, y)` as flagged where the grid has that square; elsewhere nothing changes.
    pub fn set_flag(&mut self, x: i32, y: i32)
        ensures
            final(self).rows == old(self).rows,
            final(self).cols == old(self).cols,
            final(self).mine_count == old(self).mine_count,
            old(self).in_grid(x as int, y as int) ==>
                final(self).cells() == old(self).cells_with(x as int, y as int, Cell::Flag),
            !old(self).in_grid(x as int, y as int) ==> final(self).cells() == old(self).cells(),
    {
        if y >= 0 && (y as usize) < self.grid.len() && x >= 0 && (x as usize) < self.grid[y as usize].len() {
            self.put(x, y, Cell::Flag);
        }
    }

    /// Turns a flag at `(x, y)` back into an unknown square; any other square is left as it is.
    pub fn set_unknown(&mut self, x: i32, y: i32)
        ensures
            final(self).rows == old(self).rows,
            final(self).cols == old(self).cols,
            final(self).mine_count == old(self).mine_count,
            (old(self).in_grid(x as int, y as int) && old(self).cells()[y as int][x as int] == Cell::Flag) ==>
                final(self).cells() == old(self).cells_with(x as int, y as int, Cell::Unknown),
            !(old(self).in_grid(x as int, y as int) && old(self).cells()[y as int][x as int] == Cell::Flag)
                ==> final(self).cells() == old(self).cells(),
    {
        if y >= 0 && (y as usize) < self.grid.len() && x >= 0 && (x as usize) < self.grid[y as usize].len() {
            let cur = self.grid[y as usize][x as usize];
            if let Cell::Flag = cur {
                self.put(x, y, Cell::Unknown);
            }
        }
    }

    /// The square at `(x, y)`; a position off the board reads as unknown.
    pub fn cell(&self, x: i32, y: i32) -> (c: Cell)
        requires
            self.wf(),
        ensures
            c == self.at(x as int, y as int),
    {
        if x < 0 || y < 0 || x >= self.cols || y >= self.rows {
            return Cell::Unknown;
        }
        self.grid[y as usize][x as usize]
    }
}

/// `(nx, ny)` is one of the eight squares around `(x, y)`.
pub open spec fn adjacent(x: int, y: int, nx: int, ny: int) -> bool {
    &&& -1 <= nx - x <= 1
    &&& -1 <= ny - y <= 1
    &&& !(nx == x && ny == y)
}

/// Where `p` comes among the eight squares around `(x, y)`: row by row from the row above, each
/// row left to right.
pub open spec fn neighbor_rank(x: int, y: int, p: (i32, i32)) -> int {
    (p.1 - y + 1) * 3 + (p.0 - x + 1)
}

impl Board {
    /// `p` is a square of the board next to `(x, y)`.
    pub open spec fn is_neighbor(&self, x: int, y: int, p: (i32, i32)) -> bool {
        adjacent(x, y, p.0 as int, p.1 as int) && self.in_bounds(p.0 as int, p.1 as int)
    }

    /// The squares of the board around `(x, y)`, row above first, each row left to right.
    pub(crate) fn neighbors(&self, x: i32, y: i32) -> (out: Vec<(i32, i32)>)
        requires
            i32::MIN < x < i32::MAX,
            i32::MIN < y < i32::MAX,
        ensures
            out@.no_duplicates(),
            out@.len() <= 8,
            forall|p: (i32, i32)| out@.contains(p) <==> self.is_neighbor(x as int, y as int, p),
            forall|i: int, j: int| 0 <= i < j < out@.len() ==>
                neighbor_rank(x as int, y as int, #[trigger] out@[i]) < neighbor_rank(x as int, y as int, #[trigger] out@[j]),
    {
        let mut out: Vec<(i32, i32)> = Vec::new();
        let mut k: i32 = 0;
        while k < 9
            invariant
                i32::MIN < x < i32::MAX,
                i32::MIN < y < i32::MAX,
                0 <= k <= 9,
                forall|i: int, j: int| 0 <= i < j < out@.len() ==>
                    neighbor_rank(x as int, y as int, #[trigger] out@[i]) < neighbor_rank(x as int, y as int, #[trigger] out@[j]),
                forall|i: int| 0 <= i < out@.len() ==> neighbor_rank(x as int, y as int, #[trigger] out@[i]) < k,
                out@.no_duplicates(),
                out@.len() <= if k > 4 { k - 1 } else { k as int },
                forall|p: (i32, i32)| out@.contains(p) <==> (self.is_neighbor(x as int, y as int, p)
                    && (p.1 - y + 1) * 3 + (p.0 - x + 1) < k),
            decreases 9 - k,
        {
            let dy = k / 3 - 1;
            let dx = k % 3 - 1;
            let nx = x + dx;
            let ny = y + dy;
            let ghost old_out = out@;
            assert((ny - y + 1) * 3 + (nx - x + 1) == k);
            assert(!old_out.contains((nx, ny)));
            if k != 4 && nx >= 0 && ny >= 0 && nx < self.cols && ny < self.rows {
                out.push((nx, ny));
            }
            proof {
                lemma_push_contains(old_out, (nx, ny));
            }
            k += 1;
        }
        out
    }

    /// The squares around `(x, y)` that are still unknown.
    pub open spec fn unknown_around(&self, x: int, y: int) -> Set<(i32, i32)> {
        Set::new(|p: (i32, i32)| self.is_neighbor(x, y, p) && self.at(p.0 as int, p.1 as int) == Cell::Unknown)
    }

    /// The flagged squares around `(x, y)`.
    pub open spec fn flags_around(&self, x: int, y: int) -> Set<(i32, i32)> {
        Set::new(|p: (i32, i32)| self.is_neighbor(x, y, p) && self.at(p.0 as int, p.1 as int) == Cell::Flag)
    }

    /// Number of flags on the board.
    pub open spec fn flag_total(&self) -> nat {
        rows_flags(self.cells())
    }

    pub(crate) fn flag_count(&self) -> (n: i32)
        requires
            self.wf(),
        ensures
            n == self.flag_total() as i32,
    {
        let mut total: u64 = 0;
        let mut y: usize = 0;
        while y < self.grid.len()
            invariant
                self.wf(),
                0 <= y <= self.grid@.len(),
                total == rows_flags(self.cells().take(y as int)),
                total <= y * self.cols,
            decreases self.grid@.len() - y,
        {
            let row = &self.grid[y];
            let mut x: usize = 0;
            let mut in_row: u64 = 0;
            proof {
                assert(row@ == self.cells()[y as int]);
            }
            while x < row.len()
                invariant
                    self.wf(),
                    0 <= y < self.grid@.len(),
                    row@ == self.cells()[y as int],
                    0 <= x <= row@.len(),
                    in_row == row_flags(row@.take(x as int)),
                    in_row <= x,
                decreases row@.len() - x,
            {
                if let Cell::Flag = row[x] {
                    in_row += 1;
                }
                proof {
                    assert(row@.take(x + 1).drop_last() == row@.take(x as int));
                }
                x += 1;
            }
            proof {
                assert(row@.take(x as int) == row@);
                assert(self.cells().take(y + 1).drop_last() == self.cells().take(y as int));
                lemma_row_flags_le(row@);
                assert((y + 1) * self.cols == y * self.cols + self.cols) by (nonlinear_arith);
                assert(y * self.cols <= 0x7fff_ffff * 0x7fff_ffff) by (nonlinear_arith)
                    requires y <= 0x7fff_ffff, self.cols <= 0x7fff_ffff, self.cols >= 0;
            }
            total = total + in_row;
            y += 1;
        }
        proof {
            assert(self.cells().take(y as int) == self.cells());
        }
        total as i32
    }

    /// The unknown squares of the board in row-major order.
    pub(crate) fn unknown_cells(&self) -> (out: Vec<(i32, i32)>)
        requires
            self.wf(),
        ensures
            out@.no_duplicates(),
            forall|p: (i32, i32)| out@.contains(p) <==> (self.in_bounds(p.0 as int, p.1 as int)
                && self.at(p.0 as int, p.1 as int) == Cell::Unknown),
            forall|i: int, j: int| 0 <= i < j < out@.len() ==> row_major_lt(out@[i], out@[j]),
    {
        let mut out: Vec<(i32, i32)> = Vec::new();
        let mut y: i32 = 0;
        while y < self.rows
            invariant
                self.wf(),
                0 <= y <= self.rows,
                forall|p: (i32, i32)| out@.contains(p) <==> (self.in_bounds(p.0 as int, p.1 as int)
                    && self.at(p.0 as int, p.1 as int) == Cell::Unknown && p.1 < y),
                forall|i: int, j: int| 0 <= i < j < out@.len() ==> row_major_lt(out@[i], out@[j]),
                forall|i: int| 0 <= i < out@.len() ==> out@[i].1 < y,
            decreases self.rows - y,
        {
            let mut x: i32 = 0;
            while x < self.cols
                invariant
                    self.wf(),
                    0 <= y < self.rows,
                    0 <= x <= self.cols,
                    forall|p: (i32, i32)| out@.contains(p) <==> (self.in_bounds(p.0 as int, p.1 as int)
                        && self.at(p.0 as int, p.1 as int) == Cell::Unknown && (p.1 < y || (p.1 == y && p.0 < x))),
                    forall|i: int, j: int| 0 <= i < j < out@.len() ==> row_major_lt(out@[i], out@[j]),
                    forall|i: int| 0 <= i < out@.len() ==> out@[i].1 < y || (out@[i].1 == y && out@[i].0 < x),
                decreases self.cols - x,
            {
                let ghost old_out = out@;
                if let Cell::Unknown = self.cell(x, y) {
                    out.push((x, y));
                }
                proof {
                    lemma_push_contains(old_out, (x, y));
                }
                x += 1;
            }
            y += 1;
        }
        proof {
            assert forall|i: int, j: int| 0 <= i < out@.len() && 0 <= j < out@.len() && i != j
                implies out@[i] != out@[j] by {
                if i < j {
                    assert(row_major_lt(out@[i], out@[j]));
                } else {
                    assert(row_major_lt(out@[j], out@[i]));
                }
            }
        }
        out
    }
}

impl Board {
    /// `(x, y)` is a number square of the board.
    pub open spec fn is_number(&self, x: int, y: int) -> bool {
        self.in_bounds(x, y) && self.at(x, y) is Number
    }

    /// `(x, y)` is a number square with at least one unknown neighbour.
    pub open spec fn constrains(&self, x: int, y: int) -> bool {
        self.is_number(x, y) && self.unknown_around(x, y).len() > 0
    }

    /// What the number at `(x, y)` asks of its unknown neighbours: the mines it counts, less the flags around it.
    pub open spec fn number_demand(&self, x: int, y: int) -> (Set<Pos>, int) {
        (self.unknown_around(x, y), self.at(x, y)->Number_0 as int - self.flags_around(x, y).len())
    }

    /// `c` is the constraint of the number square at `(x, y)`.
    pub open spec fn states(&self, c: Constraint, x: int, y: int) -> bool {
        self.constrains(x, y) && c.demand() == self.number_demand(x, y)
    }

    /// `c` is a well-formed constraint of some number square of the board.
    pub open spec fn from_board(&self, c: Constraint) -> bool {
        c.wf() && exists|a: int, b: int| #[trigger] self.states(c, a, b)
    }

    /// The mine layout `m` agrees with every number that still has unknown neighbours.
    pub open spec fn meets_numbers(&self, m: Set<Pos>) -> bool {
        forall|x: int, y: int| #[trigger] self.constrains(x, y) ==> holds(m, self.number_demand(x, y))
    }

    /// The neighbours of `(x, y)` that read `kind`.
    fn around(&self, x: i32, y: i32, kind: Cell) -> (out: Vec<Pos>)
        requires
            self.wf(),
            self.in_bounds(x as int, y as int),
        ensures
            out@.no_duplicates(),
            out@.len() <= 8,
            forall|p: Pos| out@.contains(p) <==> (self.is_neighbor(x as int, y as int, p)
                && self.at(p.0 as int, p.1 as int) == kind),
    {
        let neigh = self.neighbors(x, y);
        let mut out: Vec<Pos> = Vec::new();
        let mut i: usize = 0;
        while i < neigh.len()
            invariant
                self.wf(),
                neigh@.no_duplicates(),
                neigh@.len() <= 8,
                forall|p: Pos| neigh@.contains(p) <==> self.is_neighbor(x as int, y as int, p),
                0 <= i <= neigh@.len(),
                out@.no_duplicates(),
                out@.len() <= i,
                forall|p: Pos| out@.contains(p) <==> (neigh@.take(i as int).contains(p)
                    && self.at(p.0 as int, p.1 as int) == kind),
            decreases neigh@.len() - i,
        {
            let p = neigh[i];
            let ghost before = out@;
            proof {
                lemma_push_contains(neigh@.take(i as int), p);
                assert(neigh@.take(i + 1) == neigh@.take(i as int).push(p));
                if neigh@.take(i as int).contains(p) {
                    let k = choose|k: int| 0 <= k < i && neigh@.take(i as int)[k] == p;
                    assert(neigh@[k] == neigh@[i as int]);
                }
                assert(!neigh@.take(i as int).contains(p));
            }
            if self.cell(p.0, p.1) == kind {
                out.push(p);
                proof {
                    lemma_push_contains(before, p);
                    lemma_push_no_dup(before, p);
                }
            }
            i += 1;
        }
        proof {
            assert(neigh@.take(i as int) == neigh@);
        }
        out
    }

    /// The number squares with unknown neighbours among the first `k` squares, read row by row.
    pub open spec fn constraining_upto(&self, k: int) -> Seq<(int, int)>
        decreases k,
    {
        if k <= 0 || self.cols <= 0 {
            Seq::empty()
        } else {
            let prev = self.constraining_upto(k - 1);
            let x = (k - 1) % (self.cols as int);
            let y = (k - 1) / (self.cols as int);
            if self.constrains(x, y) {
                prev.push((x, y))
            } else {
                prev
            }
        }
    }

    /// The number squares with unknown neighbours, read row by row.
    pub open spec fn constraining(&self) -> Seq<(int, int)> {
        self.constraining_upto(self.rows * self.cols)
    }

    /// One constraint for each number square that still has unknown neighbours, in row-major order,
    /// each with its unknown neighbours in ascending order.
    pub(crate) fn collect_constraints(&self) -> (out: Vec<Constraint>)
        requires
            self.wf(),
        ensures
            out@.len() == self.constraining().len(),
            forall|i: int| 0 <= i < out@.len() ==>
                self.states(#[trigger] out@[i], self.constraining()[i].0, self.constraining()[i].1)
                && ascending(out@[i].unknowns@),
            forall|i: int| 0 <= i < out@.len() ==> #[trigger] self.from_board(out@[i]),
            forall|x: int, y: int| #[trigger] self.constrains(x, y) ==>
                exists|i: int| 0 <= i < out@.len() && #[trigger] self.states(out@[i], x, y),
    {
        let mut out: Vec<Constraint> = Vec::new();
        let mut y: i32 = 0;
        proof {
            assert(0 * (self.cols as int) == 0);
        }
        while y < self.rows
            invariant
                self.wf(),
                0 <= y <= self.rows,
                out@.len() == self.constraining_upto(y * self.cols).len(),
                forall|i: int| 0 <= i < out@.len() ==>
                    self.states(#[trigger] out@[i], self.constraining_upto(y * self.cols)[i].0,
                        self.constraining_upto(y * self.cols)[i].1) && ascending(out@[i].unknowns@),
                forall|i: int| 0 <= i < out@.len() ==> #[trigger] self.from_board(out@[i]),
                forall|xx: int, yy: int| #[trigger] self.constrains(xx, yy) && yy < y ==>
                    exists|i: int| 0 <= i < out@.len() && #[trigger] self.states(out@[i], xx, yy),
            decreases self.rows - y,
        {
            let mut x: i32 = 0;
            while x < self.cols
                invariant
                    self.wf(),
                    0 <= y < self.rows,
                    0 <= x <= self.cols,
                    out@.len() == self.constraining_upto(y * self.cols + x).len(),
                    forall|i: int| 0 <= i < out@.len() ==>
                        self.states(#[trigger] out@[i], self.constraining_upto(y * self.cols + x)[i].0,
                            self.constraining_upto(y * self.cols + x)[i].1) && ascending(out@[i].unknowns@),
                    forall|i: int| 0 <= i < out@.len() ==> #[trigger] self.from_board(out@[i]),
                    forall|xx: int, yy: int| #[trigger] self.constrains(xx, yy) && (yy < y || (yy == y && xx < x)) ==>
                        exists|i: int| 0 <= i < out@.len() && #[trigger] self.states(out@[i], xx, yy),
                decreases self.cols - x,
            {
                let ghost before = out@;
                let ghost k = y * self.cols + x;
                proof {
                    vstd::arithmetic::div_mod::lemma_fundamental_div_mod_converse(k, self.cols as int, y as int, x as int);
                    assert(k + 1 > 0);
                }
                if let Cell::Number(n) = self.cell(x, y) {
                    let unk = sorted_positions(&self.around(x, y, Cell::Unknown));
                    let flg = self.around(x, y, Cell::Flag);
                    proof {
                        lemma_card(unk@);
                        lemma_card(flg@);
                        assert(unk@.to_set() =~= self.unknown_around(x as int, y as int));
                        assert(flg@.to_set() =~= self.flags_around(x as int, y as int));
                    }
                    if unk.len() > 0 {
                        let need = n as i32 - flg.len() as i32;
                        out.push(Constraint { unknowns: unk, need });
                        proof {
                            assert(out@[out@.len() - 1].demand() == self.number_demand(x as int, y as int));
                            assert(self.constrains(x as int, y as int));
                            assert(self.states(out@[out@.len() - 1], x as int, y as int));
                            assert(self.from_board(out@[out@.len() - 1]));
                        }
                    }
                }
                proof {
                    assert forall|i: int| 0 <= i < before.len() implies out@[i] == before[i] by {}
                    assert forall|xx: int, yy: int| #[trigger] self.constrains(xx, yy) && (yy < y || (yy == y && xx < x + 1)) implies
                        exists|i: int| 0 <= i < out@.len() && #[trigger] self.states(out@[i], xx, yy) by {
                        if yy < y || (yy == y && xx < x) {
                            let i = choose|i: int| 0 <= i < before.len() && #[trigger] self.states(before[i], xx, yy);
                            assert(out@[i] == before[i]);
                        } else {
                            assert(self.states(out@[out@.len() - 1], xx, yy));
                        }
                    }
                    assert(self.constraining_upto(k + 1) == if self.constrains(x as int, y as int) {
                        self.constraining_upto(k).push((x as int, y as int))
                    } else {
                        self.constraining_upto(k)
                    });
                    assert(self.constrains(x as int, y as int) <==> out@.len() == before.len() + 1);
                }
                x += 1;
            }
            proof {
                assert(y * self.cols + self.cols == (y + 1) * self.cols) by (nonlinear_arith);
            }
            y += 1;
        }
        out
    }
}

/// `p` comes before `q` when the board is read row by row.
pub open spec fn row_major_lt(p: (i32, i32), q: (i32, i32)) -> bool {
    p.1 < q.1 || (p.1 == q.1 && p.0 < q.0)
}

pub open spec fn row_flags(r: Seq<Cell>) -> nat
    decreases r.len(),
{
    if r.len() == 0 {
        0
    } else {
        row_flags(r.drop_last()) + if r.last() == Cell::Flag { 1nat } else { 0nat }
    }
}

pub open spec fn rows_flags(g: Seq<Seq<Cell>>) -> nat
    decreases g.len(),
{
    if g.len() == 0 {
        0
    } else {
        rows_flags(g.drop_last()) + row_flags(g.last())
    }
}

pub proof fn lemma_row_flags_le(r: Seq<Cell>)
    ensures
        row_flags(r) <= r.len(),
    decreases r.len(),
{
    if r.len() > 0 {
        lemma_row_flags_le(r.drop_last());
    }
}


impl Board {
    /// The unknown squares of the board.
    pub open spec fn unknown_squares(&self) -> Set<Pos> {
        Set::new(|p: Pos| self.in_bounds(p.0 as int, p.1 as int) && self.at(p.0 as int, p.1 as int) == Cell::Unknown)
    }

    pub open spec fn has_unknown(&self) -> bool {
        exists|p: Pos| #[trigger] self.unknown_squares().contains(p)
    }

    pub open spec fn has_number(&self) -> bool {
        exists|x: int, y: int| #[trigger] self.is_number(x, y)
    }

    /// The unknown squares next to some number.
    pub open spec fn border(&self) -> Set<Pos> {
        Set::new(|p: Pos| self.unknown_squares().contains(p)
            && exists|x: int, y: int| #[trigger] self.is_number(x, y) && self.is_neighbor(x, y, p))
    }

    /// `a` and `b` are both unknown neighbours of one number.
    pub open spec fn beside_one_number(&self, a: Pos, b: Pos) -> bool {
        exists|x: int, y: int| #[trigger] self.is_number(x, y) && self.unknown_around(x, y).contains(a)
            && self.unknown_around(x, y).contains(b)
    }

    /// Each square of `w` is beside a number with the next.
    pub open spec fn linked_squares(&self, w: Seq<Pos>) -> bool {
        forall|k: int| 0 <= k < w.len() - 1 ==> #[trigger] self.beside_one_number(w[k], w[k + 1])
    }

    /// A chain of squares, each beside one number with the next, leads from `p` to `q`.
    pub open spec fn clustered(&self, p: Pos, q: Pos) -> bool {
        exists|w: Seq<Pos>| w.len() >= 1 && w[0] == p && w.last() == q && #[trigger] self.linked_squares(w)
    }

    /// No set of squares next to the numbers that are clustered with one another has more than 24 squares.
    pub open spec fn clusters_small(&self) -> bool {
        forall|s: Set<Pos>| #[trigger] s.subset_of(self.border())
            && (forall|p: Pos, q: Pos| s.contains(p) && s.contains(q) ==> self.clustered(p, q)) ==> s.len() <= 24
    }

    /// Some layout of mines agrees with every number.
    pub open spec fn solvable(&self) -> bool {
        exists|m: Set<Pos>| #[trigger] self.meets_numbers(m)
    }

    /// `m` could be where the mines lie: on unknown squares only, agreeing with every number, and as
    /// many as the mine count leaves once each flag is taken for a mine.
    pub open spec fn possible(&self, m: Set<Pos>) -> bool {
        &&& m.finite()
        &&& m.subset_of(self.unknown_squares())
        &&& self.meets_numbers(m)
        &&& self.flag_total() <= i32::MAX
        &&& m.len() == self.mine_count - self.flag_total()
    }

    /// The number at `(x, y)` settles all its unknown neighbours at once: it asks for none of them, or all.
    pub open spec fn settles(&self, x: int, y: int) -> bool {
        &&& self.constrains(x, y)
        &&& self.number_demand(x, y).1 == 0 || self.number_demand(x, y).1 == self.number_demand(x, y).0.len()
    }

    /// The unknown neighbours of `(x1, y1)` are strictly among those of `(x2, y2)`, and the difference of the
    /// two demands asks for none, or for all, of the squares around `(x2, y2)` that are not around `(x1, y1)`.
    pub open spec fn settles_pair(&self, x1: int, y1: int, x2: int, y2: int) -> bool {
        let a = self.number_demand(x1, y1);
        let b = self.number_demand(x2, y2);
        &&& self.constrains(x1, y1)
        &&& self.constrains(x2, y2)
        &&& a.0.subset_of(b.0)
        &&& a.0.len() < b.0.len()
        &&& b.1 - a.1 == 0 || b.1 - a.1 == b.0.difference(a.0).len()
    }

    /// The move that the number at `(x, y)`, when it settles its unknown neighbours, makes on the
    /// square `p`: a reveal where it asks for no mine, else a flag.
    pub open spec fn forced_move(&self, x: int, y: int, p: Pos) -> Action {
        if self.number_demand(x, y).1 == 0 {
            Action::Reveal { x: p.0, y: p.1 }
        } else {
            Action::Flag { x: p.0, y: p.1 }
        }
    }

    /// The move that the numbers at `(x1, y1)` and `(x2, y2)`, when they settle a pair, make on a
    /// square `p` around the second and not the first: a reveal where the two ask for as many
    /// mines, else a flag.
    pub open spec fn pair_move(&self, x1: int, y1: int, x2: int, y2: int, p: Pos) -> Action {
        if self.number_demand(x2, y2).1 - self.number_demand(x1, y1).1 == 0 {
            Action::Reveal { x: p.0, y: p.1 }
        } else {
            Action::Flag { x: p.0, y: p.1 }
        }
    }

    /// `a` is right under every layout of mines that agrees with the numbers.
    pub open spec fn surely_right(&self, a: Action) -> bool {
        match a {
            Action::Flag { x, y } => forall|m: Set<Pos>| #[trigger] self.meets_numbers(m) ==> m.contains((x, y)),
            Action::Reveal { x, y } => forall|m: Set<Pos>| #[trigger] self.meets_numbers(m) ==> !m.contains((x, y)),
        }
    }

    /// Clusters are small enough to count, a number shows, some layout is possible, and the count
    /// of layouts settles some unknown square: every possible layout has a mine there, or none has.
    pub open spec fn decided_by_count(&self) -> bool {
        &&& self.clusters_small()
        &&& self.has_number()
        &&& exists|m: Set<Pos>| #[trigger] self.possible(m)
        &&& self.unknown_squares().len() < usize::MAX
        &&& exists|a: Action| self.unknown_squares().contains(target(a)) && #[trigger] self.right_by_count(a)
    }

    /// `a` is right under every possible layout.
    pub open spec fn right_by_count(&self, a: Action) -> bool {
        match a {
            Action::Flag { x, y } => forall|m: Set<Pos>| #[trigger] self.possible(m) ==> m.contains((x, y)),
            Action::Reveal { x, y } => forall|m: Set<Pos>| #[trigger] self.possible(m) ==> !m.contains((x, y)),
        }
    }

    /// Whether some square of the board shows a number.
    fn any_number(&self) -> (r: bool)
        requires
            self.wf(),
        ensures
            r == self.has_number(),
    {
        let mut y: i32 = 0;
        while y < self.rows
            invariant
                self.wf(),
                0 <= y <= self.rows,
                forall|xx: int, yy: int| #[trigger] self.is_number(xx, yy) ==> yy >= y,
            decreases self.rows - y,
        {
            let mut x: i32 = 0;
            while x < self.cols
                invariant
                    self.wf(),
                    0 <= y < self.rows,
                    0 <= x <= self.cols,
                    forall|xx: int, yy: int| #[trigger] self.is_number(xx, yy) ==> yy > y || (yy == y && xx >= x),
                decreases self.cols - x,
            {
                if let Cell::Number(_) = self.cell(x, y) {
                    assert(self.is_number(x as int, y as int));
                    return true;
                }
                x += 1;
            }
            y += 1;
        }
        false
    }
}

/// The square an action is aimed at.
pub open spec fn target(a: Action) -> Pos {
    match a {
        Action::Reveal { x, y } => (x, y),
        Action::Flag { x, y } => (x, y),
    }
}

/// A single reveal taken as a guess.
pub open spec fn is_guess(r: Seq<Action>) -> bool {
    r.len() == 1 && r[0] is Reveal
}

/// The unknown squares around a square of the board are finitely many.
pub proof fn lemma_around_finite(b: &Board, x: int, y: int)
    requires
        b.in_bounds(x, y),
    ensures
        b.unknown_around(x, y).finite(),
{
    let ring = set![
        ((x - 1) as i32, (y - 1) as i32), (x as i32, (y - 1) as i32), ((x + 1) as i32, (y - 1) as i32),
        ((x - 1) as i32, y as i32), ((x + 1) as i32, y as i32),
        ((x - 1) as i32, (y + 1) as i32), (x as i32, (y + 1) as i32), ((x + 1) as i32, (y + 1) as i32)
    ];
    assert forall|p: Pos| #[trigger] b.unknown_around(x, y).contains(p) implies ring.contains(p) by {
        assert(p == ((x + (p.0 - x)) as i32, (y + (p.1 - y)) as i32));
    }
    vstd::set_lib::lemma_len_subset(b.unknown_around(x, y), ring);
}

/// The constraints of the board say the same as its numbers, over the same squares.
pub proof fn lemma_constraints_match(b: &Board, cs: Seq<Constraint>)
    requires
        forall|i: int| 0 <= i < cs.len() ==> #[trigger] b.from_board(cs[i]),
        forall|x: int, y: int| #[trigger] b.constrains(x, y) ==>
            exists|i: int| 0 <= i < cs.len() && #[trigger] b.states(cs[i], x, y),
    ensures
        forall|m: Set<Pos>| #[trigger] b.meets_numbers(m) <==> all_hold(m, cs),
        squares_of(cs) == b.border(),
{
    assert forall|m: Set<Pos>| #[trigger] b.meets_numbers(m) <==> all_hold(m, cs) by {
        if b.meets_numbers(m) {
            assert forall|i: int| 0 <= i < cs.len() implies holds(m, #[trigger] cs[i].demand()) by {
                assert(b.from_board(cs[i]));
                let (x, y) = choose|x: int, y: int| #[trigger] b.states(cs[i], x, y);
                assert(b.constrains(x, y));
            }
        }
        if all_hold(m, cs) {
            assert forall|x: int, y: int| #[trigger] b.constrains(x, y) implies holds(m, b.number_demand(x, y)) by {
                let i = choose|i: int| 0 <= i < cs.len() && #[trigger] b.states(cs[i], x, y);
                assert(holds(m, cs[i].demand()));
            }
        }
    }
    lemma_squares_of(cs);
    assert forall|p: Pos| squares_of(cs).contains(p) <==> b.border().contains(p) by {
        if squares_of(cs).contains(p) {
            let i = choose|i: int| 0 <= i < cs.len() && (#[trigger] cs[i].demand()).0.contains(p);
            assert(b.from_board(cs[i]));
            let (x, y) = choose|x: int, y: int| #[trigger] b.states(cs[i], x, y);
            assert(b.unknown_around(x, y).contains(p));
            assert(b.is_number(x, y));
        }
        if b.border().contains(p) {
            let (x, y) = choose|x: int, y: int| #[trigger] b.is_number(x, y) && b.is_neighbor(x, y, p);
            assert(b.unknown_around(x, y).contains(p));
            lemma_around_finite(b, x, y);
            vstd::set_lib::lemma_set_empty_equivalency_len(b.unknown_around(x, y));
            assert(b.constrains(x, y));
            let i = choose|i: int| 0 <= i < cs.len() && #[trigger] b.states(cs[i], x, y);
            assert(cs[i].demand().0.contains(p));
        }
    }
    assert(squares_of(cs) =~= b.border());
}

/// At most 24 squares next to the numbers: no cluster of them is larger.
pub proof fn lemma_small_border(b: &Board)
    requires
        b.border().finite(),
        b.border().len() <= 24,
    ensures
        b.clusters_small(),
{
    assert forall|s: Set<Pos>| #[trigger] s.subset_of(b.border())
        && (forall|p: Pos, q: Pos| s.contains(p) && s.contains(q) ==> b.clustered(p, q)) implies s.len() <= 24 by {
        vstd::set_lib::lemma_len_subset(s, b.border());
    }
}

/// Squares connected through the constraints of the board are clustered on it, so small clusters on
/// the board make small clusters of constraints.
pub proof fn lemma_clusters_of_constraints(b: &Board, cs: Seq<Constraint>)
    requires
        forall|i: int| 0 <= i < cs.len() ==> #[trigger] b.from_board(cs[i]),
        squares_of(cs) == b.border(),
        b.clusters_small(),
    ensures
        small_clusters(cs),
{
    assert forall|p: Pos, q: Pos| #[trigger] connected(cs, p, q) implies b.clustered(p, q) by {
        let w = choose|w: Seq<Pos>| w.len() >= 1 && w[0] == p && w.last() == q && #[trigger] chained_by(cs, w);
        assert forall|k: int| 0 <= k < w.len() - 1 implies #[trigger] b.beside_one_number(w[k], w[k + 1]) by {
            assert(shares(cs, w[k], w[k + 1]));
            let i = choose|i: int| 0 <= i < cs.len() && (#[trigger] cs[i]).demand().0.contains(w[k])
                && cs[i].demand().0.contains(w[k + 1]);
            assert(b.from_board(cs[i]));
            let (x, y) = choose|x: int, y: int| #[trigger] b.states(cs[i], x, y);
            assert(b.is_number(x, y));
        }
        assert(b.linked_squares(w));
    }
    assert forall|s: Set<Pos>| #[trigger] s.subset_of(squares_of(cs))
        && (forall|p: Pos, q: Pos| s.contains(p) && s.contains(q) ==> connected(cs, p, q)) implies s.len() <= 24 by {
        assert(s.subset_of(b.border()));
        assert forall|p: Pos, q: Pos| s.contains(p) && s.contains(q) implies b.clustered(p, q) by {
            assert(connected(cs, p, q));
        }
    }
}

/// When the deductions found nothing, no number settles anything on a board that some layout fits.
pub proof fn lemma_unsettled(b: &Board, cs: Seq<Constraint>)
    requires
        forall|i: int| 0 <= i < cs.len() ==> #[trigger] b.from_board(cs[i]),
        forall|x: int, y: int| #[trigger] b.constrains(x, y) ==>
            exists|i: int| 0 <= i < cs.len() && #[trigger] b.states(cs[i], x, y),
        consistent(cs) ==> forall|i: int| 0 <= i < cs.len() ==>
            trivial_spent(#[trigger] cs[i].demand(), Set::empty(), Set::empty()),
        consistent(cs) ==> forall|i: int, j: int| 0 <= i < cs.len() && 0 <= j < cs.len() ==>
            subset_spent(#[trigger] cs[i].demand(), #[trigger] cs[j].demand(), Set::empty(), Set::empty()),
    ensures
        forall|x: int, y: int| #[trigger] b.settles(x, y) ==> !b.solvable(),
        forall|x1: int, y1: int, x2: int, y2: int| #[trigger] b.settles_pair(x1, y1, x2, y2) ==> !b.solvable(),
{
    lemma_constraints_match(b, cs);
    assert forall|d: Demand| #[trigger] reduce(d, Set::empty(), Set::empty()) == d by {
        assert(d.0.difference(Set::empty()).difference(Set::empty()) =~= d.0);
        assert(d.0.difference(Set::empty()).intersect(Set::<Pos>::empty()) =~= Set::empty());
    }
    assert forall|x: int, y: int| #[trigger] b.settles(x, y) implies !b.solvable() by {
        if b.solvable() {
            let m = choose|m: Set<Pos>| #[trigger] b.meets_numbers(m);
            assert(all_hold(m, cs));
            assert(consistent(cs));
            let i = choose|i: int| 0 <= i < cs.len() && #[trigger] b.states(cs[i], x, y);
            let d = cs[i].demand();
            assert(trivial_spent(d, Set::empty(), Set::empty()));
            assert(reduce(d, Set::empty(), Set::empty()) == d);
            assert(d.0.len() > 0);
        }
    }
    assert forall|x1: int, y1: int, x2: int, y2: int| #[trigger] b.settles_pair(x1, y1, x2, y2) implies !b.solvable() by {
        if b.solvable() {
            let m = choose|m: Set<Pos>| #[trigger] b.meets_numbers(m);
            assert(all_hold(m, cs));
            assert(consistent(cs));
            let i = choose|i: int| 0 <= i < cs.len() && #[trigger] b.states(cs[i], x1, y1);
            let j = choose|j: int| 0 <= j < cs.len() && #[trigger] b.states(cs[j], x2, y2);
            let da = cs[i].demand();
            let db = cs[j].demand();
            assert(holds(m, da));
            assert(holds(m, db));
            assert(subset_spent(da, db, Set::empty(), Set::empty()));
            assert(reduce(da, Set::empty(), Set::empty()) == da);
            assert(reduce(db, Set::empty(), Set::empty()) == db);
        }
    }
}

/// What the trivial rule has spent, it has found: a demand that a layout meets and that asks for
/// none of its squares has them all among the squares known safe; one that asks for all of them,
/// among the squares known mined.
pub proof fn lemma_trivial_found(d: Demand, s: Set<Pos>, mn: Set<Pos>, m: Set<Pos>)
    requires
        d.0.finite(),
        s.finite(),
        mn.finite(),
        holds(m, d),
        trivial_spent(d, s, mn),
        s.disjoint(m),
        mn.subset_of(m),
    ensures
        d.1 == 0 ==> d.0.subset_of(s),
        d.1 == d.0.len() ==> d.0.subset_of(mn),
{
    let r = reduce(d, s, mn);
    let rest = d.0.difference(s);
    vstd::set_lib::lemma_len_intersect(d.0, m);
    vstd::set_lib::lemma_len_intersect(rest, mn);
    vstd::set_lib::lemma_len_subset(r.0, d.0);
    if d.1 == 0 && !d.0.subset_of(s) {
        let p = choose|p: Pos| d.0.contains(p) && !s.contains(p);
        vstd::set_lib::lemma_set_empty_equivalency_len(d.0.intersect(m));
        assert(!d.0.intersect(m).contains(p));
        assert(r.0.contains(p));
        vstd::set_lib::lemma_set_empty_equivalency_len(r.0);
        assert(rest.intersect(mn).subset_of(d.0.intersect(m)));
        vstd::set_lib::lemma_len_subset(rest.intersect(mn), d.0.intersect(m));
        assert(r.1 == 0);
        assert(false);
    }
    if d.1 == d.0.len() && !d.0.subset_of(mn) {
        let p = choose|p: Pos| d.0.contains(p) && !mn.contains(p);
        vstd::set_lib::lemma_subset_equality(d.0.intersect(m), d.0);
        assert(d.0.subset_of(m));
        assert(rest =~= d.0);
        assert(r.0.contains(p));
        vstd::set_lib::lemma_set_empty_equivalency_len(r.0);
        vstd::set_lib::lemma_set_difference_len(d.0, mn);
        assert(r.0 =~= d.0.difference(mn));
        assert(r.1 == r.0.len());
        assert(false);
    }
}

/// What subset elimination has spent, it has found: where the squares of `a` lie among those of
/// `b` and a layout meets both, the squares of `b` outside `a` are all known safe when `b` asks
/// for no more mines than `a`, and all known mined when it asks for one more per square.
pub proof fn lemma_subset_found(a: Demand, b: Demand, s: Set<Pos>, mn: Set<Pos>, m: Set<Pos>)
    requires
        b.0.finite(),
        s.finite(),
        mn.finite(),
        holds(m, a),
        holds(m, b),
        a.0.subset_of(b.0),
        trivial_spent(b, s, mn),
        subset_spent(a, b, s, mn),
        s.disjoint(m),
        mn.subset_of(m),
    ensures
        b.1 - a.1 == 0 ==> b.0.difference(a.0).subset_of(s),
        b.1 - a.1 == b.0.difference(a.0).len() ==> b.0.difference(a.0).subset_of(mn),
{
    broadcast use vstd::set_lib::group_set_properties;
    let ra = reduce(a, s, mn);
    let rb = reduce(b, s, mn);
    let d = b.0.difference(a.0);
    let e = rb.0.difference(ra.0);
    vstd::set_lib::lemma_set_subset_finite(b.0, a.0);
    lemma_holds_reduce(m, a, s, mn);
    lemma_holds_reduce(m, b, s, mn);
    assert(ra.0.subset_of(rb.0));
    lemma_holds_diff(m, ra, rb);
    lemma_holds_diff(m, a, b);
    assert(e.subset_of(d));
    vstd::set_lib::lemma_set_difference_len(rb.0, ra.0);
    assert(rb.0.intersect(ra.0) =~= ra.0);
    vstd::set_lib::lemma_len_intersect(ra.0, m);
    if b.1 - a.1 == 0 && !d.subset_of(s) {
        let p = choose|p: Pos| d.contains(p) && !s.contains(p);
        vstd::set_lib::lemma_set_empty_equivalency_len(d.intersect(m));
        assert(!d.intersect(m).contains(p));
        assert(e.contains(p));
        assert(e.intersect(m).subset_of(d.intersect(m)));
        vstd::set_lib::lemma_len_subset(e.intersect(m), d.intersect(m));
        vstd::set_lib::lemma_set_empty_equivalency_len(e);
        vstd::set_lib::lemma_set_empty_equivalency_len(ra.0);
        if ra.0.len() == 0 {
            vstd::set_lib::lemma_set_empty_equivalency_len(ra.0.intersect(m));
        }
        assert(false);
    }
    if b.1 - a.1 == d.len() && !d.subset_of(mn) {
        let p = choose|p: Pos| d.contains(p) && !mn.contains(p);
        vstd::set_lib::lemma_subset_equality(d.intersect(m), d);
        assert(d.subset_of(m));
        assert(e.contains(p));
        assert(e.intersect(m) =~= e);
        vstd::set_lib::lemma_set_empty_equivalency_len(e);
        if ra.0.len() == 0 {
            vstd::set_lib::lemma_set_empty_equivalency_len(ra.0);
            vstd::set_lib::lemma_set_empty_equivalency_len(ra.0.intersect(m));
            assert(e =~= rb.0);
        }
        assert(false);
    }
}

/// The moves made of the squares found safe (`safe`) and mined (`mine`), flags first, hold every
/// move that a settling number, or a settling pair of numbers, forces on a board some layout fits.
proof fn lemma_found_moves(board: &Board, cs: Seq<Constraint>, safe: Seq<Pos>, mine: Seq<Pos>, acts: Seq<Action>)
    requires
        forall|i: int| 0 <= i < cs.len() ==> #[trigger] board.from_board(cs[i]),
        forall|x: int, y: int| #[trigger] board.constrains(x, y) ==>
            exists|i: int| 0 <= i < cs.len() && #[trigger] board.states(cs[i], x, y),
        forall|m: Set<Pos>| #[trigger] all_hold(m, cs) ==> positions(safe).disjoint(m) && positions(mine).subset_of(m),
        consistent(cs) ==> forall|i: int| 0 <= i < cs.len() ==>
            trivial_spent(#[trigger] cs[i].demand(), positions(safe), positions(mine)),
        consistent(cs) ==> forall|i: int, j: int| 0 <= i < cs.len() && 0 <= j < cs.len() ==>
            subset_spent(#[trigger] cs[i].demand(), #[trigger] cs[j].demand(), positions(safe), positions(mine)),
        acts.len() == mine.len() + safe.len(),
        forall|k: int| 0 <= k < mine.len() ==> acts[k] == (Action::Flag { x: (#[trigger] mine[k]).0, y: mine[k].1 }),
        forall|k: int| 0 <= k < safe.len() ==> acts[mine.len() + k] == (Action::Reveal { x: (#[trigger] safe[k]).0, y: safe[k].1 }),
    ensures
        board.solvable() ==> forall|x: int, y: int, p: Pos| #[trigger] board.settles(x, y) && board.unknown_around(x, y).contains(p)
            ==> acts.contains(#[trigger] board.forced_move(x, y, p)),
        board.solvable() ==> forall|x1: int, y1: int, x2: int, y2: int, p: Pos| #[trigger] board.settles_pair(x1, y1, x2, y2)
            && board.unknown_around(x2, y2).difference(board.unknown_around(x1, y1)).contains(p)
            ==> acts.contains(#[trigger] board.pair_move(x1, y1, x2, y2, p)),
{
    lemma_constraints_match(board, cs);
    assert forall|x: int, y: int, p: Pos| #[trigger] board.settles(x, y) && board.unknown_around(x, y).contains(p)
        && board.solvable() implies acts.contains(#[trigger] board.forced_move(x, y, p)) by {
        let m = choose|m: Set<Pos>| #[trigger] board.meets_numbers(m);
        assert(all_hold(m, cs));
        assert(consistent(cs));
        let i = choose|i: int| 0 <= i < cs.len() && #[trigger] board.states(cs[i], x, y);
        let d = cs[i].demand();
        assert(holds(m, d));
        assert(trivial_spent(d, positions(safe), positions(mine)));
        lemma_trivial_found(d, positions(safe), positions(mine), m);
        if board.number_demand(x, y).1 == 0 {
            assert(positions(safe).contains(p));
            let k = choose|k: int| 0 <= k < safe.len() && safe[k] == p;
            assert(acts[mine.len() + k] == board.forced_move(x, y, p));
        } else {
            assert(positions(mine).contains(p));
            let k = choose|k: int| 0 <= k < mine.len() && mine[k] == p;
            assert(acts[k] == board.forced_move(x, y, p));
        }
    }
    assert forall|x1: int, y1: int, x2: int, y2: int, p: Pos| #[trigger] board.settles_pair(x1, y1, x2, y2)
        && board.unknown_around(x2, y2).difference(board.unknown_around(x1, y1)).contains(p)
        && board.solvable() implies acts.contains(#[trigger] board.pair_move(x1, y1, x2, y2, p)) by {
        let m = choose|m: Set<Pos>| #[trigger] board.meets_numbers(m);
        assert(all_hold(m, cs));
        assert(consistent(cs));
        let i = choose|i: int| 0 <= i < cs.len() && #[trigger] board.states(cs[i], x1, y1);
        let j = choose|j: int| 0 <= j < cs.len() && #[trigger] board.states(cs[j], x2, y2);
        let da = cs[i].demand();
        let db = cs[j].demand();
        assert(holds(m, da));
        assert(holds(m, db));
        assert(trivial_spent(db, positions(safe), positions(mine)));
        assert(subset_spent(da, db, positions(safe), positions(mine)));
        lemma_subset_found(da, db, positions(safe), positions(mine), m);
        if board.number_demand(x2, y2).1 - board.number_demand(x1, y1).1 == 0 {
            assert(positions(safe).contains(p));
            let k = choose|k: int| 0 <= k < safe.len() && safe[k] == p;
            assert(acts[mine.len() + k] == board.pair_move(x1, y1, x2, y2, p));
        } else {
            assert(positions(mine).contains(p));
            let k = choose|k: int| 0 <= k < mine.len() && mine[k] == p;
            assert(acts[k] == board.pair_move(x1, y1, x2, y2, p));
        }
    }
}

/// Where the count of layouts settles some square, complete estimates call some square certain.
proof fn lemma_count_decides(board: &Board, cs: Seq<Constraint>, unknowns: Seq<Pos>, ests: Seq<Estimate>)
    requires
        unknowns.no_duplicates(),
        unknowns.to_set() == board.unknown_squares(),
        forall|m: Set<Pos>| #[trigger] board.meets_numbers(m) <==> all_hold(m, cs),
        board.clusters_small() ==> small_clusters(cs),
        small_clusters(cs) && (exists|m: Set<Pos>| #[trigger] possible_layout(board, cs, unknowns.to_set(), m))
            && unknowns.len() < usize::MAX ==> forall|p: Pos| #[trigger] unknowns.contains(p) ==> has_cell(ests, p),
        small_clusters(cs) && (exists|m: Set<Pos>| #[trigger] possible_layout(board, cs, unknowns.to_set(), m)) ==>
            forall|e: int| 0 <= e < ests.len() ==> complete_for(#[trigger] ests[e], board, cs, unknowns.to_set()),
    ensures
        board.decided_by_count() ==> exists|e: int| 0 <= e < ests.len() && ((#[trigger] ests[e]).certain_safe || ests[e].certain_mine),
{
    if board.decided_by_count() {
        assert forall|m: Set<Pos>| #[trigger] board.possible(m) implies possible_layout(board, cs, unknowns.to_set(), m) by {
            assert(all_hold(m, cs));
        }
        assert forall|m: Set<Pos>| #[trigger] possible_layout(board, cs, unknowns.to_set(), m) implies board.possible(m) by {
            assert(board.meets_numbers(m));
        }
        let m0 = choose|m: Set<Pos>| #[trigger] board.possible(m);
        assert(possible_layout(board, cs, unknowns.to_set(), m0));
        lemma_card(unknowns);
        let a = choose|a: Action| board.unknown_squares().contains(target(a)) && #[trigger] board.right_by_count(a);
        let p = target(a);
        assert(unknowns.to_set().contains(p));
        assert(unknowns.contains(p));
        assert(has_cell(ests, p));
        let e = choose|e: int| 0 <= e < ests.len() && (#[trigger] ests[e]).cell == p;
        assert(complete_for(ests[e], board, cs, unknowns.to_set()));
        match a {
            Action::Reveal { x, y } => {
                if !ests[e].certain_safe {
                    let m = choose|m: Set<Pos>| #[trigger] possible_layout(board, cs, unknowns.to_set(), m) && m.contains(ests[e].cell);
                    assert(board.possible(m));
                }
            },
            Action::Flag { x, y } => {
                if !ests[e].certain_mine {
                    let m = choose|m: Set<Pos>| #[trigger] possible_layout(board, cs, unknowns.to_set(), m) && !m.contains(ests[e].cell);
                    assert(board.possible(m));
                }
            },
        }
        assert(ests[e].certain_safe || ests[e].certain_mine);
    }
}

/// The next moves for the board.
///
/// With no unknown square left there is nothing to do. On a board without any number the first
/// move opens the corner `(0, 0)`. Otherwise the moves that the numbers force by the trivial rule
/// and subset elimination come first (flags, then reveals); failing those, the moves that the
/// count of layouts makes certain; failing those, a single reveal of the square least likely to
/// hold a mine.
pub fn next_actions(board: &Board) -> (r: Vec<Action>)
    requires
        board.wf(),
    ensures
        r@.len() == 0 <==> !board.has_unknown(),
        board.has_unknown() && !board.has_number() ==> r@ == seq![Action::Reveal { x: 0, y: 0 }],
        board.has_number() ==> forall|i: int| 0 <= i < r@.len() ==> board.unknown_squares().contains(target(#[trigger] r@[i])),
        forall|x: int, y: int| #[trigger] board.settles(x, y) ==>
            forall|i: int| 0 <= i < r@.len() ==> board.surely_right(#[trigger] r@[i]),
        forall|x1: int, y1: int, x2: int, y2: int| #[trigger] board.settles_pair(x1, y1, x2, y2) ==>
            forall|i: int| 0 <= i < r@.len() ==> board.surely_right(#[trigger] r@[i]),
        board.clusters_small() ==> is_guess(r@) || forall|i: int| 0 <= i < r@.len() ==> board.right_by_count(#[trigger] r@[i]),
        board.decided_by_count() ==> forall|i: int| 0 <= i < r@.len() ==> board.right_by_count(#[trigger] r@[i]),
        r@.no_duplicates(),
        board.solvable() ==> forall|a: int, b: int| 0 <= a < b < r@.len() ==> target(#[trigger] r@[a]) != target(#[trigger] r@[b]),
        board.solvable() ==> forall|x: int, y: int, p: Pos| #[trigger] board.settles(x, y) && board.unknown_around(x, y).contains(p)
            ==> r@.contains(#[trigger] board.forced_move(x, y, p)),
        board.solvable() ==> forall|x1: int, y1: int, x2: int, y2: int, p: Pos| #[trigger] board.settles_pair(x1, y1, x2, y2)
            && board.unknown_around(x2, y2).difference(board.unknown_around(x1, y1)).contains(p)
            ==> r@.contains(#[trigger] board.pair_move(x1, y1, x2, y2, p)),
{
    let unknowns = board.unknown_cells();
    proof {
        assert(unknowns@.to_set() =~= board.unknown_squares());
    }
    if unknowns.len() == 0 {
        proof {
            assert forall|p: Pos| !#[trigger] board.unknown_squares().contains(p) by {
                assert(!unknowns@.contains(p));
            }
            assert forall|x: int, y: int, p: Pos| !(#[trigger] board.settles(x, y) && #[trigger] board.unknown_around(x, y).contains(p)) by {
                if board.unknown_around(x, y).contains(p) {
                    assert(board.unknown_squares().contains(p));
                }
            }
            assert forall|x1: int, y1: int, x2: int, y2: int, p: Pos| !(#[trigger] board.settles_pair(x1, y1, x2, y2)
                && #[trigger] board.unknown_around(x2, y2).difference(board.unknown_around(x1, y1)).contains(p)) by {
                if board.unknown_around(x2, y2).contains(p) {
                    assert(board.unknown_squares().contains(p));
                }
            }
        }
        return Vec::new();
    }
    proof {
        assert(unknowns@.contains(unknowns@[0]));
        assert(board.unknown_squares().contains(unknowns@[0]));
    }
    if !board.any_number() {
        return vec![Action::Reveal { x: 0, y: 0 }];
    }
    let cs = board.collect_constraints();
    proof {
        lemma_constraints_match(board, cs@);
        lemma_squares_of(cs@);
        assert forall|k: int| 0 <= k < cs@.len() implies (#[trigger] cs@[k]).wf() by {
            assert(board.from_board(cs@[k]));
        }
    }
    let (safe, mine) = inference(&cs);
    if safe.len() > 0 || mine.len() > 0 {
        let mut acts: Vec<Action> = Vec::new();
        let mut i: usize = 0;
        while i < mine.len()
            invariant
                0 <= i <= mine@.len(),
                acts@.len() == i,
                forall|m: Set<Pos>| #[trigger] board.meets_numbers(m) <==> all_hold(m, cs@),
                squares_of(cs@) == board.border(),
                positions(mine@).subset_of(squares_of(cs@)),
                forall|m: Set<Pos>| #[trigger] all_hold(m, cs@) ==> positions(mine@).subset_of(m),
                forall|k: int| 0 <= k < acts@.len() ==> board.surely_right(#[trigger] acts@[k])
                    && board.unknown_squares().contains(target(acts@[k])),
                forall|k: int| 0 <= k < i ==> acts@[k] == (Action::Flag { x: (#[trigger] mine@[k]).0, y: mine@[k].1 }),
            decreases mine@.len() - i,
        {
            let c = mine[i];
            proof {
                assert(positions(mine@).contains(c));
            }
            acts.push(Action::Flag { x: c.0, y: c.1 });
            i += 1;
        }
        let mut i: usize = 0;
        while i < safe.len()
            invariant
                0 <= i <= safe@.len(),
                acts@.len() == mine@.len() + i,
                forall|m: Set<Pos>| #[trigger] board.meets_numbers(m) <==> all_hold(m, cs@),
                squares_of(cs@) == board.border(),
                positions(safe@).subset_of(squares_of(cs@)),
                forall|m: Set<Pos>| #[trigger] all_hold(m, cs@) ==> positions(safe@).disjoint(m),
                forall|k: int| 0 <= k < acts@.len() ==> board.surely_right(#[trigger] acts@[k])
                    && board.unknown_squares().contains(target(acts@[k])),
                forall|k: int| 0 <= k < mine@.len() ==> acts@[k] == (Action::Flag { x: (#[trigger] mine@[k]).0, y: mine@[k].1 }),
                forall|k: int| 0 <= k < i ==> acts@[mine@.len() + k] == (Action::Reveal { x: (#[trigger] safe@[k]).0, y: safe@[k].1 }),
            decreases safe@.len() - i,
        {
            let c = safe[i];
            proof {
                assert(positions(safe@).contains(c));
            }
            acts.push(Action::Reveal { x: c.0, y: c.1 });
            i += 1;
        }
        proof {
            assert forall|k: int| 0 <= k < acts@.len() implies board.right_by_count(#[trigger] acts@[k]) by {
                assert(board.surely_right(acts@[k]));
            }
            lemma_found_moves(board, cs@, safe@, mine@, acts@);
            assert forall|a: int, b: int| 0 <= a < b < acts@.len() implies acts@[a] != acts@[b] by {
                if b < mine@.len() {
                    assert(mine@[a] != mine@[b]);
                    assert(acts@[a] == (Action::Flag { x: mine@[a].0, y: mine@[a].1 }));
                    assert(acts@[b] == (Action::Flag { x: mine@[b].0, y: mine@[b].1 }));
                } else if a >= mine@.len() {
                    assert(safe@[a - mine@.len()] != safe@[b - mine@.len()]);
                    assert(acts@[mine@.len() + (a - mine@.len())] == (Action::Reveal { x: safe@[a - mine@.len()].0, y: safe@[a - mine@.len()].1 }));
                    assert(acts@[mine@.len() + (b - mine@.len())] == (Action::Reveal { x: safe@[b - mine@.len()].0, y: safe@[b - mine@.len()].1 }));
                } else {
                    assert(acts@[a] == (Action::Flag { x: mine@[a].0, y: mine@[a].1 }));
                    assert(acts@[mine@.len() + (b - mine@.len())] == (Action::Reveal { x: safe@[b - mine@.len()].0, y: safe@[b - mine@.len()].1 }));
                }
            }
            assert forall|a: int, b: int| 0 <= a < b < acts@.len() && board.solvable() implies
                target(#[trigger] acts@[a]) != target(#[trigger] acts@[b]) by {
                if b < mine@.len() {
                    assert(mine@[a] != mine@[b]);
                } else if a >= mine@.len() {
                    assert(safe@[a - mine@.len()] != safe@[b - mine@.len()]);
                    assert(acts@[b] == (Action::Reveal { x: safe@[b - mine@.len()].0, y: safe@[b - mine@.len()].1 }));
                } else {
                    let m = choose|m: Set<Pos>| #[trigger] board.meets_numbers(m);
                    assert(all_hold(m, cs@));
                    assert(positions(mine@).contains(mine@[a]));
                    assert(positions(safe@).contains(safe@[b - mine@.len()]));
                    assert(acts@[b] == (Action::Reveal { x: safe@[b - mine@.len()].0, y: safe@[b - mine@.len()].1 }));
                }
            }
        }
        return acts;
    }
    proof {
        assert(positions(safe@) =~= Set::empty());
        assert(positions(mine@) =~= Set::empty());
        lemma_unsettled(board, cs@);
    }
    proof {
        if board.clusters_small() {
            assert forall|k: int| 0 <= k < cs@.len() implies #[trigger] board.from_board(cs@[k]) by {}
            lemma_clusters_of_constraints(board, cs@);
        }
    }
    let ests = mine_probabilities(board, &cs, &unknowns);
    proof {
        lemma_count_decides(board, cs@, unknowns@, ests@);
    }
    if ests.len() == 0 {
        let c = unknowns[0];
        return vec![Action::Reveal { x: c.0, y: c.1 }];
    }
    let mut forced: Vec<Action> = Vec::new();
    let mut i: usize = 0;
    while i < ests.len()
        invariant
            0 <= i <= ests@.len(),
            unknowns@.to_set() == board.unknown_squares(),
            forall|m: Set<Pos>| #[trigger] board.meets_numbers(m) <==> all_hold(m, cs@),
            squares_of(cs@) == board.border(),
            forall|e: int| 0 <= e < ests@.len() ==> unknowns@.contains((#[trigger] ests@[e]).cell) && ests@[e].total > 0,
            forall|e: int| 0 <= e < ests@.len() ==> sound_for(#[trigger] ests@[e], board, cs@, unknowns@.to_set()),
            forall|k: int| 0 <= k < forced@.len() ==> board.unknown_squares().contains(target(#[trigger] forced@[k])),
            board.clusters_small() ==> forall|k: int| 0 <= k < forced@.len() ==> board.right_by_count(#[trigger] forced@[k]),
            board.clusters_small() ==> small_clusters(cs@),
            forced@.len() == 0 ==> forall|e: int| 0 <= e < i ==> !(#[trigger] ests@[e]).certain_safe && !ests@[e].certain_mine,
            distinct_cells(ests@),
            forall|k: int| 0 <= k < forced@.len() ==> exists|e: int| 0 <= e < i && (#[trigger] ests@[e]).cell == target(#[trigger] forced@[k]),
            forall|a: int, b: int| 0 <= a < b < forced@.len() ==> target(#[trigger] forced@[a]) != target(#[trigger] forced@[b]),
        decreases ests@.len() - i,
    {
        let e = &ests[i];
        proof {
            assert(unknowns@.to_set().contains(e.cell));
            assert forall|m: Set<Pos>| #[trigger] board.possible(m) && board.clusters_small() implies agrees(*e, m) by {
                assert(possible_layout(board, cs@, unknowns@.to_set(), m));
            }
        }
        let ghost before = forced@;
        proof {
            assert forall|k: int| 0 <= k < before.len() implies target(#[trigger] before[k]) != e.cell by {
                let ee = choose|ee: int| 0 <= ee < i && (#[trigger] ests@[ee]).cell == target(before[k]);
            }
        }
        if e.certain_safe {
            forced.push(Action::Reveal { x: e.cell.0, y: e.cell.1 });
        } else if e.certain_mine {
            forced.push(Action::Flag { x: e.cell.0, y: e.cell.1 });
        }
        proof {
            assert forall|k: int| 0 <= k < forced@.len() implies exists|ee: int| 0 <= ee < i + 1
                && (#[trigger] ests@[ee]).cell == target(#[trigger] forced@[k]) by {
                if k < before.len() {
                    assert(forced@[k] == before[k]);
                    let ee = choose|ee: int| 0 <= ee < i && (#[trigger] ests@[ee]).cell == target(before[k]);
                } else {
                    assert(target(forced@[k]) == ests@[i as int].cell);
                }
            }
            assert forall|a: int, b: int| 0 <= a < b < forced@.len() implies target(#[trigger] forced@[a]) != target(#[trigger] forced@[b]) by {
                if b < before.len() {
                    assert(forced@[a] == before[a] && forced@[b] == before[b]);
                } else {
                    assert(forced@[a] == before[a]);
                }
            }
        }
        i += 1;
    }
    if forced.len() > 0 {
        proof {
            assert forall|a: int, b: int| 0 <= a < b < forced@.len() implies forced@[a] != forced@[b] by {
                assert(target(forced@[a]) != target(forced@[b]));
            }
        }
        return forced;
    }
    match least_guess(&ests) {
        Some(j) => {
            let c = ests[j].cell;
            proof {
                assert(unknowns@.contains(ests@[j as int].cell));
            }
            vec![Action::Reveal { x: c.0, y: c.1 }]
        },
        None => {
            proof {
                assert(!ests@[0].certain_safe && !ests@[0].certain_mine);
            }
            Vec::new()
        },
    }
}

} // verus!
