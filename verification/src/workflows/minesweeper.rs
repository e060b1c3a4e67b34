//! The decisions of playing minesweeper rounds: how the quota is spread over the difficulties, how
//! the server's answers update the board, and which move a round makes next.
use vstd::prelude::*;

use crate::model::minesweeper::{MinesweeperClickDelta, MinesweeperFlagDelta, MINESWEEPER_DIFFICULTY_BEGINNER,
    MINESWEEPER_DIFFICULTY_INTERMEDIATE, MINESWEEPER_DIFFICULTY_EXPERT};
use crate::solver::minesweeper::{is_guess, Action, Board, Cell, next_actions, target};

verus! {

/// The grid with `c` written at `(x, y)`, where the grid has that square.
pub open spec fn write(g: Seq<Seq<Cell>>, x: int, y: int, c: Cell) -> Seq<Seq<Cell>> {
    if 0 <= y < g.len() && 0 <= x < g[y].len() {
        g.update(y, g[y].update(x, c))
    } else {
        g
    }
}

/// The grid with the flag at `(x, y)` taken off, where there is one.
pub open spec fn unflag(g: Seq<Seq<Cell>>, x: int, y: int) -> Seq<Seq<Cell>> {
    if 0 <= y < g.len() && 0 <= x < g[y].len() && g[y][x] == Cell::Flag {
        g.update(y, g[y].update(x, Cell::Unknown))
    } else {
        g
    }
}

/// A revealed number as the board keeps it: between 0 and 8.
pub open spec fn clamp8(v: i32) -> u8 {
    if v < 0 {
        0
    } else if v > 8 {
        8
    } else {
        v as u8
    }
}

/// The grid after each revealed square `[x, y, n]`, in order, shows its number.
pub open spec fn reveal_all(g: Seq<Seq<Cell>>, cells: Seq<[i32; 3]>) -> Seq<Seq<Cell>>
    decreases cells.len(),
{
    if cells.len() == 0 {
        g
    } else {
        let c = cells.last();
        write(reveal_all(g, cells.drop_last()), c[0] as int, c[1] as int, Cell::Number(clamp8(c[2])))
    }
}

/// The grid after each flag change, in order: flagged squares get a flag, unflagged ones lose theirs.
pub open spec fn reflag_all(g: Seq<Seq<Cell>>, fl: Seq<MinesweeperFlagDelta>) -> Seq<Seq<Cell>>
    decreases fl.len(),
{
    if fl.len() == 0 {
        g
    } else {
        let f = fl.last();
        let before = reflag_all(g, fl.drop_last());
        if f.2 {
            write(before, f.0 as int, f.1 as int, Cell::Flag)
        } else {
            unflag(before, f.0 as int, f.1 as int)
        }
    }
}

/// `b` after its grid became `g`: the same size and mine count.
pub open spec fn same_board(b: &Board, a: &Board) -> bool {
    b.rows == a.rows && b.cols == a.cols && b.mine_count == a.mine_count
}

/// Shows each revealed square `[x, y, n]` of `cells` on the board, the number kept between 0 and 8.
pub fn apply_revealed(board: &mut Board, cells: &Vec<[i32; 3]>)
    ensures
        same_board(final(board), old(board)),
        final(board).cells() == reveal_all(old(board).cells(), cells@),
{
    let mut i: usize = 0;
    while i < cells.len()
        invariant
            0 <= i <= cells@.len(),
            same_board(board, old(board)),
            board.cells() == reveal_all(old(board).cells(), cells@.take(i as int)),
        decreases cells@.len() - i,
    {
        let cell = cells[i];
        let x = cell[0];
        let y = cell[1];
        let v = cell[2];
        let n: u8 = if v < 0 { 0 } else if v > 8 { 8 } else { v as u8 };
        board.set_number(x, y, n);
        proof {
            assert(cells@.take(i + 1).drop_last() == cells@.take(i as int));
            assert(cells@.take(i + 1).last() == cell);
        }
        i += 1;
    }
    proof {
        assert(cells@.take(i as int) == cells@);
    }
}

/// Flags every square that `flagged[y][x]` marks.
pub fn apply_flagged_grid(board: &mut Board, flagged: &Vec<Vec<bool>>)
    requires
        flagged@.len() <= i32::MAX,
        forall|y: int| 0 <= y < flagged@.len() ==> (#[trigger] flagged@[y])@.len() <= i32::MAX,
    ensures
        same_board(final(board), old(board)),
        final(board).cells().len() == old(board).cells().len(),
        forall|y: int| 0 <= y < old(board).cells().len() ==> (#[trigger] final(board).cells()[y]).len() == old(board).cells()[y].len(),
        forall|x: int, y: int| 0 <= y < old(board).cells().len() && 0 <= x < old(board).cells()[y].len() ==>
            #[trigger] final(board).cells()[y][x] == if marked(flagged@, x, y) { Cell::Flag } else { old(board).cells()[y][x] },
{
    let ghost g0 = board.cells();
    let mut y: usize = 0;
    while y < flagged.len()
        invariant
            0 <= y <= flagged@.len(),
            flagged@.len() <= i32::MAX,
            forall|yy: int| 0 <= yy < flagged@.len() ==> (#[trigger] flagged@[yy])@.len() <= i32::MAX,
            same_board(board, old(board)),
            g0 == old(board).cells(),
            board.cells().len() == g0.len(),
            forall|yy: int| 0 <= yy < g0.len() ==> (#[trigger] board.cells()[yy]).len() == g0[yy].len(),
            forall|xx: int, yy: int| 0 <= yy < g0.len() && 0 <= xx < g0[yy].len() ==>
                #[trigger] board.cells()[yy][xx] == if yy < y && marked(flagged@, xx, yy) { Cell::Flag } else { g0[yy][xx] },
        decreases flagged@.len() - y,
    {
        let row = &flagged[y];
        let mut x: usize = 0;
        while x < row.len()
            invariant
                0 <= y < flagged@.len(),
                flagged@.len() <= i32::MAX,
                row == &flagged@[y as int],
                row@.len() <= i32::MAX,
                0 <= x <= row@.len(),
                same_board(board, old(board)),
                g0 == old(board).cells(),
                board.cells().len() == g0.len(),
                forall|yy: int| 0 <= yy < g0.len() ==> (#[trigger] board.cells()[yy]).len() == g0[yy].len(),
                forall|xx: int, yy: int| 0 <= yy < g0.len() && 0 <= xx < g0[yy].len() ==>
                    #[trigger] board.cells()[yy][xx] == if (yy < y && marked(flagged@, xx, yy))
                        || (yy == y && xx < x && marked(flagged@, xx, yy)) { Cell::Flag } else { g0[yy][xx] },
            decreases row@.len() - x,
        {
            let ghost prev = board.cells();
            if row[x] {
                let xi = x as i32;
                let yi = y as i32;
                assert(xi as int == x as int && yi as int == y as int);
                board.set_flag(xi, yi);
                proof {
                    if y < g0.len() && x < g0[y as int].len() {
                        assert(prev.len() == g0.len());
                        assert(prev[y as int].len() == g0[y as int].len());
                        assert(board.cells() == prev.update(y as int, prev[y as int].update(x as int, Cell::Flag)));
                    } else {
                        assert(board.cells() == prev);
                    }
                }
            }
            proof {
                assert(marked(flagged@, x as int, y as int) == row@[x as int]);
                assert forall|xx: int, yy: int| 0 <= yy < g0.len() && 0 <= xx < g0[yy].len() implies
                    #[trigger] board.cells()[yy][xx] == if (yy < y && marked(flagged@, xx, yy))
                        || (yy == y && xx < x + 1 && marked(flagged@, xx, yy)) { Cell::Flag } else { g0[yy][xx] } by {
                    assert(prev[yy].len() == g0[yy].len());
                    if !(yy == y && xx == x) {
                        if row@[x as int] {
                            assert(board.cells()[yy][xx] == prev[yy][xx]);
                        }
                    }
                }
            }
            x += 1;
        }
        y += 1;
    }
}

/// `flagged[y][x]` is there and true.
pub open spec fn marked(flagged: Seq<Vec<bool>>, x: int, y: int) -> bool {
    0 <= y < flagged.len() && 0 <= x < flagged[y]@.len() && flagged[y]@[x]
}

/// Updates the board from the answer to a click: the squares the click revealed, the flags it
/// changed, then every number the round shows.
pub fn apply_click_response(board: &mut Board, delta: &MinesweeperClickDelta, revealed_numbers: &Vec<[i32; 3]>)
    ensures
        same_board(final(board), old(board)),
        final(board).cells() == reveal_all(
            reflag_all(reveal_all(old(board).cells(), delta.revealed_cells@), delta.flagged_cells@),
            revealed_numbers@,
        ),
{
    apply_revealed(board, &delta.revealed_cells);
    let ghost mid = board.cells();
    let mut i: usize = 0;
    while i < delta.flagged_cells.len()
        invariant
            0 <= i <= delta.flagged_cells@.len(),
            same_board(board, old(board)),
            board.cells() == reflag_all(mid, delta.flagged_cells@.take(i as int)),
        decreases delta.flagged_cells@.len() - i,
    {
        let cell = &delta.flagged_cells[i];
        if cell.2 {
            board.set_flag(cell.0, cell.1);
        } else {
            board.set_unknown(cell.0, cell.1);
        }
        proof {
            assert(delta.flagged_cells@.take(i + 1).drop_last() == delta.flagged_cells@.take(i as int));
            assert(delta.flagged_cells@.take(i + 1).last() == *cell);
        }
        i += 1;
    }
    proof {
        assert(delta.flagged_cells@.take(i as int) == delta.flagged_cells@);
    }
    apply_revealed(board, revealed_numbers);
}

/// How a day's quota of rounds is spread: 70% beginner, 20% intermediate, and what is left of
/// 90% (at least 10%) expert, in that order.
pub fn plan_budgets(total_budget: usize) -> (plan: Vec<(&'static str, usize)>)
    requires
        total_budget <= i32::MAX,
    ensures
        plan@.len() == 3,
        plan@[0].0@ == MINESWEEPER_DIFFICULTY_BEGINNER@,
        plan@[1].0@ == MINESWEEPER_DIFFICULTY_INTERMEDIATE@,
        plan@[2].0@ == MINESWEEPER_DIFFICULTY_EXPERT@,
        plan@[0].1 == total_budget * 70 / 100,
        plan@[1].1 == total_budget * 20 / 100,
        plan@[2].1 == total_budget - total_budget * 90 / 100,
{
    let t = total_budget as u64;
    let beginner = (t * 70 / 100) as usize;
    let intermediate = (t * 20 / 100) as usize;
    let expert = (t - t * 90 / 100) as usize;
    let mut plan: Vec<(&'static str, usize)> = Vec::new();
    plan.push((MINESWEEPER_DIFFICULTY_BEGINNER, beginner));
    plan.push((MINESWEEPER_DIFFICULTY_INTERMEDIATE, intermediate));
    plan.push((MINESWEEPER_DIFFICULTY_EXPERT, expert));
    plan
}

/// The plan never asks for more rounds than the quota.
pub proof fn lemma_plan_within_quota(total_budget: int)
    requires
        total_budget >= 0,
    ensures
        total_budget * 70 / 100 + total_budget * 20 / 100 + (total_budget - total_budget * 90 / 100) <= total_budget,
        total_budget - total_budget * 90 / 100 >= 0,
{
    assert(total_budget * 70 / 100 + total_budget * 20 / 100 <= total_budget * 90 / 100) by (nonlinear_arith)
        requires total_budget >= 0;
    assert(total_budget * 90 / 100 <= total_budget) by (nonlinear_arith)
        requires total_budget >= 0;
}

/// How a round stands, as the server says.
#[derive(Debug, Clone, Copy, PartialEq, Eq, Structural)]
pub enum Resolution {
    /// Still being played ("pending", or nothing said yet).
    Pending,
    Won,
    Lost,
    /// Over in some other way.
    Other,
}

/// Reads the server's word for how a round stands.
pub fn resolution_of(s: &String) -> (r: Resolution)
    ensures
        (r == Resolution::Pending) == (s@ == "pending"@ || s@.len() == 0),
        (r == Resolution::Won) == (s@ == "won"@),
        (r == Resolution::Lost) == (s@ == "lost"@),
{
    proof {
        reveal_strlit("pending");
        reveal_strlit("won");
        reveal_strlit("lost");
    }
    if s.as_str().is_empty() || *s == "pending".to_owned() {
        Resolution::Pending
    } else if *s == "won".to_owned() {
        Resolution::Won
    } else if *s == "lost".to_owned() {
        Resolution::Lost
    } else {
        Resolution::Other
    }
}

/// What a round does next.
#[derive(Debug, Clone, Copy, PartialEq, Eq, Structural)]
pub enum Step {
    /// Reveal the square at column `x`, row `y`.
    Reveal { x: i32, y: i32 },
    /// Give the round up.
    Abandon,
    /// The round is over; `won` says how it ended.
    Finish { won: bool },
    /// Only flags were placed; ask for the next step again.
    Flagged,
}

/// A round in play: what the player knows of the board and how many clicks it has sent.
pub struct Round {
    pub board: Board,
    pub clicks: usize,
    pub max_clicks: usize,
}

/// The square of the round's first click: the middle of the board.
pub fn first_click(rows: i32, cols: i32) -> (p: (i32, i32))
    requires
        rows >= 0,
        cols >= 0,
    ensures
        p.0 == cols / 2 && p.1 == rows / 2,
{
    (cols / 2, rows / 2)
}

/// Unknown squares of a grid.
pub open spec fn row_unknowns(r: Seq<Cell>) -> nat
    decreases r.len(),
{
    if r.len() == 0 {
        0
    } else {
        row_unknowns(r.drop_last()) + if r.last() == Cell::Unknown { 1nat } else { 0nat }
    }
}

pub open spec fn grid_unknowns(g: Seq<Seq<Cell>>) -> nat
    decreases g.len(),
{
    if g.len() == 0 {
        0
    } else {
        grid_unknowns(g.drop_last()) + row_unknowns(g.last())
    }
}

pub proof fn lemma_row_write(r: Seq<Cell>, x: int, c: Cell)
    requires
        0 <= x < r.len(),
    ensures
        row_unknowns(r.update(x, c)) + (if r[x] == Cell::Unknown { 1nat } else { 0nat })
            == row_unknowns(r) + (if c == Cell::Unknown { 1nat } else { 0nat }),
    decreases r.len(),
{
    if x < r.len() - 1 {
        assert(r.update(x, c).drop_last() == r.drop_last().update(x, c));
        lemma_row_write(r.drop_last(), x, c);
    } else {
        assert(r.update(x, c).drop_last() == r.drop_last());
    }
}

/// Writing a square that is not unknown never adds an unknown square, and removes one where it overwrites one.
pub proof fn lemma_write_count(g: Seq<Seq<Cell>>, x: int, y: int, c: Cell)
    requires
        c != Cell::Unknown,
    ensures
        grid_unknowns(write(g, x, y, c)) <= grid_unknowns(g),
        0 <= y < g.len() && 0 <= x < g[y].len() && g[y][x] == Cell::Unknown ==> grid_unknowns(write(g, x, y, c)) < grid_unknowns(g),
    decreases g.len(),
{
    if 0 <= y < g.len() && 0 <= x < g[y].len() {
        let g2 = write(g, x, y, c);
        if y == g.len() - 1 {
            assert(g2.drop_last() == g.drop_last());
            lemma_row_write(g[y], x, c);
        } else {
            assert(g2.drop_last() == write(g.drop_last(), x, y, c));
            lemma_write_count(g.drop_last(), x, y, c);
        }
    }
}

impl Round {
    /// A round on an unknown board of `rows` by `cols` with `mines` mines; at most four clicks a square.
    pub fn new(rows: i32, cols: i32, mines: i32) -> (r: Round)
        requires
            rows >= 0,
            cols >= 0,
            rows * cols * 4 <= i32::MAX,
        ensures
            r.board.wf(),
            r.board.rows == rows,
            r.board.cols == cols,
            r.board.mine_count == mines,
            forall|x: int, y: int| r.board.in_bounds(x, y) ==> r.board.at(x, y) == Cell::Unknown,
            r.clicks == 0,
            r.max_clicks == rows * cols * 4,
    {
        let m = rows * cols * 4;
        Round { board: Board::new(rows, cols, mines), clicks: 0, max_clicks: m as usize }
    }

    /// The round's next step while the server says it stands at `res`.
    ///
    /// A round that is over finishes. Otherwise: past the click limit, give up; with nothing left
    /// to do, finish (not won); flag what the solver says to flag; reveal the first square it says
    /// to reveal that is still unknown, or give up when there is none; with only flags to place,
    /// say so, and the next step asks the solver again.
    pub fn next_step(&mut self, res: Resolution) -> (s: Step)
        requires
            old(self).board.wf(),
            old(self).clicks < usize::MAX,
        ensures
            final(self).board.wf(),
            same_board(&final(self).board, &old(self).board),
            final(self).max_clicks == old(self).max_clicks,
            res != Resolution::Pending ==> (s is Finish) && s->won == (res == Resolution::Won)
                && final(self).board == old(self).board && final(self).clicks == old(self).clicks,
            res == Resolution::Pending && old(self).clicks > old(self).max_clicks ==> (s is Abandon),
            (s is Finish) && res == Resolution::Pending ==> !s->won && !final(self).board.has_unknown()
                && final(self).board == old(self).board,
            (s is Reveal) ==> final(self).board.unknown_squares().contains((s->x, s->y))
                && old(self).board.unknown_squares().contains((s->x, s->y))
                && final(self).clicks == old(self).clicks + 1,
            !(s is Reveal) ==> final(self).clicks == old(self).clicks,
            (s is Flagged) ==> grid_unknowns(final(self).board.cells()) < grid_unknowns(old(self).board.cells()),
            forall|x: int, y: int| #[trigger] final(self).board.at(x, y) != old(self).board.at(x, y) ==>
                old(self).board.at(x, y) == Cell::Unknown && final(self).board.at(x, y) == Cell::Flag,
            res == Resolution::Pending && old(self).clicks <= old(self).max_clicks && old(self).board.has_unknown()
                && !old(self).board.has_number() ==>
                (old(self).board.at(0, 0) == Cell::Unknown ==> s == (Step::Reveal { x: 0, y: 0 }))
                && (old(self).board.at(0, 0) != Cell::Unknown ==> (s is Abandon)),
            res == Resolution::Pending && old(self).clicks <= old(self).max_clicks && old(self).board.has_unknown()
                && old(self).board.has_number() && old(self).board.solvable() ==> (s is Reveal) || (s is Flagged),
            (s is Reveal) && old(self).board.decided_by_count() ==>
                old(self).board.right_by_count(Action::Reveal { x: s->x, y: s->y }),
            (s is Reveal) && (exists|x: int, y: int| #[trigger] old(self).board.settles(x, y)) ==>
                old(self).board.surely_right(Action::Reveal { x: s->x, y: s->y }),
            (s is Reveal) && (exists|x1: int, y1: int, x2: int, y2: int| #[trigger] old(self).board.settles_pair(x1, y1, x2, y2)) ==>
                old(self).board.surely_right(Action::Reveal { x: s->x, y: s->y }),
            (exists|x: int, y: int| #[trigger] old(self).board.settles(x, y)) ==>
                forall|x: i32, y: i32| #[trigger] final(self).board.at(x as int, y as int) != old(self).board.at(x as int, y as int)
                    ==> old(self).board.surely_right(Action::Flag { x, y }),
    {
        if res != Resolution::Pending {
            return Step::Finish { won: res == Resolution::Won };
        }
        let ghost start = self.board;
        if self.clicks > self.max_clicks {
            return Step::Abandon;
        }
        let actions = next_actions(&self.board);
        if actions.len() == 0 {
            return Step::Finish { won: false };
        }
        let ghost before = self.board;
        proof {
            if !before.has_number() {
                assert(before.has_unknown());
            }
        }
        let mut reveals: Vec<(i32, i32)> = Vec::new();
        let mut i: usize = 0;
        while i < actions.len()
            invariant
                self.board.wf(),
                same_board(&self.board, &start),
                self.clicks == old(self).clicks,
                self.max_clicks == old(self).max_clicks,
                start == old(self).board,
                before == start,
                (exists|x: int, y: int| #[trigger] before.settles(x, y)) ==>
                    forall|k: int| 0 <= k < actions@.len() ==> before.surely_right(#[trigger] actions@[k]),
                (exists|x1: int, y1: int, x2: int, y2: int| #[trigger] before.settles_pair(x1, y1, x2, y2)) ==>
                    forall|k: int| 0 <= k < actions@.len() ==> before.surely_right(#[trigger] actions@[k]),
                before.clusters_small() ==> is_guess(actions@)
                    || forall|k: int| 0 <= k < actions@.len() ==> before.right_by_count(#[trigger] actions@[k]),
                before.solvable() ==> forall|a: int, b: int| 0 <= a < b < actions@.len() ==>
                    target(#[trigger] actions@[a]) != target(#[trigger] actions@[b]),
                before.decided_by_count() ==> forall|k: int| 0 <= k < actions@.len() ==> before.right_by_count(#[trigger] actions@[k]),
                0 <= i <= actions@.len(),
                actions@.len() > 0,
                before.wf(),
                before.has_number() ==> forall|k: int| 0 <= k < actions@.len() ==>
                    before.unknown_squares().contains(target(#[trigger] actions@[k])),
                !before.has_number() ==> actions@ == seq![Action::Reveal { x: 0, y: 0 }],
                forall|x: int, y: int| #[trigger] self.board.at(x, y) != before.at(x, y) ==>
                    before.at(x, y) == Cell::Unknown && self.board.at(x, y) == Cell::Flag,
                forall|x: int, y: int| #[trigger] self.board.at(x, y) != before.at(x, y) ==>
                    exists|k: int| 0 <= k < i && #[trigger] actions@[k] == (Action::Flag { x: x as i32, y: y as i32 })
                        && x == x as i32 && y == y as i32,
                forall|kk: int| 0 <= kk < reveals@.len() ==>
                    exists|k: int| 0 <= k < i && #[trigger] actions@[k] == (Action::Reveal { x: (#[trigger] reveals@[kk]).0, y: reveals@[kk].1 }),
                grid_unknowns(self.board.cells()) <= grid_unknowns(before.cells()),
                reveals@.len() == 0 && i > 0 ==> grid_unknowns(self.board.cells()) < grid_unknowns(before.cells()),
                i == 0 ==> self.board == before,
                reveals@.len() == 0 ==> forall|k: int| 0 <= k < i ==> (#[trigger] actions@[k]) is Flag,
                before.has_number() ==> forall|kk: int| 0 <= kk < reveals@.len() ==>
                    before.unknown_squares().contains(#[trigger] reveals@[kk]),
                !before.has_number() ==> reveals@ == seq![(0i32, 0i32)].take(i as int),
                !before.has_number() ==> before.has_unknown(),
                !before.has_number() ==> self.board == before,
            decreases actions@.len() - i,
        {
            match actions[i] {
                Action::Flag { x, y } => {
                    let ghost g = self.board.cells();
                    let ghost b1 = self.board;
                    proof {
                        if !before.has_number() {
                            assert(actions@[i as int] == (Action::Reveal { x: 0, y: 0 }));
                        }
                        assert(target(actions@[i as int]) == (x, y));
                        assert(before.unknown_squares().contains((x, y)));
                        assert(before.in_bounds(x as int, y as int));
                        assert(before.at(x as int, y as int) == Cell::Unknown);
                        if i == 0 {
                            assert(before.cells()[y as int][x as int] == Cell::Unknown);
                        }
                    }
                    self.board.set_flag(x, y);
                    proof {
                        lemma_write_count(g, x as int, y as int, Cell::Flag);
                        assert(self.board.cells() == write(g, x as int, y as int, Cell::Flag));
                        assert forall|xx: int, yy: int| #[trigger] self.board.at(xx, yy) != before.at(xx, yy) implies
                            before.at(xx, yy) == Cell::Unknown && self.board.at(xx, yy) == Cell::Flag by {
                            if !(xx == x && yy == y) {
                                assert(self.board.at(xx, yy) == b1.at(xx, yy));
                            }
                        }
                        assert forall|xx: int, yy: int| #[trigger] self.board.at(xx, yy) != before.at(xx, yy) implies
                            exists|k: int| 0 <= k < i + 1 && #[trigger] actions@[k] == (Action::Flag { x: xx as i32, y: yy as i32 })
                                && xx == xx as i32 && yy == yy as i32 by {
                            if xx == x && yy == y {
                                assert(actions@[i as int] == (Action::Flag { x: xx as i32, y: yy as i32 }));
                            } else {
                                assert(self.board.at(xx, yy) == b1.at(xx, yy));
                            }
                        }
                    }
                },
                Action::Reveal { x, y } => {
                    proof {
                        if before.has_number() {
                            assert(before.unknown_squares().contains(target(actions@[i as int])));
                        }
                    }
                    reveals.push((x, y));
                    proof {
                        assert(actions@[i as int] == (Action::Reveal { x: reveals@[reveals@.len() - 1].0, y: reveals@[reveals@.len() - 1].1 }));
                    }
                },
            }
            i += 1;
        }
        proof {
            if !before.has_number() {
                assert(seq![(0i32, 0i32)].take(1) == seq![(0i32, 0i32)]);
            }
        }
        if reveals.len() == 0 {
            proof {
                lemma_flags_right(before, self.board, actions@);
            }
            return Step::Flagged;
        }
        let mut k: usize = 0;
        while k < reveals.len()
            invariant
                self.board.wf(),
                same_board(&self.board, &start),
                same_board(&before, &start),
                before.wf(),
                before == start,
                0 <= k <= reveals@.len(),
                self.clicks == old(self).clicks,
                self.clicks < usize::MAX,
                self.max_clicks == old(self).max_clicks,
                old(self).clicks <= old(self).max_clicks,
                start == old(self).board,
                res == Resolution::Pending,
                forall|x: int, y: int| #[trigger] self.board.at(x, y) != before.at(x, y) ==>
                    before.at(x, y) == Cell::Unknown && self.board.at(x, y) == Cell::Flag,
                before.has_number() ==> forall|kk: int| 0 <= kk < reveals@.len() ==>
                    before.unknown_squares().contains(#[trigger] reveals@[kk]),
                !before.has_number() ==> reveals@ == seq![(0i32, 0i32)] && before.has_unknown(),
                forall|kk: int| 0 <= kk < k ==> self.board.at((#[trigger] reveals@[kk]).0 as int, reveals@[kk].1 as int) != Cell::Unknown,
                (exists|x: int, y: int| #[trigger] before.settles(x, y)) ==>
                    forall|k: int| 0 <= k < actions@.len() ==> before.surely_right(#[trigger] actions@[k]),
                (exists|x1: int, y1: int, x2: int, y2: int| #[trigger] before.settles_pair(x1, y1, x2, y2)) ==>
                    forall|k: int| 0 <= k < actions@.len() ==> before.surely_right(#[trigger] actions@[k]),
                before.clusters_small() ==> is_guess(actions@)
                    || forall|k: int| 0 <= k < actions@.len() ==> before.right_by_count(#[trigger] actions@[k]),
                before.solvable() ==> forall|a: int, b: int| 0 <= a < b < actions@.len() ==>
                    target(#[trigger] actions@[a]) != target(#[trigger] actions@[b]),
                before.decided_by_count() ==> forall|k: int| 0 <= k < actions@.len() ==> before.right_by_count(#[trigger] actions@[k]),
                i == actions@.len(),
                forall|x: int, y: int| #[trigger] self.board.at(x, y) != before.at(x, y) ==>
                    exists|k: int| 0 <= k < i && #[trigger] actions@[k] == (Action::Flag { x: x as i32, y: y as i32 })
                        && x == x as i32 && y == y as i32,
                forall|kk: int| 0 <= kk < reveals@.len() ==>
                    exists|k: int| 0 <= k < i && #[trigger] actions@[k] == (Action::Reveal { x: (#[trigger] reveals@[kk]).0, y: reveals@[kk].1 }),
                !before.has_number() ==> self.board == before,
            decreases reveals@.len() - k,
        {
            let (x, y) = reveals[k];
            if let Cell::Unknown = self.board.cell(x, y) {
                self.clicks = self.clicks + 1;
                proof {
                    if before.has_number() {
                        assert(before.unknown_squares().contains(reveals@[k as int]));
                    } else {
                        let p = choose|p: (i32, i32)| #[trigger] before.unknown_squares().contains(p);
                        assert(before.in_bounds(p.0 as int, p.1 as int));
                    }
                    assert(self.board.in_bounds(x as int, y as int));
                    assert(before.at(x as int, y as int) == Cell::Unknown);
                    let kr = choose|kr: int| 0 <= kr < i && #[trigger] actions@[kr] == (Action::Reveal { x: reveals@[k as int].0, y: reveals@[k as int].1 });
                    assert(actions@[kr] == (Action::Reveal { x, y }));
                    lemma_flags_right(before, self.board, actions@);
                }
                return Step::Reveal { x, y };
            }
            k += 1;
        }
        proof {
            lemma_flags_right(before, self.board, actions@);
            assert(self.board.at(reveals@[0].0 as int, reveals@[0].1 as int) != Cell::Unknown);
            if !before.has_number() {
                assert(reveals@[0] == (0i32, 0i32));
            }
            if before.has_number() && before.solvable() {
                let p = reveals@[0];
                assert(before.unknown_squares().contains(p));
                assert(self.board.at(p.0 as int, p.1 as int) != before.at(p.0 as int, p.1 as int));
                let kf = choose|kf: int| 0 <= kf < i && #[trigger] actions@[kf] == (Action::Flag { x: p.0 as int as i32, y: p.1 as int as i32 })
                    && p.0 as int == p.0 as int as i32 && p.1 as int == p.1 as int as i32;
                let kr = choose|kr: int| 0 <= kr < i && #[trigger] actions@[kr] == (Action::Reveal { x: reveals@[0].0, y: reveals@[0].1 });
                assert(target(actions@[kf]) == target(actions@[kr]));
                if kf < kr {
                    assert(target(actions@[kf]) != target(actions@[kr]));
                } else {
                    assert(target(actions@[kr]) != target(actions@[kf]));
                }
            }
        }
        Step::Abandon
    }
}

/// Every square a batch of moves flagged holds a flag move of the batch, so when some number
/// settles squares, each flag placed is certain.
pub proof fn lemma_flags_right(before: Board, after: Board, actions: Seq<Action>)
    requires
        forall|x: int, y: int| #[trigger] after.at(x, y) != before.at(x, y) ==>
            exists|k: int| 0 <= k < actions.len() && #[trigger] actions[k] == (Action::Flag { x: x as i32, y: y as i32 })
                && x == x as i32 && y == y as i32,
        (exists|x: int, y: int| #[trigger] before.settles(x, y)) ==>
            forall|k: int| 0 <= k < actions.len() ==> before.surely_right(#[trigger] actions[k]),
    ensures
        (exists|x: int, y: int| #[trigger] before.settles(x, y)) ==>
            forall|x: i32, y: i32| #[trigger] after.at(x as int, y as int) != before.at(x as int, y as int)
                ==> before.surely_right(Action::Flag { x, y }),
{
    if exists|x: int, y: int| #[trigger] before.settles(x, y) {
        assert forall|x: i32, y: i32| #[trigger] after.at(x as int, y as int) != before.at(x as int, y as int)
            implies before.surely_right(Action::Flag { x, y }) by {
            let k = choose|k: int| 0 <= k < actions.len() && #[trigger] actions[k] == (Action::Flag { x: x as int as i32, y: y as int as i32 })
                && x as int == x as int as i32 && y as int == y as int as i32;
            assert(actions[k] == (Action::Flag { x, y }));
        }
    }
}

/// How many rounds of one difficulty were played, won and lost.
#[derive(Debug, Clone, PartialEq, Eq, Default)]
pub struct DifficultyTally {
    pub difficulty: String,
    pub played: i32,
    pub won: i32,
    pub lost: i32,
}

/// Makes sure the tally list has an entry for `difficulty`, adding an empty one at the end when it has none.
pub fn ensure_tally(list: &mut Vec<DifficultyTally>, difficulty: &String)
    ensures
        (exists|i: int| 0 <= i < old(list)@.len() && (#[trigger] old(list)@[i]).difficulty@ == difficulty@)
            ==> final(list)@ == old(list)@,
        !(exists|i: int| 0 <= i < old(list)@.len() && (#[trigger] old(list)@[i]).difficulty@ == difficulty@)
            ==> final(list)@.len() == old(list)@.len() + 1
            && final(list)@.drop_last() == old(list)@
            && final(list)@.last().difficulty@ == difficulty@
            && final(list)@.last().played == 0 && final(list)@.last().won == 0 && final(list)@.last().lost == 0,
{
    let mut i: usize = 0;
    while i < list.len()
        invariant
            0 <= i <= list@.len(),
            list@ == old(list)@,
            forall|j: int| 0 <= j < i ==> (#[trigger] list@[j]).difficulty@ != difficulty@,
        decreases list@.len() - i,
    {
        if list[i].difficulty == *difficulty {
            return;
        }
        i += 1;
    }
    list.push(DifficultyTally { difficulty: difficulty.clone(), played: 0, won: 0, lost: 0 });
    proof {
        assert(list@.drop_last() == old(list)@);
    }
}

/// Counts one more round of `difficulty` in the tally list, adding an entry for a difficulty not yet
/// in it; the index of the entry.
pub fn bump(list: &mut Vec<DifficultyTally>, difficulty: &String, won: bool) -> (idx: usize)
    requires
        forall|i: int| 0 <= i < old(list)@.len() ==> (#[trigger] old(list)@[i]).played < i32::MAX
            && old(list)@[i].won < i32::MAX && old(list)@[i].lost < i32::MAX,
    ensures
        idx < final(list)@.len(),
        idx <= old(list)@.len(),
        final(list)@[idx as int].difficulty@ == difficulty@,
        idx < old(list)@.len() ==> final(list)@.len() == old(list)@.len()
            && (forall|i: int| 0 <= i < idx ==> (#[trigger] old(list)@[i]).difficulty@ != difficulty@)
            && old(list)@[idx as int].difficulty@ == difficulty@,
        idx == old(list)@.len() ==> final(list)@.len() == old(list)@.len() + 1
            && (forall|i: int| 0 <= i < old(list)@.len() ==> (#[trigger] old(list)@[i]).difficulty@ != difficulty@),
        forall|i: int| 0 <= i < old(list)@.len() && i != idx ==> #[trigger] final(list)@[i] == old(list)@[i],
        final(list)@[idx as int].played == (if idx < old(list)@.len() { old(list)@[idx as int].played } else { 0 }) + 1,
        final(list)@[idx as int].won == (if idx < old(list)@.len() { old(list)@[idx as int].won } else { 0 }) + if won { 1int } else { 0 },
        final(list)@[idx as int].lost == (if idx < old(list)@.len() { old(list)@[idx as int].lost } else { 0 }) + if won { 0int } else { 1 },
{
    let mut i: usize = 0;
    while i < list.len() && !(list[i].difficulty == *difficulty)
        invariant
            0 <= i <= list@.len(),
            list@ == old(list)@,
            forall|j: int| 0 <= j < i ==> (#[trigger] list@[j]).difficulty@ != difficulty@,
        decreases list@.len() - i,
    {
        i += 1;
    }
    if i == list.len() {
        list.push(DifficultyTally { difficulty: difficulty.clone(), played: 0, won: 0, lost: 0 });
    }
    let entry = DifficultyTally {
        difficulty: list[i].difficulty.clone(),
        played: list[i].played + 1,
        won: list[i].won + if won { 1 } else { 0 },
        lost: list[i].lost + if won { 0 } else { 1 },
    };
    list.set(i, entry);
    i
}

} // verus!
