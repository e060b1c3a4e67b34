//! Nonogram solving: each line's clue forces squares, repeated until nothing changes, then a guess
//! on the first unknown square, backtracking when it leads nowhere.
use vstd::prelude::*;

pub mod line;

use line::{UNKNOWN, FILL, CROSS, runs, clue_of, full, agrees, valid_line, marks, line_matches_clue, propagate_line,
    placement, settled_square};

verus! {

/// What the solver reads of a round: the size, the squares as the game shows them (1 filled,
/// 2 crossed, anything else unknown; a missing square is unknown), and a clue per row and column.
pub struct NonogramPuzzle {
    pub width: i32,
    pub height: i32,
    pub cells: Vec<Vec<i32>>,
    pub row_clues: Vec<Vec<i32>>,
    pub col_clues: Vec<Vec<i32>>,
}

impl NonogramPuzzle {
    /// At least one row and one column, and a clue for each.
    pub open spec fn shaped(&self) -> bool {
        &&& self.height > 0
        &&& self.width > 0
        &&& self.row_clues@.len() == self.height
        &&& self.col_clues@.len() == self.width
    }

    /// No clue asks for a run of negative length.
    pub open spec fn clues_ok(&self) -> bool {
        &&& forall|r: int, j: int| 0 <= r < self.row_clues@.len() && 0 <= j < self.row_clues@[r]@.len()
            ==> #[trigger] self.row_clues@[r]@[j] >= 0
        &&& forall|c: int, j: int| 0 <= c < self.col_clues@.len() && 0 <= j < self.col_clues@[c]@.len()
            ==> #[trigger] self.col_clues@[c]@[j] >= 0
    }

    /// The value the game shows at `(r, c)`; 0 where it shows none.
    pub open spec fn given(&self, r: int, c: int) -> i32 {
        if 0 <= r < self.cells@.len() && 0 <= c < self.cells@[r]@.len() {
            self.cells@[r]@[c]
        } else {
            0
        }
    }

    /// What is known at the start.
    pub open spec fn start(&self) -> Seq<Seq<u8>> {
        Seq::new(self.height as nat, |r: int| Seq::new(self.width as nat, |c: int|
            if self.given(r, c) == 1 {
                FILL
            } else if self.given(r, c) == 2 {
                CROSS
            } else {
                UNKNOWN
            }))
    }

    pub open spec fn row_runs(&self) -> Seq<Seq<int>> {
        self.row_clues@.map_values(|c: Vec<i32>| clue_of(c@))
    }

    pub open spec fn col_runs(&self) -> Seq<Seq<int>> {
        self.col_clues@.map_values(|c: Vec<i32>| clue_of(c@))
    }

    /// `g` solves the puzzle and keeps every square the game already shows.
    pub open spec fn solved_by(&self, g: Seq<Seq<u8>>) -> bool {
        solution(g, self.row_runs(), self.col_runs(), self.height as int, self.width as int) && within(g, self.start())
    }

    /// Some grid solves the puzzle keeping what the game shows.
    pub open spec fn solvable(&self) -> bool {
        exists|g: Seq<Seq<u8>>| #[trigger] self.solved_by(g)
    }

    /// The squares to fill in the grid `g`: filled there and not yet filled in the game.
    pub open spec fn to_fill(&self, g: Seq<Seq<u8>>, r: int, c: int) -> bool {
        0 <= r < self.height && 0 <= c < self.width && g[r][c] == FILL && self.given(r, c) != 1
    }
}

/// Column `c` of `g`.
pub open spec fn column(g: Seq<Seq<u8>>, c: int) -> Seq<u8> {
    Seq::new(g.len(), |r: int| g[r][c])
}

/// `h` rows of `w` squares.
pub open spec fn shaped(g: Seq<Seq<u8>>, h: int, w: int) -> bool {
    g.len() == h && forall|r: int| 0 <= r < h ==> (#[trigger] g[r]).len() == w
}

/// Every square of `g` is unknown, filled or crossed.
pub open spec fn grid_marks(g: Seq<Seq<u8>>) -> bool {
    forall|r: int| 0 <= r < g.len() ==> marks(#[trigger] g[r])
}

/// `g` keeps every square `b` knows.
pub open spec fn within(g: Seq<Seq<u8>>, b: Seq<Seq<u8>>) -> bool {
    g.len() == b.len() && forall|r: int| 0 <= r < b.len() ==> agrees(#[trigger] b[r], g[r])
}

/// `g` is complete, and its rows and columns have the runs their clues give.
pub open spec fn solution(g: Seq<Seq<u8>>, rows: Seq<Seq<int>>, cols: Seq<Seq<int>>, h: int, w: int) -> bool {
    &&& shaped(g, h, w)
    &&& forall|r: int| 0 <= r < h ==> full(#[trigger] g[r]) && runs(g[r]) == rows[r]
    &&& forall|c: int| 0 <= c < w ==> runs(#[trigger] column(g, c)) == cols[c]
}

pub open spec fn grid(b: Seq<Vec<u8>>) -> Seq<Seq<u8>> {
    b.map_values(|r: Vec<u8>| r@)
}

/// How many squares of a line are unknown.
pub open spec fn zeros(s: Seq<u8>) -> nat
    decreases s.len(),
{
    if s.len() == 0 {
        0
    } else {
        zeros(s.drop_last()) + if s.last() == UNKNOWN { 1nat } else { 0nat }
    }
}

/// How many squares of a grid are unknown.
pub open spec fn unknowns(g: Seq<Seq<u8>>) -> nat
    decreases g.len(),
{
    if g.len() == 0 {
        0
    } else {
        unknowns(g.drop_last()) + zeros(g.last())
    }
}

/// Fixing unknown squares of a line leaves fewer unknown squares, strictly fewer when any was fixed.
pub proof fn lemma_zeros_agree(a: Seq<u8>, b: Seq<u8>)
    requires
        agrees(a, b),
    ensures
        zeros(b) <= zeros(a),
        a != b ==> zeros(b) < zeros(a),
    decreases a.len(),
{
    if a.len() > 0 {
        assert(agrees(a.drop_last(), b.drop_last())) by {
            assert forall|i: int| 0 <= i < a.drop_last().len() && #[trigger] a.drop_last()[i] != UNKNOWN
                implies b.drop_last()[i] == a.drop_last()[i] by {
                assert(a[i] != UNKNOWN);
            }
        }
        lemma_zeros_agree(a.drop_last(), b.drop_last());
        if a != b {
            if a.drop_last() == b.drop_last() {
                assert(a.last() != b.last()) by {
                    if a.last() == b.last() {
                        assert(a =~= b) by {
                            assert forall|i: int| 0 <= i < a.len() implies a[i] == b[i] by {
                                if i < a.len() - 1 {
                                    assert(a.drop_last()[i] == b.drop_last()[i]);
                                }
                            }
                        }
                    }
                }
                assert(a[a.len() - 1] == UNKNOWN) by {
                    if a[a.len() - 1] != UNKNOWN {
                        assert(b[a.len() - 1] == a[a.len() - 1]);
                    }
                }
            }
        }
        if a[a.len() - 1] != UNKNOWN {
            assert(b[a.len() - 1] == a[a.len() - 1]);
        }
        assert(zeros(a) == zeros(a.drop_last()) + if a.last() == UNKNOWN { 1nat } else { 0nat });
        assert(zeros(b) == zeros(b.drop_last()) + if b.last() == UNKNOWN { 1nat } else { 0nat });
    } else {
        assert(a =~= b);
    }
}

pub proof fn lemma_unknowns_update(g: Seq<Seq<u8>>, r: int, row: Seq<u8>)
    requires
        0 <= r < g.len(),
    ensures
        unknowns(g.update(r, row)) + zeros(g[r]) == unknowns(g) + zeros(row),
    decreases g.len(),
{
    let g2 = g.update(r, row);
    if r == g.len() - 1 {
        assert(g2.drop_last() == g.drop_last());
    } else {
        assert(g2.drop_last() == g.drop_last().update(r, row));
        lemma_unknowns_update(g.drop_last(), r, row);
    }
}

/// A grid with unknown squares left has one in some row.
pub proof fn lemma_unknowns_row(g: Seq<Seq<u8>>, r: int)
    requires
        0 <= r < g.len(),
    ensures
        zeros(g[r]) <= unknowns(g),
    decreases g.len(),
{
    if r < g.len() - 1 {
        lemma_unknowns_row(g.drop_last(), r);
        assert(g.drop_last()[r] == g[r]);
    }
}

pub proof fn lemma_zeros_pos(s: Seq<u8>, i: int)
    requires
        0 <= i < s.len(),
        s[i] == UNKNOWN,
    ensures
        zeros(s) >= 1,
        zeros(s.update(i, FILL)) + 1 == zeros(s),
        zeros(s.update(i, CROSS)) + 1 == zeros(s),
    decreases s.len(),
{
    if i < s.len() - 1 {
        lemma_zeros_pos(s.drop_last(), i);
        assert(s.update(i, FILL).drop_last() == s.drop_last().update(i, FILL));
        assert(s.update(i, CROSS).drop_last() == s.drop_last().update(i, CROSS));
    } else {
        assert(s.update(i, FILL).drop_last() == s.drop_last());
        assert(s.update(i, CROSS).drop_last() == s.drop_last());
    }
}

// ---------------------------------------------------------------- the search

fn copy_line(v: &Vec<u8>) -> (r: Vec<u8>)
    ensures
        r@ == v@,
{
    let mut r: Vec<u8> = Vec::new();
    let mut i: usize = 0;
    while i < v.len()
        invariant
            0 <= i <= v@.len(),
            r@ == v@.take(i as int),
        decreases v@.len() - i,
    {
        r.push(v[i]);
        proof {
            assert(v@.take(i + 1) == v@.take(i as int).push(v@[i as int]));
        }
        i += 1;
    }
    proof {
        assert(v@.take(i as int) == v@);
    }
    r
}

fn copy_grid(b: &Vec<Vec<u8>>) -> (r: Vec<Vec<u8>>)
    ensures
        grid(r@) == grid(b@),
{
    let mut r: Vec<Vec<u8>> = Vec::new();
    let mut i: usize = 0;
    while i < b.len()
        invariant
            0 <= i <= b@.len(),
            r@.len() == i,
            forall|k: int| 0 <= k < i ==> (#[trigger] r@[k])@ == b@[k]@,
        decreases b@.len() - i,
    {
        r.push(copy_line(&b[i]));
        i += 1;
    }
    proof {
        assert(grid(r@) =~= grid(b@));
    }
    r
}

fn column_of(b: &Vec<Vec<u8>>, c: usize, Ghost(w): Ghost<int>) -> (r: Vec<u8>)
    requires
        shaped(grid(b@), b@.len() as int, w),
        c < w,
    ensures
        r@ == column(grid(b@), c as int),
{
    let mut r: Vec<u8> = Vec::new();
    let mut i: usize = 0;
    while i < b.len()
        invariant
            shaped(grid(b@), b@.len() as int, w),
            c < w,
            0 <= i <= b@.len(),
            r@.len() == i,
            forall|k: int| 0 <= k < i ==> #[trigger] r@[k] == grid(b@)[k][c as int],
        decreases b@.len() - i,
    {
        proof {
            assert(grid(b@)[i as int] == b@[i as int]@);
        }
        r.push(b[i][c]);
        i += 1;
    }
    proof {
        assert(r@ =~= column(grid(b@), c as int));
    }
    r
}

/// The first unknown square, row by row.
fn first_unknown(b: &Vec<Vec<u8>>, Ghost(w): Ghost<int>) -> (r: Option<(usize, usize)>)
    requires
        shaped(grid(b@), b@.len() as int, w),
    ensures
        r matches Some(p) ==> p.0 < b@.len() && p.1 < w && grid(b@)[p.0 as int][p.1 as int] == UNKNOWN,
        r is None ==> forall|i: int, j: int| 0 <= i < b@.len() && 0 <= j < w ==> #[trigger] grid(b@)[i][j] != UNKNOWN,
{
    let mut i: usize = 0;
    while i < b.len()
        invariant
            shaped(grid(b@), b@.len() as int, w),
            0 <= i <= b@.len(),
            forall|ii: int, j: int| 0 <= ii < i && 0 <= j < w ==> #[trigger] grid(b@)[ii][j] != UNKNOWN,
        decreases b@.len() - i,
    {
        let mut j: usize = 0;
        proof {
            assert(grid(b@)[i as int] == b@[i as int]@);
        }
        while j < b[i].len()
            invariant
                shaped(grid(b@), b@.len() as int, w),
                0 <= i < b@.len(),
                grid(b@)[i as int] == b@[i as int]@,
                0 <= j <= w,
                forall|ii: int, jj: int| 0 <= ii < i && 0 <= jj < w ==> #[trigger] grid(b@)[ii][jj] != UNKNOWN,
                forall|jj: int| 0 <= jj < j ==> #[trigger] grid(b@)[i as int][jj] != UNKNOWN,
            decreases w - j,
        {
            if b[i][j] == UNKNOWN {
                return Some((i, j));
            }
            j += 1;
        }
        i += 1;
    }
    None
}

/// Whether every row and column of the grid has the runs of its clue.
fn verify(b: &Vec<Vec<u8>>, rows: &Vec<Vec<i32>>, cols: &Vec<Vec<i32>>, Ghost(w): Ghost<int>) -> (ok: bool)
    requires
        shaped(grid(b@), b@.len() as int, w),
        rows@.len() == b@.len(),
        cols@.len() == w,
    ensures
        ok == ((forall|r: int| 0 <= r < b@.len() ==> runs(#[trigger] grid(b@)[r]) == clue_of(rows@[r]@))
            && (forall|c: int| 0 <= c < w ==> runs(#[trigger] column(grid(b@), c)) == clue_of(cols@[c]@))),
{
    let mut r: usize = 0;
    while r < b.len()
        invariant
            shaped(grid(b@), b@.len() as int, w),
            rows@.len() == b@.len(),
            0 <= r <= b@.len(),
            forall|rr: int| 0 <= rr < r ==> runs(#[trigger] grid(b@)[rr]) == clue_of(rows@[rr]@),
        decreases b@.len() - r,
    {
        proof {
            assert(grid(b@)[r as int] == b@[r as int]@);
        }
        if !line_matches_clue(&b[r], &rows[r]) {
            return false;
        }
        r += 1;
    }
    let mut c: usize = 0;
    while c < cols.len()
        invariant
            shaped(grid(b@), b@.len() as int, w),
            cols@.len() == w,
            0 <= c <= w,
            forall|rr: int| 0 <= rr < b@.len() ==> runs(#[trigger] grid(b@)[rr]) == clue_of(rows@[rr]@),
            forall|cc: int| 0 <= cc < c ==> runs(#[trigger] column(grid(b@), cc)) == clue_of(cols@[cc]@),
        decreases w - c,
    {
        let col = column_of(b, c, Ghost(w));
        if !line_matches_clue(&col, &cols[c]) {
            return false;
        }
        c += 1;
    }
    true
}

/// The facts the search keeps about its grid: its shape and marks, that it keeps what `b0` knows,
/// and that every solution keeping what `b0` knows keeps what it knows.
pub open spec fn sound_grid(g: Seq<Seq<u8>>, b0: Seq<Seq<u8>>, rows: Seq<Seq<int>>, cols: Seq<Seq<int>>, h: int, w: int) -> bool {
    &&& shaped(g, h, w)
    &&& grid_marks(g)
    &&& within(g, b0)
    &&& unknowns(g) <= unknowns(b0)
    &&& forall|s: Seq<Seq<u8>>| #[trigger] solution(s, rows, cols, h, w) && within(s, b0) ==> within(s, g)
}

pub open spec fn clue_rows(v: Seq<Vec<i32>>) -> Seq<Seq<int>> {
    v.map_values(|c: Vec<i32>| clue_of(c@))
}

pub open spec fn clues_nonneg(v: Seq<Vec<i32>>) -> bool {
    forall|r: int, j: int| 0 <= r < v.len() && 0 <= j < v[r]@.len() ==> #[trigger] v[r]@[j] >= 0
}

/// Some layout of the clue fits the line, and the line already holds at each square what the
/// fitting layouts settle there: propagating it changes nothing.
pub open spec fn line_settled(line: Seq<u8>, clue: Seq<int>) -> bool {
    &&& exists|f: Seq<u8>| #[trigger] placement(line, clue, f)
    &&& forall|i: int| 0 <= i < line.len() ==> #[trigger] line[i] == settled_square(line, clue, i)
}

/// Every row and every column of the grid is settled.
pub open spec fn settled_grid(g: Seq<Seq<u8>>, rows: Seq<Seq<int>>, cols: Seq<Seq<int>>, h: int, w: int) -> bool {
    &&& forall|r: int| 0 <= r < h ==> #[trigger] line_settled(g[r], rows[r])
    &&& forall|c: int| 0 <= c < w ==> #[trigger] line_settled(column(g, c), cols[c])
}

/// Writing a column back unchanged leaves the grid as it was.
pub proof fn lemma_column_set_same(g: Seq<Seq<u8>>, h: int, w: int, c: int)
    requires
        shaped(g, h, w),
        0 <= c < w,
    ensures
        column_set(g, c, column(g, c)) == g,
{
    assert forall|r: int| 0 <= r < g.len() implies #[trigger] column_set(g, c, column(g, c))[r] == g[r] by {
        assert(g[r].update(c, column(g, c)[r]) =~= g[r]);
    }
    assert(column_set(g, c, column(g, c)) =~= g);
}

/// Forces squares line by line until a pass changes nothing; `false` when some line has no layout.
fn propagate_all(board: &mut Vec<Vec<u8>>, rows: &Vec<Vec<i32>>, cols: &Vec<Vec<i32>>, Ghost(w): Ghost<int>) -> (ok: bool)
    requires
        shaped(grid(old(board)@), old(board)@.len() as int, w),
        grid_marks(grid(old(board)@)),
        rows@.len() == old(board)@.len(),
        cols@.len() == w,
        old(board)@.len() < usize::MAX,
        w < usize::MAX,
        clues_nonneg(rows@),
        clues_nonneg(cols@),
    ensures
        sound_grid(grid(final(board)@), grid(old(board)@), clue_rows(rows@), clue_rows(cols@), old(board)@.len() as int, w),
        !ok ==> forall|s: Seq<Seq<u8>>| !(#[trigger] solution(s, clue_rows(rows@), clue_rows(cols@), old(board)@.len() as int, w)
            && within(s, grid(old(board)@))),
        ok ==> settled_grid(grid(final(board)@), clue_rows(rows@), clue_rows(cols@), old(board)@.len() as int, w),
{
    let h = board.len();
    let ghost b0 = grid(board@);
    let ghost rs = clue_rows(rows@);
    let ghost cs = clue_rows(cols@);
    proof {
        lemma_within_refl(b0);
    }
    let mut go = true;
    while go
        invariant
            h == board@.len(),
            h < usize::MAX,
            w < usize::MAX,
            rows@.len() == h,
            cols@.len() == w,
            clues_nonneg(rows@),
            clues_nonneg(cols@),
            rs == clue_rows(rows@),
            cs == clue_rows(cols@),
            b0.len() == h,
            b0 == grid(old(board)@),
            sound_grid(grid(board@), b0, rs, cs, h as int, w),
            !go ==> settled_grid(grid(board@), rs, cs, h as int, w),
        decreases unknowns(grid(board@)) + if go { 1nat } else { 0nat },
    {
        let ghost at_start = grid(board@);
        let mut changed = false;
        let mut r: usize = 0;
        while r < h
            invariant
                h == board@.len(),
                h < usize::MAX,
                w < usize::MAX,
                rows@.len() == h,
                cols@.len() == w,
                clues_nonneg(rows@),
                rs == clue_rows(rows@),
                cs == clue_rows(cols@),
                b0.len() == h,
                b0 == grid(old(board)@),
                0 <= r <= h,
                sound_grid(grid(board@), b0, rs, cs, h as int, w),
                unknowns(grid(board@)) <= unknowns(at_start),
                changed ==> unknowns(grid(board@)) < unknowns(at_start),
                !changed ==> grid(board@) == at_start,
                !changed ==> forall|rr: int| 0 <= rr < r ==> #[trigger] line_settled(at_start[rr], rs[rr]),
            decreases h - r,
        {
            let ghost before = grid(board@);
            let mut line = copy_line(&board[r]);
            proof {
                assert(before[r as int] == line@);
                assert(forall|j: int| 0 <= j < rows@[r as int]@.len() ==> #[trigger] rows@[r as int]@[j] >= 0);
            }
            let ghost was_changed = changed;
            let ok = propagate_line(&mut line, &rows[r], &mut changed);
            if !ok {
                proof {
                    assert forall|s: Seq<Seq<u8>>| !(#[trigger] solution(s, rs, cs, h as int, w) && within(s, b0)) by {
                        if solution(s, rs, cs, h as int, w) && within(s, b0) {
                            assert(within(s, before));
                            assert(rs[r as int] == clue_of(rows@[r as int]@));
                            assert(valid_line(before[r as int], clue_of(rows@[r as int]@), s[r as int]));
                        }
                    }
                }
                return false;
            }
            let ghost new_line = line@;
            board.set(r, line);
            proof {
                assert(grid(board@) == before.update(r as int, new_line));
                lemma_zeros_agree(before[r as int], new_line);
                lemma_unknowns_update(before, r as int, new_line);
                lemma_row_step(before, grid(board@), b0, rs, cs, h as int, w, r as int);
                if !changed {
                    assert(new_line == before[r as int]);
                    assert(before == at_start);
                    assert(rs[r as int] == clue_of(rows@[r as int]@));
                    assert(line_settled(at_start[r as int], rs[r as int]));
                    assert(grid(board@) =~= at_start);
                }
            }
            r += 1;
        }
        let mut c: usize = 0;
        while c < cols.len()
            invariant
                h == board@.len(),
                h < usize::MAX,
                w < usize::MAX,
                rows@.len() == h,
                cols@.len() == w,
                clues_nonneg(cols@),
                rs == clue_rows(rows@),
                cs == clue_rows(cols@),
                b0.len() == h,
                b0 == grid(old(board)@),
                0 <= c <= w,
                sound_grid(grid(board@), b0, rs, cs, h as int, w),
                unknowns(grid(board@)) <= unknowns(at_start),
                changed ==> unknowns(grid(board@)) < unknowns(at_start),
                !changed ==> grid(board@) == at_start,
                !changed ==> forall|rr: int| 0 <= rr < h ==> #[trigger] line_settled(at_start[rr], rs[rr]),
                !changed ==> forall|cc: int| 0 <= cc < c ==> #[trigger] line_settled(column(at_start, cc), cs[cc]),
            decreases w - c,
        {
            let ghost before = grid(board@);
            let mut line = column_of(board, c, Ghost(w));
            proof {
                assert(forall|j: int| 0 <= j < cols@[c as int]@.len() ==> #[trigger] cols@[c as int]@[j] >= 0);
                assert(marks(line@)) by {
                    assert forall|i: int| 0 <= i < line@.len() implies #[trigger] line@[i] <= CROSS by {
                        assert(marks(before[i]));
                    }
                }
            }
            let ok = propagate_line(&mut line, &cols[c], &mut changed);
            if !ok {
                proof {
                    assert forall|s: Seq<Seq<u8>>| !(#[trigger] solution(s, rs, cs, h as int, w) && within(s, b0)) by {
                        if solution(s, rs, cs, h as int, w) && within(s, b0) {
                            assert(within(s, before));
                            lemma_column_valid(s, before, cs, h as int, w, c as int);
                            assert(cs[c as int] == clue_of(cols@[c as int]@));
                        }
                    }
                }
                return false;
            }
            write_column(board, &line, c, Ghost(w));
            proof {
                lemma_column_step(before, grid(board@), line@, b0, rs, cs, h as int, w, c as int);
                if !changed {
                    assert(line@ == column(before, c as int));
                    assert(before == at_start);
                    assert(cs[c as int] == clue_of(cols@[c as int]@));
                    assert(line_settled(column(at_start, c as int), cs[c as int]));
                    lemma_column_set_same(before, h as int, w, c as int);
                }
            }
            c += 1;
        }
        go = changed;
    }
    true
}

/// Writes the line `col` into column `c`.
fn write_column(board: &mut Vec<Vec<u8>>, col: &Vec<u8>, c: usize, Ghost(w): Ghost<int>)
    requires
        shaped(grid(old(board)@), old(board)@.len() as int, w),
        c < w,
        col@.len() == old(board)@.len(),
    ensures
        grid(final(board)@) == column_set(grid(old(board)@), c as int, col@),
{
    let mut r: usize = 0;
    while r < board.len()
        invariant
            board@.len() == old(board)@.len(),
            col@.len() == board@.len(),
            c < w,
            shaped(grid(old(board)@), old(board)@.len() as int, w),
            0 <= r <= board@.len(),
            forall|k: int| 0 <= k < r ==> (#[trigger] board@[k])@ == old(board)@[k]@.update(c as int, col@[k]),
            forall|k: int| r <= k < board@.len() ==> (#[trigger] board@[k])@ == old(board)@[k]@,
        decreases board@.len() - r,
    {
        proof {
            assert(grid(old(board)@)[r as int] == old(board)@[r as int]@);
        }
        let v = col[r];
        board[r].set(c, v);
        r += 1;
    }
    proof {
        assert(grid(board@) =~= column_set(grid(old(board)@), c as int, col@));
    }
}

/// `g` with column `c` replaced by `col`.
pub open spec fn column_set(g: Seq<Seq<u8>>, c: int, col: Seq<u8>) -> Seq<Seq<u8>> {
    Seq::new(g.len(), |r: int| g[r].update(c, col[r]))
}

pub proof fn lemma_within_refl(g: Seq<Seq<u8>>)
    ensures
        within(g, g),
{
}

pub proof fn lemma_within_trans(a: Seq<Seq<u8>>, b: Seq<Seq<u8>>, c: Seq<Seq<u8>>)
    requires
        within(b, a),
        within(c, b),
    ensures
        within(c, a),
{
    assert forall|r: int| 0 <= r < a.len() implies agrees(#[trigger] a[r], c[r]) by {
        assert(agrees(a[r], b[r]));
        assert(agrees(b[r], c[r]));
        assert forall|i: int| 0 <= i < a[r].len() && #[trigger] a[r][i] != UNKNOWN implies c[r][i] == a[r][i] by {
            assert(b[r][i] == a[r][i]);
        }
    }
}

/// Column `c` of a solution that keeps what `g` knows is a valid layout of `g`'s column.
pub proof fn lemma_column_valid(s: Seq<Seq<u8>>, g: Seq<Seq<u8>>, cs: Seq<Seq<int>>, h: int, w: int, c: int)
    requires
        solution(s, cs, cs, h, w) || true,
        shaped(s, h, w),
        shaped(g, h, w),
        forall|r: int| 0 <= r < h ==> full(#[trigger] s[r]),
        runs(column(s, c)) == cs[c],
        within(s, g),
        0 <= c < w,
    ensures
        valid_line(column(g, c), cs[c], column(s, c)),
{
    assert forall|i: int| 0 <= i < column(g, c).len() && #[trigger] column(g, c)[i] != UNKNOWN
        implies column(s, c)[i] == column(g, c)[i] by {
        assert(agrees(g[i], s[i]));
    }
    assert forall|i: int| 0 <= i < column(s, c).len() implies #[trigger] column(s, c)[i] == FILL || column(s, c)[i] == CROSS by {
        assert(full(s[i]));
    }
}

/// A row pass step keeps the search sound.
pub proof fn lemma_row_step(before: Seq<Seq<u8>>, after: Seq<Seq<u8>>, b0: Seq<Seq<u8>>, rs: Seq<Seq<int>>, cs: Seq<Seq<int>>, h: int, w: int, r: int)
    requires
        0 <= r < h,
        sound_grid(before, b0, rs, cs, h, w),
        after == before.update(r, after[r]),
        after[r].len() == before[r].len(),
        marks(after[r]),
        agrees(before[r], after[r]),
        forall|f: Seq<u8>| #[trigger] valid_line(before[r], rs[r], f) ==> agrees(after[r], f),
        unknowns(after) + zeros(before[r]) == unknowns(before) + zeros(after[r]),
        zeros(after[r]) <= zeros(before[r]),
    ensures
        sound_grid(after, b0, rs, cs, h, w),
        unknowns(after) <= unknowns(before),
        after[r] != before[r] ==> unknowns(after) < unknowns(before),
{
    assert(shaped(after, h, w)) by {
        assert forall|k: int| 0 <= k < h implies (#[trigger] after[k]).len() == w by {
            if k != r {
                assert(after[k] == before[k]);
            }
        }
    }
    assert(grid_marks(after)) by {
        assert forall|k: int| 0 <= k < after.len() implies marks(#[trigger] after[k]) by {
            if k != r {
                assert(after[k] == before[k]);
            }
        }
    }
    assert(within(after, before)) by {
        assert forall|k: int| 0 <= k < before.len() implies agrees(#[trigger] before[k], after[k]) by {
            if k != r {
                assert(after[k] == before[k]);
            }
        }
    }
    lemma_within_trans(b0, before, after);
    assert forall|s: Seq<Seq<u8>>| #[trigger] solution(s, rs, cs, h, w) && within(s, b0) implies within(s, after) by {
        assert(within(s, before));
        assert forall|k: int| 0 <= k < after.len() implies agrees(#[trigger] after[k], s[k]) by {
            if k != r {
                assert(after[k] == before[k]);
            } else {
                assert(full(s[r]) && runs(s[r]) == rs[r]);
                assert(valid_line(before[r], rs[r], s[r]));
            }
        }
    }
    if after[r] != before[r] {
        lemma_zeros_agree(before[r], after[r]);
    }
}

/// A column pass step keeps the search sound.
pub proof fn lemma_column_step(before: Seq<Seq<u8>>, after: Seq<Seq<u8>>, col: Seq<u8>, b0: Seq<Seq<u8>>, rs: Seq<Seq<int>>, cs: Seq<Seq<int>>, h: int, w: int, c: int)
    requires
        0 <= c < w,
        sound_grid(before, b0, rs, cs, h, w),
        after == column_set(before, c, col),
        col.len() == h,
        marks(col),
        agrees(column(before, c), col),
        forall|f: Seq<u8>| #[trigger] valid_line(column(before, c), cs[c], f) ==> agrees(col, f),
    ensures
        sound_grid(after, b0, rs, cs, h, w),
        unknowns(after) <= unknowns(before),
        col != column(before, c) ==> unknowns(after) < unknowns(before),
{
    assert(shaped(after, h, w));
    assert(grid_marks(after)) by {
        assert forall|k: int| 0 <= k < after.len() implies marks(#[trigger] after[k]) by {
            assert(marks(before[k]));
            assert(col[k] <= CROSS);
            assert forall|i: int| 0 <= i < after[k].len() implies #[trigger] after[k][i] <= CROSS by {
                if i != c {
                    assert(after[k][i] == before[k][i]);
                }
            }
        }
    }
    assert(within(after, before)) by {
        assert forall|k: int| 0 <= k < before.len() implies agrees(#[trigger] before[k], after[k]) by {
            assert forall|i: int| 0 <= i < before[k].len() && #[trigger] before[k][i] != UNKNOWN implies after[k][i] == before[k][i] by {
                if i == c {
                    assert(column(before, c)[k] == before[k][c]);
                }
            }
        }
    }
    lemma_within_trans(b0, before, after);
    assert forall|s: Seq<Seq<u8>>| #[trigger] solution(s, rs, cs, h, w) && within(s, b0) implies within(s, after) by {
        assert(within(s, before));
        lemma_column_valid(s, before, cs, h, w, c);
        assert(agrees(col, column(s, c)));
        assert forall|k: int| 0 <= k < after.len() implies agrees(#[trigger] after[k], s[k]) by {
            assert(agrees(before[k], s[k]));
            assert forall|i: int| 0 <= i < after[k].len() && #[trigger] after[k][i] != UNKNOWN implies s[k][i] == after[k][i] by {
                if i == c {
                    assert(column(s, c)[k] == s[k][c]);
                } else {
                    assert(after[k][i] == before[k][i]);
                }
            }
        }
    }
    lemma_column_count(before, c, col, h as nat);
}

/// Writing a column that fixes unknown squares leaves no more unknown squares, and fewer when it fixed one.
pub proof fn lemma_column_count(g: Seq<Seq<u8>>, c: int, col: Seq<u8>, k: nat)
    requires
        k <= g.len(),
        col.len() == g.len(),
        0 <= c,
        forall|r: int| 0 <= r < g.len() ==> c < (#[trigger] g[r]).len(),
        agrees(column(g, c), col),
    ensures
        unknowns(column_set(g, c, col)) <= unknowns(g),
        col != column(g, c) ==> unknowns(column_set(g, c, col)) < unknowns(g),
    decreases g.len(),
{
    if g.len() > 0 {
        let gl = g.drop_last();
        let cl = col.drop_last();
        assert(column_set(g, c, col).drop_last() == column_set(gl, c, cl));
        assert(agrees(column(gl, c), cl)) by {
            assert forall|i: int| 0 <= i < column(gl, c).len() && #[trigger] column(gl, c)[i] != UNKNOWN implies cl[i] == column(gl, c)[i] by {
                assert(column(g, c)[i] == column(gl, c)[i]);
            }
        }
        lemma_column_count(gl, c, cl, (g.len() - 1) as nat);
        let last = g.last();
        let new_last = last.update(c, col.last());
        assert(column_set(g, c, col).last() == new_last);
        assert(agrees(last, new_last)) by {
            assert forall|i: int| 0 <= i < last.len() && #[trigger] last[i] != UNKNOWN implies new_last[i] == last[i] by {
                if i == c {
                    assert(column(g, c)[g.len() - 1] == last[c]);
                }
            }
        }
        lemma_zeros_agree(last, new_last);
        assert(unknowns(column_set(g, c, col)) == unknowns(column_set(gl, c, cl)) + zeros(new_last));
        assert(unknowns(g) == unknowns(gl) + zeros(last));
        assert(column(gl, c) == column(g, c).drop_last());
        if col != column(g, c) {
            if cl == column(gl, c) {
                assert(col.last() != last[c]) by {
                    if col.last() == last[c] {
                        assert(col =~= column(g, c)) by {
                            assert forall|i: int| 0 <= i < col.len() implies col[i] == column(g, c)[i] by {
                                if i < col.len() - 1 {
                                    assert(cl[i] == column(gl, c)[i]);
                                }
                            }
                        }
                    }
                }
                assert(new_last != last) by {
                    assert(new_last[c] != last[c]);
                }
            } else {
                assert(column(gl, c) == column(g, c).drop_last());
            }
        }
    } else {
        assert(col =~= column(g, c));
    }
}

/// Solves the grid from what `board` knows: on success `board` is a solution keeping what it knew;
/// on failure no solution keeps what it knew.
fn solve_recursive(board: &mut Vec<Vec<u8>>, rows: &Vec<Vec<i32>>, cols: &Vec<Vec<i32>>, Ghost(w): Ghost<int>) -> (found: bool)
    requires
        shaped(grid(old(board)@), old(board)@.len() as int, w),
        grid_marks(grid(old(board)@)),
        rows@.len() == old(board)@.len(),
        cols@.len() == w,
        old(board)@.len() < usize::MAX,
        w < usize::MAX,
        clues_nonneg(rows@),
        clues_nonneg(cols@),
    ensures
        final(board)@.len() == old(board)@.len(),
        found ==> solution(grid(final(board)@), clue_rows(rows@), clue_rows(cols@), old(board)@.len() as int, w)
            && within(grid(final(board)@), grid(old(board)@)),
        !found ==> forall|s: Seq<Seq<u8>>| !(#[trigger] solution(s, clue_rows(rows@), clue_rows(cols@), old(board)@.len() as int, w)
            && within(s, grid(old(board)@))),
    decreases unknowns(grid(old(board)@)),
{
    let h = board.len();
    let ghost b0 = grid(board@);
    let ghost rs = clue_rows(rows@);
    let ghost cs = clue_rows(cols@);
    if !propagate_all(board, rows, cols, Ghost(w)) {
        return false;
    }
    match first_unknown(board, Ghost(w)) {
        None => {
            let ok = verify(board, rows, cols, Ghost(w));
            proof {
                let g = grid(board@);
                assert forall|r: int| 0 <= r < h implies full(#[trigger] g[r]) by {
                    assert(marks(g[r]));
                    assert forall|j: int| 0 <= j < g[r].len() implies #[trigger] g[r][j] == FILL || g[r][j] == CROSS by {
                        assert(g[r][j] != UNKNOWN);
                        assert(g[r][j] <= CROSS);
                    }
                }
                if ok {
                    assert forall|r: int| 0 <= r < h implies full(#[trigger] g[r]) && runs(g[r]) == rs[r] by {}
                    assert forall|c: int| 0 <= c < w implies runs(#[trigger] column(g, c)) == cs[c] by {}
                } else {
                    assert forall|s: Seq<Seq<u8>>| !(#[trigger] solution(s, rs, cs, h as int, w) && within(s, b0)) by {
                        if solution(s, rs, cs, h as int, w) && within(s, b0) {
                            assert(within(s, g));
                            assert(s =~= g) by {
                                assert forall|r: int| 0 <= r < h implies s[r] == g[r] by {
                                    assert(agrees(g[r], s[r]));
                                    assert forall|j: int| 0 <= j < w implies s[r][j] == g[r][j] by {
                                        assert(g[r][j] != UNKNOWN);
                                    }
                                    assert(s[r] =~= g[r]);
                                }
                            }
                        }
                    }
                }
            }
            ok
        },
        Some((br, bc)) => {
            let ghost g = grid(board@);
            proof {
                lemma_unknowns_row(g, br as int);
                lemma_zeros_pos(g[br as int], bc as int);
            }
            let mut trial = copy_grid(board);
            let mut row = copy_line(&trial[br]);
            row.set(bc, FILL);
            trial.set(br, row);
            let ghost t1 = grid(trial@);
            proof {
                assert(t1 == g.update(br as int, g[br as int].update(bc as int, FILL)));
                lemma_guess(g, t1, h as int, w, br as int, bc as int, FILL);
            }
            if solve_recursive(&mut trial, rows, cols, Ghost(w)) {
                proof {
                    lemma_within_trans(g, t1, grid(trial@));
                    lemma_within_trans(b0, g, grid(trial@));
                }
                *board = trial;
                return true;
            }
            let mut trial = copy_grid(board);
            let mut row = copy_line(&trial[br]);
            row.set(bc, CROSS);
            trial.set(br, row);
            let ghost t2 = grid(trial@);
            proof {
                assert(t2 == g.update(br as int, g[br as int].update(bc as int, CROSS)));
                lemma_guess(g, t2, h as int, w, br as int, bc as int, CROSS);
            }
            if solve_recursive(&mut trial, rows, cols, Ghost(w)) {
                proof {
                    lemma_within_trans(g, t2, grid(trial@));
                    lemma_within_trans(b0, g, grid(trial@));
                }
                *board = trial;
                return true;
            }
            proof {
                assert forall|s: Seq<Seq<u8>>| !(#[trigger] solution(s, rs, cs, h as int, w) && within(s, b0)) by {
                    if solution(s, rs, cs, h as int, w) && within(s, b0) {
                        assert(within(s, g));
                        assert(full(s[br as int]));
                        assert(s[br as int][bc as int] == FILL || s[br as int][bc as int] == CROSS);
                        if s[br as int][bc as int] == FILL {
                            assert(within(s, t1));
                        } else {
                            assert(within(s, t2));
                        }
                    }
                }
            }
            false
        },
    }
}

/// Guessing `v` for the unknown square `(br, bc)`: the grid keeps what it knew and has one unknown
/// square less, and a grid keeping what it knew with `v` there keeps the guess too.
pub proof fn lemma_guess(g: Seq<Seq<u8>>, t: Seq<Seq<u8>>, h: int, w: int, br: int, bc: int, v: u8)
    requires
        shaped(g, h, w),
        grid_marks(g),
        0 <= br < h,
        0 <= bc < w,
        g[br][bc] == UNKNOWN,
        v == FILL || v == CROSS,
        t == g.update(br, g[br].update(bc, v)),
    ensures
        shaped(t, h, w),
        grid_marks(t),
        within(t, g),
        unknowns(t) < unknowns(g),
        forall|s: Seq<Seq<u8>>| within(s, g) && s[br][bc] == v ==> #[trigger] within(s, t),
{
    lemma_zeros_pos(g[br], bc);
    lemma_unknowns_update(g, br, g[br].update(bc, v));
    assert(grid_marks(t)) by {
        assert forall|k: int| 0 <= k < t.len() implies marks(#[trigger] t[k]) by {
            assert(marks(g[k]));
            if k == br {
                assert forall|i: int| 0 <= i < t[k].len() implies #[trigger] t[k][i] <= CROSS by {
                    if i != bc {
                        assert(t[k][i] == g[k][i]);
                    }
                }
            }
        }
    }
    assert(within(t, g)) by {
        assert forall|k: int| 0 <= k < g.len() implies agrees(#[trigger] g[k], t[k]) by {
            if k == br {
                assert forall|i: int| 0 <= i < g[k].len() && #[trigger] g[k][i] != UNKNOWN implies t[k][i] == g[k][i] by {
                    if i == bc {
                        assert(g[k][i] == UNKNOWN);
                    }
                }
            }
        }
    }
    assert forall|s: Seq<Seq<u8>>| within(s, g) && s[br][bc] == v implies #[trigger] within(s, t) by {
        assert forall|k: int| 0 <= k < t.len() implies agrees(#[trigger] t[k], s[k]) by {
            assert(agrees(g[k], s[k]));
            if k == br {
                assert forall|i: int| 0 <= i < t[k].len() && #[trigger] t[k][i] != UNKNOWN implies s[k][i] == t[k][i] by {
                    if i != bc {
                        assert(t[k][i] == g[k][i]);
                    }
                }
            }
        }
    }
}


/// The squares to fill, in row-major order: exactly those `g` fills that the game does not show filled.
pub open spec fn clicks_for(p: &NonogramPuzzle, g: Seq<Seq<u8>>, clicks: Seq<(i32, i32)>) -> bool {
    &&& forall|k: int| 0 <= k < clicks.len() ==> p.to_fill(g, (#[trigger] clicks[k]).0 as int, clicks[k].1 as int)
    &&& forall|r: int, c: int| #[trigger] p.to_fill(g, r, c) ==> clicks.contains((r as i32, c as i32))
    &&& forall|a: int, b: int| 0 <= a < b < clicks.len() ==> before(#[trigger] clicks[a], #[trigger] clicks[b])
}

/// `x` comes before `y` row by row.
pub open spec fn before(x: (i32, i32), y: (i32, i32)) -> bool {
    x.0 < y.0 || (x.0 == y.0 && x.1 < y.1)
}

/// The value the game shows at `(r, c)`, 0 where it shows none.
fn given_at(p: &NonogramPuzzle, r: usize, c: usize) -> (v: i32)
    ensures
        v == p.given(r as int, c as int),
{
    if r < p.cells.len() && c < p.cells[r].len() {
        p.cells[r][c]
    } else {
        0
    }
}

/// The squares still to fill for a solution of the puzzle that keeps every square the game shows,
/// row by row; `None` when the puzzle has no rows, no columns, a clue missing, or no such solution.
pub fn solve(p: &NonogramPuzzle) -> (r: Option<Vec<(i32, i32)>>)
    requires
        p.clues_ok(),
    ensures
        !p.shaped() ==> r is None,
        p.shaped() ==> (r is Some <==> p.solvable()),
        r matches Some(clicks) ==> exists|g: Seq<Seq<u8>>| #[trigger] p.solved_by(g) && clicks_for(p, g, clicks@),
{
    if p.height <= 0 || p.width <= 0 {
        return None;
    }
    let h = p.height as usize;
    let w = p.width as usize;
    if p.row_clues.len() != h || p.col_clues.len() != w {
        return None;
    }
    let ghost start = p.start();
    let mut board: Vec<Vec<u8>> = Vec::new();
    let mut r: usize = 0;
    while r < h
        invariant
            h == p.height,
            w == p.width,
            0 <= r <= h,
            board@.len() == r,
            start == p.start(),
            forall|k: int| 0 <= k < r ==> (#[trigger] board@[k])@ == start[k],
        decreases h - r,
    {
        let mut row: Vec<u8> = Vec::new();
        let mut c: usize = 0;
        while c < w
            invariant
                h == p.height,
                w == p.width,
                0 <= r < h,
                0 <= c <= w,
                start == p.start(),
                row@.len() == c,
                forall|k: int| 0 <= k < c ==> #[trigger] row@[k] == start[r as int][k],
            decreases w - c,
        {
            let v = given_at(p, r, c);
            row.push(if v == 1 { FILL } else if v == 2 { CROSS } else { UNKNOWN });
            c += 1;
        }
        proof {
            assert(row@ == start[r as int]);
        }
        board.push(row);
        r += 1;
    }
    proof {
        assert(grid(board@) == start);
        assert(grid_marks(start));
        assert(clue_rows(p.row_clues@) == p.row_runs());
        assert(clue_rows(p.col_clues@) == p.col_runs());
    }
    if !solve_recursive(&mut board, &p.row_clues, &p.col_clues, Ghost(w as int)) {
        proof {
            assert forall|g: Seq<Seq<u8>>| !#[trigger] p.solved_by(g) by {
                if p.solved_by(g) {
                    assert(solution(g, clue_rows(p.row_clues@), clue_rows(p.col_clues@), h as int, w as int));
                }
            }
        }
        return None;
    }
    let ghost g = grid(board@);
    proof {
        assert(p.solved_by(g));
    }
    let mut clicks: Vec<(i32, i32)> = Vec::new();
    let mut r: usize = 0;
    while r < h
        invariant
            h == p.height,
            w == p.width,
            board@.len() == h,
            g == grid(board@),
            shaped(g, h as int, w as int),
            0 <= r <= h,
            forall|k: int| 0 <= k < clicks@.len() ==> p.to_fill(g, (#[trigger] clicks@[k]).0 as int, clicks@[k].1 as int)
                && clicks@[k].0 < r,
            forall|rr: int, cc: int| #[trigger] p.to_fill(g, rr, cc) && rr < r ==> clicks@.contains((rr as i32, cc as i32)),
            forall|a: int, b: int| 0 <= a < b < clicks@.len() ==> before(#[trigger] clicks@[a], #[trigger] clicks@[b]),
        decreases h - r,
    {
        let mut c: usize = 0;
        proof {
            assert(g[r as int] == board@[r as int]@);
        }
        while c < w
            invariant
                h == p.height,
                w == p.width,
                board@.len() == h,
                g == grid(board@),
                g[r as int] == board@[r as int]@,
                shaped(g, h as int, w as int),
                0 <= r < h,
                0 <= c <= w,
                forall|k: int| 0 <= k < clicks@.len() ==> p.to_fill(g, (#[trigger] clicks@[k]).0 as int, clicks@[k].1 as int)
                    && (clicks@[k].0 < r || (clicks@[k].0 == r && clicks@[k].1 < c)),
                forall|rr: int, cc: int| #[trigger] p.to_fill(g, rr, cc) && (rr < r || (rr == r && cc < c))
                    ==> clicks@.contains((rr as i32, cc as i32)),
                forall|a: int, b: int| 0 <= a < b < clicks@.len() ==> before(#[trigger] clicks@[a], #[trigger] clicks@[b]),
            decreases w - c,
        {
            let ghost old_clicks = clicks@;
            if board[r][c] == FILL && given_at(p, r, c) != 1 {
                clicks.push((r as i32, c as i32));
                proof {
                    assert(p.to_fill(g, r as int, c as int));
                    assert forall|rr: int, cc: int| #[trigger] p.to_fill(g, rr, cc) && (rr < r || (rr == r && cc < c + 1))
                        implies clicks@.contains((rr as i32, cc as i32)) by {
                        if rr == r && cc == c {
                            assert(clicks@[clicks@.len() - 1] == (rr as i32, cc as i32));
                        } else {
                            assert(old_clicks.contains((rr as i32, cc as i32)));
                            let k = choose|k: int| 0 <= k < old_clicks.len() && old_clicks[k] == (rr as i32, cc as i32);
                            assert(clicks@[k] == old_clicks[k]);
                        }
                    }
                }
            } else {
                proof {
                    assert(!p.to_fill(g, r as int, c as int));
                }
            }
            c += 1;
        }
        r += 1;
    }
    proof {
        assert(clicks_for(p, g, clicks@));
    }
    Some(clicks)
}
} // verus!
