//! Lights Out: which squares to press so that every light goes off, by Gaussian elimination over GF(2).
//!
//! Pressing a square flips it and the squares beside it (up, down, left, right). Presses commute and
//! pressing twice undoes a press, so a solution is a set of squares: the vector `x` with `A·x = b`
//! over GF(2), where `A[i][j]` says whether pressing square `j` flips square `i` and `b` holds the
//! lit squares. Squares are numbered row by row, `i = r * n + c`.
use vstd::prelude::*;

verus! {

/// What the solver reads of a round: the side of the square board and its lights, `cells[r][c]`
/// being lit when it is not 0.
pub struct LightsBoard {
    pub size: i32,
    pub cells: Vec<Vec<i32>>,
}

impl LightsBoard {
    /// `size` rows of `size` squares each, and at least one square.
    pub open spec fn shaped(&self) -> bool {
        &&& self.size > 0
        &&& self.cells@.len() == self.size
        &&& forall|r: int| 0 <= r < self.size ==> (#[trigger] self.cells@[r])@.len() == self.size
    }

    pub open spec fn lit(&self, r: int, c: int) -> bool {
        self.cells@[r]@[c] != 0
    }

    /// Pressing every square of `presses`, in any order, leaves no light on.
    pub open spec fn switches_off(&self, presses: Seq<(i32, i32)>) -> bool {
        forall|r: int, c: int| 0 <= r < self.size && 0 <= c < self.size ==>
            (#[trigger] times_flipped(presses, r, c) % 2 == 1) == self.lit(r, c)
    }

    /// Some presses of squares of the board leave no light on.
    pub open spec fn solvable(&self) -> bool {
        exists|presses: Seq<(i32, i32)>| on_board(self.size as int, presses) && #[trigger] self.switches_off(presses)
    }
}

/// Pressing `(pr, pc)` flips `(r, c)`: the same square, or one beside it.
pub open spec fn flips(r: int, c: int, pr: int, pc: int) -> bool {
    ||| r == pr && c == pc
    ||| r == pr && (c - pc == 1 || pc - c == 1)
    ||| c == pc && (r - pr == 1 || pr - r == 1)
}

/// How many of the presses flip `(r, c)`.
pub open spec fn times_flipped(presses: Seq<(i32, i32)>, r: int, c: int) -> nat
    decreases presses.len(),
{
    if presses.len() == 0 {
        0
    } else {
        times_flipped(presses.drop_last(), r, c) + if flips(r, c, presses.last().0 as int, presses.last().1 as int) {
            1nat
        } else {
            0nat
        }
    }
}

/// The presses come row by row, each row left to right.
pub open spec fn row_major(presses: Seq<(i32, i32)>, n: int) -> bool {
    forall|a: int, b: int| 0 <= a < b < presses.len() ==>
        (#[trigger] presses[a]).0 * n + presses[a].1 < (#[trigger] presses[b]).0 * n + presses[b].1
}

/// Every press is on a square of an `n` by `n` board.
pub open spec fn on_board(n: int, presses: Seq<(i32, i32)>) -> bool {
    forall|k: int| 0 <= k < presses.len() ==> 0 <= (#[trigger] presses[k]).0 < n && 0 <= presses[k].1 < n
}

// ---------------------------------------------------------------- linear algebra over GF(2)

/// The parity of `row[j] * x[j]` over `j < k`.
pub open spec fn dot(row: Seq<u8>, x: Seq<bool>, k: int) -> bool
    decreases k,
{
    if k <= 0 {
        false
    } else {
        dot(row, x, k - 1) != (row[k - 1] == 1 && x[k - 1])
    }
}

/// `x` meets every equation of `m`, each a row of `w` coefficients followed by its right-hand side.
pub open spec fn solves(m: Seq<Seq<u8>>, x: Seq<bool>, w: int) -> bool {
    forall|i: int| 0 <= i < m.len() ==> dot(#[trigger] m[i], x, w) == (m[i][w] == 1)
}

pub open spec fn xor_bit(a: u8, b: u8) -> u8 {
    if a == b { 0 } else { 1 }
}

/// Every entry is 0 or 1.
pub open spec fn bits(m: Seq<Seq<u8>>) -> bool {
    forall|i: int, j: int| 0 <= i < m.len() && 0 <= j < m[i].len() ==> #[trigger] m[i][j] <= 1
}

/// The equations of the board: row `i` says which presses flip square `i`, then whether it is lit.
pub open spec fn system(b: &LightsBoard, n: int) -> Seq<Seq<u8>> {
    Seq::new((n * n) as nat, |i: int| Seq::new((n * n + 1) as nat, |j: int|
        if j == n * n {
            if b.lit(i / n, i % n) { 1u8 } else { 0u8 }
        } else if flips(i / n, i % n, j / n, j % n) {
            1u8
        } else {
            0u8
        }))
}

pub open spec fn rows_of(m: Seq<Vec<u8>>) -> Seq<Seq<u8>> {
    m.map_values(|r: Vec<u8>| r@)
}

/// The press pattern of a list of presses: a square is pressed when it was pressed an odd number of times.
pub open spec fn pattern(presses: Seq<(i32, i32)>, n: int) -> Seq<bool>
    decreases presses.len(),
{
    if presses.len() == 0 {
        Seq::new((n * n) as nat, |j: int| false)
    } else {
        let before = pattern(presses.drop_last(), n);
        let j = presses.last().0 * n + presses.last().1;
        before.update(j, !before[j])
    }
}

pub proof fn lemma_dot_xor(a: Seq<u8>, b: Seq<u8>, c: Seq<u8>, x: Seq<bool>, k: int)
    requires
        forall|j: int| 0 <= j < k ==> #[trigger] c[j] == xor_bit(a[j], b[j]),
        forall|j: int| 0 <= j < k ==> #[trigger] a[j] <= 1 && b[j] <= 1,
    ensures
        dot(c, x, k) == (dot(a, x, k) != dot(b, x, k)),
    decreases k,
{
    if k > 0 {
        lemma_dot_xor(a, b, c, x, k - 1);
        assert(c[k - 1] == xor_bit(a[k - 1], b[k - 1]));
        assert(a[k - 1] <= 1 && b[k - 1] <= 1);
    }
}

pub proof fn lemma_dot_zero(a: Seq<u8>, x: Seq<bool>, k: int)
    requires
        forall|j: int| 0 <= j < k ==> #[trigger] a[j] == 0,
    ensures
        !dot(a, x, k),
    decreases k,
{
    if k > 0 {
        lemma_dot_zero(a, x, k - 1);
        assert(a[k - 1] == 0);
    }
}

pub proof fn lemma_dot_single(a: Seq<u8>, x: Seq<bool>, k: int, c: int)
    requires
        0 <= c < k,
        forall|j: int| 0 <= j < k && j != c ==> !(#[trigger] a[j] == 1 && x[j]),
    ensures
        dot(a, x, k) == (a[c] == 1 && x[c]),
    decreases k,
{
    if k - 1 > c {
        lemma_dot_single(a, x, k - 1, c);
        assert(!(a[k - 1] == 1 && x[k - 1]));
    } else {
        lemma_dot_none(a, x, k - 1);
    }
}

pub proof fn lemma_dot_none(a: Seq<u8>, x: Seq<bool>, k: int)
    requires
        forall|j: int| 0 <= j < k ==> !(#[trigger] a[j] == 1 && x[j]),
    ensures
        !dot(a, x, k),
    decreases k,
{
    if k > 0 {
        lemma_dot_none(a, x, k - 1);
        assert(!(a[k - 1] == 1 && x[k - 1]));
    }
}

pub proof fn lemma_dot_flip(a: Seq<u8>, x: Seq<bool>, k: int, j: int)
    requires
        0 <= j < x.len(),
        k <= x.len(),
    ensures
        dot(a, x.update(j, !x[j]), k) == (dot(a, x, k) != (0 <= j < k && a[j] == 1)),
    decreases k,
{
    if k > 0 {
        lemma_dot_flip(a, x, k - 1, j);
    }
}

/// Two rows that agree below `k` have the same dot product there.
pub proof fn lemma_dot_agree(a: Seq<u8>, b: Seq<u8>, x: Seq<bool>, k: int)
    requires
        forall|j: int| 0 <= j < k ==> #[trigger] a[j] == b[j],
    ensures
        dot(a, x, k) == dot(b, x, k),
    decreases k,
{
    if k > 0 {
        lemma_dot_agree(a, b, x, k - 1);
        assert(a[k - 1] == b[k - 1]);
    }
}

/// Replacing equation `r` by its sum with equation `p` keeps the solutions.
pub proof fn lemma_row_sum(m: Seq<Seq<u8>>, r: int, p: int, w: int, new_row: Seq<u8>)
    requires
        0 <= r < m.len(),
        0 <= p < m.len(),
        r != p,
        0 <= w,
        m[r].len() == w + 1,
        m[p].len() == w + 1,
        new_row.len() == w + 1,
        forall|j: int| 0 <= j <= w ==> #[trigger] new_row[j] == xor_bit(m[r][j], m[p][j]),
        forall|j: int| 0 <= j <= w ==> #[trigger] m[r][j] <= 1 && m[p][j] <= 1,
    ensures
        forall|x: Seq<bool>| #[trigger] solves(m.update(r, new_row), x, w) == solves(m, x, w),
{
    let m2 = m.update(r, new_row);
    assert forall|x: Seq<bool>| #[trigger] solves(m2, x, w) == solves(m, x, w) by {
        lemma_dot_xor(m[r], m[p], new_row, x, w);
        assert(m2[p] == m[p]);
        if solves(m, x, w) {
            assert forall|i: int| 0 <= i < m2.len() implies dot(#[trigger] m2[i], x, w) == (m2[i][w] == 1) by {
                if i != r {
                    assert(m2[i] == m[i]);
                } else {
                    assert(dot(m[r], x, w) == (m[r][w] == 1));
                    assert(dot(m[p], x, w) == (m[p][w] == 1));
                    assert(m2[r] == new_row);
                    assert(new_row[w] == xor_bit(m[r][w], m[p][w]));
                    assert(m[r][w] <= 1 && m[p][w] <= 1);
                }
            }
        }
        if solves(m2, x, w) {
            assert forall|i: int| 0 <= i < m.len() implies dot(#[trigger] m[i], x, w) == (m[i][w] == 1) by {
                if i != r {
                    assert(m2[i] == m[i]);
                } else {
                    assert(dot(m2[r], x, w) == (m2[r][w] == 1));
                    assert(dot(m2[p], x, w) == (m2[p][w] == 1));
                    assert(m2[r] == new_row);
                    assert(new_row[w] == xor_bit(m[r][w], m[p][w]));
                    assert(m[r][w] <= 1 && m[p][w] <= 1);
                }
            }
        }
    }
}

/// Swapping two equations keeps the solutions.
pub proof fn lemma_row_swap(m: Seq<Seq<u8>>, a: int, b: int, w: int)
    requires
        0 <= a < m.len(),
        0 <= b < m.len(),
    ensures
        forall|x: Seq<bool>| #[trigger] solves(m.update(a, m[b]).update(b, m[a]), x, w) == solves(m, x, w),
{
    let m2 = m.update(a, m[b]).update(b, m[a]);
    assert forall|x: Seq<bool>| #[trigger] solves(m2, x, w) == solves(m, x, w) by {
        if solves(m, x, w) {
            assert forall|i: int| 0 <= i < m2.len() implies dot(#[trigger] m2[i], x, w) == (m2[i][w] == 1) by {
                if i == b {
                    assert(m2[i] == m[a]);
                } else if i == a {
                    assert(m2[i] == m[b]);
                } else {
                    assert(m2[i] == m[i]);
                }
            }
        }
        if solves(m2, x, w) {
            assert forall|i: int| 0 <= i < m.len() implies dot(#[trigger] m[i], x, w) == (m[i][w] == 1) by {
                if i == a {
                    if a == b {
                        assert(m2[b] == m[a]);
                    } else {
                        assert(m2[b] == m[a]);
                    }
                } else if i == b {
                    assert(m2[a] == m[b]);
                } else {
                    assert(m2[i] == m[i]);
                }
            }
        }
    }
}

/// Square `(r, c)` of an `n` by `n` board has number `r * n + c`, and the number gives it back.
pub proof fn lemma_index(n: int, r: int, c: int)
    requires
        n > 0,
        0 <= r < n,
        0 <= c < n,
    ensures
        0 <= r * n + c < n * n,
        (r * n + c) / n == r,
        (r * n + c) % n == c,
{
    assert(0 <= r * n + c < n * n) by (nonlinear_arith)
        requires n > 0, 0 <= r < n, 0 <= c < n;
    vstd::arithmetic::div_mod::lemma_fundamental_div_mod_converse(r * n + c, n, r, c);
}

pub proof fn lemma_index_range(n: int, i: int)
    requires
        n > 0,
        0 <= i < n * n,
    ensures
        0 <= i / n < n,
        0 <= i % n < n,
{
    vstd::arithmetic::div_mod::lemma_div_pos_is_pos(i, n);
    vstd::arithmetic::div_mod::lemma_div_by_multiple_is_strongly_ordered(i, n * n, n, n);
    vstd::arithmetic::div_mod::lemma_mod_bound(i, n);
    assert((n * n) / n == n) by {
        vstd::arithmetic::div_mod::lemma_div_multiples_vanish(n, n);
    }
}

/// The pattern of some presses meets the board's equations exactly as the presses switch the board off.
pub proof fn lemma_pattern(b: &LightsBoard, n: int, presses: Seq<(i32, i32)>)
    requires
        n > 0,
        on_board(n, presses),
    ensures
        pattern(presses, n).len() == n * n,
        forall|i: int| 0 <= i < n * n ==> #[trigger] dot(system(b, n)[i], pattern(presses, n), n * n)
            == (times_flipped(presses, i / n, i % n) % 2 == 1),
    decreases presses.len(),
{
    let m = system(b, n);
    if presses.len() == 0 {
        assert forall|i: int| 0 <= i < n * n implies #[trigger] dot(m[i], pattern(presses, n), n * n)
            == (times_flipped(presses, i / n, i % n) % 2 == 1) by {
            lemma_dot_none(m[i], pattern(presses, n), n * n);
        }
    } else {
        let q = presses.last();
        let rest = presses.drop_last();
        assert(on_board(n, rest)) by {
            assert forall|k: int| 0 <= k < rest.len() implies 0 <= (#[trigger] rest[k]).0 < n && 0 <= rest[k].1 < n by {
                assert(rest[k] == presses[k]);
            }
        }
        lemma_pattern(b, n, rest);
        assert(0 <= q.0 < n && 0 <= q.1 < n) by {
            assert(presses[presses.len() - 1] == q);
        }
        lemma_index(n, q.0 as int, q.1 as int);
        let j = q.0 * n + q.1;
        assert forall|i: int| 0 <= i < n * n implies #[trigger] dot(m[i], pattern(presses, n), n * n)
            == (times_flipped(presses, i / n, i % n) % 2 == 1) by {
            lemma_dot_flip(m[i], pattern(rest, n), n * n, j);
            assert(dot(m[i], pattern(rest, n), n * n) == (times_flipped(rest, i / n, i % n) % 2 == 1));
            assert(m[i][j] == 1 <==> flips(i / n, i % n, q.0 as int, q.1 as int));
        }
    }
}

// ---------------------------------------------------------------- the solver

/// The equations of the board, built square by square.
fn build_system(b: &LightsBoard, n: usize) -> (m: Vec<Vec<u8>>)
    requires
        b.shaped(),
        n == b.size,
        n * n + 1 <= usize::MAX,
    ensures
        rows_of(m@) == system(b, n as int),
        m@.len() == n * n,
        forall|i: int| 0 <= i < m@.len() ==> (#[trigger] m@[i])@.len() == n * n + 1,
{
    let nn = n * n;
    let mut m: Vec<Vec<u8>> = Vec::new();
    let mut i: usize = 0;
    while i < nn
        invariant
            b.shaped(),
            n == b.size,
            nn == n * n,
            nn + 1 <= usize::MAX,
            0 <= i <= nn,
            m@.len() == i,
            forall|k: int| 0 <= k < i ==> (#[trigger] m@[k])@ == system(b, n as int)[k],
        decreases nn - i,
    {
        let r = i / n;
        let c = i % n;
        proof {
            lemma_index_range(n as int, i as int);
        }
        let mut row: Vec<u8> = Vec::new();
        let mut j: usize = 0;
        while j < nn
            invariant
                n == b.size,
                n > 0,
                nn == n * n,
                0 <= i < nn,
                r == i / n,
                c == i % n,
                0 <= j <= nn,
                row@.len() == j,
                forall|k: int| 0 <= k < j ==> #[trigger] row@[k] == system(b, n as int)[i as int][k],
            decreases nn - j,
        {
            let pr = j / n;
            let pc = j % n;
            let f = (r == pr && (c == pc || c == pc + 1 || pc == c + 1)) || (c == pc && (r == pr + 1 || pr == r + 1));
            row.push(if f { 1 } else { 0 });
            j += 1;
        }
        proof {
            lemma_index_range(n as int, i as int);
        }
        let lit = b.cells[r][c] != 0;
        row.push(if lit { 1 } else { 0 });
        proof {
            assert(row@ == system(b, n as int)[i as int]);
        }
        m.push(row);
        i += 1;
    }
    proof {
        assert(rows_of(m@) == system(b, n as int));
    }
    m
}

/// Adds equation `p` into equation `r`, from column `from` on; below `from` equation `p` is zero.
fn add_row(m: &mut Vec<Vec<u8>>, r: usize, p: usize, from: usize, w: usize)
    requires
        r < old(m)@.len(),
        p < old(m)@.len(),
        r != p,
        old(m)@[r as int]@.len() == w + 1,
        old(m)@[p as int]@.len() == w + 1,
        from <= w + 1,
        w < usize::MAX,
        forall|j: int| 0 <= j < from ==> #[trigger] old(m)@[p as int]@[j] == 0,
        bits(rows_of(old(m)@)),
    ensures
        final(m)@.len() == old(m)@.len(),
        forall|k: int| 0 <= k < final(m)@.len() && k != r ==> #[trigger] final(m)@[k] == old(m)@[k],
        final(m)@[r as int]@.len() == w + 1,
        forall|j: int| 0 <= j <= w ==> #[trigger] final(m)@[r as int]@[j]
            == xor_bit(old(m)@[r as int]@[j], old(m)@[p as int]@[j]),
{
    let mut k: usize = from;
    proof {
        assert(rows_of(old(m)@)[r as int] == old(m)@[r as int]@);
        assert(rows_of(old(m)@)[p as int] == old(m)@[p as int]@);
    }
    while k <= w
        invariant
            r < m@.len(),
            p < m@.len(),
            r != p,
            m@.len() == old(m)@.len(),
            forall|kk: int| 0 <= kk < m@.len() && kk != r ==> #[trigger] m@[kk] == old(m)@[kk],
            m@[r as int]@.len() == w + 1,
            m@[p as int] == old(m)@[p as int],
            old(m)@[p as int]@.len() == w + 1,
            w < usize::MAX,
            from <= k <= w + 1,
            forall|j: int| 0 <= j < from ==> #[trigger] old(m)@[p as int]@[j] == 0,
            forall|j: int| 0 <= j <= w ==> #[trigger] old(m)@[r as int]@[j] <= 1 && old(m)@[p as int]@[j] <= 1,
            forall|j: int| 0 <= j < k ==> #[trigger] m@[r as int]@[j]
                == xor_bit(old(m)@[r as int]@[j], old(m)@[p as int]@[j]),
            forall|j: int| k <= j <= w ==> #[trigger] m@[r as int]@[j] == old(m)@[r as int]@[j],
        decreases w + 1 - k,
    {
        let v: u8 = if m[r][k] == m[p][k] { 0 } else { 1 };
        m[r].set(k, v);
        k += 1;
    }
    proof {
        assert forall|j: int| 0 <= j <= w implies #[trigger] m@[r as int]@[j]
            == xor_bit(old(m)@[r as int]@[j], old(m)@[p as int]@[j]) by {
            if j < from {
                assert(old(m)@[r as int]@[j] <= 1);
            }
        }
    }
}

/// Whether no square of the board is lit.
fn all_dark(board: &LightsBoard, n: usize) -> (dark: bool)
    requires
        board.shaped(),
        n == board.size,
    ensures
        dark == forall|rr: int, cc: int| 0 <= rr < n && 0 <= cc < n ==> !#[trigger] board.lit(rr, cc),
{
    let mut r: usize = 0;
    while r < n
        invariant
            board.shaped(),
            n == board.size,
            0 <= r <= n,
            forall|rr: int, cc: int| 0 <= rr < r && 0 <= cc < n ==> !#[trigger] board.lit(rr, cc),
        decreases n - r,
    {
        let mut c: usize = 0;
        while c < n
            invariant
                board.shaped(),
                n == board.size,
                0 <= r < n,
                0 <= c <= n,
                forall|rr: int, cc: int| 0 <= rr < r && 0 <= cc < n ==> !#[trigger] board.lit(rr, cc),
                forall|cc: int| 0 <= cc < c ==> !#[trigger] board.lit(r as int, cc),
            decreases n - c,
        {
            if board.cells[r][c] != 0 {
                assert(board.lit(r as int, c as int));
                return false;
            }
            c += 1;
        }
        r += 1;
    }
    true
}

/// The presses that switch every light off, or `None` when the board is not square or no
/// presses can switch it off. Each square appears at most once, in row-major order, as `(r, c)`.
pub fn solve(board: &LightsBoard) -> (r: Option<Vec<(i32, i32)>>)
    requires
        board.size as int * board.size as int + 1 <= usize::MAX,
    ensures
        !board.shaped() ==> r is None,
        board.shaped() ==> (r is Some <==> board.solvable()),
        r matches Some(presses) ==> on_board(board.size as int, presses@) && board.switches_off(presses@)
            && presses@.no_duplicates() && row_major(presses@, board.size as int),
{
    if board.size <= 0 || board.cells.len() != board.size as usize {
        return None;
    }
    let n = board.size as usize;
    let mut r: usize = 0;
    while r < n
        invariant
            n == board.size,
            board.cells@.len() == n,
            0 <= r <= n,
            forall|k: int| 0 <= k < r ==> (#[trigger] board.cells@[k])@.len() == n,
        decreases n - r,
    {
        if board.cells[r].len() != n {
            return None;
        }
        r += 1;
    }
    let dark = all_dark(board, n);
    if dark {
        let ghost none = Seq::<(i32, i32)>::empty();
        proof {
            assert forall|rr: int, cc: int| 0 <= rr < board.size && 0 <= cc < board.size implies
                (#[trigger] times_flipped(none, rr, cc) % 2 == 1) == board.lit(rr, cc) by {
                assert(!board.lit(rr, cc));
            }
            assert(board.switches_off(none));
            assert(on_board(board.size as int, none));
        }
        return Some(Vec::new());
    }
    let nn = n * n;
    let mut aug = build_system(board, n);
    let ghost orig = rows_of(aug@);
    proof {
        assert forall|i: int, j: int| 0 <= i < orig.len() && 0 <= j < orig[i].len() implies #[trigger] orig[i][j] <= 1 by {}
    }
    let mut pivot_col: Vec<Option<usize>> = Vec::new();
    let mut k: usize = 0;
    while k < nn
        invariant
            0 <= k <= nn,
            pivot_col@.len() == k,
            forall|c: int| 0 <= c < k ==> #[trigger] pivot_col@[c] is None,
        decreases nn - k,
    {
        pivot_col.push(None);
        k += 1;
    }
    let mut row: usize = 0;
    let mut col: usize = 0;
    let ghost mut piv_of: Seq<int> = Seq::empty();
    while col < nn && row < nn
        invariant
            board.shaped(),
            n == board.size,
            nn == n * n,
            nn + 1 <= usize::MAX,
            orig == system(board, n as int),
            aug@.len() == nn,
            forall|i: int| 0 <= i < nn ==> (#[trigger] aug@[i])@.len() == nn + 1,
            bits(rows_of(aug@)),
            forall|x: Seq<bool>| #[trigger] solves(rows_of(aug@), x, nn as int) == solves(orig, x, nn as int),
            0 <= row <= col <= nn,
            pivot_col@.len() == nn,
            forall|rr: int, c: int| row <= rr < nn && 0 <= c < col ==> #[trigger] aug@[rr]@[c] == 0,
            forall|c: int| col <= c < nn ==> #[trigger] pivot_col@[c] is None,
            forall|c: int| 0 <= c < col ==> (#[trigger] pivot_col@[c] matches Some(p) ==> {
                &&& p < row
                &&& aug@[p as int]@[c] == 1
                &&& forall|rr: int| 0 <= rr < nn && rr != p ==> #[trigger] aug@[rr]@[c] == 0
                &&& piv_of[p as int] == c
            }),
            piv_of.len() == row,
            forall|p: int| 0 <= p < row ==> 0 <= #[trigger] piv_of[p] < col && pivot_col@[piv_of[p]] == Some(p as usize),
        decreases nn - col,
    {
        // The first equation at or below `row` that uses column `col`.
        let mut piv: usize = row;
        while piv < nn && aug[piv][col] != 1
            invariant
                row <= piv <= nn,
                col < nn,
                aug@.len() == nn,
                forall|i: int| 0 <= i < nn ==> (#[trigger] aug@[i])@.len() == nn + 1,
                forall|rr: int| row <= rr < piv ==> #[trigger] aug@[rr]@[col as int] != 1,
            decreases nn - piv,
        {
            piv += 1;
        }
        if piv == nn {
            proof {
                assert forall|rr: int, c: int| row <= rr < nn && 0 <= c < col + 1 implies #[trigger] aug@[rr]@[c] == 0 by {
                    if c == col {
                        assert(aug@[rr]@[c] != 1);
                        assert(rows_of(aug@)[rr] == aug@[rr]@);
                        assert(rows_of(aug@)[rr][c] <= 1);
                    }
                }
            }
            col += 1;
            continue;
        }
        // Bring it up to `row`.
        let ghost before_swap = rows_of(aug@);
        let upper = aug[row].clone();
        let lower = aug[piv].clone();
        proof {
            assert(upper@ == aug@[row as int]@);
            assert(lower@ == aug@[piv as int]@);
        }
        aug.set(row, lower);
        aug.set(piv, upper);
        proof {
            lemma_row_swap(before_swap, row as int, piv as int, nn as int);
            assert(rows_of(aug@) == before_swap.update(row as int, before_swap[piv as int]).update(piv as int, before_swap[row as int]));
        }
        // Clear column `col` from every other equation.
        let ghost pivot_row = aug@[row as int]@;
        let ghost before_clear = aug@;
        let mut rr: usize = 0;
        while rr < nn
            invariant
                board.shaped(),
                nn == n * n,
                nn + 1 <= usize::MAX,
                orig == system(board, n as int),
                aug@.len() == nn,
                forall|i: int| 0 <= i < nn ==> (#[trigger] aug@[i])@.len() == nn + 1,
                bits(rows_of(aug@)),
                forall|x: Seq<bool>| #[trigger] solves(rows_of(aug@), x, nn as int) == solves(orig, x, nn as int),
                0 <= row < nn,
                row <= col < nn,
                aug@[row as int]@ == pivot_row,
                pivot_row[col as int] == 1,
                forall|c: int| 0 <= c < col ==> #[trigger] pivot_row[c] == 0,
                0 <= rr <= nn,
                before_clear.len() == nn,
                forall|i: int| rr <= i < nn ==> #[trigger] aug@[i] == before_clear[i],
                forall|i: int, c: int| 0 <= i < nn && 0 <= c < col ==> #[trigger] aug@[i]@[c] == before_clear[i]@[c],
                forall|i: int| 0 <= i < rr && i != row ==> #[trigger] aug@[i]@[col as int] == 0,
            decreases nn - rr,
        {
            assert(nn < usize::MAX);
            if rr != row && aug[rr][col] == 1 {
                let ghost before = rows_of(aug@);
                proof {
                    assert(before[rr as int] == aug@[rr as int]@);
                    assert(before[row as int] == aug@[row as int]@);
                    assert forall|j: int| 0 <= j <= nn implies #[trigger] before[rr as int][j] <= 1 && before[row as int][j] <= 1 by {}
                }
                add_row(&mut aug, rr, row, col, nn);
                proof {
                    lemma_row_sum(before, rr as int, row as int, nn as int, aug@[rr as int]@);
                    assert(rows_of(aug@) == before.update(rr as int, aug@[rr as int]@));
                    assert(bits(rows_of(aug@))) by {
                        assert forall|i: int, j: int| 0 <= i < rows_of(aug@).len() && 0 <= j < rows_of(aug@)[i].len()
                            implies #[trigger] rows_of(aug@)[i][j] <= 1 by {
                            if i != rr {
                                assert(rows_of(aug@)[i] == before[i]);
                            }
                        }
                    }
                    assert forall|c: int| 0 <= c < col implies #[trigger] aug@[rr as int]@[c] == before_clear[rr as int]@[c] by {
                        assert(pivot_row[c] == 0);
                        assert(before[rr as int][c] <= 1);
                    }
                }
            } else if rr != row {
                proof {
                    assert(rows_of(aug@)[rr as int] == aug@[rr as int]@);
                    assert(rows_of(aug@)[rr as int][col as int] <= 1);
                }
            }
            rr += 1;
        }
        pivot_col.set(col, Some(row));
        proof {
            piv_of = piv_of.push(col as int);
            assert forall|r2: int, c: int| row + 1 <= r2 < nn && 0 <= c < col + 1 implies #[trigger] aug@[r2]@[c] == 0 by {
                if c < col {
                    assert(aug@[r2]@[c] == before_clear[r2]@[c]);
                }
            }
        }
        row += 1;
        col += 1;
    }
    // Every equation below the pivots has no coefficient left: it must ask for 0.
    let ghost final_rows = rows_of(aug@);
    proof {
        assert forall|rr: int, c: int| row <= rr < nn && 0 <= c < nn implies #[trigger] aug@[rr]@[c] == 0 by {
            if col < nn {
                assert(row == nn);
            }
        }
    }
    let mut rr: usize = row;
    while rr < nn
        invariant
            board.shaped(),
            n == board.size,
            nn == n * n,
            orig == system(board, n as int),
            final_rows == rows_of(aug@),
            bits(final_rows),
            forall|x: Seq<bool>| #[trigger] solves(final_rows, x, nn as int) == solves(orig, x, nn as int),
            forall|r2: int, c: int| row <= r2 < nn && 0 <= c < nn ==> #[trigger] aug@[r2]@[c] == 0,
            row <= rr <= nn,
            aug@.len() == nn,
            forall|i: int| 0 <= i < nn ==> (#[trigger] aug@[i])@.len() == nn + 1,
            forall|i: int| row <= i < rr ==> #[trigger] aug@[i]@[nn as int] == 0,
        decreases nn - rr,
    {
        if aug[rr][nn] != 0 {
            proof {
                assert(final_rows[rr as int] == aug@[rr as int]@);
                assert forall|c: int| 0 <= c < n * n implies #[trigger] final_rows[rr as int][c] == 0 by {
                    assert(aug@[rr as int]@[c] == 0);
                }
                assert(final_rows[rr as int][nn as int] <= 1);
                lemma_inconsistent(board, n as int, final_rows, orig, rr as int);
            }
            return None;
        }
        rr += 1;
    }
    // Pivot columns take the right-hand side of their equation; the others stay unpressed.
    let mut x: Vec<bool> = Vec::new();
    let mut c: usize = 0;
    while c < nn
        invariant
            0 <= c <= nn,
            pivot_col@.len() == nn,
            aug@.len() == nn,
            forall|i: int| 0 <= i < nn ==> (#[trigger] aug@[i])@.len() == nn + 1,
            forall|cc: int| 0 <= cc < nn ==> (#[trigger] pivot_col@[cc] matches Some(p) ==> p < nn),
            x@.len() == c,
            forall|cc: int| 0 <= cc < c ==> #[trigger] x@[cc] == match pivot_col@[cc] {
                Some(p) => aug@[p as int]@[nn as int] == 1,
                None => false,
            },
        decreases nn - c,
    {
        let v = match pivot_col[c] {
            Some(p) => aug[p][nn] == 1,
            None => false,
        };
        x.push(v);
        c += 1;
    }
    proof {
        assert(solves(final_rows, x@, nn as int)) by {
            assert forall|i: int| 0 <= i < final_rows.len() implies dot(#[trigger] final_rows[i], x@, nn as int)
                == (final_rows[i][nn as int] == 1) by {
                assert(final_rows[i] == aug@[i]@);
                if i < row {
                    let cp = piv_of[i];
                    assert forall|j: int| 0 <= j < nn && j != cp implies !(#[trigger] final_rows[i][j] == 1 && x@[j]) by {
                        match pivot_col@[j] {
                            Some(q) => {
                                if q as int == i {
                                    assert(piv_of[i] == j);
                                } else {
                                    assert(aug@[i]@[j] == 0);
                                }
                            },
                            None => {},
                        }
                    }
                    lemma_dot_single(final_rows[i], x@, nn as int, cp);
                } else {
                    assert forall|j: int| 0 <= j < nn implies #[trigger] final_rows[i][j] == 0 by {
                        assert(aug@[i]@[j] == 0);
                    }
                    lemma_dot_zero(final_rows[i], x@, nn as int);
                }
            }
        }
        assert(solves(orig, x@, nn as int));
    }
    // The pressed squares, in row-major order.
    let mut presses: Vec<(i32, i32)> = Vec::new();
    let mut j: usize = 0;
    while j < nn
        invariant
            board.shaped(),
            n == board.size,
            nn == n * n,
            orig == system(board, n as int),
            x@.len() == nn,
            solves(orig, x@, nn as int),
            0 <= j <= nn,
            on_board(n as int, presses@),
            presses@.no_duplicates(),
            forall|k: int| 0 <= k < presses@.len() ==> (#[trigger] presses@[k]).0 * n + presses@[k].1 < j,
            row_major(presses@, n as int),
            forall|i: int| 0 <= i < nn ==> (#[trigger] times_flipped(presses@, i / n as int, i % n as int) % 2 == 1)
                == dot(orig[i], x@, j as int),
        decreases nn - j,
    {
        if x[j] {
            let pr = j / n;
            let pc = j % n;
            proof {
                lemma_index_range(n as int, j as int);
                vstd::arithmetic::div_mod::lemma_fundamental_div_mod(j as int, n as int);
            }
            let ghost before = presses@;
            presses.push((pr as i32, pc as i32));
            proof {
                assert(presses@.drop_last() == before);
                assert forall|k: int| 0 <= k < presses@.len() implies 0 <= (#[trigger] presses@[k]).0 < n && 0 <= presses@[k].1 < n by {
                    if k < before.len() {
                        assert(presses@[k] == before[k]);
                    }
                }
                assert(presses@.no_duplicates()) by {
                    assert forall|a: int, b: int| 0 <= a < b < presses@.len() implies presses@[a] != presses@[b] by {
                        if b == presses@.len() - 1 {
                            assert(before[a].0 * n + before[a].1 < j);
                            assert(pr * n + pc == j) by (nonlinear_arith)
                                requires pr == (j as int) / (n as int), pc == (j as int) % (n as int), j == n * ((j as int) / (n as int)) + (j as int) % (n as int);
                        } else {
                            assert(before.no_duplicates());
                        }
                    }
                }
                assert(presses@.last() == (pr as i32, pc as i32));
                assert forall|i: int| 0 <= i < nn implies (#[trigger] times_flipped(presses@, i / n as int, i % n as int) % 2 == 1)
                    == dot(orig[i], x@, j + 1) by {
                    let ri = i / n as int;
                    let ci = i % n as int;
                    assert(orig[i][j as int] == 1 <==> flips(ri, ci, pr as int, pc as int));
                    assert(times_flipped(presses@, ri, ci) == times_flipped(before, ri, ci)
                        + if flips(ri, ci, pr as int, pc as int) { 1nat } else { 0nat });
                    assert(times_flipped(before, ri, ci) % 2 == 1 <==> dot(orig[i], x@, j as int));
                    assert(dot(orig[i], x@, j + 1) == (dot(orig[i], x@, j as int) != (orig[i][j as int] == 1 && x@[j as int])));
                }
                assert(pr * n + pc == j) by (nonlinear_arith)
                    requires pr == (j as int) / (n as int), pc == (j as int) % (n as int), j == n * ((j as int) / (n as int)) + (j as int) % (n as int);
            }
        } else {
            proof {
                assert forall|i: int| 0 <= i < nn implies (#[trigger] times_flipped(presses@, i / n as int, i % n as int) % 2 == 1)
                    == dot(orig[i], x@, j + 1) by {}
            }
        }
        j += 1;
    }
    proof {
        assert forall|rr: int, cc: int| 0 <= rr < board.size && 0 <= cc < board.size implies
            (#[trigger] times_flipped(presses@, rr, cc) % 2 == 1) == board.lit(rr, cc) by {
            lemma_index(n as int, rr, cc);
            let i = rr * n + cc;
            assert(dot(orig[i], x@, nn as int) == (orig[i][nn as int] == 1));
        }
        assert(board.switches_off(presses@));
    }
    Some(presses)
}

/// An equation with no coefficient that asks for 1: no presses switch the board off.
pub proof fn lemma_inconsistent(b: &LightsBoard, n: int, m: Seq<Seq<u8>>, orig: Seq<Seq<u8>>, r: int)
    requires
        b.shaped(),
        n == b.size,
        orig == system(b, n),
        forall|x: Seq<bool>| #[trigger] solves(m, x, n * n) == solves(orig, x, n * n),
        0 <= r < m.len(),
        forall|c: int| 0 <= c < n * n ==> #[trigger] m[r][c] == 0,
        m[r][n * n] == 1,
    ensures
        !b.solvable(),
{
    if b.solvable() {
        let presses = choose|presses: Seq<(i32, i32)>| on_board(b.size as int, presses) && #[trigger] b.switches_off(presses);
        lemma_pattern(b, n, presses);
        let x = pattern(presses, n);
        assert(solves(orig, x, n * n)) by {
            assert forall|i: int| 0 <= i < orig.len() implies dot(#[trigger] orig[i], x, n * n) == (orig[i][n * n] == 1) by {
                lemma_index_range(n, i);
                assert(dot(orig[i], x, n * n) == (times_flipped(presses, i / n, i % n) % 2 == 1));
            }
        }
        assert(solves(m, x, n * n));
        lemma_dot_zero(m[r], x, n * n);
        assert(dot(m[r], x, n * n) == (m[r][n * n] == 1));
    }
}

} // verus!
