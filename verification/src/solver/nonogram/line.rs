//! One line of a nonogram: its runs of filled squares, and what a clue forces on it.
use vstd::prelude::*;

verus! {

pub const UNKNOWN: u8 = 0;
pub const FILL: u8 = 1;
pub const CROSS: u8 = 2;

/// The number of filled squares at the start of `s`.
pub open spec fn lead(s: Seq<u8>) -> nat
    decreases s.len(),
{
    if s.len() > 0 && s[0] == FILL {
        1 + lead(s.drop_first())
    } else {
        0
    }
}

pub proof fn lemma_lead(s: Seq<u8>)
    ensures
        lead(s) <= s.len(),
        s.len() > 0 && s[0] == FILL ==> lead(s) >= 1,
        forall|i: int| 0 <= i < lead(s) ==> s[i] == FILL,
        lead(s) < s.len() ==> s[lead(s) as int] != FILL,
    decreases s.len(),
{
    if s.len() > 0 && s[0] == FILL {
        lemma_lead(s.drop_first());
        assert forall|i: int| 0 <= i < lead(s) implies s[i] == FILL by {
            if i > 0 {
                assert(s[i] == s.drop_first()[i - 1]);
            }
        }
        if lead(s) < s.len() {
            assert(s[lead(s) as int] == s.drop_first()[lead(s.drop_first()) as int]);
        }
    }
}

/// The lengths of the runs of filled squares of `s`, left to right.
pub open spec fn runs(s: Seq<u8>) -> Seq<int>
    decreases s.len(),
{
    if s.len() == 0 {
        Seq::empty()
    } else if s[0] != FILL {
        runs(s.drop_first())
    } else {
        proof {
            lemma_lead(s);
        }
        seq![lead(s) as int] + runs(s.skip(lead(s) as int))
    }
}

/// A clue as integers.
pub open spec fn clue_of(c: Seq<i32>) -> Seq<int> {
    c.map_values(|x: i32| x as int)
}

/// Every square of `f` is filled or crossed.
pub open spec fn full(f: Seq<u8>) -> bool {
    forall|i: int| 0 <= i < f.len() ==> #[trigger] f[i] == FILL || f[i] == CROSS
}

/// `f` keeps every square that `line` already knows.
pub open spec fn agrees(line: Seq<u8>, f: Seq<u8>) -> bool {
    &&& f.len() == line.len()
    &&& forall|i: int| 0 <= i < line.len() && #[trigger] line[i] != UNKNOWN ==> f[i] == line[i]
}

/// `f` completes `line` and its runs are the clue.
pub open spec fn valid_line(line: Seq<u8>, clue: Seq<int>, f: Seq<u8>) -> bool {
    agrees(line, f) && full(f) && runs(f) == clue
}

/// Every square is unknown, filled or crossed.
pub open spec fn marks(s: Seq<u8>) -> bool {
    forall|i: int| 0 <= i < s.len() ==> #[trigger] s[i] <= CROSS
}

/// The squares the runs `segs[k..]` need from their first square on: their lengths and a gap between each two.
pub open spec fn need(segs: Seq<int>, k: int) -> int
    decreases segs.len() - k,
{
    if k >= segs.len() {
        0
    } else if k + 1 == segs.len() {
        segs[k]
    } else {
        segs[k] + 1 + need(segs, k + 1)
    }
}

/// `f` from square `pos` on lays out the runs `segs[k..]`: crosses, then each run, a cross after
/// each run but the last, and crosses to the end.
pub open spec fn laid(f: Seq<u8>, segs: Seq<int>, k: int, pos: int) -> bool
    decreases segs.len() - k,
{
    if k >= segs.len() {
        forall|i: int| pos <= i < f.len() ==> #[trigger] f[i] == CROSS
    } else {
        exists|s: int| #[trigger] laid_from(f, segs, k, pos, s) && if k + 1 < segs.len() {
            laid(f, segs, k + 1, s + segs[k] + 1)
        } else {
            laid(f, segs, k + 1, s + segs[k])
        }
    }
}

/// Run `k` of `f` starts at `s`, after crosses from `pos`.
pub open spec fn laid_from(f: Seq<u8>, segs: Seq<int>, k: int, pos: int, s: int) -> bool {
    &&& pos <= s
    &&& s + segs[k] <= f.len()
    &&& forall|i: int| pos <= i < s ==> #[trigger] f[i] == CROSS
    &&& forall|i: int| s <= i < s + segs[k] ==> #[trigger] f[i] == FILL
    &&& k + 1 < segs.len() ==> s + segs[k] < f.len() && f[s + segs[k]] == CROSS
}

/// Runs of a line that starts with an unfilled square are the runs of the rest.
pub proof fn lemma_runs_skip_cross(s: Seq<u8>, z: int)
    requires
        0 <= z <= s.len(),
        forall|i: int| 0 <= i < z ==> #[trigger] s[i] != FILL,
    ensures
        runs(s) == runs(s.skip(z)),
    decreases z,
{
    if z > 0 {
        assert(s[0] != FILL);
        assert forall|i: int| 0 <= i < z - 1 implies #[trigger] s.drop_first()[i] != FILL by {
            assert(s.drop_first()[i] == s[i + 1]);
        }
        lemma_runs_skip_cross(s.drop_first(), z - 1);
        assert(s.drop_first().skip(z - 1) == s.skip(z));
    } else {
        assert(s.skip(0) =~= s);
    }
}

/// A line with no runs has no filled square.
pub proof fn lemma_no_runs(s: Seq<u8>)
    requires
        runs(s).len() == 0,
    ensures
        forall|i: int| 0 <= i < s.len() ==> #[trigger] s[i] != FILL,
    decreases s.len(),
{
    if s.len() > 0 {
        if s[0] != FILL {
            lemma_no_runs(s.drop_first());
            assert forall|i: int| 0 <= i < s.len() implies #[trigger] s[i] != FILL by {
                if i > 0 {
                    assert(s[i] == s.drop_first()[i - 1]);
                }
            }
        }
    }
}

/// The first filled square of a line with runs.
pub proof fn lemma_first_fill(s: Seq<u8>) -> (z: int)
    requires
        runs(s).len() > 0,
    ensures
        0 <= z < s.len(),
        s[z] == FILL,
        forall|i: int| 0 <= i < z ==> #[trigger] s[i] != FILL,
    decreases s.len(),
{
    if s[0] == FILL {
        0
    } else {
        let z1 = lemma_first_fill(s.drop_first());
        assert forall|i: int| 0 <= i < z1 + 1 implies #[trigger] s[i] != FILL by {
            if i > 0 {
                assert(s[i] == s.drop_first()[i - 1]);
            }
        }
        z1 + 1
    }
}

/// A full line whose runs from `pos` on are `segs[k..]` lays them out from `pos`.
pub proof fn lemma_laid(f: Seq<u8>, segs: Seq<int>, k: int, pos: int)
    requires
        full(f),
        0 <= pos <= f.len(),
        0 <= k <= segs.len(),
        runs(f.skip(pos)) == segs.skip(k),
    ensures
        laid(f, segs, k, pos),
    decreases segs.len() - k,
{
    let t = f.skip(pos);
    if k == segs.len() {
        assert(runs(t).len() == 0);
        lemma_no_runs(t);
        assert forall|i: int| pos <= i < f.len() implies #[trigger] f[i] == CROSS by {
            assert(t[i - pos] == f[i]);
        }
    } else {
        assert(runs(t).len() > 0);
        let z = lemma_first_fill(t);
        lemma_runs_skip_cross(t, z);
        let u = t.skip(z);
        assert(u[0] == FILL);
        lemma_lead(u);
        let l = lead(u) as int;
        assert(runs(u) == seq![l] + runs(u.skip(l)));
        assert(segs.skip(k)[0] == segs[k]);
        assert(l == segs[k]);
        let s = pos + z;
        assert(u.skip(l) == f.skip(s + l));
        assert(runs(f.skip(s + l)) == segs.skip(k + 1)) by {
            assert(segs.skip(k).drop_first() == segs.skip(k + 1));
            assert((seq![l] + runs(u.skip(l))).drop_first() == runs(u.skip(l)));
        }
        assert forall|i: int| pos <= i < s implies #[trigger] f[i] == CROSS by {
            assert(t[i - pos] == f[i]);
            assert(t[i - pos] != FILL);
        }
        assert forall|i: int| s <= i < s + segs[k] implies #[trigger] f[i] == FILL by {
            assert(u[i - s] == f[i]);
        }
        if k + 1 < segs.len() {
            let v = f.skip(s + l);
            assert(runs(v).len() > 0);
            assert(s + l < f.len()) by {
                if s + l >= f.len() {
                    assert(v.len() == 0);
                }
            }
            assert(f[s + l] == u[l]);
            assert(f[s + l] == CROSS);
            assert(v[0] == f[s + l]);
            lemma_runs_skip_cross(v, 1);
            assert(v.skip(1) == f.skip(s + l + 1));
            lemma_laid(f, segs, k + 1, s + l + 1);
        } else {
            lemma_laid(f, segs, k + 1, s + l);
        }
        assert(laid_from(f, segs, k, pos, s));
    }
}

/// Laying out runs `k..` from `pos` needs `need(segs, k)` squares.
pub proof fn lemma_laid_room(f: Seq<u8>, segs: Seq<int>, k: int, pos: int)
    requires
        laid(f, segs, k, pos),
        0 <= k,
        0 <= pos,
        forall|j: int| 0 <= j < segs.len() ==> #[trigger] segs[j] >= 0,
    ensures
        k < segs.len() ==> pos + need(segs, k) <= f.len(),
    decreases segs.len() - k,
{
    if k < segs.len() {
        let s = choose|s: int| #[trigger] laid_from(f, segs, k, pos, s) && if k + 1 < segs.len() {
            laid(f, segs, k + 1, s + segs[k] + 1)
        } else {
            laid(f, segs, k + 1, s + segs[k])
        };
        if k + 1 < segs.len() {
            lemma_laid_room(f, segs, k + 1, s + segs[k] + 1);
        }
    }
}

// ---------------------------------------------------------------- enumeration

/// What the layouts counted so far say of each square: some put a fill there, some a cross.
pub open spec fn tallied(line: Seq<u8>, can_fill: Seq<bool>, can_cross: Seq<bool>) -> bool {
    &&& can_fill.len() == line.len()
    &&& can_cross.len() == line.len()
    &&& forall|i: int| 0 <= i < line.len() && #[trigger] line[i] == FILL ==> !can_cross[i]
    &&& forall|i: int| 0 <= i < line.len() && #[trigger] line[i] == CROSS ==> !can_fill[i]
}

/// The layout `f` is counted.
pub open spec fn counted(f: Seq<u8>, can_fill: Seq<bool>, can_cross: Seq<bool>, any: bool) -> bool {
    &&& any
    &&& forall|i: int| 0 <= i < f.len() && #[trigger] f[i] == FILL ==> can_fill[i]
    &&& forall|i: int| 0 <= i < f.len() && #[trigger] f[i] == CROSS ==> can_cross[i]
}

/// `f` lays out the runs of `clue` over the whole line and keeps every square `line` already knows.
pub open spec fn placement(line: Seq<u8>, clue: Seq<int>, f: Seq<u8>) -> bool {
    agrees(line, f) && laid(f, clue, 0, 0)
}

/// What the placements of `clue` that keep `line` say of square `i`: what `line` knows there, else
/// a fill or a cross where every placement has one, else unknown.
pub open spec fn settled_square(line: Seq<u8>, clue: Seq<int>, i: int) -> u8 {
    if line[i] != UNKNOWN {
        line[i]
    } else if forall|f: Seq<u8>| #[trigger] placement(line, clue, f) ==> f[i] == FILL {
        FILL
    } else if forall|f: Seq<u8>| #[trigger] placement(line, clue, f) ==> f[i] == CROSS {
        CROSS
    } else {
        UNKNOWN
    }
}

/// Every mark counted comes from a placement.
pub open spec fn witnessed(line: Seq<u8>, clue: Seq<int>, can_fill: Seq<bool>, can_cross: Seq<bool>, any: bool) -> bool {
    &&& any ==> exists|f: Seq<u8>| #[trigger] placement(line, clue, f)
    &&& forall|i: int| 0 <= i < can_fill.len() && #[trigger] can_fill[i] ==>
        exists|f: Seq<u8>| #[trigger] placement(line, clue, f) && f[i] == FILL
    &&& forall|i: int| 0 <= i < can_cross.len() && #[trigger] can_cross[i] ==>
        exists|f: Seq<u8>| #[trigger] placement(line, clue, f) && f[i] != FILL
}

/// Any line of `n` squares that starts with `prefix` and lays out the runs `k..` from `pos` lays out
/// all the runs.
pub open spec fn prefix_laid(n: int, clue: Seq<int>, k: int, pos: int, prefix: Seq<u8>) -> bool {
    forall|f: Seq<u8>| f.len() == n && f.take(pos) == prefix && #[trigger] laid(f, clue, k, pos) ==> laid(f, clue, 0, 0)
}

/// A line that lays out runs from `pos` is filled or crossed from `pos` on.
pub proof fn lemma_laid_full(f: Seq<u8>, segs: Seq<int>, k: int, pos: int)
    requires
        laid(f, segs, k, pos),
        0 <= k,
        forall|j: int| 0 <= j < segs.len() ==> #[trigger] segs[j] >= 0,
    ensures
        forall|i: int| pos <= i < f.len() ==> #[trigger] f[i] == FILL || f[i] == CROSS,
    decreases segs.len() - k,
{
    if k < segs.len() {
        let s = choose|s: int| #[trigger] laid_from(f, segs, k, pos, s) && if k + 1 < segs.len() {
            laid(f, segs, k + 1, s + segs[k] + 1)
        } else {
            laid(f, segs, k + 1, s + segs[k])
        };
        if k + 1 < segs.len() {
            lemma_laid_full(f, segs, k + 1, s + segs[k] + 1);
            assert forall|i: int| pos <= i < f.len() implies #[trigger] f[i] == FILL || f[i] == CROSS by {
                if i == s + segs[k] {
                    assert(f[s + segs[k]] == CROSS);
                }
            }
        } else {
            lemma_laid_full(f, segs, k + 1, s + segs[k]);
        }
    }
}

/// Painting run `k` at `start` after crosses from `pos`, and a cross after it unless it is the last,
/// keeps every completion of the painted prefix a layout of all the runs.
pub proof fn lemma_prefix_step(n: int, sg: Seq<int>, k: int, pos: int, start: int, next_pos: int, frozen: Seq<u8>, painted: Seq<u8>)
    requires
        prefix_laid(n, sg, k, pos, frozen),
        painted.len() == n,
        0 <= pos <= start,
        painted.take(pos) == frozen,
        0 <= k < sg.len(),
        sg[k] >= 0,
        start + sg[k] <= n,
        forall|i: int| pos <= i < start ==> #[trigger] painted[i] == CROSS,
        forall|i: int| start <= i < start + sg[k] ==> #[trigger] painted[i] == FILL,
        k + 1 < sg.len() ==> next_pos == start + sg[k] + 1 && start + sg[k] < n && painted[start + sg[k]] == CROSS,
        k + 1 >= sg.len() ==> next_pos == start + sg[k],
    ensures
        prefix_laid(n, sg, k + 1, next_pos, painted.take(next_pos)),
{
    assert forall|f: Seq<u8>| f.len() == n && f.take(next_pos) == painted.take(next_pos) && #[trigger] laid(f, sg, k + 1, next_pos)
        implies laid(f, sg, 0, 0) by {
        assert forall|i: int| 0 <= i < next_pos implies #[trigger] f[i] == painted[i] by {
            assert(f.take(next_pos)[i] == painted.take(next_pos)[i]);
        }
        assert forall|i: int| pos <= i < start implies #[trigger] f[i] == CROSS by {
            assert(f[i] == painted[i]);
        }
        assert forall|i: int| start <= i < start + sg[k] implies #[trigger] f[i] == FILL by {
            assert(f[i] == painted[i]);
        }
        if k + 1 < sg.len() {
            assert(f[start + sg[k]] == painted[start + sg[k]]);
        }
        assert(laid_from(f, sg, k, pos, start));
        assert(laid(f, sg, k, pos));
        assert(f.take(pos) =~= frozen) by {
            assert forall|i: int| 0 <= i < pos implies f.take(pos)[i] == frozen[i] by {
                assert(f[i] == painted[i]);
                assert(painted.take(pos)[i] == frozen[i]);
            }
        }
    }
}

/// Nothing counted before is forgotten.
pub open spec fn kept(a: Seq<bool>, b: Seq<bool>) -> bool {
    a.len() == b.len() && forall|i: int| 0 <= i < a.len() && #[trigger] a[i] ==> b[i]
}

pub open spec fn segs_int(segs: Seq<usize>) -> Seq<int> {
    segs.map_values(|x: usize| x as int)
}

/// Writes `v` over `current[from..to]`.
fn paint(current: &mut Vec<u8>, from: usize, to: usize, v: u8)
    requires
        from <= to <= old(current)@.len(),
    ensures
        final(current)@.len() == old(current)@.len(),
        forall|i: int| 0 <= i < final(current)@.len() ==> #[trigger] final(current)@[i]
            == if from <= i < to { v } else { old(current)@[i] },
{
    let mut i = from;
    while i < to
        invariant
            from <= i <= to,
            to <= current@.len(),
            current@.len() == old(current)@.len(),
            forall|j: int| 0 <= j < current@.len() ==> #[trigger] current@[j]
                == if from <= j < i { v } else { old(current)@[j] },
        decreases to - i,
    {
        current.set(i, v);
        i += 1;
    }
}

/// Counts every layout of the runs `segs[k..]` from square `pos` that, after the squares
/// `current[..pos]`, keeps what `line` knows.
fn enumerate(
    line: &Vec<u8>,
    segs: &Vec<usize>,
    k: usize,
    pos: usize,
    current: &mut Vec<u8>,
    can_fill: &mut Vec<bool>,
    can_cross: &mut Vec<bool>,
    any: &mut bool,
)
    requires
        old(current)@.len() == line@.len(),
        line@.len() < usize::MAX,
        k <= segs@.len(),
        pos <= line@.len(),
        k < segs@.len() ==> pos + need(segs_int(segs@), k as int) <= line@.len(),
        tallied(line@, old(can_fill)@, old(can_cross)@),
        witnessed(line@, segs_int(segs@), old(can_fill)@, old(can_cross)@, *old(any)),
        prefix_laid(line@.len() as int, segs_int(segs@), k as int, pos as int, old(current)@.take(pos as int)),
    ensures
        final(current)@.len() == line@.len(),
        final(current)@.take(pos as int) == old(current)@.take(pos as int),
        tallied(line@, final(can_fill)@, final(can_cross)@),
        witnessed(line@, segs_int(segs@), final(can_fill)@, final(can_cross)@, *final(any)),
        kept(old(can_fill)@, final(can_fill)@),
        kept(old(can_cross)@, final(can_cross)@),
        *old(any) ==> *final(any),
        forall|f: Seq<u8>| f.len() == line@.len() && agrees(line@, f) && f.take(pos as int) == old(current)@.take(pos as int)
            && #[trigger] laid(f, segs_int(segs@), k as int, pos as int)
            ==> counted(f, final(can_fill)@, final(can_cross)@, *final(any)),
    decreases segs@.len() - k,
{
    let n = line.len();
    let ghost sg = segs_int(segs@);
    let ghost frozen = current@.take(pos as int);
    if k == segs.len() {
        paint(current, pos, n, CROSS);
        proof {
            assert(current@.take(pos as int) =~= frozen);
        }
        if !agrees_on(line, current, 0, n) {
            proof {
                assert forall|f: Seq<u8>| f.len() == line@.len() && agrees(line@, f) && f.take(pos as int) == frozen
                    && #[trigger] laid(f, sg, k as int, pos as int) implies false by {
                    lemma_same_line(f, current@, frozen, pos as int);
                    let i = choose|i: int| 0 <= i < n && #[trigger] line@[i] != UNKNOWN && line@[i] != current@[i];
                }
            }
            return;
        }
        let ghost cf0 = can_fill@;
        let ghost cc0 = can_cross@;
        proof {
            assert(laid(current@, sg, k as int, pos as int));
            assert(laid(current@, sg, 0, 0));
            assert(agrees(line@, current@));
        }
        let mut i: usize = 0;
        while i < n
            invariant
                n == line@.len(),
                current@.len() == n,
                forall|j: int| 0 <= j < n ==> (#[trigger] line@[j] == UNKNOWN || line@[j] == current@[j]),
                placement(line@, sg, current@),
                witnessed(line@, sg, can_fill@, can_cross@, *any),
                0 <= i <= n,
                can_fill@.len() == n,
                can_cross@.len() == n,
                kept(cf0, can_fill@),
                kept(cc0, can_cross@),
                tallied(line@, can_fill@, can_cross@),
                forall|j: int| 0 <= j < i && #[trigger] current@[j] == FILL ==> can_fill@[j],
                forall|j: int| 0 <= j < i && #[trigger] current@[j] != FILL ==> can_cross@[j],
            decreases n - i,
        {
            proof {
                assert(placement(line@, sg, current@));
            }
            if current[i] == FILL {
                can_fill.set(i, true);
            } else {
                can_cross.set(i, true);
            }
            i += 1;
        }
        *any = true;
        proof {
            assert(placement(line@, sg, current@));
        }
        proof {
            assert forall|f: Seq<u8>| f.len() == line@.len() && agrees(line@, f) && f.take(pos as int) == frozen
                && #[trigger] laid(f, sg, k as int, pos as int) implies counted(f, can_fill@, can_cross@, *any) by {
                lemma_same_line(f, current@, frozen, pos as int);
            }
        }
        return;
    }
    let seg_len = segs[k];
    // The squares the later runs need, with a gap before each.
    let mut remaining: usize = 0;
    let mut j = segs.len();
    proof {
        lemma_segs_nonneg(segs@);
        lemma_need_tail(sg, k as int);
    }
    while j > k + 1
        invariant
            k + 1 <= j <= segs@.len(),
            k < segs@.len(),
            sg == segs_int(segs@),
            pos + need(sg, k as int) <= n,
            n == line@.len(),
            remaining == if j == segs@.len() { 0 } else { need(sg, j as int) + 1 },
            forall|jj: int| k < jj < segs@.len() ==> need(sg, jj) + 1 <= need(sg, k as int),
        decreases j,
    {
        j -= 1;
        proof {
            assert(need(sg, j as int) == sg[j as int] + if j + 1 == segs@.len() { 0 } else { 1 + need(sg, j + 1) });
        }
        remaining = remaining + segs[j] + 1;
    }
    proof {
        if k + 1 < segs@.len() {
            lemma_need_tail(sg, k + 1);
        }
    }
    let max_start = n - (seg_len + remaining);
    let ghost cf0 = can_fill@;
    let ghost cc0 = can_cross@;
    let ghost any0 = *any;
    let last = k + 1 == segs.len();
    let mut start = pos;
    while start <= max_start
        invariant
            n == line@.len(),
            n < usize::MAX,
            sg == segs_int(segs@),
            k < segs@.len(),
            segs@.len() <= usize::MAX,
            last == (k + 1 == segs@.len()),
            seg_len == segs@[k as int],
            need(sg, k as int) == seg_len + remaining,
            remaining == if last { 0 } else { need(sg, k + 1) + 1 },
            !last ==> need(sg, k + 1) >= 0,
            pos + seg_len + remaining <= n,
            max_start == n - (seg_len + remaining),
            pos <= start <= max_start + 1,
            current@.len() == n,
            current@.take(pos as int) == frozen,
            tallied(line@, can_fill@, can_cross@),
            witnessed(line@, sg, can_fill@, can_cross@, *any),
            prefix_laid(n as int, sg, k as int, pos as int, frozen),
            forall|t: int| 0 <= t < sg.len() ==> #[trigger] sg[t] >= 0,
            kept(cf0, can_fill@),
            kept(cc0, can_cross@),
            any0 ==> *any,
            forall|f: Seq<u8>| f.len() == n && agrees(line@, f) && f.take(pos as int) == frozen
                && #[trigger] laid(f, sg, k as int, pos as int) && first_start(f, sg, k as int, pos as int) < start
                ==> counted(f, can_fill@, can_cross@, *any),
        decreases max_start + 1 - start,
    {
        paint(current, pos, start, CROSS);
        paint(current, start, start + seg_len, FILL);
        let next_pos = if !last {
            current.set(start + seg_len, CROSS);
            start + seg_len + 1
        } else {
            start + seg_len
        };
        proof {
            assert(current@.take(pos as int) =~= frozen);
        }
        let ghost laid_now = current@;
        let ok = agrees_on(line, current, pos, next_pos);
        if ok {
            proof {
                if !last {
                    lemma_need_next(sg, k as int);
                }
                assert(sg[k as int] == seg_len);
                lemma_prefix_step(n as int, sg, k as int, pos as int, start as int, next_pos as int, frozen, laid_now);
            }
            enumerate(line, segs, k + 1, next_pos, current, can_fill, can_cross, any);
            proof {
                assert(current@.take(pos as int) =~= frozen) by {
                    assert forall|jj: int| 0 <= jj < pos implies current@[jj] == laid_now[jj] by {
                        assert(current@.take(next_pos as int)[jj] == laid_now.take(next_pos as int)[jj]);
                    }
                }
            }
        }
        proof {
            assert forall|f: Seq<u8>| f.len() == n && agrees(line@, f) && f.take(pos as int) == frozen
                && #[trigger] laid(f, sg, k as int, pos as int) && first_start(f, sg, k as int, pos as int) < start + 1
                implies counted(f, can_fill@, can_cross@, *any) by {
                let s = first_start(f, sg, k as int, pos as int);
                lemma_first_start(f, sg, k as int, pos as int);
                if s == start {
                    assert(f.take(next_pos as int) =~= laid_now.take(next_pos as int)) by {
                        assert forall|jj: int| 0 <= jj < next_pos implies f[jj] == laid_now[jj] by {
                            if jj < pos {
                                assert(f.take(pos as int)[jj] == frozen[jj]);
                                assert(laid_now.take(pos as int)[jj] == frozen[jj]);
                            }
                        }
                    }
                    assert(ok) by {
                        if !ok {
                            let i = choose|i: int| pos <= i < next_pos && #[trigger] line@[i] != UNKNOWN && line@[i] != laid_now[i];
                            assert(f[i] == laid_now[i]);
                        }
                    }
                }
            }
        }
        start += 1;
    }
    proof {
        assert forall|f: Seq<u8>| f.len() == line@.len() && agrees(line@, f) && f.take(pos as int) == frozen
            && #[trigger] laid(f, sg, k as int, pos as int) implies counted(f, can_fill@, can_cross@, *any) by {
            lemma_first_start(f, sg, k as int, pos as int);
            lemma_laid_room_start(f, sg, k as int, pos as int);
        }
    }
}

/// Whether `current` keeps what `line` knows on the squares `from..to`.
fn agrees_on(line: &Vec<u8>, current: &Vec<u8>, from: usize, to: usize) -> (r: bool)
    requires
        from <= to <= line@.len(),
        current@.len() == line@.len(),
    ensures
        r == forall|i: int| from <= i < to ==> (#[trigger] line@[i] == UNKNOWN || line@[i] == current@[i]),
        !r ==> exists|i: int| from <= i < to && #[trigger] line@[i] != UNKNOWN && line@[i] != current@[i],
{
    let mut i = from;
    while i < to
        invariant
            from <= i <= to,
            to <= line@.len(),
            current@.len() == line@.len(),
            forall|j: int| from <= j < i ==> (#[trigger] line@[j] == UNKNOWN || line@[j] == current@[j]),
        decreases to - i,
    {
        if line[i] != UNKNOWN && line[i] != current[i] {
            return false;
        }
        i += 1;
    }
    true
}

/// A layout with the runs done, after the prefix `frozen`, is the prefix followed by crosses.
proof fn lemma_same_line(f: Seq<u8>, current: Seq<u8>, frozen: Seq<u8>, pos: int)
    requires
        f.len() == current.len(),
        0 <= pos <= f.len(),
        f.take(pos) == frozen,
        current.take(pos) == frozen,
        forall|i: int| pos <= i < f.len() ==> #[trigger] f[i] == CROSS,
        forall|i: int| pos <= i < current.len() ==> #[trigger] current[i] == CROSS,
    ensures
        f == current,
{
    assert forall|i: int| 0 <= i < f.len() implies f[i] == current[i] by {
        if i < pos {
            assert(f.take(pos)[i] == frozen[i]);
            assert(current.take(pos)[i] == frozen[i]);
        }
    }
    assert(f =~= current);
}

pub proof fn lemma_segs_nonneg(segs: Seq<usize>)
    ensures
        forall|j: int| 0 <= j < segs_int(segs).len() ==> #[trigger] segs_int(segs)[j] >= 0,
{
}

/// The first square where run `k` of a layout from `pos` can start.
pub open spec fn first_start(f: Seq<u8>, segs: Seq<int>, k: int, pos: int) -> int {
    choose|s: int| #[trigger] laid_from(f, segs, k, pos, s) && if k + 1 < segs.len() {
        laid(f, segs, k + 1, s + segs[k] + 1)
    } else {
        laid(f, segs, k + 1, s + segs[k])
    }
}

pub proof fn lemma_first_start(f: Seq<u8>, segs: Seq<int>, k: int, pos: int)
    requires
        0 <= k < segs.len(),
        laid(f, segs, k, pos),
    ensures
        laid_from(f, segs, k, pos, first_start(f, segs, k, pos)),
        k + 1 < segs.len() ==> laid(f, segs, k + 1, first_start(f, segs, k, pos) + segs[k] + 1),
        k + 1 >= segs.len() ==> laid(f, segs, k + 1, first_start(f, segs, k, pos) + segs[k]),
{
}

/// Where run `k` starts, the runs after it still fit.
pub proof fn lemma_laid_room_start(f: Seq<u8>, segs: Seq<int>, k: int, pos: int)
    requires
        0 <= k < segs.len(),
        0 <= pos,
        laid(f, segs, k, pos),
        forall|j: int| 0 <= j < segs.len() ==> #[trigger] segs[j] >= 0,
    ensures
        first_start(f, segs, k, pos) + need(segs, k) <= f.len(),
{
    lemma_first_start(f, segs, k, pos);
    let s = first_start(f, segs, k, pos);
    if k + 1 < segs.len() {
        lemma_laid_room(f, segs, k + 1, s + segs[k] + 1);
    }
}

pub proof fn lemma_need_tail(segs: Seq<int>, k: int)
    requires
        0 <= k < segs.len(),
        forall|j: int| 0 <= j < segs.len() ==> #[trigger] segs[j] >= 0,
    ensures
        forall|jj: int| k < jj < segs.len() ==> need(segs, jj) + 1 <= need(segs, k),
        need(segs, k) >= 0,
    decreases segs.len() - k,
{
    if k + 1 < segs.len() {
        lemma_need_tail(segs, k + 1);
    }
}

pub proof fn lemma_need_next(segs: Seq<int>, k: int)
    requires
        0 <= k,
        k + 1 < segs.len(),
    ensures
        need(segs, k) == segs[k] + 1 + need(segs, k + 1),
{
}


/// Whether the runs of filled squares of `line` are the clue.
pub fn line_matches_clue(line: &Vec<u8>, clue: &Vec<i32>) -> (r: bool)
    ensures
        r == (runs(line@) == clue_of(clue@)),
{
    let n = line.len();
    let mut segs: Vec<usize> = Vec::new();
    let mut i: usize = 0;
    proof {
        assert(line@.skip(0) == line@);
    }
    while i < n
        invariant
            n == line@.len(),
            0 <= i <= n,
            runs(line@) == segs_int(segs@) + runs(line@.skip(i as int)),
        decreases n - i,
    {
        let ghost rest = line@.skip(i as int);
        if line[i] != FILL {
            proof {
                assert(rest[0] == line@[i as int]);
                assert(rest.drop_first() == line@.skip(i + 1));
            }
            i += 1;
        } else {
            let mut j = i;
            while j < n && line[j] == FILL
                invariant
                    i <= j <= n,
                    n == line@.len(),
                    forall|t: int| i <= t < j ==> #[trigger] line@[t] == FILL,
                decreases n - j,
            {
                j += 1;
            }
            proof {
                lemma_lead_exact(rest, (j - i) as int);
                assert(rest.skip((j - i) as int) == line@.skip(j as int));
                assert(runs(rest) == seq![(j - i) as int] + runs(line@.skip(j as int)));
                assert(segs_int(segs@.push((j - i) as usize)) == segs_int(segs@).push((j - i) as int));
            }
            segs.push(j - i);
            i = j;
        }
    }
    proof {
        assert(line@.skip(n as int).len() == 0);
        assert(runs(line@) == segs_int(segs@));
    }
    if segs.len() != clue.len() {
        proof {
            assert(clue_of(clue@).len() == clue@.len());
        }
        return false;
    }
    let mut k: usize = 0;
    while k < segs.len()
        invariant
            segs@.len() == clue@.len(),
            runs(line@) == segs_int(segs@),
            0 <= k <= segs@.len(),
            forall|t: int| 0 <= t < k ==> #[trigger] segs_int(segs@)[t] == clue_of(clue@)[t],
        decreases segs@.len() - k,
    {
        if segs[k] as i128 != clue[k] as i128 {
            proof {
                assert(segs_int(segs@)[k as int] != clue_of(clue@)[k as int]);
            }
            return false;
        }
        k += 1;
    }
    proof {
        assert(segs_int(segs@) =~= clue_of(clue@));
    }
    true
}

/// `s` starts with exactly `l` filled squares.
pub proof fn lemma_lead_exact(s: Seq<u8>, l: int)
    requires
        1 <= l <= s.len(),
        forall|t: int| 0 <= t < l ==> #[trigger] s[t] == FILL,
        l < s.len() ==> s[l] != FILL,
    ensures
        lead(s) == l,
    decreases l,
{
    if l > 1 {
        assert forall|t: int| 0 <= t < l - 1 implies #[trigger] s.drop_first()[t] == FILL by {
            assert(s.drop_first()[t] == s[t + 1]);
        }
        if l - 1 < s.drop_first().len() {
            assert(s.drop_first()[l - 1] == s[l]);
        }
        lemma_lead_exact(s.drop_first(), l - 1);
        assert(s[0] == FILL);
    } else {
        assert(s[0] == FILL);
        if s.len() > 1 {
            assert(s.drop_first()[0] == s[1]);
        }
        assert(lead(s.drop_first()) == 0);
    }
}

/// Fixes every unknown square of `line` that all layouts of `clue` keeping what `line` knows agree on.
/// `false` when there is no such layout. `changed` is set when a square was fixed.
pub fn propagate_line(line: &mut Vec<u8>, clue: &Vec<i32>, changed: &mut bool) -> (ok: bool)
    requires
        marks(old(line)@),
        old(line)@.len() < usize::MAX,
        forall|j: int| 0 <= j < clue@.len() ==> #[trigger] clue@[j] >= 0,
    ensures
        final(line)@.len() == old(line)@.len(),
        marks(final(line)@),
        agrees(old(line)@, final(line)@),
        ok ==> forall|f: Seq<u8>| #[trigger] valid_line(old(line)@, clue_of(clue@), f) ==> agrees(final(line)@, f),
        !ok ==> forall|f: Seq<u8>| !#[trigger] valid_line(old(line)@, clue_of(clue@), f),
        ok == exists|f: Seq<u8>| #[trigger] placement(old(line)@, clue_of(clue@), f),
        !ok ==> final(line)@ == old(line)@,
        ok ==> forall|i: int| 0 <= i < old(line)@.len() ==>
            #[trigger] final(line)@[i] == settled_square(old(line)@, clue_of(clue@), i),
        *final(changed) == (*old(changed) || final(line)@ != old(line)@),
{
    let n = line.len();
    let ghost start = line@;
    // The squares the clue needs: its runs and a gap between each two.
    let mut segs: Vec<usize> = Vec::new();
    let mut k: usize = 0;
    while k < clue.len()
        invariant
            0 <= k <= clue@.len(),
            forall|j: int| 0 <= j < clue@.len() ==> #[trigger] clue@[j] >= 0,
            segs_int(segs@) == clue_of(clue@).take(k as int),
            segs@.len() == k,
            forall|t: int| 0 <= t < segs@.len() ==> #[trigger] segs@[t] <= i32::MAX,
        decreases clue@.len() - k,
    {
        segs.push(clue[k] as usize);
        proof {
            assert(clue_of(clue@).take(k + 1) == clue_of(clue@).take(k as int).push(clue@[k as int] as int));
        }
        k += 1;
    }
    let ghost sg = segs_int(segs@);
    proof {
        assert(clue_of(clue@).take(k as int) == clue_of(clue@));
        lemma_segs_nonneg(segs@);
    }
    let mut min_len: u128 = 0;
    let mut j = segs.len();
    while j > 0
        invariant
            0 <= j <= segs@.len(),
            sg == segs_int(segs@),
            min_len == if j == segs@.len() { 0 } else { need(sg, j as int) },
            min_len <= (segs@.len() - j) * 0x1_0000_0000,
            segs@.len() <= usize::MAX,
            forall|t: int| 0 <= t < segs@.len() ==> #[trigger] segs@[t] <= i32::MAX,
        decreases j,
    {
        j -= 1;
        let s = segs[j] as u128;
        if j + 1 == segs.len() {
            min_len = s;
        } else {
            min_len = s + 1 + min_len;
        }
        proof {
            assert(min_len <= (segs@.len() - j) * 0x1_0000_0000) by (nonlinear_arith)
                requires
                    min_len <= s + 1 + (segs@.len() - j - 1) * 0x1_0000_0000,
                    s <= i32::MAX;
        }
    }
    if min_len > n as u128 {
        proof {
            assert forall|f: Seq<u8>| !#[trigger] valid_line(start, clue_of(clue@), f) by {
                if valid_line(start, clue_of(clue@), f) {
                    assert(f.skip(0) == f);
                    assert(sg.skip(0) == sg);
                    lemma_laid(f, sg, 0, 0);
                    lemma_laid_room(f, sg, 0, 0);
                }
            }
            assert forall|f: Seq<u8>| !#[trigger] placement(start, clue_of(clue@), f) by {
                if placement(start, clue_of(clue@), f) {
                    lemma_laid_room(f, sg, 0, 0);
                }
            }
        }
        return false;
    }
    let mut current: Vec<u8> = Vec::new();
    let mut can_fill: Vec<bool> = Vec::new();
    let mut can_cross: Vec<bool> = Vec::new();
    let mut i: usize = 0;
    while i < n
        invariant
            0 <= i <= n,
            n == line@.len(),
            current@.len() == i,
            can_fill@.len() == i,
            can_cross@.len() == i,
            forall|t: int| 0 <= t < i ==> !#[trigger] can_fill@[t],
            forall|t: int| 0 <= t < i ==> !#[trigger] can_cross@[t],
        decreases n - i,
    {
        current.push(CROSS);
        can_fill.push(false);
        can_cross.push(false);
        i += 1;
    }
    let mut any = false;
    proof {
        assert(tallied(line@, can_fill@, can_cross@));
    }
    enumerate(line, &segs, 0, 0, &mut current, &mut can_fill, &mut can_cross, &mut any);
    proof {
        assert forall|f: Seq<u8>| #[trigger] valid_line(start, clue_of(clue@), f) implies counted(f, can_fill@, can_cross@, any) by {
            assert(f.skip(0) == f);
            assert(sg.skip(0) == sg);
            lemma_laid(f, sg, 0, 0);
            assert(f.take(0) == current@.take(0));
        }
        assert forall|f: Seq<u8>| #[trigger] placement(start, sg, f) implies counted(f, can_fill@, can_cross@, any) by {
            assert(f.take(0) == current@.take(0));
        }
    }
    if !any {
        return false;
    }
    let mut i: usize = 0;
    while i < n
        invariant
            0 <= i <= n,
            n == line@.len(),
            start.len() == n,
            marks(start),
            tallied(start, can_fill@, can_cross@),
            forall|t: int| i <= t < n ==> #[trigger] line@[t] == start[t],
            forall|t: int| 0 <= t < i ==> #[trigger] line@[t] == settled_square(start, sg, t),
            *changed == (*old(changed) || line@ != start),
            any,
            forall|t: int| 0 <= t < sg.len() ==> #[trigger] sg[t] >= 0,
            witnessed(start, sg, can_fill@, can_cross@, any),
            forall|f: Seq<u8>| #[trigger] placement(start, sg, f) ==> counted(f, can_fill@, can_cross@, any),
        decreases n - i,
    {
        proof {
            if start[i as int] == UNKNOWN {
                lemma_settle(start, sg, can_fill@, can_cross@, i as int);
            }
        }
        let new_state = if can_fill[i] && !can_cross[i] {
            FILL
        } else if can_cross[i] && !can_fill[i] {
            CROSS
        } else {
            UNKNOWN
        };
        if new_state != UNKNOWN && new_state != line[i] {
            if line[i] != UNKNOWN {
                proof {
                    assert(start[i as int] == line@[i as int]);
                    assert(false);
                }
                return false;
            }
            line.set(i, new_state);
            *changed = true;
            proof {
                assert(line@ != start) by {
                    assert(line@[i as int] != start[i as int]);
                }
            }
        }
        i += 1;
    }
    proof {
        lemma_settled_line(start, sg, line@, clue_of(clue@));
    }
    true
}

/// A line that holds at each square what the placements settle there keeps what the line knew, and
/// agrees with every completion of it whose runs are the clue.
proof fn lemma_settled_line(start: Seq<u8>, sg: Seq<int>, line: Seq<u8>, clue: Seq<int>)
    requires
        sg == clue,
        line.len() == start.len(),
        marks(start),
        forall|t: int| 0 <= t < line.len() ==> #[trigger] line[t] == settled_square(start, sg, t),
    ensures
        marks(line),
        agrees(start, line),
        forall|f: Seq<u8>| #[trigger] valid_line(start, clue, f) ==> agrees(line, f),
{
    assert forall|t: int| 0 <= t < line.len() implies #[trigger] line[t] <= CROSS by {
        assert(line[t] == settled_square(start, sg, t));
    }
    assert forall|t: int| 0 <= t < start.len() && #[trigger] start[t] != UNKNOWN implies line[t] == start[t] by {
        assert(line[t] == settled_square(start, sg, t));
    }
    assert forall|f: Seq<u8>| #[trigger] valid_line(start, clue, f) implies agrees(line, f) by {
        assert(f.skip(0) == f);
        assert(sg.skip(0) == sg);
        lemma_laid(f, sg, 0, 0);
        assert(placement(start, sg, f));
        assert forall|t: int| 0 <= t < line.len() && #[trigger] line[t] != UNKNOWN implies f[t] == line[t] by {
            assert(line[t] == settled_square(start, sg, t));
        }
    }
}

/// What the counted marks say of an unknown square is what every placement says of it.
proof fn lemma_settle(start: Seq<u8>, sg: Seq<int>, cf: Seq<bool>, cc: Seq<bool>, i: int)
    requires
        0 <= i < start.len(),
        cf.len() == start.len(),
        cc.len() == start.len(),
        start[i] == UNKNOWN,
        forall|t: int| 0 <= t < sg.len() ==> #[trigger] sg[t] >= 0,
        witnessed(start, sg, cf, cc, true),
        forall|f: Seq<u8>| #[trigger] placement(start, sg, f) ==> counted(f, cf, cc, true),
    ensures
        settled_square(start, sg, i) == if cf[i] && !cc[i] {
            FILL
        } else if cc[i] && !cf[i] {
            CROSS
        } else {
            UNKNOWN
        },
{
    let f0 = choose|f: Seq<u8>| #[trigger] placement(start, sg, f);
    lemma_laid_full(f0, sg, 0, 0);
    assert(f0[i] == FILL || f0[i] == CROSS);
    assert(counted(f0, cf, cc, true));
    if cf[i] && !cc[i] {
        assert forall|f: Seq<u8>| #[trigger] placement(start, sg, f) implies f[i] == FILL by {
            lemma_laid_full(f, sg, 0, 0);
            assert(counted(f, cf, cc, true));
        }
    } else if cc[i] && !cf[i] {
        let g = choose|f: Seq<u8>| #[trigger] placement(start, sg, f) && f[i] != FILL;
        assert(!(forall|f: Seq<u8>| #[trigger] placement(start, sg, f) ==> f[i] == FILL));
        assert forall|f: Seq<u8>| #[trigger] placement(start, sg, f) implies f[i] == CROSS by {
            lemma_laid_full(f, sg, 0, 0);
            assert(counted(f, cf, cc, true));
        }
    } else {
        assert(cf[i] && cc[i]);
        let g = choose|f: Seq<u8>| #[trigger] placement(start, sg, f) && f[i] != FILL;
        let h = choose|f: Seq<u8>| #[trigger] placement(start, sg, f) && f[i] == FILL;
        assert(!(forall|f: Seq<u8>| #[trigger] placement(start, sg, f) ==> f[i] == FILL));
        assert(!(forall|f: Seq<u8>| #[trigger] placement(start, sg, f) ==> f[i] == CROSS));
    }
}
} // verus!
