//! Sokoban: a breadth-first search over positions (where the player stands, where the boxes are),
//! from the level's start until every box stands on a target.
//!
//! A move takes the player one square up, down, left or right. A wall blocks it; a box in the way is
//! pushed one square further, unless a wall or another box is there. Pushes that leave a box in a
//! corner away from the targets are not explored, and the search gives up after 200000 positions.
use vstd::prelude::*;

verus! {

/// What the solver reads of a level: squares as `[row, column]`.
pub struct SokobanLevel {
    pub player: [i32; 2],
    pub boxes: Vec<[i32; 2]>,
    pub targets: Vec<[i32; 2]>,
    pub walls: Vec<[i32; 2]>,
}

/// The most positions the search keeps before it gives up.
pub const MAX_STATES: usize = 200000;

/// A square, as the rules see it.
pub type Spot = (int, int);

/// Where the player stands and where the boxes are.
pub type Place = (Spot, Set<Spot>);

pub open spec fn spot(a: [i32; 2]) -> Spot {
    (a[0] as int, a[1] as int)
}

pub open spec fn spot_set(v: Seq<[i32; 2]>) -> Set<Spot> {
    Set::new(|s: Spot| exists|i: int| 0 <= i < v.len() && #[trigger] spot(v[i]) == s)
}

impl SokobanLevel {
    pub open spec fn wall_set(&self) -> Set<Spot> {
        spot_set(self.walls@)
    }

    pub open spec fn target_set(&self) -> Set<Spot> {
        spot_set(self.targets@)
    }

    pub open spec fn start(&self) -> Place {
        (spot(self.player), spot_set(self.boxes@))
    }

    /// Where the moves `ks` lead from the start; `prune` drops pushes that corner a box.
    pub open spec fn play(&self, ks: Seq<int>, prune: bool) -> Option<Place> {
        play(self.wall_set(), self.target_set(), self.start(), ks, prune)
    }

    /// Some moves lead from the start to a place with every box on a target.
    pub open spec fn solvable(&self) -> bool {
        exists|ks: Seq<int>| #[trigger] self.play(ks, false) matches Some(p) && p.1.subset_of(self.target_set())
    }

    /// Some moves that corner no box lead from the start to a place with every box on a target.
    pub open spec fn solvable_live(&self) -> bool {
        exists|ks: Seq<int>| #[trigger] self.play(ks, true) matches Some(p) && p.1.subset_of(self.target_set())
    }

    /// No moves fewer than `n` lead from the start to a place with every box on a target (with
    /// `prune`, counting only moves that corner no box).
    pub open spec fn no_shorter(&self, n: int, prune: bool) -> bool {
        forall|ks: Seq<int>| #[trigger] self.play(ks, prune) matches Some(p) && p.1.subset_of(self.target_set()) ==> n <= ks.len()
    }

    /// The search can reach more than `MAX_STATES` distinct places.
    pub open spec fn crowded(&self) -> bool {
        exists|q: Seq<Place>| q.len() > MAX_STATES && q.no_duplicates()
            && forall|i: int| 0 <= i < q.len() ==> exists|ks: Seq<int>| #[trigger] self.play(ks, true) == Some(#[trigger] q[i])
    }
}

/// Move `k` (0 up, 1 down, 2 left, 3 right) as a change of `(row, column)`.
pub open spec fn delta(k: int) -> Spot {
    if k == 0 {
        (-1, 0)
    } else if k == 1 {
        (1, 0)
    } else if k == 2 {
        (0, -1)
    } else {
        (0, 1)
    }
}

pub open spec fn shift(p: Spot, d: Spot) -> Spot {
    (p.0 + d.0, p.1 + d.1)
}

/// A box off the targets with a wall above or below it and a wall left or right of it: it can never move again.
pub open spec fn cornered(b: Spot, walls: Set<Spot>, targets: Set<Spot>) -> bool {
    &&& !targets.contains(b)
    &&& walls.contains(shift(b, (-1, 0))) || walls.contains(shift(b, (1, 0)))
    &&& walls.contains(shift(b, (0, -1))) || walls.contains(shift(b, (0, 1)))
}

pub open spec fn dead(boxes: Set<Spot>, walls: Set<Spot>, targets: Set<Spot>) -> bool {
    exists|b: Spot| boxes.contains(b) && #[trigger] cornered(b, walls, targets)
}

/// Move `k` from place `p`, or `None` where it is not allowed (or, with `prune`, corners a box).
pub open spec fn advance(walls: Set<Spot>, targets: Set<Spot>, p: Place, k: int, prune: bool) -> Option<Place> {
    let np = shift(p.0, delta(k));
    if walls.contains(np) {
        None
    } else if p.1.contains(np) {
        let bp = shift(np, delta(k));
        let nb = p.1.remove(np).insert(bp);
        if walls.contains(bp) || p.1.contains(bp) {
            None
        } else if prune && dead(nb, walls, targets) {
            None
        } else {
            Some((np, nb))
        }
    } else {
        Some((np, p.1))
    }
}

pub open spec fn play(walls: Set<Spot>, targets: Set<Spot>, p: Place, ks: Seq<int>, prune: bool) -> Option<Place>
    decreases ks.len(),
{
    if ks.len() == 0 {
        Some(p)
    } else {
        match play(walls, targets, p, ks.drop_last(), prune) {
            Some(q) => advance(walls, targets, q, ks.last(), prune),
            None => None,
        }
    }
}

/// The player's square after the moves `ks` from the start.
pub open spec fn player_after(level: &SokobanLevel, ks: Seq<int>) -> Spot {
    match level.play(ks, false) {
        Some(p) => p.0,
        None => (0, 0),
    }
}

/// The named move takes the player from `a` to `b`: "up" to the row above, "down" to the row
/// below, "left" to the column on the left, "right" to the column on the right.
pub open spec fn steps_as_named(name: Seq<char>, a: Spot, b: Spot) -> bool {
    ||| name == "up"@ && b == (a.0 - 1, a.1)
    ||| name == "down"@ && b == (a.0 + 1, a.1)
    ||| name == "left"@ && b == (a.0, a.1 - 1)
    ||| name == "right"@ && b == (a.0, a.1 + 1)
}

/// A run of moves that can be played can be played up to each of its points.
pub proof fn lemma_play_prefix(walls: Set<Spot>, targets: Set<Spot>, p: Place, ks: Seq<int>, j: int)
    requires
        play(walls, targets, p, ks, false) is Some,
        0 <= j <= ks.len(),
    ensures
        play(walls, targets, p, ks.take(j), false) is Some,
    decreases ks.len(),
{
    if j < ks.len() {
        assert(ks.drop_last().take(j) == ks.take(j));
        lemma_play_prefix(walls, targets, p, ks.drop_last(), j);
    } else {
        assert(ks.take(j) == ks);
    }
}

/// Each move of a run that can be played, under its name, takes the player one square the way
/// the name says.
pub proof fn lemma_named_steps(level: &SokobanLevel, ks: Seq<int>, names: Seq<Seq<char>>)
    requires
        level.play(ks, false) is Some,
        names.len() == ks.len(),
        forall|i: int| 0 <= i < ks.len() ==> 0 <= #[trigger] ks[i] < 4 && names[i] == move_name(ks[i]),
    ensures
        forall|i: int| 0 <= i < ks.len() ==>
            steps_as_named(#[trigger] names[i], player_after(level, ks.take(i)), player_after(level, ks.take(i + 1))),
{
    assert forall|i: int| 0 <= i < ks.len() implies
        steps_as_named(#[trigger] names[i], player_after(level, ks.take(i)), player_after(level, ks.take(i + 1))) by {
        lemma_play_prefix(level.wall_set(), level.target_set(), level.start(), ks, i + 1);
        assert(ks.take(i + 1).drop_last() == ks.take(i));
        assert(ks.take(i + 1).last() == ks[i]);
        let k = ks[i];
        assert(0 <= k < 4);
    }
}

/// The name of move `k`.
pub open spec fn move_name(k: int) -> Seq<char> {
    if k == 0 {
        "up"@
    } else if k == 1 {
        "down"@
    } else if k == 2 {
        "left"@
    } else {
        "right"@
    }
}

/// A pruned play is a play.
pub proof fn lemma_pruned_plays(walls: Set<Spot>, targets: Set<Spot>, p: Place, ks: Seq<int>)
    requires
        play(walls, targets, p, ks, true) is Some,
    ensures
        play(walls, targets, p, ks, false) == play(walls, targets, p, ks, true),
    decreases ks.len(),
{
    if ks.len() > 0 {
        lemma_pruned_plays(walls, targets, p, ks.drop_last());
    }
}

/// Playing `a` then `b` is playing `a + b`.
pub proof fn lemma_play_concat(walls: Set<Spot>, targets: Set<Spot>, p: Place, a: Seq<int>, b: Seq<int>, prune: bool)
    ensures
        play(walls, targets, p, a + b, prune) == match play(walls, targets, p, a, prune) {
            Some(q) => play(walls, targets, q, b, prune),
            None => None,
        },
    decreases b.len(),
{
    if b.len() == 0 {
        assert(a + b == a);
    } else {
        assert((a + b).drop_last() == a + b.drop_last());
        lemma_play_concat(walls, targets, p, a, b.drop_last(), prune);
    }
}

/// A cornered box with the player outside the walls: no move shifts the box or puts the player in a wall.
pub proof fn lemma_cornered_stays(walls: Set<Spot>, targets: Set<Spot>, q: Place, k: int, b: Spot)
    requires
        !walls.contains(q.0),
        q.1.contains(b),
        cornered(b, walls, targets),
    ensures
        advance(walls, targets, q, k, false) matches Some(r) ==> !walls.contains(r.0) && r.1.contains(b),
{
    let d = delta(k);
    let np = shift(q.0, d);
    if !walls.contains(np) && q.1.contains(np) && np == b {
        let bp = shift(np, d);
        assert(q.0 == shift(b, (-d.0, -d.1)));
        if d.0 == 0 {
            assert(walls.contains(shift(b, (0, -1))) || walls.contains(shift(b, (0, 1))));
        } else {
            assert(walls.contains(shift(b, (-1, 0))) || walls.contains(shift(b, (1, 0))));
        }
        assert(walls.contains(bp));
    }
}

/// From a place with a cornered box and the player outside the walls, every play keeps the box there.
pub proof fn lemma_cornered_forever(walls: Set<Spot>, targets: Set<Spot>, q: Place, ks: Seq<int>, b: Spot)
    requires
        !walls.contains(q.0),
        q.1.contains(b),
        cornered(b, walls, targets),
    ensures
        play(walls, targets, q, ks, false) matches Some(r) ==> !walls.contains(r.0) && r.1.contains(b),
    decreases ks.len(),
{
    if ks.len() > 0 {
        lemma_cornered_forever(walls, targets, q, ks.drop_last(), b);
        if play(walls, targets, q, ks.drop_last(), false) is Some {
            let r0 = play(walls, targets, q, ks.drop_last(), false)->Some_0;
            lemma_cornered_stays(walls, targets, r0, ks.last(), b);
        }
    }
}

/// After a move, the player stands outside the walls: a move into a wall is not allowed.
pub proof fn lemma_player_free(walls: Set<Spot>, targets: Set<Spot>, q: Place, ks: Seq<int>)
    requires
        ks.len() >= 1,
    ensures
        play(walls, targets, q, ks, false) matches Some(r) ==> !walls.contains(r.0),
{
}

/// The unpruned moves `ks` lead from `q` to a place with no cornered box.
pub open spec fn lands_live(walls: Set<Spot>, targets: Set<Spot>, q: Place, ks: Seq<int>) -> bool {
    play(walls, targets, q, ks, false) matches Some(r) && !dead(r.1, walls, targets)
}

/// Moves that end with every box on a target pass through no place with a cornered box: a box
/// cornered on the way would never move again, and it stands off the targets.
pub proof fn lemma_no_dead_on_way(walls: Set<Spot>, targets: Set<Spot>, q: Place, ks: Seq<int>)
    requires
        play(walls, targets, q, ks, false) matches Some(r) && r.1.subset_of(targets),
    ensures
        forall|i: int| 1 <= i <= ks.len() ==> #[trigger] lands_live(walls, targets, q, ks.take(i)),
{
    let r = play(walls, targets, q, ks, false)->Some_0;
    assert forall|i: int| 1 <= i <= ks.len() implies #[trigger] lands_live(walls, targets, q, ks.take(i)) by {
        let pre = ks.take(i);
        let suf = ks.skip(i);
        assert(pre + suf =~= ks);
        lemma_play_concat(walls, targets, q, pre, suf, false);
        let ri = play(walls, targets, q, pre, false)->Some_0;
        lemma_player_free(walls, targets, q, pre);
        if dead(ri.1, walls, targets) {
            let b = choose|b: Spot| ri.1.contains(b) && #[trigger] cornered(b, walls, targets);
            lemma_cornered_forever(walls, targets, ri, suf, b);
            assert(r.1.contains(b));
        }
    }
}

/// Moves whose every prefix of at least one move leads, unpruned, to a place with no cornered box
/// are played the same with pushes into corners pruned.
pub proof fn lemma_live_prefixes(walls: Set<Spot>, targets: Set<Spot>, q: Place, ks: Seq<int>)
    requires
        forall|i: int| 1 <= i <= ks.len() ==> #[trigger] lands_live(walls, targets, q, ks.take(i)),
    ensures
        play(walls, targets, q, ks, true) == play(walls, targets, q, ks, false),
    decreases ks.len(),
{
    if ks.len() > 0 {
        let pre = ks.drop_last();
        assert forall|i: int| 1 <= i <= pre.len() implies #[trigger] lands_live(walls, targets, q, pre.take(i)) by {
            assert(pre.take(i) =~= ks.take(i));
            assert(lands_live(walls, targets, q, ks.take(i)));
        }
        lemma_live_prefixes(walls, targets, q, pre);
        assert(ks.take(ks.len() as int) =~= ks);
        assert(lands_live(walls, targets, q, ks.take(ks.len() as int)));
    }
}

/// Moves that put every box on a target are played the same with pushes into corners pruned.
pub proof fn lemma_solution_is_live(walls: Set<Spot>, targets: Set<Spot>, q: Place, ks: Seq<int>)
    requires
        play(walls, targets, q, ks, false) matches Some(r) && r.1.subset_of(targets),
    ensures
        play(walls, targets, q, ks, true) == play(walls, targets, q, ks, false),
{
    lemma_no_dead_on_way(walls, targets, q, ks);
    lemma_live_prefixes(walls, targets, q, ks);
}

/// Pruning pushes that corner a box loses no solution: a level is solvable exactly when it is
/// solvable by moves that never corner a box.
pub proof fn lemma_pruning_keeps_solutions(level: &SokobanLevel)
    ensures
        level.solvable() == level.solvable_live(),
{
    let walls = level.wall_set();
    let targets = level.target_set();
    let q = level.start();
    if level.solvable() {
        let ks = choose|ks: Seq<int>| #[trigger] level.play(ks, false) matches Some(p) && p.1.subset_of(targets);
        lemma_solution_is_live(walls, targets, q, ks);
        assert(level.play(ks, true) matches Some(p) && p.1.subset_of(targets));
    }
    if level.solvable_live() {
        let ks = choose|ks: Seq<int>| #[trigger] level.play(ks, true) matches Some(p) && p.1.subset_of(targets);
        lemma_pruned_plays(walls, targets, q, ks);
        assert(level.play(ks, false) matches Some(p) && p.1.subset_of(targets));
    }
}

// ---------------------------------------------------------------- squares in the search

type Sq = (i64, i64);

pub open spec fn wide(p: (i64, i64)) -> Spot {
    (p.0 as int, p.1 as int)
}

pub open spec fn wide_set(v: Seq<(i64, i64)>) -> Set<Spot> {
    Set::new(|s: Spot| exists|i: int| 0 <= i < v.len() && #[trigger] wide(v[i]) == s)
}

/// Both coordinates of `p` lie within `b` of 0.
pub open spec fn near(p: (i64, i64), b: int) -> bool {
    -b <= p.0 <= b && -b <= p.1 <= b
}

fn has_sq(v: &Vec<Sq>, p: Sq) -> (r: bool)
    ensures
        r == wide_set(v@).contains(wide(p)),
{
    let mut i: usize = 0;
    while i < v.len()
        invariant
            0 <= i <= v@.len(),
            forall|j: int| 0 <= j < i ==> wide(#[trigger] v@[j]) != wide(p),
        decreases v@.len() - i,
    {
        if v[i].0 == p.0 && v[i].1 == p.1 {
            assert(wide(v@[i as int]) == wide(p));
            return true;
        }
        i += 1;
    }
    false
}

fn sqs_of(v: &Vec<[i32; 2]>) -> (r: Vec<Sq>)
    ensures
        wide_set(r@) == spot_set(v@),
        forall|i: int| 0 <= i < r@.len() ==> near(#[trigger] r@[i], 0x8000_0000),
{
    let mut r: Vec<Sq> = Vec::new();
    let mut i: usize = 0;
    while i < v.len()
        invariant
            0 <= i <= v@.len(),
            r@.len() == i,
            forall|j: int| 0 <= j < i ==> wide(#[trigger] r@[j]) == spot(v@[j]),
            forall|j: int| 0 <= j < r@.len() ==> near(#[trigger] r@[j], 0x8000_0000),
        decreases v@.len() - i,
    {
        r.push((v[i][0] as i64, v[i][1] as i64));
        i += 1;
    }
    proof {
        assert forall|s: Spot| wide_set(r@).contains(s) <==> spot_set(v@).contains(s) by {
            if wide_set(r@).contains(s) {
                let j = choose|j: int| 0 <= j < r@.len() && #[trigger] wide(r@[j]) == s;
                assert(spot(v@[j]) == s);
            }
            if spot_set(v@).contains(s) {
                let j = choose|j: int| 0 <= j < v@.len() && #[trigger] spot(v@[j]) == s;
                assert(wide(r@[j]) == s);
            }
        }
        assert(wide_set(r@) =~= spot_set(v@));
    }
    r
}

fn copy_sqs(v: &Vec<Sq>) -> (r: Vec<Sq>)
    ensures
        r@ == v@,
{
    let mut r: Vec<Sq> = Vec::new();
    let mut i: usize = 0;
    while i < v.len()
        invariant
            0 <= i <= v@.len(),
            r@ == v@.take(i as int),
        decreases v@.len() - i,
    {
        r.push(v[i]);
        proof {
            assert(v@.take(i + 1) == v@.take(i as int).push(v@[i as int]));
        }
        i += 1;
    }
    proof {
        assert(v@.take(i as int) == v@);
    }
    r
}

/// The square one move `k` away from `p`.
fn step_sq(p: Sq, k: usize, Ghost(b): Ghost<int>) -> (r: Sq)
    requires
        k < 4,
        near(p, b),
        0 <= b < 0x1_0000_0000_0000,
    ensures
        wide(r) == shift(wide(p), delta(k as int)),
        near(r, b + 1),
{
    if k == 0 {
        (p.0 - 1, p.1)
    } else if k == 1 {
        (p.0 + 1, p.1)
    } else if k == 2 {
        (p.0, p.1 - 1)
    } else {
        (p.0, p.1 + 1)
    }
}

/// The boxes after the one at `from` moved to `to`.
fn moved(boxes: &Vec<Sq>, from: Sq, to: Sq) -> (r: Vec<Sq>)
    requires
        wide_set(boxes@).contains(wide(from)),
        !wide_set(boxes@).contains(wide(to)),
    ensures
        wide_set(r@) == wide_set(boxes@).remove(wide(from)).insert(wide(to)),
        r@.len() == boxes@.len(),
        forall|i: int| 0 <= i < r@.len() ==> #[trigger] r@[i] == boxes@[i] || r@[i] == to,
{
    let mut r: Vec<Sq> = Vec::new();
    let mut i: usize = 0;
    while i < boxes.len()
        invariant
            0 <= i <= boxes@.len(),
            r@.len() == i,
            forall|j: int| 0 <= j < i ==> #[trigger] r@[j] == if wide(boxes@[j]) == wide(from) { to } else { boxes@[j] },
        decreases boxes@.len() - i,
    {
        let b = boxes[i];
        if b.0 == from.0 && b.1 == from.1 {
            r.push(to);
        } else {
            r.push(b);
        }
        i += 1;
    }
    proof {
        let want = wide_set(boxes@).remove(wide(from)).insert(wide(to));
        assert forall|s: Spot| wide_set(r@).contains(s) <==> want.contains(s) by {
            if wide_set(r@).contains(s) {
                let j = choose|j: int| 0 <= j < r@.len() && #[trigger] wide(r@[j]) == s;
                if wide(boxes@[j]) != wide(from) {
                    assert(wide_set(boxes@).contains(wide(boxes@[j])));
                }
            }
            if want.contains(s) {
                if s == wide(to) {
                    let j = choose|j: int| 0 <= j < boxes@.len() && #[trigger] wide(boxes@[j]) == wide(from);
                    assert(wide(r@[j]) == s);
                } else {
                    let j = choose|j: int| 0 <= j < boxes@.len() && #[trigger] wide(boxes@[j]) == s;
                    assert(wide(r@[j]) == s);
                }
            }
        }
        assert(wide_set(r@) =~= want);
    }
    r
}

/// Whether every box stands on a target.
fn all_on(boxes: &Vec<Sq>, targets: &Vec<Sq>) -> (r: bool)
    ensures
        r == wide_set(boxes@).subset_of(wide_set(targets@)),
{
    let mut i: usize = 0;
    while i < boxes.len()
        invariant
            0 <= i <= boxes@.len(),
            forall|j: int| 0 <= j < i ==> wide_set(targets@).contains(wide(#[trigger] boxes@[j])),
        decreases boxes@.len() - i,
    {
        if !has_sq(targets, boxes[i]) {
            proof {
                assert(wide_set(boxes@).contains(wide(boxes@[i as int])));
            }
            return false;
        }
        i += 1;
    }
    proof {
        assert forall|s: Spot| wide_set(boxes@).contains(s) implies wide_set(targets@).contains(s) by {
            let j = choose|j: int| 0 <= j < boxes@.len() && #[trigger] wide(boxes@[j]) == s;
        }
    }
    true
}

/// Whether some box is cornered away from the targets.
fn is_dead(boxes: &Vec<Sq>, walls: &Vec<Sq>, targets: &Vec<Sq>, Ghost(bound): Ghost<int>) -> (r: bool)
    requires
        forall|i: int| 0 <= i < boxes@.len() ==> near(#[trigger] boxes@[i], bound),
        0 <= bound < 0x1_0000_0000_0000,
    ensures
        r == dead(wide_set(boxes@), wide_set(walls@), wide_set(targets@)),
{
    let mut i: usize = 0;
    while i < boxes.len()
        invariant
            0 <= i <= boxes@.len(),
            0 <= bound < 0x1_0000_0000_0000,
            forall|k: int| 0 <= k < boxes@.len() ==> near(#[trigger] boxes@[k], bound),
            forall|j: int| 0 <= j < i ==> !cornered(wide(#[trigger] boxes@[j]), wide_set(walls@), wide_set(targets@)),
        decreases boxes@.len() - i,
    {
        let b = boxes[i];
        let up = has_sq(walls, step_sq(b, 0, Ghost(bound)));
        let down = has_sq(walls, step_sq(b, 1, Ghost(bound)));
        let left = has_sq(walls, step_sq(b, 2, Ghost(bound)));
        let right = has_sq(walls, step_sq(b, 3, Ghost(bound)));
        if !has_sq(targets, b) && (up || down) && (left || right) {
            proof {
                assert(cornered(wide(b), wide_set(walls@), wide_set(targets@)));
                assert(wide_set(boxes@).contains(wide(b)));
            }
            return true;
        }
        i += 1;
    }
    proof {
        assert forall|s: Spot| wide_set(boxes@).contains(s) implies !#[trigger] cornered(s, wide_set(walls@), wide_set(targets@)) by {
            let j = choose|j: int| 0 <= j < boxes@.len() && #[trigger] wide(boxes@[j]) == s;
        }
    }
    false
}

/// Whether the search already holds the place (player `p`, boxes `b`).
fn known(players: &Vec<Sq>, boxes: &Vec<Vec<Sq>>, p: Sq, b: &Vec<Sq>) -> (r: bool)
    requires
        players@.len() == boxes@.len(),
    ensures
        r == exists|i: int| 0 <= i < players@.len() && #[trigger] wide(players@[i]) == wide(p)
            && wide_set(boxes@[i]@) == wide_set(b@),
{
    let mut i: usize = 0;
    while i < players.len()
        invariant
            players@.len() == boxes@.len(),
            0 <= i <= players@.len(),
            forall|j: int| 0 <= j < i ==> !(#[trigger] wide(players@[j]) == wide(p) && wide_set(boxes@[j]@) == wide_set(b@)),
        decreases players@.len() - i,
    {
        if players[i].0 == p.0 && players[i].1 == p.1 && same_set(&boxes[i], b) {
            assert(wide(players@[i as int]) == wide(p) && wide_set(boxes@[i as int]@) == wide_set(b@));
            return true;
        }
        i += 1;
    }
    false
}

/// Whether two lists hold the same squares.
fn same_set(a: &Vec<Sq>, b: &Vec<Sq>) -> (r: bool)
    ensures
        r == (wide_set(a@) == wide_set(b@)),
{
    let mut i: usize = 0;
    while i < a.len()
        invariant
            0 <= i <= a@.len(),
            forall|j: int| 0 <= j < i ==> wide_set(b@).contains(wide(#[trigger] a@[j])),
        decreases a@.len() - i,
    {
        if !has_sq(b, a[i]) {
            proof {
                assert(wide_set(a@).contains(wide(a@[i as int])));
            }
            return false;
        }
        i += 1;
    }
    let mut i: usize = 0;
    while i < b.len()
        invariant
            0 <= i <= b@.len(),
            forall|j: int| 0 <= j < a@.len() ==> wide_set(b@).contains(wide(#[trigger] a@[j])),
            forall|j: int| 0 <= j < i ==> wide_set(a@).contains(wide(#[trigger] b@[j])),
        decreases b@.len() - i,
    {
        if !has_sq(a, b[i]) {
            proof {
                assert(wide_set(b@).contains(wide(b@[i as int])));
            }
            return false;
        }
        i += 1;
    }
    proof {
        assert forall|s: Spot| wide_set(a@).contains(s) <==> wide_set(b@).contains(s) by {
            if wide_set(a@).contains(s) {
                let j = choose|j: int| 0 <= j < a@.len() && #[trigger] wide(a@[j]) == s;
            }
            if wide_set(b@).contains(s) {
                let j = choose|j: int| 0 <= j < b@.len() && #[trigger] wide(b@[j]) == s;
            }
        }
        assert(wide_set(a@) =~= wide_set(b@));
    }
    true
}

fn move_label(k: usize) -> (r: &'static str)
    requires
        k < 4,
    ensures
        r@ == move_name(k as int),
{
    if k == 0 {
        "up"
    } else if k == 1 {
        "down"
    } else if k == 2 {
        "left"
    } else {
        "right"
    }
}

/// The moves' names.
fn labels(ks: &Vec<usize>) -> (r: Vec<&'static str>)
    requires
        forall|i: int| 0 <= i < ks@.len() ==> #[trigger] ks@[i] < 4,
    ensures
        r@.len() == ks@.len(),
        forall|i: int| 0 <= i < ks@.len() ==> (#[trigger] r@[i])@ == move_name(ks@[i] as int),
{
    let mut r: Vec<&'static str> = Vec::new();
    let mut i: usize = 0;
    while i < ks.len()
        invariant
            forall|j: int| 0 <= j < ks@.len() ==> #[trigger] ks@[j] < 4,
            0 <= i <= ks@.len(),
            r@.len() == i,
            forall|j: int| 0 <= j < i ==> (#[trigger] r@[j])@ == move_name(ks@[j] as int),
        decreases ks@.len() - i,
    {
        r.push(move_label(ks[i]));
        i += 1;
    }
    r
}

pub open spec fn as_ints(ks: Seq<usize>) -> Seq<int> {
    ks.map_values(|k: usize| k as int)
}

/// The search holds place `q`, reached by a path of at most `bound` moves.
pub open spec fn held_within(players: Seq<Sq>, layouts: Seq<Vec<Sq>>, paths: Seq<Vec<usize>>, q: Place, bound: int) -> bool {
    exists|j: int| 0 <= j < players.len() && q == (wide(#[trigger] players[j]), wide_set(layouts[j]@)) && paths[j]@.len() <= bound
}

/// The search holds places in order of the length of their paths.
pub open spec fn in_order(paths: Seq<Vec<usize>>) -> bool {
    forall|i: int, j: int| 0 <= i <= j < paths.len() ==> (#[trigger] paths[i])@.len() <= (#[trigger] paths[j])@.len()
}

/// Every place one pruned move from a place before `head` is held, with a path one move longer at most.
pub open spec fn expanded(ws: Set<Spot>, ts: Set<Spot>, players: Seq<Sq>, layouts: Seq<Vec<Sq>>, paths: Seq<Vec<usize>>, head: int) -> bool {
    forall|i: int, k: int| 0 <= i < head && 0 <= k < 4 ==>
        (#[trigger] advance(ws, ts, (wide(players[i]), wide_set(layouts[i]@)), k, true) matches Some(q)
            ==> held_within(players, layouts, paths, q, paths[i]@.len() + 1int))
}

/// A held place stays held when the lists grow.
proof fn lemma_held_within_kept(
    old_players: Seq<Sq>, old_layouts: Seq<Vec<Sq>>, old_paths: Seq<Vec<usize>>,
    players: Seq<Sq>, layouts: Seq<Vec<Sq>>, paths: Seq<Vec<usize>>, q: Place, bound: int,
)
    requires
        old_players.len() <= players.len(),
        old_layouts.len() == old_players.len(),
        old_paths.len() == old_players.len(),
        old_players.len() <= layouts.len(),
        old_players.len() <= paths.len(),
        forall|j: int| 0 <= j < old_players.len() ==> #[trigger] players[j] == old_players[j]
            && layouts[j] == old_layouts[j] && paths[j] == old_paths[j],
        held_within(old_players, old_layouts, old_paths, q, bound),
    ensures
        held_within(players, layouts, paths, q, bound),
{
    let j = choose|j: int| 0 <= j < old_players.len() && q == (wide(#[trigger] old_players[j]), wide_set(old_layouts[j]@))
        && old_paths[j]@.len() <= bound;
    assert(players[j] == old_players[j]);
}

proof fn lemma_expanded_kept(
    ws: Set<Spot>, ts: Set<Spot>,
    old_players: Seq<Sq>, old_layouts: Seq<Vec<Sq>>, old_paths: Seq<Vec<usize>>,
    players: Seq<Sq>, layouts: Seq<Vec<Sq>>, paths: Seq<Vec<usize>>, head: int,
)
    requires
        old_players.len() <= players.len(),
        old_layouts.len() == old_players.len(),
        old_paths.len() == old_players.len(),
        old_players.len() <= layouts.len(),
        old_players.len() <= paths.len(),
        forall|j: int| 0 <= j < old_players.len() ==> #[trigger] players[j] == old_players[j]
            && layouts[j] == old_layouts[j] && paths[j] == old_paths[j],
        0 <= head <= old_players.len(),
        expanded(ws, ts, old_players, old_layouts, old_paths, head),
    ensures
        expanded(ws, ts, players, layouts, paths, head),
{
    assert forall|i: int, k: int| 0 <= i < head && 0 <= k < 4 implies
        (#[trigger] advance(ws, ts, (wide(players[i]), wide_set(layouts[i]@)), k, true) matches Some(q)
            ==> held_within(players, layouts, paths, q, paths[i]@.len() + 1int)) by {
        assert(players[i] == old_players[i]);
        assert(layouts[i] == old_layouts[i]);
        assert(paths[i] == old_paths[i]);
        if advance(ws, ts, (wide(players[i]), wide_set(layouts[i]@)), k, true) is Some {
            let q = advance(ws, ts, (wide(players[i]), wide_set(layouts[i]@)), k, true)->Some_0;
            assert(advance(ws, ts, (wide(old_players[i]), wide_set(old_layouts[i]@)), k, true) == Some(q));
            lemma_held_within_kept(old_players, old_layouts, old_paths, players, layouts, paths, q, paths[i]@.len() + 1int);
        }
    }
}

/// Once every held place is expanded, every place one pruned move from a held place is held.
proof fn lemma_expanded_held(ws: Set<Spot>, ts: Set<Spot>, players: Seq<Sq>, layouts: Seq<Vec<Sq>>, paths: Seq<Vec<usize>>, head: int)
    requires
        head == players.len(),
        expanded(ws, ts, players, layouts, paths, head),
    ensures
        forall|i: int, k: int| 0 <= i < players.len() && 0 <= k < 4 ==>
            (#[trigger] advance(ws, ts, (wide(players[i]), wide_set(layouts[i]@)), k, true) matches Some(q)
                ==> exists|j: int| 0 <= j < players.len() && q == (wide(#[trigger] players[j]), wide_set(layouts[j]@))),
{
    assert forall|i: int, k: int| 0 <= i < players.len() && 0 <= k < 4 implies
        (#[trigger] advance(ws, ts, (wide(players[i]), wide_set(layouts[i]@)), k, true) matches Some(q)
            ==> exists|j: int| 0 <= j < players.len() && q == (wide(#[trigger] players[j]), wide_set(layouts[j]@))) by {
        if advance(ws, ts, (wide(players[i]), wide_set(layouts[i]@)), k, true) is Some {
            let q = advance(ws, ts, (wide(players[i]), wide_set(layouts[i]@)), k, true)->Some_0;
            assert(held_within(players, layouts, paths, q, paths[i]@.len() + 1int));
            let j = choose|j: int| 0 <= j < players.len() && q == (wide(#[trigger] players[j]), wide_set(layouts[j]@))
                && paths[j]@.len() <= paths[i]@.len() + 1int;
        }
    }
}

/// Pruned moves no more than the path of the place under search lead only to held places, each
/// with a path no longer than the moves.
proof fn lemma_live_found(level: &SokobanLevel, players: Seq<Sq>, layouts: Seq<Vec<Sq>>, paths: Seq<Vec<usize>>, head: int, ks: Seq<int>)
    requires
        players.len() == layouts.len(),
        players.len() == paths.len(),
        0 <= head < players.len(),
        paths[0]@.len() == 0,
        level.play(Seq::<int>::empty(), true) == Some((wide(players[0]), wide_set(layouts[0]@))),
        expanded(level.wall_set(), level.target_set(), players, layouts, paths, head),
        in_order(paths),
        ks.len() <= paths[head]@.len(),
    ensures
        level.play(ks, true) matches Some(p) ==> held_within(players, layouts, paths, p, ks.len() as int),
    decreases ks.len(),
{
    let ws = level.wall_set();
    let ts = level.target_set();
    if ks.len() == 0 {
        assert(ks == Seq::<int>::empty());
        assert((wide(players[0]), wide_set(layouts[0]@)) == (wide(players[0]), wide_set(layouts[0]@)));
    } else {
        let pre = ks.drop_last();
        lemma_live_found(level, players, layouts, paths, head, pre);
        if level.play(pre, true) is Some {
            let p0 = level.play(pre, true)->Some_0;
            let j0 = choose|j: int| 0 <= j < players.len() && p0 == (wide(#[trigger] players[j]), wide_set(layouts[j]@))
                && paths[j]@.len() <= pre.len();
            if j0 >= head {
                assert(paths[head]@.len() <= paths[j0]@.len());
            }
            let k = ks.last();
            let kk = if 0 <= k < 4 { k } else { 3 };
            assert(advance(ws, ts, p0, k, true) == advance(ws, ts, p0, kk, true));
            assert(level.play(ks, true) == advance(ws, ts, (wide(players[j0]), wide_set(layouts[j0]@)), kk, true));
            if level.play(ks, true) is Some {
                let q = level.play(ks, true)->Some_0;
                assert(held_within(players, layouts, paths, q, paths[j0]@.len() + 1int));
                let j = choose|j: int| 0 <= j < players.len() && q == (wide(#[trigger] players[j]), wide_set(layouts[j]@))
                    && paths[j]@.len() <= paths[j0]@.len() + 1int;
                assert(paths[j]@.len() <= ks.len());
            }
        }
    }
}

/// No pruned moves fewer than one more than the path of the place under search put every box on a
/// target, when no held place does.
proof fn lemma_fewest(level: &SokobanLevel, players: Seq<Sq>, layouts: Seq<Vec<Sq>>, paths: Seq<Vec<usize>>, head: int)
    requires
        players.len() == layouts.len(),
        players.len() == paths.len(),
        0 <= head < players.len(),
        paths[0]@.len() == 0,
        level.play(Seq::<int>::empty(), true) == Some((wide(players[0]), wide_set(layouts[0]@))),
        expanded(level.wall_set(), level.target_set(), players, layouts, paths, head),
        in_order(paths),
        forall|i: int| 0 <= i < players.len() ==> !wide_set((#[trigger] layouts[i])@).subset_of(level.target_set()),
    ensures
        level.no_shorter(paths[head]@.len() + 1int, true),
{
    assert forall|ks: Seq<int>| #[trigger] level.play(ks, true) matches Some(p) && p.1.subset_of(level.target_set())
        implies paths[head]@.len() + 1int <= ks.len() by {
        if ks.len() <= paths[head]@.len() {
            lemma_live_found(level, players, layouts, paths, head, ks);
            let p = level.play(ks, true)->Some_0;
            let j = choose|j: int| 0 <= j < players.len() && p == (wide(#[trigger] players[j]), wide_set(layouts[j]@))
                && paths[j]@.len() <= ks.len();
            assert(!wide_set(layouts[j]@).subset_of(level.target_set()));
        }
    }
}

/// A bound on the length of solutions that corner no box bounds every solution.
pub proof fn lemma_fewest_unpruned(level: &SokobanLevel, n: int)
    requires
        level.no_shorter(n, true),
    ensures
        level.no_shorter(n, false),
{
    assert forall|ks: Seq<int>| #[trigger] level.play(ks, false) matches Some(p) && p.1.subset_of(level.target_set())
        implies n <= ks.len() by {
        lemma_solution_is_live(level.wall_set(), level.target_set(), level.start(), ks);
        assert(level.play(ks, true) == level.play(ks, false));
    }
}

/// A shortest list of moves (by breadth-first search over the places that corner no box) after
/// which every box stands on a target; `None` when there is none, or when the search holds more
/// than `MAX_STATES` places before it finds one.
pub fn solve(level: &SokobanLevel) -> (r: Option<Vec<&'static str>>)
    ensures
        r matches Some(names) ==> exists|ks: Seq<int>| {
            &&& #[trigger] level.play(ks, false) matches Some(p) && p.1.subset_of(level.target_set())
            &&& ks.len() == names@.len()
            &&& forall|i: int| 0 <= i < ks.len() ==> 0 <= #[trigger] ks[i] < 4 && names@[i]@ == move_name(ks[i])
            &&& forall|i: int| 0 <= i < ks.len() ==>
                steps_as_named((#[trigger] names@[i])@, player_after(level, ks.take(i)), player_after(level, ks.take(i + 1)))
        },
        r matches Some(names) ==> level.no_shorter(names@.len() as int, false),
        level.start().1.subset_of(level.target_set()) ==> (r matches Some(names) && names@.len() == 0),
        r is None ==> !level.solvable() || level.crowded(),
{
    let walls = sqs_of(&level.walls);
    let targets = sqs_of(&level.targets);
    let player: Sq = (level.player[0] as i64, level.player[1] as i64);
    let boxes = sqs_of(&level.boxes);
    let ghost ws = level.wall_set();
    let ghost ts = level.target_set();
    proof {
        assert(wide(player) == spot(level.player));
        assert(level.play(Seq::<int>::empty(), true) == Some(level.start()));
        assert(level.play(Seq::<int>::empty(), false) == Some(level.start()));
    }
    if all_on(&boxes, &targets) {
        proof {
            assert(level.play(Seq::<int>::empty(), false) matches Some(p) && p.1.subset_of(level.target_set()));
        }
        return Some(Vec::new());
    }
    let mut players: Vec<Sq> = Vec::new();
    let mut layouts: Vec<Vec<Sq>> = Vec::new();
    let mut paths: Vec<Vec<usize>> = Vec::new();
    players.push(player);
    layouts.push(boxes);
    paths.push(Vec::new());
    let mut head: usize = 0;
    proof {
        assert(as_ints(paths@[0]@) == Seq::<int>::empty());
    }
    while head < players.len()
        invariant
            ws == wide_set(walls@),
            ts == wide_set(targets@),
            ws == level.wall_set(),
            ts == level.target_set(),
            players@.len() == layouts@.len(),
            players@.len() == paths@.len(),
            1 <= players@.len() <= MAX_STATES + 5,
            paths@[0]@.len() == 0,
            0 <= head <= players@.len(),
            forall|i: int| 0 <= i < players@.len() ==> near(#[trigger] players@[i], 0x1_0000_0000 + 2 * i),
            forall|i: int, j: int| 0 <= i < layouts@.len() && 0 <= j < layouts@[i]@.len() ==>
                near(#[trigger] layouts@[i]@[j], 0x1_0000_0000 + 2 * i),
            forall|i: int, j: int| 0 <= i < paths@.len() && 0 <= j < paths@[i]@.len() ==> #[trigger] paths@[i]@[j] < 4,
            forall|i: int| 0 <= i < players@.len() ==> level.play(as_ints(#[trigger] paths@[i]@), true)
                == Some((wide(players@[i]), wide_set(layouts@[i]@))),
            forall|i: int| 0 <= i < players@.len() ==> !wide_set((#[trigger] layouts@[i])@).subset_of(ts),
            forall|i: int, j: int| 0 <= i < j < players@.len() ==>
                (wide(#[trigger] players@[i]), wide_set(layouts@[i]@)) != (wide(#[trigger] players@[j]), wide_set(layouts@[j]@)),
            expanded(ws, ts, players@, layouts@, paths@, head as int),
            in_order(paths@),
            head < players@.len() ==> forall|j: int| 0 <= j < paths@.len() ==> (#[trigger] paths@[j])@.len() <= paths@[head as int]@.len() + 1int,
        decreases MAX_STATES + 5 - head,
    {
        if players.len() > MAX_STATES {
            proof {
                lemma_crowded(level, players@, layouts@, paths@);
                lemma_pruning_keeps_solutions(level);
            }
            return None;
        }
        let cur = players[head];
        let ghost here: Place = (wide(cur), wide_set(layouts@[head as int]@));
        let mut k: usize = 0;
        while k < 4
            invariant
                ws == wide_set(walls@),
                ts == wide_set(targets@),
                ws == level.wall_set(),
                ts == level.target_set(),
                players@.len() == layouts@.len(),
                players@.len() == paths@.len(),
                1 <= players@.len() <= MAX_STATES + k,
                paths@[0]@.len() == 0,
                0 <= head < players@.len(),
                cur == players@[head as int],
                here == (wide(cur), wide_set(layouts@[head as int]@)),
                0 <= k <= 4,
                forall|i: int| 0 <= i < players@.len() ==> near(#[trigger] players@[i], 0x1_0000_0000 + 2 * i),
                forall|i: int, j: int| 0 <= i < layouts@.len() && 0 <= j < layouts@[i]@.len() ==>
                    near(#[trigger] layouts@[i]@[j], 0x1_0000_0000 + 2 * i),
                forall|i: int, j: int| 0 <= i < paths@.len() && 0 <= j < paths@[i]@.len() ==> #[trigger] paths@[i]@[j] < 4,
                forall|i: int| 0 <= i < players@.len() ==> level.play(as_ints(#[trigger] paths@[i]@), true)
                    == Some((wide(players@[i]), wide_set(layouts@[i]@))),
                forall|i: int| 0 <= i < players@.len() ==> !wide_set((#[trigger] layouts@[i])@).subset_of(ts),
                forall|i: int, j: int| 0 <= i < j < players@.len() ==>
                    (wide(#[trigger] players@[i]), wide_set(layouts@[i]@)) != (wide(#[trigger] players@[j]), wide_set(layouts@[j]@)),
                expanded(ws, ts, players@, layouts@, paths@, head as int),
                in_order(paths@),
                forall|j: int| 0 <= j < paths@.len() ==> (#[trigger] paths@[j])@.len() <= paths@[head as int]@.len() + 1int,
                forall|kk: int| 0 <= kk < k ==>
                    (#[trigger] advance(ws, ts, here, kk, true) matches Some(q)
                        ==> held_within(players@, layouts@, paths@, q, paths@[head as int]@.len() + 1int)),
            decreases 4 - k,
        {
            let ghost bound: int = 0x1_0000_0000 + 2 * head;
            let next = successor(cur, &layouts[head], k, &walls, &targets, Ghost(bound));
            match next {
                None => {},
                Some((np, nb)) => {
                    let ghost q: Place = (wide(np), wide_set(nb@));
                    if !known(&players, &layouts, np, &nb) {
                        let mut path = copy_usizes(&paths[head]);
                        path.push(k);
                        let ghost n_before = players@.len();
                        proof {
                            assert(as_ints(path@) == as_ints(paths@[head as int]@).push(k as int));
                            assert(as_ints(path@).drop_last() == as_ints(paths@[head as int]@));
                            assert(level.play(as_ints(path@), true) == Some((wide(np), wide_set(nb@))));
                        }
                        let solved = all_on(&nb, &targets);
                        if solved {
                            proof {
                                lemma_pruned_plays(ws, ts, level.start(), as_ints(path@));
                                assert forall|i: int| 0 <= i < as_ints(path@).len() implies 0 <= #[trigger] as_ints(path@)[i] < 4 by {
                                    if i < paths@[head as int]@.len() {
                                        assert(paths@[head as int]@[i] < 4);
                                    }
                                }
                            }
                            let names = labels(&path);
                            proof {
                                let ks = as_ints(path@);
                                assert(level.play(ks, false) matches Some(p) && p.1.subset_of(level.target_set()));
                                assert(forall|i: int| 0 <= i < ks.len() ==> 0 <= #[trigger] ks[i] < 4 && names@[i]@ == move_name(ks[i]));
                                let nm = names@.map_values(|n: &'static str| n@);
                                lemma_named_steps(level, ks, nm);
                                assert(forall|i: int| 0 <= i < ks.len() ==>
                                    steps_as_named((#[trigger] names@[i])@, player_after(level, ks.take(i)), player_after(level, ks.take(i + 1)))) by {
                                    assert forall|i: int| 0 <= i < ks.len() implies
                                        steps_as_named((#[trigger] names@[i])@, player_after(level, ks.take(i)), player_after(level, ks.take(i + 1))) by {
                                        assert(nm[i] == names@[i]@);
                                    }
                                }
                                lemma_fewest(level, players@, layouts@, paths@, head as int);
                                lemma_fewest_unpruned(level, names@.len() as int);
                            }
                            return Some(names);
                        }
                        let ghost old_players = players@;
                        let ghost old_layouts = layouts@;
                        let ghost old_paths = paths@;
                        players.push(np);
                        layouts.push(nb);
                        paths.push(path);
                        proof {
                            assert(players@[n_before as int] == np);
                            assert forall|j: int| 0 <= j < layouts@[n_before as int]@.len() implies
                                near(#[trigger] layouts@[n_before as int]@[j], 0x1_0000_0000 + 2 * (n_before as int)) by {}
                            assert(q == (wide(players@[n_before as int]), wide_set(layouts@[n_before as int]@)));
                            assert(paths@[n_before as int]@.len() == old_paths[head as int]@.len() + 1);
                            lemma_expanded_kept(ws, ts, old_players, old_layouts, old_paths, players@, layouts@, paths@, head as int);
                            assert forall|kk: int| 0 <= kk < k + 1 implies
                                (#[trigger] advance(ws, ts, here, kk, true) matches Some(q2)
                                    ==> held_within(players@, layouts@, paths@, q2, paths@[head as int]@.len() + 1int)) by {
                                if kk == k {
                                    assert(q == (wide(players@[n_before as int]), wide_set(layouts@[n_before as int]@)));
                                    assert(paths@[n_before as int]@.len() <= paths@[head as int]@.len() + 1int);
                                } else if advance(ws, ts, here, kk, true) is Some {
                                    let q2 = advance(ws, ts, here, kk, true)->Some_0;
                                    lemma_held_within_kept(old_players, old_layouts, old_paths, players@, layouts@, paths@, q2,
                                        paths@[head as int]@.len() + 1int);
                                }
                            }
                        }
                    } else {
                        proof {
                            let j = choose|j: int| 0 <= j < players@.len() && #[trigger] wide(players@[j]) == wide(np)
                                && wide_set(layouts@[j]@) == wide_set(nb@);
                            assert(q == (wide(players@[j]), wide_set(layouts@[j]@)));
                            assert(paths@[j]@.len() <= paths@[head as int]@.len() + 1int);
                        }
                    }
                },
            }
            k += 1;
        }
        proof {
            assert forall|i: int, kk: int| 0 <= i < head + 1 && 0 <= kk < 4 implies
                (#[trigger] advance(ws, ts, (wide(players@[i]), wide_set(layouts@[i]@)), kk, true) matches Some(q)
                    ==> held_within(players@, layouts@, paths@, q, paths@[i]@.len() + 1int)) by {
                if i == head {
                    assert((wide(players@[i]), wide_set(layouts@[i]@)) == here);
                }
            }
            if head + 1 < paths@.len() {
                assert(paths@[head as int]@.len() <= paths@[head + 1]@.len());
            }
        }
        head += 1;
    }
    proof {
        assert(as_ints(paths@[0]@) == Seq::<int>::empty());
        lemma_expanded_held(level.wall_set(), level.target_set(), players@, layouts@, paths@, head as int);
        lemma_closed(level, players@, layouts@, paths@);
        lemma_pruning_keeps_solutions(level);
    }
    None
}

/// Move `k` from the place with the player at `cur` and the boxes at `boxes`, as the search plays it.
fn successor(cur: Sq, boxes: &Vec<Sq>, k: usize, walls: &Vec<Sq>, targets: &Vec<Sq>, Ghost(bound): Ghost<int>) -> (r: Option<(Sq, Vec<Sq>)>)
    requires
        k < 4,
        0 <= bound < 0x1_0000_0000_0000 - 4,
        near(cur, bound),
        forall|j: int| 0 <= j < boxes@.len() ==> near(#[trigger] boxes@[j], bound),
    ensures
        advance(wide_set(walls@), wide_set(targets@), (wide(cur), wide_set(boxes@)), k as int, true) == match r {
            Some(n) => Some((wide(n.0), wide_set(n.1@))),
            None => None::<Place>,
        },
        r matches Some(n) ==> near(n.0, bound + 1) && forall|j: int| 0 <= j < n.1@.len() ==> near(#[trigger] n.1@[j], bound + 2),
{
    let np = step_sq(cur, k, Ghost(bound));
    if has_sq(walls, np) {
        return None;
    }
    if has_sq(boxes, np) {
        let bp = step_sq(np, k, Ghost(bound + 1));
        if has_sq(walls, bp) || has_sq(boxes, bp) {
            return None;
        }
        let nb = moved(boxes, np, bp);
        proof {
            assert forall|j: int| 0 <= j < nb@.len() implies near(#[trigger] nb@[j], bound + 2) by {
                assert(nb@[j] == boxes@[j] || nb@[j] == bp);
            }
        }
        if is_dead(&nb, walls, targets, Ghost(bound + 2)) {
            return None;
        }
        Some((np, nb))
    } else {
        Some((np, copy_sqs(boxes)))
    }
}

fn copy_usizes(v: &Vec<usize>) -> (r: Vec<usize>)
    ensures
        r@ == v@,
{
    let mut r: Vec<usize> = Vec::new();
    let mut i: usize = 0;
    while i < v.len()
        invariant
            0 <= i <= v@.len(),
            r@ == v@.take(i as int),
        decreases v@.len() - i,
    {
        r.push(v[i]);
        proof {
            assert(v@.take(i + 1) == v@.take(i as int).push(v@[i as int]));
        }
        i += 1;
    }
    proof {
        assert(v@.take(i as int) == v@);
    }
    r
}

/// The places the search holds, when there are more than `MAX_STATES`, make the level crowded.
pub proof fn lemma_crowded(level: &SokobanLevel, players: Seq<Sq>, layouts: Seq<Vec<Sq>>, paths: Seq<Vec<usize>>)
    requires
        players.len() == layouts.len(),
        players.len() == paths.len(),
        players.len() > MAX_STATES,
        forall|i: int| 0 <= i < players.len() ==> level.play(as_ints(#[trigger] paths[i]@), true)
            == Some((wide(players[i]), wide_set(layouts[i]@))),
        forall|i: int, j: int| 0 <= i < j < players.len() ==>
            (wide(#[trigger] players[i]), wide_set(layouts[i]@)) != (wide(#[trigger] players[j]), wide_set(layouts[j]@)),
    ensures
        level.crowded(),
{
    let q = Seq::new(players.len(), |i: int| (wide(players[i]), wide_set(layouts[i]@)));
    assert forall|i: int, j: int| 0 <= i < q.len() && 0 <= j < q.len() && i != j implies q[i] != q[j] by {
        if i < j {
            assert((wide(players[i]), wide_set(layouts[i]@)) != (wide(players[j]), wide_set(layouts[j]@)));
        } else {
            assert((wide(players[j]), wide_set(layouts[j]@)) != (wide(players[i]), wide_set(layouts[i]@)));
        }
    }
    assert forall|i: int| 0 <= i < q.len() implies exists|ks: Seq<int>| #[trigger] level.play(ks, true) == Some(#[trigger] q[i]) by {
        assert(level.play(as_ints(paths[i]@), true) == Some(q[i]));
    }
    assert(q.len() > MAX_STATES && q.no_duplicates()
        && forall|i: int| 0 <= i < q.len() ==> exists|ks: Seq<int>| #[trigger] level.play(ks, true) == Some(#[trigger] q[i]));
}

/// When the search has run out of places, every place that pruned play reaches is one it holds,
/// and none of those has every box on a target.
pub proof fn lemma_closed(level: &SokobanLevel, players: Seq<Sq>, layouts: Seq<Vec<Sq>>, paths: Seq<Vec<usize>>)
    requires
        players.len() == layouts.len(),
        players.len() == paths.len(),
        players.len() >= 1,
        players.len() >= 1 ==> level.play(as_ints(paths[0]@), true)
            == Some((wide(players[0]), wide_set(layouts[0]@))),
        as_ints(paths[0]@) == Seq::<int>::empty(),
        forall|i: int| 0 <= i < players.len() ==> !wide_set((#[trigger] layouts[i])@).subset_of(level.target_set()),
        forall|i: int, k: int| 0 <= i < players.len() && 0 <= k < 4 ==>
            (#[trigger] advance(level.wall_set(), level.target_set(), (wide(players[i]), wide_set(layouts[i]@)), k, true) matches Some(q)
                ==> exists|j: int| 0 <= j < players.len() && q == (wide(#[trigger] players[j]), wide_set(layouts[j]@))),
    ensures
        !level.solvable_live(),
{
    if level.solvable_live() {
        let ks = choose|ks: Seq<int>| #[trigger] level.play(ks, true) matches Some(p) && p.1.subset_of(level.target_set());
        lemma_held(level, players, layouts, paths, ks);
        let p = level.play(ks, true)->Some_0;
        let j = choose|j: int| 0 <= j < players.len() && p == (wide(#[trigger] players[j]), wide_set(layouts[j]@));
        assert(!wide_set(layouts[j]@).subset_of(level.target_set()));
    }
}

proof fn lemma_held(level: &SokobanLevel, players: Seq<Sq>, layouts: Seq<Vec<Sq>>, paths: Seq<Vec<usize>>, ks: Seq<int>)
    requires
        players.len() == layouts.len(),
        players.len() == paths.len(),
        players.len() >= 1,
        level.play(as_ints(paths[0]@), true) == Some((wide(players[0]), wide_set(layouts[0]@))),
        as_ints(paths[0]@) == Seq::<int>::empty(),
        forall|i: int, k: int| 0 <= i < players.len() && 0 <= k < 4 ==>
            (#[trigger] advance(level.wall_set(), level.target_set(), (wide(players[i]), wide_set(layouts[i]@)), k, true) matches Some(q)
                ==> exists|j: int| 0 <= j < players.len() && q == (wide(#[trigger] players[j]), wide_set(layouts[j]@))),
    ensures
        level.play(ks, true) matches Some(p) ==>
            exists|j: int| 0 <= j < players.len() && p == (wide(#[trigger] players[j]), wide_set(layouts[j]@)),
    decreases ks.len(),
{
    if ks.len() == 0 {
        assert(level.play(ks, true) == level.play(as_ints(paths[0]@), true));
        assert((wide(players[0]), wide_set(layouts[0]@)) == (wide(players[0]), wide_set(layouts[0]@)));
    } else {
        lemma_held(level, players, layouts, paths, ks.drop_last());
        if level.play(ks.drop_last(), true) is Some {
            let p0 = level.play(ks.drop_last(), true)->Some_0;
            let j0 = choose|j: int| 0 <= j < players.len() && p0 == (wide(#[trigger] players[j]), wide_set(layouts[j]@));
            let k = ks.last();
            if 0 <= k < 4 {
                assert(advance(level.wall_set(), level.target_set(), (wide(players[j0]), wide_set(layouts[j0]@)), k, true)
                    == level.play(ks, true));
            } else {
                assert(advance(level.wall_set(), level.target_set(), p0, k, true)
                    == advance(level.wall_set(), level.target_set(), p0, 3, true));
                assert(advance(level.wall_set(), level.target_set(), (wide(players[j0]), wide_set(layouts[j0]@)), 3, true)
                    == level.play(ks, true));
            }
        }
    }
}

} // verus!
