//! Certain deductions from the numbers: the trivial rule and subset elimination, run to a fixpoint.
use vstd::prelude::*;
use crate::solver::sets::{Pos, lemma_card, lemma_push_contains, add_all, minus, within, copy_positions};

verus! {

/// A number square's demand on its unknown neighbours: exactly `need` of `unknowns` are mines.
pub struct Constraint {
    pub unknowns: Vec<Pos>,
    pub need: i32,
}

/// A constraint as a pair of a set of squares and a mine count.
pub type Demand = (Set<Pos>, int);

impl Constraint {
    pub open spec fn demand(&self) -> Demand {
        (self.unknowns@.to_set(), self.need as int)
    }

    pub open spec fn wf(&self) -> bool {
        &&& self.unknowns@.no_duplicates()
        &&& 1 <= self.unknowns@.len() <= 8
        &&& -1000 <= self.need <= 1000
    }
}

/// The mine layout `m` meets the demand `c`.
pub open spec fn holds(m: Set<Pos>, c: Demand) -> bool {
    c.0.intersect(m).len() == c.1
}

pub open spec fn all_hold(m: Set<Pos>, cs: Seq<Constraint>) -> bool {
    forall|i: int| 0 <= i < cs.len() ==> holds(m, #[trigger] cs[i].demand())
}

/// Some mine layout meets every constraint.
pub open spec fn consistent(cs: Seq<Constraint>) -> bool {
    exists|m: Set<Pos>| all_hold(m, cs)
}

/// The demand left once the squares known safe (`s`) and known mined (`mn`) are taken out.
pub open spec fn reduce(c: Demand, s: Set<Pos>, mn: Set<Pos>) -> Demand {
    (c.0.difference(s).difference(mn), c.1 - c.0.difference(s).intersect(mn).len())
}

/// A demand with no squares left, or one asking for fewer than no mines.
pub open spec fn dead(c: Demand) -> bool {
    c.0.len() == 0 || c.1 < 0
}

/// The squares that the constraints speak of.
pub open spec fn squares_of(cs: Seq<Constraint>) -> Set<Pos>
    decreases cs.len(),
{
    if cs.len() == 0 {
        Set::empty()
    } else {
        squares_of(cs.drop_last()).union(cs.last().demand().0)
    }
}

pub open spec fn positions(v: Seq<Pos>) -> Set<Pos> {
    v.to_set()
}

/// Every layout that meets the constraints meets each working demand, avoids `s` and covers `mn`.
pub open spec fn sound_state(cs: Seq<Constraint>, w: Seq<Constraint>, s: Set<Pos>, mn: Set<Pos>) -> bool {
    forall|m: Set<Pos>| #[trigger] all_hold(m, cs) ==> {
        &&& forall|k: int| 0 <= k < w.len() ==> holds(m, #[trigger] w[k].demand())
        &&& s.disjoint(m)
        &&& mn.subset_of(m)
    }
}

/// `x`, with the known squares taken out, is dead or is what some working demand reduces to.
pub open spec fn tracked_in(x: Demand, w: Seq<Constraint>, s: Set<Pos>, mn: Set<Pos>) -> bool {
    dead(reduce(x, s, mn)) || exists|k: int| 0 <= k < w.len() && reduce(#[trigger] w[k].demand(), s, mn) == reduce(x, s, mn)
}

/// A demand still open: inside `u`, clear of known squares, and neither all-safe nor all-mine.
pub open spec fn good(c: Demand, s: Set<Pos>, mn: Set<Pos>, u: Set<Pos>) -> bool {
    &&& c.0.subset_of(u)
    &&& c.0.len() > 0
    &&& c.0.disjoint(s)
    &&& c.0.disjoint(mn)
    &&& 0 < c.1 <= 1000
    &&& c.1 != c.0.len()
}

pub open spec fn good_set(w: Seq<Constraint>, s: Set<Pos>, mn: Set<Pos>, u: Set<Pos>) -> Set<Demand> {
    Set::new(|c: Demand| (exists|k: int| 0 <= k < w.len() && #[trigger] w[k].demand() == c) && good(c, s, mn, u))
}

pub open spec fn bad_count(w: Seq<Constraint>, s: Set<Pos>, mn: Set<Pos>, u: Set<Pos>) -> nat
    decreases w.len(),
{
    if w.len() == 0 {
        0
    } else {
        bad_count(w.drop_last(), s, mn, u) + if good(w.last().demand(), s, mn, u) { 0nat } else { 1nat }
    }
}

pub open spec fn subsets_of(u: Set<Pos>) -> Set<Set<Pos>> {
    Set::new(|t: Set<Pos>| t.subset_of(u))
}

pub open spec fn demands_within(u: Set<Pos>, k: int) -> Set<Demand> {
    Set::new(|c: Demand| c.0.subset_of(u) && 0 <= c.1 <= k)
}

/// The subset rule has nothing left to add for the pair `(i, j)`: either `w[i]` is no strict subset
/// of `w[j]`, or what it says of the squares of `w[j]` outside `w[i]` is already known or in `found`.
pub open spec fn settled(w: Seq<Constraint>, i: int, j: int, s: Set<Pos>, mn: Set<Pos>, found: Seq<Constraint>) -> bool {
    let a = w[i].demand();
    let b = w[j].demand();
    let d = b.1 - a.1;
    let diff = b.0.difference(a.0);
    (i != j && a.0.subset_of(b.0) && a.0.len() < b.0.len()) ==> {
        ||| d < 0
        ||| d == 0 && diff.subset_of(s)
        ||| d == diff.len() && diff.subset_of(mn)
        ||| 0 < d && d != diff.len() && exists|k: int| 0 <= k < found.len() && #[trigger] found[k].demand() == (diff, d)
    }
}

/// No constraint of `w` makes the demand `c`.
pub open spec fn absent_from(c: Demand, w: Seq<Constraint>) -> bool {
    forall|kk: int| 0 <= kk < w.len() ==> #[trigger] w[kk].demand() != c
}

pub open spec fn subset_closed(w: Seq<Constraint>, s: Set<Pos>, mn: Set<Pos>) -> bool {
    forall|i: int, j: int| 0 <= i < w.len() && 0 <= j < w.len() ==> #[trigger] settled(w, i, j, s, mn, w)
}

/// The trivial rule has nothing left to settle in `x`: with the known squares taken out, it is dead,
/// or it asks for some but not all of its squares.
pub open spec fn trivial_spent(x: Demand, s: Set<Pos>, mn: Set<Pos>) -> bool {
    let r = reduce(x, s, mn);
    !dead(r) ==> r.1 != 0 && r.1 != r.0.len()
}

/// Subset elimination has nothing left to settle between `x` and `y`: when, with the known squares
/// taken out, `x` is a strict subset of `y`, the squares of `y` outside `x` are neither all safe nor all mines.
pub open spec fn subset_spent(x: Demand, y: Demand, s: Set<Pos>, mn: Set<Pos>) -> bool {
    let a = reduce(x, s, mn);
    let b = reduce(y, s, mn);
    (!dead(a) && !dead(b) && a.0.subset_of(b.0) && a.0.len() < b.0.len()) ==>
        b.1 - a.1 != 0 && b.1 - a.1 != b.0.difference(a.0).len()
}

// ---------------------------------------------------------------- lemmas

pub proof fn lemma_squares_of(cs: Seq<Constraint>)
    ensures
        squares_of(cs).finite(),
        forall|p: Pos| #[trigger] squares_of(cs).contains(p) <==> exists|i: int| 0 <= i < cs.len() && (#[trigger] cs[i].demand()).0.contains(p),
    decreases cs.len(),
{
    if cs.len() > 0 {
        lemma_squares_of(cs.drop_last());
        assert forall|p: Pos| #[trigger] squares_of(cs).contains(p) <==> exists|i: int| 0 <= i < cs.len() && (#[trigger] cs[i].demand()).0.contains(p) by {
            if squares_of(cs).contains(p) {
                if squares_of(cs.drop_last()).contains(p) {
                    let i = choose|i: int| 0 <= i < cs.drop_last().len() && (#[trigger] cs.drop_last()[i].demand()).0.contains(p);
                    assert(cs[i] == cs.drop_last()[i]);
                } else {
                    assert(cs[cs.len() - 1].demand().0.contains(p));
                }
            }
            if exists|i: int| 0 <= i < cs.len() && (#[trigger] cs[i].demand()).0.contains(p) {
                let i = choose|i: int| 0 <= i < cs.len() && (#[trigger] cs[i].demand()).0.contains(p);
                if i < cs.len() - 1 {
                    assert(cs.drop_last()[i] == cs[i]);
                }
            }
        }
    }
}

pub proof fn lemma_subsets_finite(u: Set<Pos>)
    requires
        u.finite(),
    ensures
        subsets_of(u).finite(),
    decreases u.len(),
{
    if u.len() == 0 {
        assert(u =~= Set::empty());
        assert(subsets_of(u) =~= Set::empty().insert(Set::<Pos>::empty())) by {
            assert forall|t: Set<Pos>| subsets_of(u).contains(t) implies t == Set::<Pos>::empty() by {
                assert(t =~= Set::<Pos>::empty());
            }
        }
    } else {
        let a = u.choose();
        let v = u.remove(a);
        lemma_subsets_finite(v);
        let with_a = subsets_of(v).map(|t: Set<Pos>| t.insert(a));
        subsets_of(v).lemma_map_finite(|t: Set<Pos>| t.insert(a));
        assert(subsets_of(u) =~= subsets_of(v).union(with_a)) by {
            assert forall|t: Set<Pos>| subsets_of(u).contains(t) implies subsets_of(v).union(with_a).contains(t) by {
                if t.contains(a) {
                    assert(t.remove(a).insert(a) =~= t);
                    assert(subsets_of(v).contains(t.remove(a)));
                } else {
                    assert(t.subset_of(v));
                }
            }
        }
    }
}

pub proof fn lemma_demands_within_finite(u: Set<Pos>, k: int)
    requires
        u.finite(),
    ensures
        demands_within(u, k).finite(),
    decreases if k < 0 { 0 } else { k + 1 },
{
    if k < 0 {
        assert(demands_within(u, k) =~= Set::empty());
    } else {
        lemma_demands_within_finite(u, k - 1);
        lemma_subsets_finite(u);
        let top = subsets_of(u).map(|t: Set<Pos>| (t, k));
        subsets_of(u).lemma_map_finite(|t: Set<Pos>| (t, k));
        assert(demands_within(u, k) =~= demands_within(u, k - 1).union(top)) by {
            assert forall|c: Demand| demands_within(u, k).contains(c) implies demands_within(u, k - 1).union(top).contains(c) by {
                if c.1 == k {
                    assert(subsets_of(u).contains(c.0));
                    assert(c == (c.0, k));
                }
            }
        }
    }
}

pub proof fn lemma_card_grows<A>(small: Set<A>, big: Set<A>, x: A)
    requires
        big.finite(),
        small.subset_of(big),
        big.contains(x),
        !small.contains(x),
    ensures
        small.len() < big.len(),
{
    vstd::set_lib::lemma_len_subset(small, big.remove(x));
}

/// Taking out known squares twice is the same as taking them out once, when the known sets only grew.
pub proof fn lemma_reduce_compose(c: Demand, s: Set<Pos>, mn: Set<Pos>, s2: Set<Pos>, mn2: Set<Pos>)
    requires
        c.0.finite(),
        s.subset_of(s2),
        mn.subset_of(mn2),
        s2.disjoint(mn2),
    ensures
        reduce(reduce(c, s, mn), s2, mn2) == reduce(c, s2, mn2),
{
    broadcast use vstd::set_lib::group_set_properties;
    let r = reduce(c, s, mn);
    assert(r.0.difference(s2).difference(mn2) =~= c.0.difference(s2).difference(mn2));
    let a = c.0.difference(s).intersect(mn);
    let b = r.0.difference(s2).intersect(mn2);
    let whole = c.0.difference(s2).intersect(mn2);
    assert(whole =~= a + b);
    assert(a.disjoint(b));
}

pub proof fn lemma_dead_stays(c: Demand, s: Set<Pos>, mn: Set<Pos>, s2: Set<Pos>, mn2: Set<Pos>)
    requires
        c.0.finite(),
        s.subset_of(s2),
        mn.subset_of(mn2),
        s2.disjoint(mn2),
        dead(reduce(c, s, mn)),
    ensures
        dead(reduce(c, s2, mn2)),
{
    lemma_reduce_compose(c, s, mn, s2, mn2);
    let r = reduce(c, s, mn);
    vstd::set_lib::lemma_len_difference(r.0.difference(s2), mn2);
    vstd::set_lib::lemma_len_difference(r.0, s2);
}

pub proof fn lemma_reduce_untouched(c: Demand, s: Set<Pos>, mn: Set<Pos>)
    requires
        c.0.disjoint(s),
        c.0.disjoint(mn),
    ensures
        reduce(c, s, mn) == c,
{
    assert(c.0.difference(s).difference(mn) =~= c.0);
    assert(c.0.difference(s).intersect(mn) =~= Set::empty());
}

pub proof fn lemma_holds_reduce(m: Set<Pos>, c: Demand, s: Set<Pos>, mn: Set<Pos>)
    requires
        c.0.finite(),
        holds(m, c),
        s.disjoint(m),
        mn.subset_of(m),
    ensures
        holds(m, reduce(c, s, mn)),
{
    broadcast use vstd::set_lib::group_set_properties;
    let r = reduce(c, s, mn);
    let a = c.0.difference(s).intersect(mn);
    let b = r.0.intersect(m);
    assert(c.0.intersect(m) =~= a + b);
    assert(a.disjoint(b));
}

pub proof fn lemma_holds_diff(m: Set<Pos>, a: Demand, b: Demand)
    requires
        b.0.finite(),
        holds(m, a),
        holds(m, b),
        a.0.subset_of(b.0),
    ensures
        holds(m, (b.0.difference(a.0), b.1 - a.1)),
{
    broadcast use vstd::set_lib::group_set_properties;
    let x = a.0.intersect(m);
    let y = b.0.difference(a.0).intersect(m);
    assert(b.0.intersect(m) =~= x + y);
    assert(x.disjoint(y));
}

pub proof fn lemma_good_set_grows(w: Seq<Constraint>, w2: Seq<Constraint>, s: Set<Pos>, mn: Set<Pos>, u: Set<Pos>)
    requires
        w2.take(w.len() as int) == w,
        w.len() <= w2.len(),
    ensures
        good_set(w, s, mn, u).subset_of(good_set(w2, s, mn, u)),
{
    assert forall|c: Demand| good_set(w, s, mn, u).contains(c) implies good_set(w2, s, mn, u).contains(c) by {
        let k = choose|k: int| 0 <= k < w.len() && #[trigger] w[k].demand() == c;
        assert(w2[k] == w[k]);
    }
}

pub proof fn lemma_bad_count_zero(w: Seq<Constraint>, s: Set<Pos>, mn: Set<Pos>, u: Set<Pos>)
    requires
        forall|k: int| 0 <= k < w.len() ==> good(#[trigger] w[k].demand(), s, mn, u),
    ensures
        bad_count(w, s, mn, u) == 0,
    decreases w.len(),
{
    if w.len() > 0 {
        assert forall|k: int| 0 <= k < w.drop_last().len() implies good(#[trigger] w.drop_last()[k].demand(), s, mn, u) by {
            assert(w.drop_last()[k] == w[k]);
        }
        lemma_bad_count_zero(w.drop_last(), s, mn, u);
        assert(good(w[w.len() - 1].demand(), s, mn, u));
    }
}

pub proof fn lemma_bad_count_pos(w: Seq<Constraint>, s: Set<Pos>, mn: Set<Pos>, u: Set<Pos>, k: int)
    requires
        0 <= k < w.len(),
        !good(w[k].demand(), s, mn, u),
    ensures
        bad_count(w, s, mn, u) > 0,
    decreases w.len(),
{
    if k < w.len() - 1 {
        assert(w.drop_last()[k] == w[k]);
        lemma_bad_count_pos(w.drop_last(), s, mn, u, k);
    }
}

/// A witness layout shows the known-safe and known-mine sets never meet.
pub proof fn lemma_known_disjoint(cs: Seq<Constraint>, w: Seq<Constraint>, s: Set<Pos>, mn: Set<Pos>)
    requires
        consistent(cs),
        sound_state(cs, w, s, mn),
    ensures
        s.disjoint(mn),
{
    let m = choose|m: Set<Pos>| all_hold(m, cs);
    assert(all_hold(m, cs));
}

// ---------------------------------------------------------------- one constraint

/// Takes the known squares out of one constraint; `touched` says whether any was in it.
fn reduce_one(c: &Constraint, safe: &Vec<Pos>, mine: &Vec<Pos>) -> (r: (Vec<Pos>, i32, bool))
    requires
        c.wf(),
        safe@.no_duplicates(),
        mine@.no_duplicates(),
    ensures
        r.0@.no_duplicates(),
        r.0@.len() <= c.unknowns@.len(),
        (r.0@.to_set(), r.1 as int) == reduce(c.demand(), positions(safe@), positions(mine@)),
        c.need - 8 <= r.1 <= c.need,
        r.2 == !(c.demand().0.disjoint(positions(safe@)) && c.demand().0.disjoint(positions(mine@))),
{
    broadcast use vstd::set_lib::group_set_properties;
    let cells1 = minus(&c.unknowns, safe);
    let cells2 = minus(&cells1, mine);
    let removed = cells1.len() - cells2.len();
    let need = c.need - removed as i32;
    let touched = cells2.len() < c.unknowns.len();
    proof {
        lemma_card(c.unknowns@);
        lemma_card(cells1@);
        lemma_card(cells2@);
        let a = c.unknowns@.to_set();
        let sset = positions(safe@);
        let mset = positions(mine@);
        assert(cells1@.to_set().intersect(mset).len() == cells1@.len() - cells2@.len());
        if a.disjoint(sset) && a.disjoint(mset) {
            assert(cells2@.to_set() =~= a);
        } else {
            if !a.disjoint(sset) {
                let p = choose|p: Pos| a.contains(p) && sset.contains(p);
                lemma_card_grows(cells2@.to_set(), a, p);
            } else {
                let p = choose|p: Pos| a.contains(p) && mset.contains(p);
                lemma_card_grows(cells2@.to_set(), a, p);
            }
        }
    }
    (cells2, need, touched)
}

/// Both sets only grew: the old content is a prefix of the new.
pub open spec fn grew(new: Seq<Pos>, old: Seq<Pos>) -> bool {
    new.len() >= old.len() && new.take(old.len() as int) == old
}

pub proof fn lemma_grew_subset(new: Seq<Pos>, old: Seq<Pos>)
    requires
        grew(new, old),
    ensures
        positions(old).subset_of(positions(new)),
{
    assert forall|p: Pos| positions(old).contains(p) implies positions(new).contains(p) by {
        let k = choose|k: int| 0 <= k < old.len() && old[k] == p;
        assert(new.take(old.len() as int)[k] == p);
    }
}

pub proof fn lemma_grew_refl(a: Seq<Pos>)
    ensures
        grew(a, a),
{
    assert(a.take(a.len() as int) =~= a);
}

pub proof fn lemma_grew_trans(a: Seq<Pos>, b: Seq<Pos>, c: Seq<Pos>)
    requires
        grew(b, a),
        grew(c, b),
    ensures
        grew(c, a),
{
    assert(c.take(a.len() as int) =~= c.take(b.len() as int).take(a.len() as int));
}

/// Under a consistent board, every demand tracked before the known sets grew is still tracked.
pub proof fn lemma_tracked_after_growth(x: Demand, w: Seq<Constraint>, w2: Seq<Constraint>,
    s: Set<Pos>, mn: Set<Pos>, s2: Set<Pos>, mn2: Set<Pos>)
    requires
        x.0.finite(),
        forall|k: int| 0 <= k < w.len() ==> (#[trigger] w[k].demand()).0.finite(),
        tracked_in(x, w, s, mn),
        w2.len() >= w.len(),
        w2.take(w.len() as int) == w,
        s.subset_of(s2),
        mn.subset_of(mn2),
        s2.disjoint(mn2),
    ensures
        tracked_in(x, w2, s2, mn2),
{
    if dead(reduce(x, s, mn)) {
        lemma_dead_stays(x, s, mn, s2, mn2);
    } else {
        let k = choose|k: int| 0 <= k < w.len() && reduce(#[trigger] w[k].demand(), s, mn) == reduce(x, s, mn);
        lemma_reduce_compose(x, s, mn, s2, mn2);
        lemma_reduce_compose(w[k].demand(), s, mn, s2, mn2);
        assert(w2[k] == w[k]);
    }
}

/// One pass of the trivial rule: each working constraint loses the known squares, and one asking
/// for no mine, or for a mine in every square left, settles those squares.
fn reduce_pass(w: &Vec<Constraint>, safe: &mut Vec<Pos>, mine: &mut Vec<Pos>,
    Ghost(cs): Ghost<Seq<Constraint>>, Ghost(u): Ghost<Set<Pos>>) -> (r: (Vec<Constraint>, bool))
    requires
        forall|k: int| 0 <= k < w@.len() ==> (#[trigger] w@[k]).wf() && w@[k].demand().0.subset_of(u),
        old(safe)@.no_duplicates(),
        old(mine)@.no_duplicates(),
        positions(old(safe)@).subset_of(u),
        positions(old(mine)@).subset_of(u),
        sound_state(cs, w@, positions(old(safe)@), positions(old(mine)@)),
    ensures
        forall|j: int| 0 <= j < r.0@.len() ==> (#[trigger] r.0@[j]).wf() && r.0@[j].demand().0.subset_of(u)
            && 0 <= r.0@[j].need,
        final(safe)@.no_duplicates(),
        final(mine)@.no_duplicates(),
        positions(final(safe)@).subset_of(u),
        positions(final(mine)@).subset_of(u),
        grew(final(safe)@, old(safe)@),
        grew(final(mine)@, old(mine)@),
        sound_state(cs, r.0@, positions(final(safe)@), positions(final(mine)@)),
        consistent(cs) ==> forall|k: int| 0 <= k < w@.len() ==>
            tracked_in(#[trigger] w@[k].demand(), r.0@, positions(final(safe)@), positions(final(mine)@)),
        !r.1 ==> final(safe)@ == old(safe)@ && final(mine)@ == old(mine)@,
        (final(safe)@.len() == old(safe)@.len() && final(mine)@.len() == old(mine)@.len()) ==>
            forall|j: int| 0 <= j < r.0@.len() ==>
                good(#[trigger] r.0@[j].demand(), positions(final(safe)@), positions(final(mine)@), u),
        (final(safe)@.len() == old(safe)@.len() && final(mine)@.len() == old(mine)@.len()) ==>
            forall|k: int| 0 <= k < w@.len() && good(#[trigger] w@[k].demand(), positions(old(safe)@), positions(old(mine)@), u)
                ==> exists|j: int| 0 <= j < r.0@.len() && #[trigger] r.0@[j].demand() == w@[k].demand(),
        (final(safe)@.len() == old(safe)@.len() && final(mine)@.len() == old(mine)@.len() && r.1) ==>
            exists|k: int| 0 <= k < w@.len() && !good(#[trigger] w@[k].demand(), positions(old(safe)@), positions(old(mine)@), u),
{
    let ghost s0 = safe@;
    let ghost m0 = mine@;
    proof {
        lemma_grew_refl(s0);
        lemma_grew_refl(m0);
    }
    let mut nw: Vec<Constraint> = Vec::new();
    let mut changed = false;
    let mut i: usize = 0;
    while i < w.len()
        invariant
            0 <= i <= w@.len(),
            forall|k: int| 0 <= k < w@.len() ==> (#[trigger] w@[k]).wf() && w@[k].demand().0.subset_of(u),
            forall|j: int| 0 <= j < nw@.len() ==> (#[trigger] nw@[j]).wf() && nw@[j].demand().0.subset_of(u)
                && 0 <= nw@[j].need,
            safe@.no_duplicates(),
            mine@.no_duplicates(),
            positions(safe@).subset_of(u),
            positions(mine@).subset_of(u),
            grew(safe@, s0),
            grew(mine@, m0),
            sound_state(cs, w@, positions(safe@), positions(mine@)),
            sound_state(cs, nw@, positions(safe@), positions(mine@)),
            consistent(cs) ==> forall|k: int| 0 <= k < i ==>
                tracked_in(#[trigger] w@[k].demand(), nw@, positions(safe@), positions(mine@)),
            !changed ==> safe@ == s0 && mine@ == m0,
            (safe@.len() == s0.len() && mine@.len() == m0.len()) ==> {
                &&& forall|j: int| 0 <= j < nw@.len() ==>
                    good(#[trigger] nw@[j].demand(), positions(safe@), positions(mine@), u)
                &&& forall|k: int| 0 <= k < i && good(#[trigger] w@[k].demand(), positions(s0), positions(m0), u)
                    ==> exists|j: int| 0 <= j < nw@.len() && #[trigger] nw@[j].demand() == w@[k].demand()
                &&& changed ==> exists|k: int| 0 <= k < i && !good(#[trigger] w@[k].demand(), positions(s0), positions(m0), u)
            },
        decreases w@.len() - i,
    {
        let ghost s_before = safe@;
        let ghost m_before = mine@;
        let ghost nw_before = nw@;
        let ghost changed_before = changed;
        let (cells, need, touched) = reduce_one(&w[i], safe, mine);
        let ghost red = reduce(w@[i as int].demand(), positions(safe@), positions(mine@));
        proof {
            lemma_card(cells@);
            lemma_card(w@[i as int].unknowns@);
            assert forall|m: Set<Pos>| #[trigger] all_hold(m, cs) implies holds(m, red) by {
                lemma_holds_reduce(m, w@[i as int].demand(), positions(safe@), positions(mine@));
            }
            if consistent(cs) {
                lemma_known_disjoint(cs, w@, positions(safe@), positions(mine@));
            }
        }
        if touched {
            changed = true;
        }
        if need < 0 || cells.len() == 0 {
            proof {
                assert(dead(red));
            }
        } else if need == 0 {
            let a = add_all(safe, &cells);
            if a {
                changed = true;
            }
            proof {
                lemma_card(safe@);
                assert forall|m: Set<Pos>| #[trigger] all_hold(m, cs) implies positions(safe@).disjoint(m) by {
                    assert(cells@.to_set().intersect(m).len() == 0);
                    vstd::set_lib::lemma_set_empty_equivalency_len(cells@.to_set().intersect(m));
                    vstd::set_lib::lemma_disjoint_iff_empty_intersection(cells@.to_set(), m);
                    assert(positions(s_before).disjoint(m));
                    assert(positions(safe@) =~= positions(s_before).union(cells@.to_set()));
                }
            }
        } else if need as usize == cells.len() {
            let a = add_all(mine, &cells);
            if a {
                changed = true;
            }
            proof {
                assert forall|m: Set<Pos>| #[trigger] all_hold(m, cs) implies positions(mine@).subset_of(m) by {
                    vstd::set_lib::lemma_len_intersect(cells@.to_set(), m);
                    vstd::set_lib::lemma_subset_equality(cells@.to_set().intersect(m), cells@.to_set());
                }
            }
        } else {
            nw.push(Constraint { unknowns: cells, need });
            proof {
                assert(nw@[nw@.len() - 1].demand() == red);
            }
        }
        proof {
            lemma_grew_refl(s_before);
            lemma_grew_refl(m_before);
            lemma_grew_trans(s0, s_before, safe@);
            lemma_grew_trans(m0, m_before, mine@);
            lemma_grew_subset(safe@, s_before);
            lemma_grew_subset(mine@, m_before);
            assert(nw@.take(nw_before.len() as int) =~= nw_before);
            if consistent(cs) {
                lemma_known_disjoint(cs, nw@, positions(safe@), positions(mine@));
                assert forall|k: int| 0 <= k < i + 1 implies
                    tracked_in(#[trigger] w@[k].demand(), nw@, positions(safe@), positions(mine@)) by {
                    lemma_card(w@[k].unknowns@);
                    if k < i {
                        lemma_tracked_after_growth(w@[k].demand(), nw_before, nw@, positions(s_before),
                            positions(m_before), positions(safe@), positions(mine@));
                    } else {
                        lemma_reduce_compose(w@[k].demand(), positions(s_before), positions(m_before),
                            positions(safe@), positions(mine@));
                        if !(need < 0 || cells.len() == 0) && !(need == 0) && !(need as usize == cells.len()) {
                            assert(nw@[nw@.len() - 1].demand() == red);
                            lemma_reduce_compose(red, positions(s_before), positions(m_before),
                                positions(safe@), positions(mine@));
                        } else if need == 0 && cells.len() > 0 {
                            assert(reduce(red, positions(safe@), positions(mine@)).0 =~= Set::empty());
                        } else if need > 0 && need as usize == cells.len() {
                            assert(reduce(red, positions(safe@), positions(mine@)).0 =~= Set::empty());
                        }
                    }
                }
            }
            if safe@.len() == s0.len() && mine@.len() == m0.len() {
                assert(safe@ =~= s0);
                assert(mine@ =~= m0);
                assert(s_before =~= s0);
                assert(m_before =~= m0);
                if good(w@[i as int].demand(), positions(s0), positions(m0), u) {
                    lemma_reduce_untouched(w@[i as int].demand(), positions(s0), positions(m0));
                    assert(nw@[nw@.len() - 1].demand() == w@[i as int].demand());
                }
            }
        }
        i += 1;
    }
    proof {
        if safe@.len() == s0.len() && mine@.len() == m0.len() {
            assert forall|k: int| 0 <= k < w@.len() && good(#[trigger] w@[k].demand(), positions(s0), positions(m0), u)
                implies exists|j: int| 0 <= j < nw@.len() && #[trigger] nw@[j].demand() == w@[k].demand() by {
                assert(k < i);
            }
        }
    }
    let r = (nw, changed);
    proof {
        if safe@.len() == s0.len() && mine@.len() == m0.len() {
            assert forall|k: int| 0 <= k < w@.len() && good(#[trigger] w@[k].demand(), positions(old(safe)@), positions(old(mine)@), u)
                implies exists|j: int| 0 <= j < r.0@.len() && #[trigger] r.0@[j].demand() == w@[k].demand() by {
                assert(k < i);
                let j = choose|j: int| 0 <= j < nw@.len() && #[trigger] nw@[j].demand() == w@[k].demand();
                assert(r.0@[j] == nw@[j]);
            }
        }
    }
    r
}

pub proof fn lemma_settled_grows(w: Seq<Constraint>, i: int, j: int, s: Set<Pos>, mn: Set<Pos>,
    found: Seq<Constraint>, s2: Set<Pos>, mn2: Set<Pos>, found2: Seq<Constraint>)
    requires
        settled(w, i, j, s, mn, found),
        s.subset_of(s2),
        mn.subset_of(mn2),
        found2.len() >= found.len(),
        found2.take(found.len() as int) == found,
    ensures
        settled(w, i, j, s2, mn2, found2),
{
    let a = w[i].demand();
    let b = w[j].demand();
    let d = b.1 - a.1;
    let diff = b.0.difference(a.0);
    if i != j && a.0.subset_of(b.0) && a.0.len() < b.0.len() && 0 < d && d != diff.len() && !(d == 0 && diff.subset_of(s))
        && !(d == diff.len() && diff.subset_of(mn)) {
        let k = choose|k: int| 0 <= k < found.len() && #[trigger] found[k].demand() == (diff, d);
        assert(found2[k] == found[k]);
    }
}

/// Runs the subset rule for every pair `(i, j)`, `j` ranging over the working constraints.
fn subset_row(w: &Vec<Constraint>, i: usize, safe: &mut Vec<Pos>, mine: &mut Vec<Pos>,
    fresh: &mut Vec<Constraint>, Ghost(cs): Ghost<Seq<Constraint>>, Ghost(u): Ghost<Set<Pos>>) -> (changed: bool)
    requires
        i < w@.len(),
        forall|k: int| 0 <= k < w@.len() ==> (#[trigger] w@[k]).wf() && w@[k].demand().0.subset_of(u)
            && 0 <= w@[k].need,
        forall|k: int| 0 <= k < old(fresh)@.len() ==> (#[trigger] old(fresh)@[k]).wf()
            && 0 < old(fresh)@[k].need && old(fresh)@[k].need != old(fresh)@[k].unknowns@.len()
            && exists|j: int| 0 <= j < w@.len() && old(fresh)@[k].demand().0.subset_of(#[trigger] w@[j].demand().0),
        old(safe)@.no_duplicates(),
        old(mine)@.no_duplicates(),
        positions(old(safe)@).subset_of(u),
        positions(old(mine)@).subset_of(u),
        sound_state(cs, w@, positions(old(safe)@), positions(old(mine)@)),
        sound_state(cs, old(fresh)@, positions(old(safe)@), positions(old(mine)@)),
    ensures
        forall|k: int| 0 <= k < final(fresh)@.len() ==> (#[trigger] final(fresh)@[k]).wf()
            && 0 < final(fresh)@[k].need && final(fresh)@[k].need != final(fresh)@[k].unknowns@.len()
            && exists|j: int| 0 <= j < w@.len() && final(fresh)@[k].demand().0.subset_of(#[trigger] w@[j].demand().0),
        final(fresh)@.len() >= old(fresh)@.len(),
        final(fresh)@.take(old(fresh)@.len() as int) == old(fresh)@,
        final(safe)@.no_duplicates(),
        final(mine)@.no_duplicates(),
        positions(final(safe)@).subset_of(u),
        positions(final(mine)@).subset_of(u),
        grew(final(safe)@, old(safe)@),
        grew(final(mine)@, old(mine)@),
        sound_state(cs, w@, positions(final(safe)@), positions(final(mine)@)),
        sound_state(cs, final(fresh)@, positions(final(safe)@), positions(final(mine)@)),
        !changed ==> final(safe)@ == old(safe)@ && final(mine)@ == old(mine)@,
        changed ==> final(safe)@.len() > old(safe)@.len() || final(mine)@.len() > old(mine)@.len(),
        !changed ==> forall|j: int| 0 <= j < w@.len() ==>
            #[trigger] settled(w@, i as int, j, positions(final(safe)@), positions(final(mine)@), final(fresh)@),
{
    let ghost s0 = safe@;
    let ghost m0 = mine@;
    let ghost f0 = fresh@;
    proof {
        lemma_grew_refl(s0);
        lemma_grew_refl(m0);
        assert(f0.take(f0.len() as int) =~= f0);
    }
    let mut changed = false;
    let mut j: usize = 0;
    while j < w.len()
        invariant
            i < w@.len(),
            0 <= j <= w@.len(),
            forall|k: int| 0 <= k < w@.len() ==> (#[trigger] w@[k]).wf() && w@[k].demand().0.subset_of(u)
                && 0 <= w@[k].need,
            forall|k: int| 0 <= k < fresh@.len() ==> (#[trigger] fresh@[k]).wf()
                && 0 < fresh@[k].need && fresh@[k].need != fresh@[k].unknowns@.len()
                && exists|jj: int| 0 <= jj < w@.len() && fresh@[k].demand().0.subset_of(#[trigger] w@[jj].demand().0),
            fresh@.len() >= f0.len(),
            fresh@.take(f0.len() as int) == f0,
            safe@.no_duplicates(),
            mine@.no_duplicates(),
            positions(safe@).subset_of(u),
            positions(mine@).subset_of(u),
            grew(safe@, s0),
            grew(mine@, m0),
            sound_state(cs, w@, positions(safe@), positions(mine@)),
            sound_state(cs, fresh@, positions(safe@), positions(mine@)),
            !changed ==> safe@ == s0 && mine@ == m0,
            changed ==> safe@.len() > s0.len() || mine@.len() > m0.len(),
            !changed ==> forall|jj: int| 0 <= jj < j ==>
                #[trigger] settled(w@, i as int, jj, positions(safe@), positions(mine@), fresh@),
        decreases w@.len() - j,
    {
        let ghost s_before = safe@;
        let ghost m_before = mine@;
        let ghost fr_before = fresh@;
        let ghost changed_before = changed;
        if i != j {
            let a = &w[i];
            let b = &w[j];
            if within(&a.unknowns, &b.unknowns) && a.unknowns.len() < b.unknowns.len() {
                let diff = minus(&b.unknowns, &a.unknowns);
                let d = b.need - a.need;
                proof {
                    lemma_card(a.unknowns@);
                    lemma_card(b.unknowns@);
                    lemma_card(diff@);
                    vstd::set_lib::lemma_set_difference_len(b.demand().0, a.demand().0);
                    assert(b.demand().0.intersect(a.demand().0) =~= a.demand().0);
                    assert forall|m: Set<Pos>| #[trigger] all_hold(m, cs) implies holds(m, (diff@.to_set(), d as int)) by {
                        lemma_holds_diff(m, a.demand(), b.demand());
                    }
                }
                if d < 0 {
                    proof { assert(settled(w@, i as int, j as int, positions(safe@), positions(mine@), fresh@)); }
                } else if d == 0 {
                    let added = add_all(safe, &diff);
                    if added {
                        changed = true;
                    }
                    proof {
                        assert forall|m: Set<Pos>| #[trigger] all_hold(m, cs) implies positions(safe@).disjoint(m) by {
                            assert(diff@.to_set().intersect(m).len() == 0);
                            vstd::set_lib::lemma_set_empty_equivalency_len(diff@.to_set().intersect(m));
                            vstd::set_lib::lemma_disjoint_iff_empty_intersection(diff@.to_set(), m);
                            assert(positions(s_before).disjoint(m));
                            assert(positions(safe@) =~= positions(s_before).union(diff@.to_set()));
                        }
                        assert(changed || settled(w@, i as int, j as int, positions(safe@), positions(mine@), fresh@));
                    }
                } else if d as usize == diff.len() {
                    let added = add_all(mine, &diff);
                    if added {
                        changed = true;
                    }
                    proof {
                        assert forall|m: Set<Pos>| #[trigger] all_hold(m, cs) implies positions(mine@).subset_of(m) by {
                            vstd::set_lib::lemma_len_intersect(diff@.to_set(), m);
                            vstd::set_lib::lemma_subset_equality(diff@.to_set().intersect(m), diff@.to_set());
                            assert(positions(m_before).subset_of(m));
                            assert(positions(mine@) =~= positions(m_before).union(diff@.to_set()));
                        }
                        assert(changed || settled(w@, i as int, j as int, positions(safe@), positions(mine@), fresh@));
                    }
                } else {
                    fresh.push(Constraint { unknowns: diff, need: d });
                    proof {
                        assert(fresh@[fresh@.len() - 1].demand() == (diff@.to_set(), d as int));
                        assert(fresh@[fresh@.len() - 1].demand().0.subset_of(w@[j as int].demand().0));
                        assert(settled(w@, i as int, j as int, positions(safe@), positions(mine@), fresh@));
                        assert(fresh@[fresh@.len() - 1].unknowns@.len() >= 1);
                        assert(fresh@[fresh@.len() - 1].wf());
                    }
                }
            }
        }
        proof {
            lemma_grew_refl(s_before);
            lemma_grew_refl(m_before);
            lemma_grew_trans(s0, s_before, safe@);
            lemma_grew_trans(m0, m_before, mine@);
            lemma_grew_subset(safe@, s_before);
            lemma_grew_subset(mine@, m_before);
            assert(fresh@.take(fr_before.len() as int) =~= fr_before);
            assert(fresh@.take(f0.len() as int) =~= f0);
            assert forall|k: int| 0 <= k < fr_before.len() implies fresh@[k] == fr_before[k] by {
                assert(fresh@.take(fr_before.len() as int)[k] == fresh@[k]);
            }
            lemma_card(w@[i as int].unknowns@);
            lemma_card(w@[j as int].unknowns@);
            if !changed {
                assert(!changed_before);
                assert(settled(w@, i as int, j as int, positions(safe@), positions(mine@), fresh@));
                assert forall|jj: int| 0 <= jj < j + 1 implies
                    #[trigger] settled(w@, i as int, jj, positions(safe@), positions(mine@), fresh@) by {
                    if jj < j {
                        lemma_settled_grows(w@, i as int, jj, positions(s_before), positions(m_before), fr_before,
                            positions(safe@), positions(mine@), fresh@);
                    } else if fresh@.len() > fr_before.len() {
                        assert(fresh@[fresh@.len() - 1].demand() == fresh@[fr_before.len() as int].demand());
                    }
                }
            }
        }
        j += 1;
    }
    changed
}

/// Two constraints name the same squares and the same count.
fn same_demand(a: &Constraint, b: &Constraint) -> (r: bool)
    requires
        a.wf(),
        b.wf(),
    ensures
        r == (a.demand() == b.demand()),
{
    proof {
        lemma_card(a.unknowns@);
        lemma_card(b.unknowns@);
    }
    if a.need != b.need || a.unknowns.len() != b.unknowns.len() {
        return false;
    }
    let w = within(&a.unknowns, &b.unknowns);
    proof {
        if w {
            vstd::set_lib::lemma_subset_equality(a.demand().0, b.demand().0);
        }
    }
    w
}

fn known_demand(w: &Vec<Constraint>, f: &Constraint) -> (r: bool)
    requires
        f.wf(),
        forall|k: int| 0 <= k < w@.len() ==> (#[trigger] w@[k]).wf(),
    ensures
        r == exists|k: int| 0 <= k < w@.len() && #[trigger] w@[k].demand() == f.demand(),
{
    let mut k: usize = 0;
    while k < w.len()
        invariant
            f.wf(),
            forall|k: int| 0 <= k < w@.len() ==> (#[trigger] w@[k]).wf(),
            0 <= k <= w@.len(),
            forall|kk: int| 0 <= kk < k ==> #[trigger] w@[kk].demand() != f.demand(),
        decreases w@.len() - k,
    {
        if same_demand(&w[k], f) {
            return true;
        }
        k += 1;
    }
    false
}

fn copy_constraint(c: &Constraint) -> (r: Constraint)
    ensures
        r.unknowns@ == c.unknowns@,
        r.need == c.need,
{
    Constraint { unknowns: copy_positions(&c.unknowns), need: c.need }
}

pub proof fn lemma_settled_found(w: Seq<Constraint>, i: int, j: int, s: Set<Pos>, mn: Set<Pos>, found: Seq<Constraint>)
    requires
        settled(w, i, j, s, mn, found),
        forall|k: int| 0 <= k < found.len() ==> exists|kk: int| 0 <= kk < w.len() && #[trigger] w[kk].demand() == (#[trigger] found[k]).demand(),
    ensures
        settled(w, i, j, s, mn, w),
{
    let a = w[i].demand();
    let b = w[j].demand();
    let d = b.1 - a.1;
    let diff = b.0.difference(a.0);
    if i != j && a.0.subset_of(b.0) && a.0.len() < b.0.len() && 0 < d && d != diff.len() && !(d == 0 && diff.subset_of(s))
        && !(d == diff.len() && diff.subset_of(mn)) {
        let k = choose|k: int| 0 <= k < found.len() && #[trigger] found[k].demand() == (diff, d);
        let kk = choose|kk: int| 0 <= kk < w.len() && #[trigger] w[kk].demand() == found[k].demand();
    }
}

/// The subset rule over every ordered pair of working constraints; what it derives that is new joins them.
fn subset_pass(w: &mut Vec<Constraint>, safe: &mut Vec<Pos>, mine: &mut Vec<Pos>,
    Ghost(cs): Ghost<Seq<Constraint>>, Ghost(u): Ghost<Set<Pos>>) -> (changed: bool)
    requires
        forall|k: int| 0 <= k < old(w)@.len() ==> (#[trigger] old(w)@[k]).wf() && old(w)@[k].demand().0.subset_of(u)
            && 0 <= old(w)@[k].need,
        old(safe)@.no_duplicates(),
        old(mine)@.no_duplicates(),
        positions(old(safe)@).subset_of(u),
        positions(old(mine)@).subset_of(u),
        sound_state(cs, old(w)@, positions(old(safe)@), positions(old(mine)@)),
    ensures
        forall|k: int| 0 <= k < final(w)@.len() ==> (#[trigger] final(w)@[k]).wf() && final(w)@[k].demand().0.subset_of(u)
            && 0 <= final(w)@[k].need,
        final(w)@.len() >= old(w)@.len(),
        final(w)@.take(old(w)@.len() as int) == old(w)@,
        final(safe)@.no_duplicates(),
        final(mine)@.no_duplicates(),
        positions(final(safe)@).subset_of(u),
        positions(final(mine)@).subset_of(u),
        grew(final(safe)@, old(safe)@),
        grew(final(mine)@, old(mine)@),
        sound_state(cs, final(w)@, positions(final(safe)@), positions(final(mine)@)),
        !changed ==> final(w)@ == old(w)@ && final(safe)@ == old(safe)@ && final(mine)@ == old(mine)@
            && subset_closed(old(w)@, positions(final(safe)@), positions(final(mine)@)),
        (final(safe)@.len() == old(safe)@.len() && final(mine)@.len() == old(mine)@.len()
            && forall|k: int| 0 <= k < old(w)@.len() ==> good(#[trigger] old(w)@[k].demand(), positions(old(safe)@), positions(old(mine)@), u))
            ==> (forall|k: int| 0 <= k < final(w)@.len() ==> good(#[trigger] final(w)@[k].demand(), positions(final(safe)@), positions(final(mine)@), u)),
        (final(safe)@.len() == old(safe)@.len() && final(mine)@.len() == old(mine)@.len() && changed)
            ==> exists|k: int| old(w)@.len() <= k < final(w)@.len() && absent_from(#[trigger] final(w)@[k].demand(), old(w)@),
{
    let ghost w0 = w@;
    let ghost s0 = safe@;
    let ghost m0 = mine@;
    proof {
        lemma_grew_refl(s0);
        lemma_grew_refl(m0);
    }
    let mut fresh: Vec<Constraint> = Vec::new();
    let mut changed = false;
    let n = w.len();
    let mut i: usize = 0;
    while i < n
        invariant
            w@ == w0,
            n == w0.len(),
            0 <= i <= n,
            forall|k: int| 0 <= k < w0.len() ==> (#[trigger] w0[k]).wf() && w0[k].demand().0.subset_of(u)
                && 0 <= w0[k].need,
            forall|k: int| 0 <= k < fresh@.len() ==> (#[trigger] fresh@[k]).wf()
                && 0 < fresh@[k].need && fresh@[k].need != fresh@[k].unknowns@.len()
                && exists|jj: int| 0 <= jj < w0.len() && fresh@[k].demand().0.subset_of(#[trigger] w0[jj].demand().0),
            safe@.no_duplicates(),
            mine@.no_duplicates(),
            positions(safe@).subset_of(u),
            positions(mine@).subset_of(u),
            grew(safe@, s0),
            grew(mine@, m0),
            sound_state(cs, w0, positions(safe@), positions(mine@)),
            sound_state(cs, fresh@, positions(safe@), positions(mine@)),
            !changed ==> safe@ == s0 && mine@ == m0,
            changed ==> safe@.len() > s0.len() || mine@.len() > m0.len(),
            !changed ==> forall|ii: int, jj: int| 0 <= ii < i && 0 <= jj < n ==>
                #[trigger] settled(w0, ii, jj, positions(safe@), positions(mine@), fresh@),
        decreases n - i,
    {
        let ghost s_before = safe@;
        let ghost m_before = mine@;
        let ghost fr_before = fresh@;
        let c = subset_row(w, i, safe, mine, &mut fresh, Ghost(cs), Ghost(u));
        proof {
            lemma_grew_trans(s0, s_before, safe@);
            lemma_grew_trans(m0, m_before, mine@);
            lemma_grew_subset(safe@, s_before);
            lemma_grew_subset(mine@, m_before);
            if !changed && !c {
                assert forall|ii: int, jj: int| 0 <= ii < i + 1 && 0 <= jj < n implies
                    #[trigger] settled(w0, ii, jj, positions(safe@), positions(mine@), fresh@) by {
                    if ii < i {
                        lemma_settled_grows(w0, ii, jj, positions(s_before), positions(m_before), fr_before,
                            positions(safe@), positions(mine@), fresh@);
                    }
                }
            }
        }
        if c {
            changed = true;
        }
        i += 1;
    }
    let ghost fr = fresh@;
    let ghost rows_changed = changed;
    let ghost s_rows = safe@;
    let ghost m_rows = mine@;
    let mut k: usize = 0;
    while k < fresh.len()
        invariant
            fresh@ == fr,
            0 <= k <= fr.len(),
            w@.len() >= w0.len(),
            w@.take(w0.len() as int) == w0,
            forall|kk: int| 0 <= kk < w@.len() ==> (#[trigger] w@[kk]).wf() && w@[kk].demand().0.subset_of(u)
                && 0 <= w@[kk].need,
            forall|kk: int| 0 <= kk < w0.len() ==> (#[trigger] w0[kk]).wf(),
            forall|kk: int| 0 <= kk < fr.len() ==> (#[trigger] fr[kk]).wf()
                && 0 < fr[kk].need && fr[kk].need != fr[kk].unknowns@.len()
                && exists|jj: int| 0 <= jj < w0.len() && fr[kk].demand().0.subset_of(#[trigger] w0[jj].demand().0),
            forall|kk: int| w0.len() <= kk < w@.len() ==> exists|f: int| 0 <= f < fr.len() && #[trigger] fr[f].demand() == (#[trigger] w@[kk]).demand(),
            forall|kk: int| w0.len() <= kk < w@.len() ==> absent_from(#[trigger] w@[kk].demand(), w0),
            sound_state(cs, w@, positions(safe@), positions(mine@)),
            sound_state(cs, fr, positions(safe@), positions(mine@)),
            forall|f: int| 0 <= f < k ==> exists|kk: int| 0 <= kk < w@.len() && #[trigger] w@[kk].demand() == (#[trigger] fr[f]).demand(),
            rows_changed ==> changed,
            safe@ == s_rows,
            mine@ == m_rows,
            rows_changed ==> s_rows.len() > s0.len() || m_rows.len() > m0.len(),
            !rows_changed ==> s_rows == s0 && m_rows == m0,
            !changed ==> w@ == w0,
            w@.len() > w0.len() ==> changed,
            (changed && !rows_changed) ==> w@.len() > w0.len(),
        decreases fr.len() - k,
    {
        let ghost w_before = w@;
        let present = known_demand(w, &fresh[k]);
        if !present {
            let c = copy_constraint(&fresh[k]);
            w.push(c);
            changed = true;
            proof {
                assert(w@[w@.len() - 1].demand() == fr[k as int].demand());
            }
        }
        proof {
            assert(w@.take(w0.len() as int) =~= w0) by {
                assert forall|kk: int| 0 <= kk < w0.len() implies w@[kk] == w0[kk] by {
                    assert(w_before.take(w0.len() as int)[kk] == w0[kk]);
                }
            }
            assert forall|kk: int| 0 <= kk < w_before.len() implies w@[kk] == w_before[kk] by {}
            assert forall|f: int| 0 <= f < k + 1 implies exists|kk: int| 0 <= kk < w@.len() && #[trigger] w@[kk].demand() == (#[trigger] fr[f]).demand() by {
                if f < k {
                    let kk = choose|kk: int| 0 <= kk < w_before.len() && #[trigger] w_before[kk].demand() == fr[f].demand();
                    assert(w@[kk] == w_before[kk]);
                } else if present {
                    let kk = choose|kk: int| 0 <= kk < w_before.len() && #[trigger] w_before[kk].demand() == fr[f].demand();
                    assert(w@[kk] == w_before[kk]);
                } else {
                    assert(w@[w@.len() - 1].demand() == fr[f].demand());
                }
            }
            if !present {
                assert forall|k0: int| 0 <= k0 < w0.len() implies #[trigger] w0[k0].demand() != w@[w@.len() - 1].demand() by {
                    assert(w_before[k0] == w0[k0]);
                }
                assert(absent_from(w@[w@.len() - 1].demand(), w0));
            }
        }
        k += 1;
    }
    proof {
        if !changed {
            assert forall|ii: int, jj: int| 0 <= ii < w0.len() && 0 <= jj < w0.len() implies
                #[trigger] settled(w0, ii, jj, positions(safe@), positions(mine@), w0) by {
                lemma_settled_found(w0, ii, jj, positions(safe@), positions(mine@), fr);
            }
        }
        if safe@.len() == s0.len() && mine@.len() == m0.len()
            && forall|kk: int| 0 <= kk < w0.len() ==> good(#[trigger] w0[kk].demand(), positions(s0), positions(m0), u) {
            assert(safe@ =~= s0);
            assert(mine@ =~= m0);
            assert forall|kk: int| 0 <= kk < w@.len() implies good(#[trigger] w@[kk].demand(), positions(safe@), positions(mine@), u) by {
                if kk < w0.len() {
                    assert(w@[kk] == w0[kk]);
                } else {
                    let f = choose|f: int| 0 <= f < fr.len() && #[trigger] fr[f].demand() == w@[kk].demand();
                    let jj = choose|jj: int| 0 <= jj < w0.len() && fr[f].demand().0.subset_of(#[trigger] w0[jj].demand().0);
                    assert(good(w0[jj].demand(), positions(s0), positions(m0), u));
                    lemma_card(fr[f].unknowns@);
                }
            }
            if changed {
                assert(!rows_changed);
                assert(w@.len() > w0.len());
                assert(absent_from(w@[w0.len() as int].demand(), w0));
            }
        }
    }
    changed
}

pub proof fn lemma_tracked_chain(x: Demand, y: Demand, w: Seq<Constraint>, s: Set<Pos>, mn: Set<Pos>)
    requires
        reduce(y, s, mn) == reduce(x, s, mn),
        tracked_in(y, w, s, mn),
    ensures
        tracked_in(x, w, s, mn),
{
    if !dead(reduce(y, s, mn)) {
        let k = choose|k: int| 0 <= k < w.len() && reduce(#[trigger] w[k].demand(), s, mn) == reduce(y, s, mn);
    }
}

/// Runs the trivial rule and subset elimination until neither settles anything more; returns the
/// squares found safe and the squares found to hold mines.
pub(crate) fn inference(constraints: &Vec<Constraint>) -> (r: (Vec<Pos>, Vec<Pos>))
    requires
        forall|k: int| 0 <= k < constraints@.len() ==> (#[trigger] constraints@[k]).wf(),
    ensures
        r.0@.no_duplicates(),
        r.1@.no_duplicates(),
        positions(r.0@).subset_of(squares_of(constraints@)),
        positions(r.1@).subset_of(squares_of(constraints@)),
        forall|m: Set<Pos>| #[trigger] all_hold(m, constraints@) ==>
            positions(r.0@).disjoint(m) && positions(r.1@).subset_of(m),
        consistent(constraints@) ==> forall|i: int| 0 <= i < constraints@.len() ==>
            trivial_spent(#[trigger] constraints@[i].demand(), positions(r.0@), positions(r.1@)),
        consistent(constraints@) ==> forall|i: int, j: int| 0 <= i < constraints@.len() && 0 <= j < constraints@.len() ==>
            subset_spent(#[trigger] constraints@[i].demand(), #[trigger] constraints@[j].demand(), positions(r.0@), positions(r.1@)),
{
    let ghost cs = constraints@;
    let ghost u = squares_of(cs);
    proof {
        lemma_squares_of(cs);
        lemma_demands_within_finite(u, 1000);
    }
    let mut working: Vec<Constraint> = Vec::new();
    let mut c: usize = 0;
    while c < constraints.len()
        invariant
            cs == constraints@,
            0 <= c <= cs.len(),
            working@.len() == c,
            forall|k: int| 0 <= k < c ==> (#[trigger] working@[k]).unknowns@ == cs[k].unknowns@
                && working@[k].need == cs[k].need,
        decreases cs.len() - c,
    {
        working.push(copy_constraint(&constraints[c]));
        c += 1;
    }
    let mut safe: Vec<Pos> = Vec::new();
    let mut mine: Vec<Pos> = Vec::new();
    proof {
        assert forall|k: int| 0 <= k < working@.len() implies (#[trigger] working@[k]).wf() && working@[k].demand().0.subset_of(u) by {
            assert(working@[k].demand() == cs[k].demand());
        }
        assert(positions(safe@) =~= Set::empty());
        assert(positions(mine@) =~= Set::empty());
        assert forall|i: int| 0 <= i < cs.len() implies tracked_in(#[trigger] cs[i].demand(), working@, positions(safe@), positions(mine@)) by {
            assert(working@[i].demand() == cs[i].demand());
        }
        assert forall|m: Set<Pos>| #[trigger] all_hold(m, cs) implies
            forall|k: int| 0 <= k < working@.len() ==> holds(m, #[trigger] working@[k].demand()) by {
            assert forall|k: int| 0 <= k < working@.len() implies holds(m, #[trigger] working@[k].demand()) by {
                assert(working@[k].demand() == cs[k].demand());
            }
        }
    }
    loop
        invariant
            cs == constraints@,
            u == squares_of(cs),
            u.finite(),
            demands_within(u, 1000).finite(),
            forall|k: int| 0 <= k < working@.len() ==> (#[trigger] working@[k]).wf() && working@[k].demand().0.subset_of(u),
            safe@.no_duplicates(),
            mine@.no_duplicates(),
            positions(safe@).subset_of(u),
            positions(mine@).subset_of(u),
            safe@.len() <= u.len(),
            mine@.len() <= u.len(),
            sound_state(cs, working@, positions(safe@), positions(mine@)),
            consistent(cs) ==> forall|i: int| 0 <= i < cs.len() ==>
                tracked_in(#[trigger] cs[i].demand(), working@, positions(safe@), positions(mine@)),
        decreases
            2 * u.len() - safe@.len() - mine@.len(),
            demands_within(u, 1000).len() - good_set(working@, positions(safe@), positions(mine@), u).len(),
            bad_count(working@, positions(safe@), positions(mine@), u),
    {
        let ghost w_top = working@;
        let ghost s_top = safe@;
        let ghost m_top = mine@;
        let ghost gs_top = good_set(w_top, positions(s_top), positions(m_top), u);
        let (w1, ch1) = reduce_pass(&working, &mut safe, &mut mine, Ghost(cs), Ghost(u));
        let mut w1 = w1;
        let ghost w_mid = w1@;
        let ghost s_mid = safe@;
        let ghost m_mid = mine@;
        let ch2 = subset_pass(&mut w1, &mut safe, &mut mine, Ghost(cs), Ghost(u));
        working = w1;
        proof {
            lemma_grew_trans(s_top, s_mid, safe@);
            lemma_grew_trans(m_top, m_mid, mine@);
            lemma_grew_subset(s_mid, s_top);
            lemma_grew_subset(m_mid, m_top);
            lemma_grew_subset(safe@, s_mid);
            lemma_grew_subset(mine@, m_mid);
            lemma_card(safe@);
            lemma_card(mine@);
            vstd::set_lib::lemma_len_subset(positions(safe@), u);
            vstd::set_lib::lemma_len_subset(positions(mine@), u);
            if consistent(cs) {
                lemma_known_disjoint(cs, w_mid, positions(s_mid), positions(m_mid));
                lemma_known_disjoint(cs, working@, positions(safe@), positions(mine@));
                assert forall|i: int| 0 <= i < cs.len() implies
                    tracked_in(#[trigger] cs[i].demand(), working@, positions(safe@), positions(mine@)) by {
                    let x = cs[i].demand();
                    assert(tracked_in(x, w_top, positions(s_top), positions(m_top)));
                    if dead(reduce(x, positions(s_top), positions(m_top))) {
                        lemma_dead_stays(x, positions(s_top), positions(m_top), positions(s_mid), positions(m_mid));
                    } else {
                        let k = choose|k: int| 0 <= k < w_top.len()
                            && reduce(#[trigger] w_top[k].demand(), positions(s_top), positions(m_top)) == reduce(x, positions(s_top), positions(m_top));
                        lemma_reduce_compose(x, positions(s_top), positions(m_top), positions(s_mid), positions(m_mid));
                        lemma_reduce_compose(w_top[k].demand(), positions(s_top), positions(m_top), positions(s_mid), positions(m_mid));
                        lemma_tracked_chain(x, w_top[k].demand(), w_mid, positions(s_mid), positions(m_mid));
                    }
                    assert forall|k: int| 0 <= k < w_mid.len() implies (#[trigger] w_mid[k].demand()).0.finite() by {}
                    lemma_tracked_after_growth(x, w_mid, working@, positions(s_mid), positions(m_mid),
                        positions(safe@), positions(mine@));
                }
            }
            if ch1 || ch2 {
                let gs_mid = good_set(w_mid, positions(s_mid), positions(m_mid), u);
                let gs = good_set(working@, positions(safe@), positions(mine@), u);
                assert(gs.subset_of(demands_within(u, 1000)));
                vstd::set_lib::lemma_len_subset(gs, demands_within(u, 1000));
                if safe@.len() == s_top.len() && mine@.len() == m_top.len() {
                    assert(s_mid.len() == s_top.len() && m_mid.len() == m_top.len());
                    assert(s_mid =~= s_top);
                    assert(m_mid =~= m_top);
                    assert(safe@ =~= s_top);
                    assert(mine@ =~= m_top);
                    assert(gs_top.subset_of(gs_mid)) by {
                        assert forall|c: Demand| gs_top.contains(c) implies gs_mid.contains(c) by {
                            let k = choose|k: int| 0 <= k < w_top.len() && #[trigger] w_top[k].demand() == c;
                        }
                    }
                    lemma_good_set_grows(w_mid, working@, positions(safe@), positions(mine@), u);
                    assert(gs.subset_of(demands_within(u, 1000)));
                    vstd::set_lib::lemma_len_subset(gs_mid, gs);
                    vstd::set_lib::lemma_len_subset(gs_top, gs_mid);
                    if ch2 {
                        let k = choose|k: int| w_mid.len() <= k < working@.len() && absent_from(#[trigger] working@[k].demand(), w_mid);
                        assert(gs.contains(working@[k].demand()));
                        assert(!gs_mid.contains(working@[k].demand()));
                        lemma_card_grows(gs_mid, gs, working@[k].demand());
                    } else {
                        lemma_bad_count_zero(working@, positions(safe@), positions(mine@), u);
                        let k = choose|k: int| 0 <= k < w_top.len() && !good(#[trigger] w_top[k].demand(), positions(s_top), positions(m_top), u);
                        lemma_bad_count_pos(w_top, positions(s_top), positions(m_top), u, k);
                    }
                } else {
                    assert(safe@.len() + mine@.len() > s_top.len() + m_top.len());
                }
            }
        }
        if !ch1 && !ch2 {
            proof {
                assert(s_mid == s_top && m_mid == m_top);
                if consistent(cs) {
                    assert forall|i: int| 0 <= i < cs.len() implies
                        trivial_spent(#[trigger] cs[i].demand(), positions(safe@), positions(mine@)) by {
                        let x = cs[i].demand();
                        if !dead(reduce(x, positions(safe@), positions(mine@))) {
                            let k = choose|k: int| 0 <= k < working@.len()
                                && reduce(#[trigger] working@[k].demand(), positions(safe@), positions(mine@)) == reduce(x, positions(safe@), positions(mine@));
                            assert(good(working@[k].demand(), positions(safe@), positions(mine@), u));
                            lemma_reduce_untouched(working@[k].demand(), positions(safe@), positions(mine@));
                        }
                    }
                    assert forall|i: int, j: int| 0 <= i < cs.len() && 0 <= j < cs.len() implies
                        subset_spent(#[trigger] cs[i].demand(), #[trigger] cs[j].demand(), positions(safe@), positions(mine@)) by {
                        let x = cs[i].demand();
                        let y = cs[j].demand();
                        let a = reduce(x, positions(safe@), positions(mine@));
                        let b = reduce(y, positions(safe@), positions(mine@));
                        if !dead(a) && !dead(b) && a.0.subset_of(b.0) && a.0.len() < b.0.len() {
                            let ka = choose|k: int| 0 <= k < working@.len()
                                && reduce(#[trigger] working@[k].demand(), positions(safe@), positions(mine@)) == a;
                            let kb = choose|k: int| 0 <= k < working@.len()
                                && reduce(#[trigger] working@[k].demand(), positions(safe@), positions(mine@)) == b;
                            lemma_reduce_untouched(working@[ka].demand(), positions(safe@), positions(mine@));
                            lemma_reduce_untouched(working@[kb].demand(), positions(safe@), positions(mine@));
                            assert(settled(working@, ka, kb, positions(safe@), positions(mine@), working@));
                            let diff = b.0.difference(a.0);
                            vstd::set_lib::lemma_set_difference_len(b.0, a.0);
                            assert(b.0.intersect(a.0) =~= a.0);
                            assert(diff.len() > 0);
                            let p = diff.choose();
                            assert(diff.contains(p));
                        }
                    }
                }
            }
            return (safe, mine);
        }
    }
}

} // verus!
