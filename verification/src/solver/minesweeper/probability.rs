//! Counting the mine layouts the numbers allow: the constrained squares split into independent
//! groups, each group's layouts are enumerated, and the groups are combined under the mine total.
use vstd::prelude::*;
use crate::solver::sets::{Pos, lemma_card, lemma_push_contains, lemma_push_no_dup, contains_pos, minus, within, copy_positions};
use super::inference::{Constraint, holds, all_hold, squares_of, positions, lemma_squares_of, subsets_of, lemma_subsets_finite};
use super::Board;

verus! {

/// `a` times `b`, or `u128::MAX` when the product does not fit.
pub fn sat_mul(a: u128, b: u128) -> (r: u128)
    ensures
        r == if a * b > u128::MAX { u128::MAX as int } else { a * b },
        (a > 0 && b > 0) <==> r > 0,
{
    match a.checked_mul(b) {
        Some(v) => {
            proof {
                assert((a > 0 && b > 0) <==> a * b > 0) by (nonlinear_arith);
            }
            v
        },
        None => {
            proof {
                assert(a > 0 && b > 0) by (nonlinear_arith)
                    requires a * b > u128::MAX;
            }
            u128::MAX
        },
    }
}

pub open spec fn group_sets(gs: Seq<Vec<Pos>>) -> Seq<Set<Pos>> {
    gs.map_values(|g: Vec<Pos>| g@.to_set())
}

/// The union of the groups.
pub open spec fn union_of(gs: Seq<Set<Pos>>) -> Set<Pos>
    decreases gs.len(),
{
    if gs.len() == 0 {
        Set::empty()
    } else {
        union_of(gs.drop_last()).union(gs.last())
    }
}

pub proof fn lemma_union_of(gs: Seq<Set<Pos>>)
    ensures
        forall|p: Pos| #[trigger] union_of(gs).contains(p) <==> exists|k: int| 0 <= k < gs.len() && (#[trigger] gs[k]).contains(p),
    decreases gs.len(),
{
    if gs.len() > 0 {
        lemma_union_of(gs.drop_last());
        assert forall|p: Pos| #[trigger] union_of(gs).contains(p) <==> exists|k: int| 0 <= k < gs.len() && (#[trigger] gs[k]).contains(p) by {
            if union_of(gs).contains(p) {
                if union_of(gs.drop_last()).contains(p) {
                    let k = choose|k: int| 0 <= k < gs.drop_last().len() && (#[trigger] gs.drop_last()[k]).contains(p);
                    assert(gs[k] == gs.drop_last()[k]);
                } else {
                    assert(gs[gs.len() - 1].contains(p));
                }
            }
            if exists|k: int| 0 <= k < gs.len() && (#[trigger] gs[k]).contains(p) {
                let k = choose|k: int| 0 <= k < gs.len() && (#[trigger] gs[k]).contains(p);
                if k < gs.len() - 1 {
                    assert(gs.drop_last()[k] == gs[k]);
                    assert(gs.drop_last()[k].contains(p));
                    assert(union_of(gs.drop_last()).contains(p));
                } else {
                    assert(gs.last().contains(p));
                }
                assert(union_of(gs) == union_of(gs.drop_last()).union(gs.last()));
            }
        }
    }
}

/// Some constraint covers both `a` and `b`.
pub open spec fn shares(cs: Seq<Constraint>, a: Pos, b: Pos) -> bool {
    exists|i: int| 0 <= i < cs.len() && (#[trigger] cs[i]).demand().0.contains(a) && cs[i].demand().0.contains(b)
}

/// Each square of `w` shares a constraint with the next.
pub open spec fn chained_by(cs: Seq<Constraint>, w: Seq<Pos>) -> bool {
    forall|k: int| 0 <= k < w.len() - 1 ==> #[trigger] shares(cs, w[k], w[k + 1])
}

/// A chain of squares, each sharing a constraint with the next, leads from `p` to `q`.
pub open spec fn connected(cs: Seq<Constraint>, p: Pos, q: Pos) -> bool {
    exists|w: Seq<Pos>| w.len() >= 1 && w[0] == p && w.last() == q && #[trigger] chained_by(cs, w)
}

/// Any two squares of a group are connected.
pub open spec fn grouped(gs: Seq<Vec<Pos>>, cs: Seq<Constraint>) -> bool {
    forall|k: int, p: Pos, q: Pos| #![trigger gs[k]@.to_set().contains(p), gs[k]@.to_set().contains(q)]
        0 <= k < gs.len() && gs[k]@.to_set().contains(p) && gs[k]@.to_set().contains(q) ==> connected(cs, p, q)
}

/// No set of constrained squares that are connected to one another has more than 24 squares.
pub open spec fn small_clusters(cs: Seq<Constraint>) -> bool {
    forall|s: Set<Pos>| #[trigger] s.subset_of(squares_of(cs))
        && (forall|p: Pos, q: Pos| s.contains(p) && s.contains(q) ==> connected(cs, p, q)) ==> s.len() <= 24
}

pub proof fn lemma_connected_refl(cs: Seq<Constraint>, p: Pos)
    ensures
        connected(cs, p, p),
{
    let w = seq![p];
    assert(chained_by(cs, w));
}

/// Two squares of one constraint are connected.
pub proof fn lemma_connected_one(cs: Seq<Constraint>, i: int, p: Pos, q: Pos)
    requires
        0 <= i < cs.len(),
        cs[i].demand().0.contains(p),
        cs[i].demand().0.contains(q),
    ensures
        connected(cs, p, q),
{
    let w = seq![p, q];
    assert(shares(cs, w[0], w[1]));
    assert(chained_by(cs, w));
}

/// Chains join end to end.
pub proof fn lemma_connected_join(cs: Seq<Constraint>, p: Pos, r: Pos, q: Pos)
    requires
        connected(cs, p, r),
        connected(cs, r, q),
    ensures
        connected(cs, p, q),
{
    let w1 = choose|w: Seq<Pos>| w.len() >= 1 && w[0] == p && w.last() == r && #[trigger] chained_by(cs, w);
    let w2 = choose|w: Seq<Pos>| w.len() >= 1 && w[0] == r && w.last() == q && #[trigger] chained_by(cs, w);
    let n1 = w1.len() as int;
    let tail = w2.subrange(1, w2.len() as int);
    let w = w1 + tail;
    assert forall|k: int| 0 <= k < w.len() - 1 implies #[trigger] shares(cs, w[k], w[k + 1]) by {
        if k < n1 - 1 {
            assert(w[k] == w1[k] && w[k + 1] == w1[k + 1]);
            assert(shares(cs, w1[k], w1[k + 1]));
        } else if k == n1 - 1 {
            assert(w[k] == w2[0]);
            assert(w[k + 1] == w2[1]);
            assert(shares(cs, w2[0int], w2[0int + 1]));
        } else {
            let k2 = k - n1 + 1;
            assert(w[k] == w2[k2]);
            assert(w[k + 1] == w2[k2 + 1]);
            assert(shares(cs, w2[k2], w2[k2 + 1]));
        }
    }
    if w2.len() == 1 {
        assert(w.last() == w1.last());
    } else {
        assert(w.last() == w2.last());
    }
    assert(chained_by(cs, w));
}

/// Squares connected by the first constraints stay connected with more constraints after them.
pub proof fn lemma_connected_grows(cs: Seq<Constraint>, i: int, j: int, p: Pos, q: Pos)
    requires
        0 <= i <= j <= cs.len(),
        connected(cs.take(i), p, q),
    ensures
        connected(cs.take(j), p, q),
{
    let w = choose|w: Seq<Pos>| w.len() >= 1 && w[0] == p && w.last() == q && #[trigger] chained_by(cs.take(i), w);
    assert forall|k: int| 0 <= k < w.len() - 1 implies #[trigger] shares(cs.take(j), w[k], w[k + 1]) by {
        assert(shares(cs.take(i), w[k], w[k + 1]));
        let c = choose|c: int| 0 <= c < cs.take(i).len() && (#[trigger] cs.take(i)[c]).demand().0.contains(w[k])
            && cs.take(i)[c].demand().0.contains(w[k + 1]);
        assert(cs.take(j)[c] == cs.take(i)[c]);
    }
    assert(chained_by(cs.take(j), w));
}

/// Merging the groups that meet constraint `i` with its squares keeps every group connected.
pub proof fn lemma_merge_grouped(before: Seq<Vec<Pos>>, new: Seq<Vec<Pos>>, idx: Seq<int>, cs: Seq<Constraint>, i: int)
    requires
        0 <= i < cs.len(),
        grouped(before, cs.take(i)),
        new.len() == idx.len() + 1,
        forall|j: int| 0 <= j < idx.len() ==> 0 <= #[trigger] idx[j] < before.len() && new[j]@ == before[idx[j]]@,
        forall|p: Pos| #[trigger] new[new.len() - 1]@.to_set().contains(p) <==> (cs[i].demand().0.contains(p)
            || exists|l: int| 0 <= l < before.len() && !(#[trigger] before[l])@.to_set().disjoint(cs[i].demand().0)
                && before[l]@.to_set().contains(p)),
    ensures
        grouped(new, cs.take(i + 1)),
{
    let cset = cs[i].demand().0;
    let cs2 = cs.take(i + 1);
    assert(cs2[i] == cs[i]);
    // Every square of the merged group is connected to a square of the constraint, both ways.
    assert forall|p: Pos| #[trigger] new[new.len() - 1]@.to_set().contains(p) implies
        exists|r: Pos| cset.contains(r) && connected(cs2, p, r) && #[trigger] connected(cs2, r, p) by {
        if cset.contains(p) {
            lemma_connected_refl(cs2, p);
        } else {
            let l = choose|l: int| 0 <= l < before.len() && !(#[trigger] before[l])@.to_set().disjoint(cset)
                && before[l]@.to_set().contains(p);
            let r = choose|r: Pos| before[l]@.to_set().contains(r) && cset.contains(r);
            assert(connected(cs.take(i), p, r));
            assert(connected(cs.take(i), r, p));
            lemma_connected_grows(cs, i, i + 1, p, r);
            lemma_connected_grows(cs, i, i + 1, r, p);
        }
    }
    assert forall|k: int, p: Pos, q: Pos| #![trigger new[k]@.to_set().contains(p), new[k]@.to_set().contains(q)]
        0 <= k < new.len() && new[k]@.to_set().contains(p) && new[k]@.to_set().contains(q) implies connected(cs2, p, q) by {
        if k < idx.len() {
            let l = idx[k];
            assert(before[l]@.to_set().contains(p) && before[l]@.to_set().contains(q));
            assert(connected(cs.take(i), p, q));
            lemma_connected_grows(cs, i, i + 1, p, q);
        } else {
            assert(new[new.len() - 1]@.to_set().contains(p));
            assert(new[new.len() - 1]@.to_set().contains(q));
            let rp = choose|r: Pos| cset.contains(r) && connected(cs2, p, r) && #[trigger] connected(cs2, r, p);
            let rq = choose|r: Pos| cset.contains(r) && connected(cs2, q, r) && #[trigger] connected(cs2, r, q);
            lemma_connected_one(cs2, i, rp, rq);
            lemma_connected_join(cs2, p, rp, rq);
            lemma_connected_join(cs2, p, rq, q);
        }
    }
}

/// The groups split the squares of the constraints, and each constraint lies inside one group.
pub open spec fn partitions(gs: Seq<Vec<Pos>>, cs: Seq<Constraint>) -> bool {
    &&& forall|k: int| 0 <= k < gs.len() ==> (#[trigger] gs[k])@.no_duplicates() && gs[k]@.len() > 0
    &&& forall|k: int, l: int| 0 <= k < gs.len() && 0 <= l < gs.len() && k != l ==>
        (#[trigger] gs[k])@.to_set().disjoint((#[trigger] gs[l])@.to_set())
    &&& union_of(group_sets(gs)) == squares_of(cs)
    &&& forall|i: int| 0 <= i < cs.len() ==> exists|k: int| 0 <= k < gs.len()
        && (#[trigger] cs[i]).demand().0.subset_of((#[trigger] gs[k])@.to_set())
}

/// Adds the squares of `g` to `v`.
fn absorb(v: &mut Vec<Pos>, g: &Vec<Pos>)
    requires
        old(v)@.no_duplicates(),
        g@.no_duplicates(),
    ensures
        final(v)@.no_duplicates(),
        final(v)@.to_set() == old(v)@.to_set().union(g@.to_set()),
        final(v)@.len() >= old(v)@.len(),
{
    let extra = minus(g, v);
    let ghost start = v@;
    let mut i: usize = 0;
    while i < extra.len()
        invariant
            extra@.no_duplicates(),
            extra@.to_set() == g@.to_set().difference(start.to_set()),
            0 <= i <= extra@.len(),
            v@ == start + extra@.take(i as int),
            v@.no_duplicates(),
        decreases extra@.len() - i,
    {
        let ghost before = v@;
        let p = extra[i];
        proof {
            assert(extra@.to_set().contains(p));
            if before.contains(p) {
                let k = choose|k: int| 0 <= k < before.len() && before[k] == p;
                if k < start.len() {
                    assert(start.to_set().contains(p));
                } else {
                    assert(extra@[k - start.len()] == extra@[i as int]);
                }
            }
            lemma_push_no_dup(before, p);
        }
        v.push(p);
        proof {
            assert(extra@.take(i + 1) == extra@.take(i as int).push(p));
        }
        i += 1;
    }
    proof {
        assert(extra@.take(i as int) == extra@);
        assert(v@.to_set() =~= start.to_set().union(g@.to_set())) by {
            assert forall|p: Pos| #[trigger] v@.to_set().contains(p) implies start.to_set().union(g@.to_set()).contains(p) by {
                let k = choose|k: int| 0 <= k < v@.len() && v@[k] == p;
                if k >= start.len() {
                    assert(extra@[k - start.len()] == p);
                    assert(extra@.to_set().contains(p));
                }
            }
            assert forall|p: Pos| start.to_set().union(g@.to_set()).contains(p) implies #[trigger] v@.to_set().contains(p) by {
                if start.to_set().contains(p) {
                    let k = choose|k: int| 0 <= k < start.len() && start[k] == p;
                    assert(v@[k] == p);
                } else {
                    assert(extra@.to_set().contains(p));
                    let k = choose|k: int| 0 <= k < extra@.len() && extra@[k] == p;
                    assert(v@[start.len() + k] == p);
                }
            }
        }
    }
}

/// `g` and `h` have no square in common.
fn apart(g: &Vec<Pos>, h: &Vec<Pos>) -> (r: bool)
    ensures
        r == g@.to_set().disjoint(h@.to_set()),
{
    let mut i: usize = 0;
    while i < g.len()
        invariant
            0 <= i <= g@.len(),
            forall|j: int| 0 <= j < i ==> !h@.contains(#[trigger] g@[j]),
        decreases g@.len() - i,
    {
        if contains_pos(h, g[i]) {
            proof {
                assert(g@.to_set().contains(g@[i as int]));
            }
            return false;
        }
        i += 1;
    }
    proof {
        assert forall|p: Pos| g@.to_set().contains(p) implies !h@.to_set().contains(p) by {
            let k = choose|k: int| 0 <= k < g@.len() && g@[k] == p;
        }
    }
    true
}

pub proof fn lemma_squares_of_take(cs: Seq<Constraint>, i: int)
    requires
        0 <= i < cs.len(),
    ensures
        squares_of(cs.take(i + 1)) == squares_of(cs.take(i)).union(cs[i].demand().0),
{
    assert(cs.take(i + 1).drop_last() == cs.take(i));
}

/// Splits the squares of the constraints into groups: two squares share a group when a chain of
/// constraints links them.
pub(crate) fn split_groups(cs: &Vec<Constraint>) -> (gs: Vec<Vec<Pos>>)
    requires
        forall|i: int| 0 <= i < cs@.len() ==> (#[trigger] cs@[i]).wf(),
    ensures
        partitions(gs@, cs@),
        grouped(gs@, cs@),
{
    let mut gs: Vec<Vec<Pos>> = Vec::new();
    let mut i: usize = 0;
    proof {
        assert(union_of(group_sets(gs@)) =~= squares_of(cs@.take(0)));
    }
    while i < cs.len()
        invariant
            0 <= i <= cs@.len(),
            forall|i: int| 0 <= i < cs@.len() ==> (#[trigger] cs@[i]).wf(),
            partitions(gs@, cs@.take(i as int)),
            grouped(gs@, cs@.take(i as int)),
        decreases cs@.len() - i,
    {
        let ghost before = gs@;
        let ghost cset = cs@[i as int].demand().0;
        let mut merged = copy_positions(&cs[i].unknowns);
        let mut rest: Vec<Vec<Pos>> = Vec::new();
        let ghost mut idx: Seq<int> = Seq::empty();
        let mut k: usize = 0;
        while k < gs.len()
            invariant
                gs@ == before,
                i < cs@.len(),
                0 <= k <= before.len(),
                partitions(before, cs@.take(i as int)),
                grouped(before, cs@.take(i as int)),
                cs@[i as int].wf(),
                cset == cs@[i as int].demand().0,
                merged@.no_duplicates(),
                merged@.len() > 0,
                forall|p: Pos| #[trigger] merged@.to_set().contains(p) <==> (cset.contains(p)
                    || exists|l: int| 0 <= l < k && !(#[trigger] before[l])@.to_set().disjoint(cset) && before[l]@.to_set().contains(p)),
                idx.len() == rest@.len(),
                forall|j: int| 0 <= j < idx.len() ==> 0 <= #[trigger] idx[j] < k && rest@[j]@ == before[idx[j]]@
                    && before[idx[j]]@.to_set().disjoint(cset),
                forall|j: int, j2: int| 0 <= j < j2 < idx.len() ==> #[trigger] idx[j] < #[trigger] idx[j2],
                forall|l: int| 0 <= l < k && (#[trigger] before[l])@.to_set().disjoint(cset) ==>
                    exists|j: int| 0 <= j < idx.len() && #[trigger] idx[j] == l,
            decreases before.len() - k,
        {
            let ghost m_before = merged@;
            let ghost idx_before = idx;
            if apart(&gs[k], &cs[i].unknowns) {
                rest.push(copy_positions(&gs[k]));
                proof {
                    idx = idx.push(k as int);
                }
            } else {
                absorb(&mut merged, &gs[k]);
            }
            proof {
                assert forall|p: Pos| #[trigger] merged@.to_set().contains(p) <==> (cset.contains(p)
                    || exists|l: int| 0 <= l < k + 1 && !(#[trigger] before[l])@.to_set().disjoint(cset) && before[l]@.to_set().contains(p)) by {
                    if exists|l: int| 0 <= l < k + 1 && !(#[trigger] before[l])@.to_set().disjoint(cset) && before[l]@.to_set().contains(p) {
                        let l = choose|l: int| 0 <= l < k + 1 && !(#[trigger] before[l])@.to_set().disjoint(cset) && before[l]@.to_set().contains(p);
                        if l < k {
                            assert(m_before.to_set().contains(p));
                        }
                    }
                    if m_before.to_set().contains(p) {
                        if !cset.contains(p) {
                            let l = choose|l: int| 0 <= l < k && !(#[trigger] before[l])@.to_set().disjoint(cset) && before[l]@.to_set().contains(p);
                        }
                    }
                }
                assert forall|l: int| 0 <= l < k + 1 && (#[trigger] before[l])@.to_set().disjoint(cset) implies
                    exists|j: int| 0 <= j < idx.len() && #[trigger] idx[j] == l by {
                    if l == k {
                        assert(idx[idx.len() - 1] == l);
                    } else {
                        let j = choose|j: int| 0 <= j < idx_before.len() && #[trigger] idx_before[j] == l;
                        assert(idx[j] == idx_before[j]);
                    }
                }
            }
            k += 1;
        }
        let ghost old_rest = rest@;
        rest.push(merged);
        proof {
            let new = rest@;
            let cs2 = cs@.take(i + 1);
            lemma_merge_grouped(before, new, idx, cs@, i as int);
            lemma_squares_of_take(cs@, i as int);
            lemma_union_of(group_sets(before));
            lemma_union_of(group_sets(new));
            assert forall|k: int| 0 <= k < new.len() implies (#[trigger] new[k])@.no_duplicates() && new[k]@.len() > 0 by {
                if k < old_rest.len() {
                    assert(new[k]@ == before[idx[k]]@);
                }
            }
            assert forall|k: int, l: int| 0 <= k < new.len() && 0 <= l < new.len() && k != l implies
                (#[trigger] new[k])@.to_set().disjoint((#[trigger] new[l])@.to_set()) by {
                if k < old_rest.len() && l < old_rest.len() {
                    if idx[k] < idx[l] || idx[l] < idx[k] {
                    } else {
                        if k < l {
                            assert(idx[k] < idx[l]);
                        } else {
                            assert(idx[l] < idx[k]);
                        }
                    }
                } else if k < old_rest.len() {
                    assert forall|p: Pos| new[k]@.to_set().contains(p) implies !new[l]@.to_set().contains(p) by {
                        if new[l]@.to_set().contains(p) && !cset.contains(p) {
                            let l2 = choose|l2: int| 0 <= l2 < before.len() && !(#[trigger] before[l2])@.to_set().disjoint(cset) && before[l2]@.to_set().contains(p);
                            assert(l2 != idx[k]);
                            assert(before[idx[k]]@.to_set().disjoint(before[l2]@.to_set()));
                        }
                    }
                } else if l < old_rest.len() {
                    assert forall|p: Pos| new[l]@.to_set().contains(p) implies !new[k]@.to_set().contains(p) by {
                        if new[k]@.to_set().contains(p) && !cset.contains(p) {
                            let l2 = choose|l2: int| 0 <= l2 < before.len() && !(#[trigger] before[l2])@.to_set().disjoint(cset) && before[l2]@.to_set().contains(p);
                            assert(l2 != idx[l]);
                            assert(before[idx[l]]@.to_set().disjoint(before[l2]@.to_set()));
                        }
                    }
                }
            }
            assert(union_of(group_sets(new)) =~= squares_of(cs2)) by {
                assert forall|p: Pos| #[trigger] union_of(group_sets(new)).contains(p) <==> squares_of(cs2).contains(p) by {
                    if union_of(group_sets(new)).contains(p) {
                        let k = choose|k: int| 0 <= k < group_sets(new).len() && (#[trigger] group_sets(new)[k]).contains(p);
                        if k < old_rest.len() {
                            assert(group_sets(before)[idx[k]].contains(p));
                            assert(union_of(group_sets(before)).contains(p));
                        } else if !cset.contains(p) {
                            let l2 = choose|l2: int| 0 <= l2 < before.len() && !(#[trigger] before[l2])@.to_set().disjoint(cset) && before[l2]@.to_set().contains(p);
                            assert(group_sets(before)[l2].contains(p));
                            assert(union_of(group_sets(before)).contains(p));
                        }
                    }
                    if squares_of(cs2).contains(p) {
                        if cset.contains(p) {
                            assert(group_sets(new)[new.len() - 1].contains(p));
                        } else {
                            assert(union_of(group_sets(before)).contains(p));
                            let l = choose|l: int| 0 <= l < group_sets(before).len() && (#[trigger] group_sets(before)[l]).contains(p);
                            if before[l]@.to_set().disjoint(cset) {
                                let j = choose|j: int| 0 <= j < idx.len() && #[trigger] idx[j] == l;
                                assert(group_sets(new)[j].contains(p));
                            } else {
                                assert(group_sets(new)[new.len() - 1].contains(p));
                            }
                        }
                    }
                }
            }
            assert forall|c: int| 0 <= c < cs2.len() implies exists|k: int| 0 <= k < new.len()
                && (#[trigger] cs2[c]).demand().0.subset_of((#[trigger] new[k])@.to_set()) by {
                if c < i {
                    assert(cs@.take(i as int)[c] == cs2[c]);
                    let l = choose|l: int| 0 <= l < before.len()
                        && (#[trigger] cs@.take(i as int)[c]).demand().0.subset_of((#[trigger] before[l])@.to_set());
                    if before[l]@.to_set().disjoint(cset) {
                        let j = choose|j: int| 0 <= j < idx.len() && #[trigger] idx[j] == l;
                        assert(new[j]@ == before[l]@);
                    } else {
                        assert(cs2[c].demand().0.subset_of(new[new.len() - 1]@.to_set()));
                    }
                } else {
                    assert(cs2[c] == cs@[i as int]);
                    assert(cs2[c].demand().0.subset_of(new[new.len() - 1]@.to_set()));
                }
            }
        }
        gs = rest;
        i += 1;
    }
    proof {
        assert(cs@.take(i as int) == cs@);
    }
    gs
}

/// Number of squares marked as mines.
pub open spec fn mines_in(a: Seq<bool>) -> nat
    decreases a.len(),
{
    if a.len() == 0 {
        0
    } else {
        mines_in(a.drop_last()) + if a.last() { 1nat } else { 0nat }
    }
}

/// The squares of `cells` that `a` marks as mines.
pub open spec fn marked(cells: Seq<Pos>, a: Seq<bool>) -> Set<Pos> {
    Set::new(|p: Pos| exists|i: int| 0 <= i < cells.len() && i < a.len() && cells[i] == p && a[i])
}

/// The marking `a` of `cells` meets every constraint in `cons`.
pub open spec fn meets(cells: Seq<Pos>, a: Seq<bool>, cons: Seq<Constraint>) -> bool {
    forall|c: int| 0 <= c < cons.len() ==> holds(marked(cells, a), #[trigger] cons[c].demand())
}

/// How many squares of `s` lie in `m`.
pub open spec fn count_in(s: Seq<Pos>, m: Set<Pos>) -> nat
    decreases s.len(),
{
    if s.len() == 0 {
        0
    } else {
        count_in(s.drop_last(), m) + if m.contains(s.last()) { 1nat } else { 0nat }
    }
}

pub proof fn lemma_count_in(s: Seq<Pos>, m: Set<Pos>)
    requires
        s.no_duplicates(),
    ensures
        count_in(s, m) == s.to_set().intersect(m).len(),
    decreases s.len(),
{
    if s.len() > 0 {
        let r = s.drop_last();
        lemma_count_in(r, m);
        assert(s == r.push(s.last()));
        lemma_push_contains(r, s.last());
        vstd::seq_lib::seq_to_set_is_finite(r);
        assert(r.to_set().insert(s.last()) =~= s.to_set());
        assert(!r.contains(s.last()));
        assert(r.to_set().intersect(m).finite());
        assert(!r.to_set().contains(s.last()));
        if m.contains(s.last()) {
            assert(s.to_set().intersect(m) =~= r.to_set().intersect(m).insert(s.last()));
            assert(!r.to_set().intersect(m).contains(s.last()));
            assert(r.to_set().intersect(m).insert(s.last()).len() == r.to_set().intersect(m).len() + 1);
        } else {
            assert(s.to_set().intersect(m) =~= r.to_set().intersect(m));
        }
        assert(count_in(s, m) == count_in(r, m) + if m.contains(s.last()) { 1nat } else { 0nat });
    } else {
        assert(s.to_set().intersect(m) =~= Set::empty());
    }
}

pub proof fn lemma_mines_in_marked(cells: Seq<Pos>, a: Seq<bool>)
    requires
        cells.no_duplicates(),
        a.len() == cells.len(),
    ensures
        mines_in(a) == marked(cells, a).len(),
        marked(cells, a).finite(),
    decreases a.len(),
{
    if a.len() == 0 {
        assert(marked(cells, a) =~= Set::empty());
    } else {
        let c2 = cells.drop_last();
        let a2 = a.drop_last();
        lemma_mines_in_marked(c2, a2);
        if a.last() {
            assert(marked(cells, a) =~= marked(c2, a2).insert(cells.last())) by {
                assert forall|p: Pos| marked(cells, a).contains(p) implies marked(c2, a2).insert(cells.last()).contains(p) by {
                    let i = choose|i: int| 0 <= i < cells.len() && i < a.len() && cells[i] == p && a[i];
                    if i < cells.len() - 1 {
                        assert(c2[i] == p && a2[i]);
                    }
                }
                assert forall|p: Pos| marked(c2, a2).insert(cells.last()).contains(p) implies marked(cells, a).contains(p) by {
                    if p != cells.last() {
                        let i = choose|i: int| 0 <= i < c2.len() && i < a2.len() && c2[i] == p && a2[i];
                        assert(cells[i] == p && a[i]);
                    } else {
                        assert(cells[cells.len() - 1] == p && a[a.len() - 1]);
                    }
                }
            }
            assert(!marked(c2, a2).contains(cells.last())) by {
                if marked(c2, a2).contains(cells.last()) {
                    let i = choose|i: int| 0 <= i < c2.len() && i < a2.len() && c2[i] == cells.last() && a2[i];
                    assert(cells[i] == cells[cells.len() - 1]);
                }
            }
        } else {
            assert(marked(cells, a) =~= marked(c2, a2)) by {
                assert forall|p: Pos| marked(cells, a).contains(p) implies marked(c2, a2).contains(p) by {
                    let i = choose|i: int| 0 <= i < cells.len() && i < a.len() && cells[i] == p && a[i];
                    assert(c2[i] == p && a2[i]);
                }
                assert forall|p: Pos| marked(c2, a2).contains(p) implies marked(cells, a).contains(p) by {
                    let i = choose|i: int| 0 <= i < c2.len() && i < a2.len() && c2[i] == p && a2[i];
                    assert(cells[i] == p && a[i]);
                }
            }
        }
    }
}

pub proof fn lemma_mines_in_le(a: Seq<bool>)
    ensures
        mines_in(a) <= a.len(),
    decreases a.len(),
{
    if a.len() > 0 {
        lemma_mines_in_le(a.drop_last());
    }
}

/// Position of `p` in `cells`.
fn index_in(cells: &Vec<Pos>, p: Pos) -> (r: usize)
    requires
        cells@.contains(p),
    ensures
        r < cells@.len(),
        cells@[r as int] == p,
{
    let mut i: usize = 0;
    while i < cells.len()
        invariant
            cells@.contains(p),
            0 <= i <= cells@.len(),
            forall|j: int| 0 <= j < i ==> cells@[j] != p,
        decreases cells@.len() - i,
    {
        if cells[i].0 == p.0 && cells[i].1 == p.1 {
            return i;
        }
        i += 1;
    }
    proof {
        let k = choose|k: int| 0 <= k < cells@.len() && cells@[k] == p;
    }
    0
}

/// The marking `a` meets every constraint of the group.
fn meets_all(cells: &Vec<Pos>, a: &Vec<bool>, cons: &Vec<Constraint>) -> (r: bool)
    requires
        cells@.no_duplicates(),
        a@.len() == cells@.len(),
        forall|c: int| 0 <= c < cons@.len() ==> (#[trigger] cons@[c]).wf() && cons@[c].demand().0.subset_of(cells@.to_set()),
    ensures
        r == meets(cells@, a@, cons@),
{
    let ghost mk = marked(cells@, a@);
    let mut c: usize = 0;
    while c < cons.len()
        invariant
            cells@.no_duplicates(),
            a@.len() == cells@.len(),
            mk == marked(cells@, a@),
            forall|c: int| 0 <= c < cons@.len() ==> (#[trigger] cons@[c]).wf() && cons@[c].demand().0.subset_of(cells@.to_set()),
            0 <= c <= cons@.len(),
            forall|d: int| 0 <= d < c ==> holds(mk, #[trigger] cons@[d].demand()),
        decreases cons@.len() - c,
    {
        let con = &cons[c];
        let mut k: i32 = 0;
        let mut j: usize = 0;
        while j < con.unknowns.len()
            invariant
                cells@.no_duplicates(),
                a@.len() == cells@.len(),
                mk == marked(cells@, a@),
                con.wf(),
                con.demand().0.subset_of(cells@.to_set()),
                0 <= j <= con.unknowns@.len(),
                k == count_in(con.unknowns@.take(j as int), mk),
                k <= j,
            decreases con.unknowns@.len() - j,
        {
            let p = con.unknowns[j];
            proof {
                assert(con.demand().0.contains(p));
            }
            let at = index_in(cells, p);
            proof {
                assert(con.unknowns@.take(j + 1).drop_last() == con.unknowns@.take(j as int));
                if a@[at as int] {
                    assert(mk.contains(p));
                } else if mk.contains(p) {
                    let i = choose|i: int| 0 <= i < cells@.len() && i < a@.len() && cells@[i] == p && a@[i];
                    assert(i == at);
                }
            }
            if a[at] {
                k += 1;
            }
            j += 1;
        }
        proof {
            assert(con.unknowns@.take(j as int) == con.unknowns@);
            lemma_count_in(con.unknowns@, mk);
        }
        if k != con.need {
            return false;
        }
        c += 1;
    }
    true
}

/// Counts for one group: `dist[t]` for markings with `t` mines that meet the group's constraints,
/// and for each square `i`, `mine_at[i][t]` and `safe_at[i][t]` for those in which it is a mine or safe.
pub struct GroupCounts {
    pub dist: Vec<u128>,
    pub mine_at: Vec<Vec<u128>>,
    pub safe_at: Vec<Vec<u128>>,
}

impl GroupCounts {
    pub open spec fn shaped(&self, g: nat) -> bool {
        &&& self.dist@.len() == g + 1
        &&& self.mine_at@.len() == g
        &&& self.safe_at@.len() == g
        &&& forall|i: int| 0 <= i < g ==> (#[trigger] self.mine_at@[i])@.len() == g + 1
        &&& forall|i: int| 0 <= i < g ==> (#[trigger] self.safe_at@[i])@.len() == g + 1
    }

    /// Every count here is at least the one in `o`.
    pub open spec fn dominates(&self, o: &GroupCounts, g: nat) -> bool {
        &&& forall|t: int| 0 <= t <= g ==> #[trigger] self.dist@[t] >= o.dist@[t]
        &&& forall|i: int, t: int| 0 <= i < g && 0 <= t <= g ==> #[trigger] self.mine_at@[i]@[t] >= o.mine_at@[i]@[t]
        &&& forall|i: int, t: int| 0 <= i < g && 0 <= t <= g ==> #[trigger] self.safe_at@[i]@[t] >= o.safe_at@[i]@[t]
    }

    /// The marking `a` has been counted.
    pub open spec fn counted(&self, a: Seq<bool>) -> bool {
        &&& self.dist@[mines_in(a) as int] > 0
        &&& forall|i: int| 0 <= i < a.len() && a[i] ==> #[trigger] self.mine_at@[i]@[mines_in(a) as int] > 0
        &&& forall|i: int| 0 <= i < a.len() && !a[i] ==> #[trigger] self.safe_at@[i]@[mines_in(a) as int] > 0
    }
}

/// `s` could be where the mines of the group `cells` lie: some of its squares, meeting every
/// constraint of `cons` that lies inside the group.
pub open spec fn group_fit(cells: Seq<Pos>, cons: Seq<Constraint>, s: Set<Pos>) -> bool {
    &&& s.finite()
    &&& s.subset_of(cells.to_set())
    &&& forall|c: int| 0 <= c < cons.len() && (#[trigger] cons[c]).demand().0.subset_of(cells.to_set())
        ==> holds(s, cons[c].demand())
}

impl GroupCounts {
    /// Every positive count has a fitting layout of the group behind it, with that many mines, and
    /// with the square a mine (`mine_at`) or safe (`safe_at`).
    pub open spec fn backed(&self, cells: Seq<Pos>, cons: Seq<Constraint>) -> bool {
        &&& forall|t: int| 0 <= t < self.dist@.len() && #[trigger] self.dist@[t] > 0 ==>
            exists|s: Set<Pos>| #[trigger] group_fit(cells, cons, s) && s.len() == t
        &&& forall|i: int, t: int| 0 <= i < self.mine_at@.len() && 0 <= t < self.mine_at@[i]@.len()
            && #[trigger] self.mine_at@[i]@[t] > 0 ==>
            exists|s: Set<Pos>| #[trigger] group_fit(cells, cons, s) && s.len() == t && s.contains(cells[i])
        &&& forall|i: int, t: int| 0 <= i < self.safe_at@.len() && 0 <= t < self.safe_at@[i]@.len()
            && #[trigger] self.safe_at@[i]@[t] > 0 ==>
            exists|s: Set<Pos>| #[trigger] group_fit(cells, cons, s) && s.len() == t && !s.contains(cells[i])
    }
}

/// The squares a marking picks fit the group when the marking meets its constraints.
pub proof fn lemma_marked_fits(cells: Seq<Pos>, a: Seq<bool>, cons: Seq<Constraint>)
    requires
        cells.no_duplicates(),
        a.len() == cells.len(),
        meets(cells, a, cons),
    ensures
        group_fit(cells, cons, marked(cells, a)),
        marked(cells, a).len() == mines_in(a),
        forall|i: int| 0 <= i < cells.len() ==> (marked(cells, a).contains(#[trigger] cells[i]) <==> a[i]),
{
    lemma_mines_in_marked(cells, a);
    assert forall|i: int| 0 <= i < cells.len() implies (marked(cells, a).contains(#[trigger] cells[i]) <==> a[i]) by {
        if marked(cells, a).contains(cells[i]) {
            let j = choose|j: int| 0 <= j < cells.len() && j < a.len() && cells[j] == cells[i] && a[j];
            assert(j == i);
        }
    }
    assert(marked(cells, a).subset_of(cells.to_set())) by {
        assert forall|p: Pos| marked(cells, a).contains(p) implies cells.to_set().contains(p) by {
            let j = choose|j: int| 0 <= j < cells.len() && j < a.len() && cells[j] == p && a[j];
            assert(cells.contains(p));
        }
    }
}

/// The fitting layouts of the group `cells` with `t` mines.
pub open spec fn fits(cells: Seq<Pos>, cons: Seq<Constraint>, t: int) -> Set<Set<Pos>> {
    Set::new(|s: Set<Pos>| group_fit(cells, cons, s) && s.len() == t)
}

/// The fitting layouts of the group with `t` mines and the square `p` a mine (`v`) or safe.
pub open spec fn fits_at(cells: Seq<Pos>, cons: Seq<Constraint>, t: int, p: Pos, v: bool) -> Set<Set<Pos>> {
    Set::new(|s: Set<Pos>| group_fit(cells, cons, s) && s.len() == t && s.contains(p) == v)
}

impl GroupCounts {
    /// Each count is the number, capped at `u128::MAX`, of fitting layouts of the group `cells`
    /// with that many mines (`dist`), and with square `i` a mine (`mine_at`) or safe (`safe_at`).
    pub open spec fn exact(&self, cells: Seq<Pos>, cons: Seq<Constraint>) -> bool {
        &&& forall|t: int| 0 <= t <= cells.len() ==> fits(cells, cons, t).finite()
            && #[trigger] self.dist@[t] == capped(fits(cells, cons, t).len() as int)
        &&& forall|i: int, t: int| 0 <= i < cells.len() && 0 <= t <= cells.len() ==> fits_at(cells, cons, t, cells[i], true).finite()
            && #[trigger] self.mine_at@[i]@[t] == capped(fits_at(cells, cons, t, cells[i], true).len() as int)
        &&& forall|i: int, t: int| 0 <= i < cells.len() && 0 <= t <= cells.len() ==> fits_at(cells, cons, t, cells[i], false).finite()
            && #[trigger] self.safe_at@[i]@[t] == capped(fits_at(cells, cons, t, cells[i], false).len() as int)
    }
}

/// Layouts fit the group under the constraints drawn from inside it just when they fit it under
/// every constraint of `cs` inside it.
pub proof fn lemma_fits_within(cells: Seq<Pos>, gcons: Seq<Constraint>, cs: Seq<Constraint>)
    requires
        forall|i: int| 0 <= i < cs.len() && (#[trigger] cs[i]).demand().0.subset_of(cells.to_set()) ==>
            exists|c: int| 0 <= c < gcons.len() && #[trigger] gcons[c].demand() == cs[i].demand(),
        forall|c: int| 0 <= c < gcons.len() ==> #[trigger] drawn_within(gcons[c], cs, cells),
    ensures
        forall|s: Set<Pos>| #[trigger] group_fit(cells, gcons, s) == group_fit(cells, cs, s),
        forall|t: int| #[trigger] fits(cells, gcons, t) == fits(cells, cs, t),
        forall|t: int, p: Pos, v: bool| #[trigger] fits_at(cells, gcons, t, p, v) == fits_at(cells, cs, t, p, v),
        forall|t: int| #[trigger] extending(cells, gcons, Seq::<bool>::empty(), t) == fits(cells, cs, t),
        forall|t: int, i: int, v: bool| #[trigger] extending_at(cells, gcons, Seq::<bool>::empty(), t, i, v) == fits_at(cells, cs, t, cells[i], v),
{
    assert forall|s: Set<Pos>| #[trigger] group_fit(cells, gcons, s) == group_fit(cells, cs, s) by {
        if group_fit(cells, gcons, s) {
            assert forall|i: int| 0 <= i < cs.len() && (#[trigger] cs[i]).demand().0.subset_of(cells.to_set())
                implies holds(s, cs[i].demand()) by {
                let c = choose|c: int| 0 <= c < gcons.len() && #[trigger] gcons[c].demand() == cs[i].demand();
                assert(drawn_within(gcons[c], cs, cells));
            }
        }
        if group_fit(cells, cs, s) {
            assert forall|c: int| 0 <= c < gcons.len() && (#[trigger] gcons[c]).demand().0.subset_of(cells.to_set())
                implies holds(s, gcons[c].demand()) by {
                assert(drawn_within(gcons[c], cs, cells));
                let i = choose|i: int| 0 <= i < cs.len() && #[trigger] cs[i].demand() == gcons[c].demand();
            }
        }
    }
    assert forall|t: int| #[trigger] fits(cells, gcons, t) == fits(cells, cs, t) by {
        assert(fits(cells, gcons, t) =~= fits(cells, cs, t));
    }
    assert forall|t: int, p: Pos, v: bool| #[trigger] fits_at(cells, gcons, t, p, v) == fits_at(cells, cs, t, p, v) by {
        assert(fits_at(cells, gcons, t, p, v) =~= fits_at(cells, cs, t, p, v));
    }
    assert forall|t: int| #[trigger] extending(cells, gcons, Seq::<bool>::empty(), t) == fits(cells, cs, t) by {
        assert(extending(cells, gcons, Seq::<bool>::empty(), t) =~= fits(cells, cs, t));
    }
    assert forall|t: int, i: int, v: bool| #[trigger] extending_at(cells, gcons, Seq::<bool>::empty(), t, i, v) == fits_at(cells, cs, t, cells[i], v) by {
        assert(extending_at(cells, gcons, Seq::<bool>::empty(), t, i, v) =~= fits_at(cells, cs, t, cells[i], v));
    }
}

/// Counts backed by layouts meeting the constraints drawn from inside a group are backed by
/// layouts meeting every constraint of `cs` inside the group.
pub proof fn lemma_backed_within(k: &GroupCounts, cells: Seq<Pos>, gcons: Seq<Constraint>, cs: Seq<Constraint>)
    requires
        k.backed(cells, gcons),
        forall|i: int| 0 <= i < cs.len() && (#[trigger] cs[i]).demand().0.subset_of(cells.to_set()) ==>
            exists|c: int| 0 <= c < gcons.len() && #[trigger] gcons[c].demand() == cs[i].demand(),
        forall|c: int| 0 <= c < gcons.len() ==> (#[trigger] gcons[c]).demand().0.subset_of(cells.to_set()),
    ensures
        k.backed(cells, cs),
{
    assert forall|s: Set<Pos>| #[trigger] group_fit(cells, gcons, s) implies group_fit(cells, cs, s) by {
        assert forall|i: int| 0 <= i < cs.len() && (#[trigger] cs[i]).demand().0.subset_of(cells.to_set())
            implies holds(s, cs[i].demand()) by {
            let c = choose|c: int| 0 <= c < gcons.len() && #[trigger] gcons[c].demand() == cs[i].demand();
        }
    }
    assert forall|t: int| 0 <= t < k.dist@.len() && #[trigger] k.dist@[t] > 0 implies
        exists|s: Set<Pos>| #[trigger] group_fit(cells, cs, s) && s.len() == t by {
        let s = choose|s: Set<Pos>| #[trigger] group_fit(cells, gcons, s) && s.len() == t;
    }
    assert forall|i: int, t: int| 0 <= i < k.mine_at@.len() && 0 <= t < k.mine_at@[i]@.len()
        && #[trigger] k.mine_at@[i]@[t] > 0 implies
        exists|s: Set<Pos>| #[trigger] group_fit(cells, cs, s) && s.len() == t && s.contains(cells[i]) by {
        let s = choose|s: Set<Pos>| #[trigger] group_fit(cells, gcons, s) && s.len() == t && s.contains(cells[i]);
    }
    assert forall|i: int, t: int| 0 <= i < k.safe_at@.len() && 0 <= t < k.safe_at@[i]@.len()
        && #[trigger] k.safe_at@[i]@[t] > 0 implies
        exists|s: Set<Pos>| #[trigger] group_fit(cells, cs, s) && s.len() == t && !s.contains(cells[i]) by {
        let s = choose|s: Set<Pos>| #[trigger] group_fit(cells, gcons, s) && s.len() == t && !s.contains(cells[i]);
    }
}

/// The fitting layouts of the group `cells` with `t` mines that agree with the marking `a` on the
/// group's first `a.len()` squares.
pub open spec fn extending(cells: Seq<Pos>, cons: Seq<Constraint>, a: Seq<bool>, t: int) -> Set<Set<Pos>> {
    Set::new(|s: Set<Pos>| group_fit(cells, cons, s) && s.len() == t
        && forall|k: int| 0 <= k < a.len() ==> (s.contains(#[trigger] cells[k]) == a[k]))
}

/// Those of `extending` with the square `cells[i]` a mine (`v`) or safe.
pub open spec fn extending_at(cells: Seq<Pos>, cons: Seq<Constraint>, a: Seq<bool>, t: int, i: int, v: bool) -> Set<Set<Pos>> {
    Set::new(|s: Set<Pos>| extending(cells, cons, a, t).contains(s) && s.contains(cells[i]) == v)
}

/// The layouts extending `a` split by the next square: safe or a mine.
pub proof fn lemma_extending_split(cells: Seq<Pos>, cons: Seq<Constraint>, a: Seq<bool>, t: int, i: int, v: bool)
    requires
        a.len() < cells.len(),
    ensures
        extending(cells, cons, a, t) == extending(cells, cons, a.push(false), t).union(extending(cells, cons, a.push(true), t)),
        extending(cells, cons, a.push(false), t).disjoint(extending(cells, cons, a.push(true), t)),
        extending_at(cells, cons, a, t, i, v)
            == extending_at(cells, cons, a.push(false), t, i, v).union(extending_at(cells, cons, a.push(true), t, i, v)),
        extending_at(cells, cons, a.push(false), t, i, v).disjoint(extending_at(cells, cons, a.push(true), t, i, v)),
{
    let n = a.len() as int;
    assert forall|s: Set<Pos>| extending(cells, cons, a, t).contains(s) implies
        extending(cells, cons, a.push(s.contains(cells[n])), t).contains(s) by {
        let b = a.push(s.contains(cells[n]));
        assert forall|k: int| 0 <= k < b.len() implies (s.contains(#[trigger] cells[k]) == b[k]) by {
            if k < n {
                assert(b[k] == a[k]);
            }
        }
    }
    assert forall|s: Set<Pos>, x: bool| extending(cells, cons, a.push(x), t).contains(s) implies
        extending(cells, cons, a, t).contains(s) && s.contains(cells[n]) == x by {
        let b = a.push(x);
        assert forall|k: int| 0 <= k < a.len() implies (s.contains(#[trigger] cells[k]) == a[k]) by {
            assert(b[k] == a[k]);
            assert(s.contains(cells[k]) == b[k]);
        }
        assert(s.contains(cells[n]) == b[n]);
    }
    assert(extending(cells, cons, a, t) =~= extending(cells, cons, a.push(false), t).union(extending(cells, cons, a.push(true), t))) by {
        assert forall|s: Set<Pos>| extending(cells, cons, a, t).contains(s) implies
            extending(cells, cons, a.push(false), t).union(extending(cells, cons, a.push(true), t)).contains(s) by {
            assert(extending(cells, cons, a.push(s.contains(cells[n])), t).contains(s));
        }
        assert forall|s: Set<Pos>| extending(cells, cons, a.push(false), t).union(extending(cells, cons, a.push(true), t)).contains(s)
            implies extending(cells, cons, a, t).contains(s) by {
            if extending(cells, cons, a.push(false), t).contains(s) {
                assert(extending(cells, cons, a, t).contains(s) && s.contains(cells[n]) == false);
            } else {
                assert(extending(cells, cons, a, t).contains(s) && s.contains(cells[n]) == true);
            }
        }
    }
    assert(extending(cells, cons, a.push(false), t).disjoint(extending(cells, cons, a.push(true), t))) by {
        assert forall|s: Set<Pos>| extending(cells, cons, a.push(false), t).contains(s) implies
            !extending(cells, cons, a.push(true), t).contains(s) by {
            assert(extending(cells, cons, a, t).contains(s) && s.contains(cells[n]) == false);
            if extending(cells, cons, a.push(true), t).contains(s) {
                assert(s.contains(cells[n]) == true);
            }
        }
    }
    assert(extending_at(cells, cons, a, t, i, v)
        =~= extending_at(cells, cons, a.push(false), t, i, v).union(extending_at(cells, cons, a.push(true), t, i, v))) by {
        assert forall|s: Set<Pos>| extending_at(cells, cons, a, t, i, v).contains(s) implies
            extending_at(cells, cons, a.push(false), t, i, v).union(extending_at(cells, cons, a.push(true), t, i, v)).contains(s) by {
            assert(extending(cells, cons, a.push(s.contains(cells[n])), t).contains(s));
        }
        assert forall|s: Set<Pos>| extending_at(cells, cons, a.push(false), t, i, v).union(extending_at(cells, cons, a.push(true), t, i, v)).contains(s)
            implies extending_at(cells, cons, a, t, i, v).contains(s) by {
            if extending_at(cells, cons, a.push(false), t, i, v).contains(s) {
                assert(extending(cells, cons, a, t).contains(s) && s.contains(cells[n]) == false);
            } else {
                assert(extending(cells, cons, a, t).contains(s) && s.contains(cells[n]) == true);
            }
        }
    }
}

/// The layouts with a square one way are among all the layouts.
pub proof fn lemma_extending_at_sub(cells: Seq<Pos>, cons: Seq<Constraint>, a: Seq<bool>, t: int, i: int, v: bool)
    requires
        extending(cells, cons, a, t).finite(),
    ensures
        extending_at(cells, cons, a, t, i, v).finite(),
        extending_at(cells, cons, a, t, i, v).subset_of(extending(cells, cons, a, t)),
{
    vstd::set_lib::lemma_set_subset_finite(extending(cells, cons, a, t), extending_at(cells, cons, a, t, i, v));
}

/// A full marking is extended by its own squares alone, when they fit the group with `t` mines,
/// and by nothing otherwise.
pub proof fn lemma_extending_leaf(cells: Seq<Pos>, cons: Seq<Constraint>, a: Seq<bool>, t: int, i: int, v: bool)
    requires
        cells.no_duplicates(),
        a.len() == cells.len(),
        forall|c: int| 0 <= c < cons.len() ==> (#[trigger] cons[c]).demand().0.subset_of(cells.to_set()),
    ensures
        extending(cells, cons, a, t) == (if meets(cells, a, cons) && mines_in(a) == t {
            set![marked(cells, a)] } else { Set::<Set<Pos>>::empty() }),
        0 <= i < cells.len() ==> extending_at(cells, cons, a, t, i, v) == (if meets(cells, a, cons) && mines_in(a) == t && a[i] == v {
            set![marked(cells, a)] } else { Set::<Set<Pos>>::empty() }),
{
    let mk = marked(cells, a);
    lemma_mines_in_marked(cells, a);
    assert forall|k: int| 0 <= k < cells.len() implies (mk.contains(#[trigger] cells[k]) == a[k]) by {
        if mk.contains(cells[k]) {
            let j = choose|j: int| 0 <= j < cells.len() && j < a.len() && cells[j] == cells[k] && a[j];
            assert(j == k);
        }
    }
    assert(mk.subset_of(cells.to_set())) by {
        assert forall|p: Pos| mk.contains(p) implies cells.to_set().contains(p) by {
            let j = choose|j: int| 0 <= j < cells.len() && j < a.len() && cells[j] == p && a[j];
            assert(cells.contains(p));
        }
    }
    assert(group_fit(cells, cons, mk) == meets(cells, a, cons)) by {
        if meets(cells, a, cons) {
            assert forall|c: int| 0 <= c < cons.len() && (#[trigger] cons[c]).demand().0.subset_of(cells.to_set())
                implies holds(mk, cons[c].demand()) by {}
        }
        if group_fit(cells, cons, mk) {
            assert forall|c: int| 0 <= c < cons.len() implies holds(mk, #[trigger] cons[c].demand()) by {
                assert(cons[c].demand().0.subset_of(cells.to_set()));
            }
        }
    }
    assert forall|s: Set<Pos>| extending(cells, cons, a, t).contains(s) implies s == mk by {
        assert forall|p: Pos| s.contains(p) <==> mk.contains(p) by {
            if s.contains(p) {
                assert(cells.to_set().contains(p));
                let k = choose|k: int| 0 <= k < cells.len() && cells[k] == p;
                assert(s.contains(cells[k]) == a[k]);
            }
            if mk.contains(p) {
                let k = choose|k: int| 0 <= k < cells.len() && k < a.len() && cells[k] == p && a[k];
                assert(s.contains(cells[k]) == a[k]);
            }
        }
        assert(s =~= mk);
    }
    if meets(cells, a, cons) && mines_in(a) == t {
        assert(extending(cells, cons, a, t).contains(mk));
        assert(extending(cells, cons, a, t) =~= set![mk]);
        if !(0 <= i < cells.len()) {
        } else if a[i] == v {
            assert(extending_at(cells, cons, a, t, i, v) =~= set![mk]);
        } else {
            assert(extending_at(cells, cons, a, t, i, v) =~= Set::<Set<Pos>>::empty());
        }
    } else {
        assert(extending(cells, cons, a, t) =~= Set::<Set<Pos>>::empty());
        assert(extending_at(cells, cons, a, t, i, v) =~= Set::<Set<Pos>>::empty());
    }
}

pub proof fn lemma_dominates_trans(x: &GroupCounts, y: &GroupCounts, z: &GroupCounts, g: nat)
    requires
        y.dominates(x, g),
        z.dominates(y, g),
    ensures
        z.dominates(x, g),
{
    assert forall|i: int, t: int| 0 <= i < g && 0 <= t <= g implies #[trigger] z.mine_at@[i]@[t] >= x.mine_at@[i]@[t] by {
        assert(z.mine_at@[i]@[t] >= y.mine_at@[i]@[t]);
        assert(y.mine_at@[i]@[t] >= x.mine_at@[i]@[t]);
    }
    assert forall|i: int, t: int| 0 <= i < g && 0 <= t <= g implies #[trigger] z.safe_at@[i]@[t] >= x.safe_at@[i]@[t] by {
        assert(z.safe_at@[i]@[t] >= y.safe_at@[i]@[t]);
        assert(y.safe_at@[i]@[t] >= x.safe_at@[i]@[t]);
    }
    assert forall|t: int| 0 <= t <= g implies #[trigger] z.dist@[t] >= x.dist@[t] by {
        assert(z.dist@[t] >= y.dist@[t]);
    }
}

pub proof fn lemma_counted_stays(x: &GroupCounts, y: &GroupCounts, a: Seq<bool>, g: nat)
    requires
        a.len() == g,
        y.dominates(x, g),
        x.counted(a),
    ensures
        y.counted(a),
{
    lemma_mines_in_le(a);
    assert forall|i: int| 0 <= i < a.len() && a[i] implies #[trigger] y.mine_at@[i]@[mines_in(a) as int] > 0 by {
        assert(x.mine_at@[i]@[mines_in(a) as int] <= y.mine_at@[i]@[mines_in(a) as int]);
    }
    assert forall|i: int| 0 <= i < a.len() && !a[i] implies #[trigger] y.safe_at@[i]@[mines_in(a) as int] > 0 by {
        assert(x.safe_at@[i]@[mines_in(a) as int] <= y.safe_at@[i]@[mines_in(a) as int]);
    }
}

fn bump(v: &mut Vec<u128>, t: usize)
    requires
        t < old(v)@.len(),
    ensures
        final(v)@.len() == old(v)@.len(),
        final(v)@[t as int] > 0,
        final(v)@[t as int] == capped(old(v)@[t as int] + 1),
        forall|s: int| 0 <= s < final(v)@.len() && s != t ==> #[trigger] final(v)@[s] == old(v)@[s],
        forall|s: int| 0 <= s < final(v)@.len() ==> #[trigger] final(v)@[s] >= old(v)@[s],
{
    let x = v[t].saturating_add(1);
    v.set(t, x);
}

fn bump_row(rows: &mut Vec<Vec<u128>>, i: usize, t: usize)
    requires
        i < old(rows)@.len(),
        t < old(rows)@[i as int]@.len(),
    ensures
        final(rows)@.len() == old(rows)@.len(),
        forall|k: int| 0 <= k < final(rows)@.len() ==> (#[trigger] final(rows)@[k])@.len() == old(rows)@[k]@.len(),
        final(rows)@[i as int]@[t as int] > 0,
        final(rows)@[i as int]@[t as int] == capped(old(rows)@[i as int]@[t as int] + 1),
        forall|k: int, s: int| 0 <= k < final(rows)@.len() && 0 <= s < final(rows)@[k]@.len() && (k != i || s != t) ==>
            #[trigger] final(rows)@[k]@[s] == old(rows)@[k]@[s],
        forall|k: int, s: int| 0 <= k < final(rows)@.len() && 0 <= s < final(rows)@[k]@.len() ==>
            #[trigger] final(rows)@[k]@[s] >= old(rows)@[k]@[s],
{
    let x = rows[i][t].saturating_add(1);
    rows[i].set(t, x);
}

/// Counts the markings of the group's squares that extend `prefix` and meet its constraints.
fn enumerate(cells: &Vec<Pos>, cons: &Vec<Constraint>, prefix: &mut Vec<bool>, counts: &mut GroupCounts)
    requires
        cells@.no_duplicates(),
        cells@.len() <= 24,
        old(prefix)@.len() <= cells@.len(),
        forall|c: int| 0 <= c < cons@.len() ==> (#[trigger] cons@[c]).wf() && cons@[c].demand().0.subset_of(cells@.to_set()),
        old(counts).shaped(cells@.len()),
        old(counts).backed(cells@, cons@),
    ensures
        final(prefix)@ == old(prefix)@,
        final(counts).shaped(cells@.len()),
        final(counts).backed(cells@, cons@),
        final(counts).dominates(old(counts), cells@.len()),
        forall|a: Seq<bool>| a.len() == cells@.len() && a.take(old(prefix)@.len() as int) == old(prefix)@
            && #[trigger] meets(cells@, a, cons@) ==> final(counts).counted(a),
        forall|t: int| #[trigger] extending(cells@, cons@, old(prefix)@, t).finite(),
        forall|t: int, i: int, v: bool| #[trigger] extending_at(cells@, cons@, old(prefix)@, t, i, v).finite(),
        forall|t: int| 0 <= t <= cells@.len() ==>
            #[trigger] final(counts).dist@[t] == capped(old(counts).dist@[t] + extending(cells@, cons@, old(prefix)@, t).len()),
        forall|i: int, t: int| 0 <= i < cells@.len() && 0 <= t <= cells@.len() ==>
            #[trigger] final(counts).mine_at@[i]@[t]
                == capped(old(counts).mine_at@[i]@[t] + extending_at(cells@, cons@, old(prefix)@, t, i, true).len()),
        forall|i: int, t: int| 0 <= i < cells@.len() && 0 <= t <= cells@.len() ==>
            #[trigger] final(counts).safe_at@[i]@[t]
                == capped(old(counts).safe_at@[i]@[t] + extending_at(cells@, cons@, old(prefix)@, t, i, false).len()),
    decreases cells@.len() - old(prefix)@.len(),
{
    let g = cells.len();
    if prefix.len() == g {
        proof {
            assert forall|a: Seq<bool>| a.len() == cells@.len() && a.take(prefix@.len() as int) == prefix@
                implies a == prefix@ by {
                assert(a.take(prefix@.len() as int) == a);
            }
        }
        if meets_all(cells, prefix, cons) {
            let mut mc: usize = 0;
            let mut i: usize = 0;
            while i < g
                invariant
                    g == cells@.len(),
                    prefix@.len() == g,
                    0 <= i <= g,
                    mc == mines_in(prefix@.take(i as int)),
                    mc <= i,
                decreases g - i,
            {
                proof {
                    assert(prefix@.take(i + 1).drop_last() == prefix@.take(i as int));
                }
                if prefix[i] {
                    mc += 1;
                }
                i += 1;
            }
            proof {
                assert(prefix@.take(i as int) == prefix@);
                lemma_marked_fits(cells@, prefix@, cons@);
            }
            let ghost start = *counts;
            let ghost fit = marked(cells@, prefix@);
            bump(&mut counts.dist, mc);
            proof {
                assert forall|t: int| 0 <= t < counts.dist@.len() && #[trigger] counts.dist@[t] > 0 implies
                    exists|s: Set<Pos>| #[trigger] group_fit(cells@, cons@, s) && s.len() == t by {
                    if t == mc {
                        assert(group_fit(cells@, cons@, fit));
                    } else {
                        assert(start.dist@[t] > 0);
                    }
                }
            }
            let ghost dist1 = counts.dist@;
            let mut i: usize = 0;
            while i < g
                invariant
                    g == cells@.len(),
                    prefix@.len() == g,
                    mc == mines_in(prefix@),
                    mc <= g,
                    0 <= i <= g,
                    counts.shaped(g as nat),
                    counts.dominates(&start, g as nat),
                    counts.dist@[mc as int] > 0,
                    counts.backed(cells@, cons@),
                    cells@.no_duplicates(),
                    group_fit(cells@, cons@, fit),
                    fit.len() == mc,
                    forall|j: int| 0 <= j < g ==> (fit.contains(#[trigger] cells@[j]) <==> prefix@[j]),
                    forall|j: int| 0 <= j < i && prefix@[j] ==> #[trigger] counts.mine_at@[j]@[mc as int] > 0,
                    forall|j: int| 0 <= j < i && !prefix@[j] ==> #[trigger] counts.safe_at@[j]@[mc as int] > 0,
                    counts.dist@ == dist1,
                    forall|ii: int, t: int| 0 <= ii < g && 0 <= t <= g ==> #[trigger] counts.mine_at@[ii]@[t]
                        == if ii < i && t == mc && prefix@[ii] { capped(start.mine_at@[ii]@[t] + 1) } else { start.mine_at@[ii]@[t] as int },
                    forall|ii: int, t: int| 0 <= ii < g && 0 <= t <= g ==> #[trigger] counts.safe_at@[ii]@[t]
                        == if ii < i && t == mc && !prefix@[ii] { capped(start.safe_at@[ii]@[t] + 1) } else { start.safe_at@[ii]@[t] as int },
                decreases g - i,
            {
                let ghost before = *counts;
                if prefix[i] {
                    bump_row(&mut counts.mine_at, i, mc);
                } else {
                    bump_row(&mut counts.safe_at, i, mc);
                }
                proof {
                    assert(counts.dominates(&before, g as nat));
                    lemma_dominates_trans(&start, &before, counts, g as nat);
                    assert forall|ii: int, t: int| 0 <= ii < counts.mine_at@.len() && 0 <= t < counts.mine_at@[ii]@.len()
                        && #[trigger] counts.mine_at@[ii]@[t] > 0 implies
                        exists|s: Set<Pos>| #[trigger] group_fit(cells@, cons@, s) && s.len() == t && s.contains(cells@[ii]) by {
                        if ii == i && t == mc && prefix@[i as int] {
                            assert(fit.contains(cells@[ii]));
                        } else {
                            assert(before.mine_at@[ii]@[t] > 0);
                        }
                    }
                    assert forall|ii: int, t: int| 0 <= ii < counts.safe_at@.len() && 0 <= t < counts.safe_at@[ii]@.len()
                        && #[trigger] counts.safe_at@[ii]@[t] > 0 implies
                        exists|s: Set<Pos>| #[trigger] group_fit(cells@, cons@, s) && s.len() == t && !s.contains(cells@[ii]) by {
                        if ii == i && t == mc && !prefix@[i as int] {
                            assert(!fit.contains(cells@[ii]));
                        } else {
                            assert(before.safe_at@[ii]@[t] > 0);
                        }
                    }
                    assert forall|j: int| 0 <= j < i + 1 && prefix@[j] implies #[trigger] counts.mine_at@[j]@[mc as int] > 0 by {
                        assert(counts.mine_at@[j]@[mc as int] >= before.mine_at@[j]@[mc as int]);
                    }
                    assert forall|j: int| 0 <= j < i + 1 && !prefix@[j] implies #[trigger] counts.safe_at@[j]@[mc as int] > 0 by {
                        assert(counts.safe_at@[j]@[mc as int] >= before.safe_at@[j]@[mc as int]);
                    }
                }
                i += 1;
            }
            proof {
                assert(counts.counted(prefix@));
                assert(start == *old(counts));
                assert(prefix@ == old(prefix)@);
                assert forall|t: int| #[trigger] extending(cells@, cons@, prefix@, t).finite() by {
                    lemma_extending_leaf(cells@, cons@, prefix@, t, 0, true);
                }
                assert forall|t: int, ii: int, v: bool| #[trigger] extending_at(cells@, cons@, prefix@, t, ii, v).finite() by {
                    lemma_extending_leaf(cells@, cons@, prefix@, t, ii, v);
                    lemma_extending_at_sub(cells@, cons@, prefix@, t, ii, v);
                }
                assert forall|t: int| 0 <= t <= cells@.len() implies extending(cells@, cons@, prefix@, t).finite()
                    && #[trigger] counts.dist@[t] == capped(start.dist@[t] + extending(cells@, cons@, prefix@, t).len()) by {
                    lemma_extending_leaf(cells@, cons@, prefix@, t, 0, true);
                }
                assert forall|ii: int, t: int| 0 <= ii < cells@.len() && 0 <= t <= cells@.len() implies
                    extending_at(cells@, cons@, prefix@, t, ii, true).finite()
                    && #[trigger] counts.mine_at@[ii]@[t]
                        == capped(start.mine_at@[ii]@[t] + extending_at(cells@, cons@, prefix@, t, ii, true).len()) by {
                    lemma_extending_leaf(cells@, cons@, prefix@, t, ii, true);
                }
                assert forall|ii: int, t: int| 0 <= ii < cells@.len() && 0 <= t <= cells@.len() implies
                    extending_at(cells@, cons@, prefix@, t, ii, false).finite()
                    && #[trigger] counts.safe_at@[ii]@[t]
                        == capped(start.safe_at@[ii]@[t] + extending_at(cells@, cons@, prefix@, t, ii, false).len()) by {
                    lemma_extending_leaf(cells@, cons@, prefix@, t, ii, false);
                }
            }
        } else {
            proof {
                assert forall|t: int| #[trigger] extending(cells@, cons@, prefix@, t).finite() by {
                    lemma_extending_leaf(cells@, cons@, prefix@, t, 0, true);
                }
                assert forall|t: int, ii: int, v: bool| #[trigger] extending_at(cells@, cons@, prefix@, t, ii, v).finite() by {
                    lemma_extending_leaf(cells@, cons@, prefix@, t, ii, v);
                    lemma_extending_at_sub(cells@, cons@, prefix@, t, ii, v);
                }
                assert forall|t: int| 0 <= t <= cells@.len() implies extending(cells@, cons@, prefix@, t).finite()
                    && #[trigger] counts.dist@[t] == capped(counts.dist@[t] + extending(cells@, cons@, prefix@, t).len()) by {
                    lemma_extending_leaf(cells@, cons@, prefix@, t, 0, true);
                }
                assert forall|ii: int, t: int| 0 <= ii < cells@.len() && 0 <= t <= cells@.len() implies
                    extending_at(cells@, cons@, prefix@, t, ii, true).finite()
                    && #[trigger] counts.mine_at@[ii]@[t]
                        == capped(counts.mine_at@[ii]@[t] + extending_at(cells@, cons@, prefix@, t, ii, true).len()) by {
                    lemma_extending_leaf(cells@, cons@, prefix@, t, ii, true);
                }
                assert forall|ii: int, t: int| 0 <= ii < cells@.len() && 0 <= t <= cells@.len() implies
                    extending_at(cells@, cons@, prefix@, t, ii, false).finite()
                    && #[trigger] counts.safe_at@[ii]@[t]
                        == capped(counts.safe_at@[ii]@[t] + extending_at(cells@, cons@, prefix@, t, ii, false).len()) by {
                    lemma_extending_leaf(cells@, cons@, prefix@, t, ii, false);
                }
            }
        }
    } else {
        let ghost start = *counts;
        let ghost p0 = prefix@;
        prefix.push(false);
        enumerate(cells, cons, prefix, counts);
        prefix.pop();
        proof {
            assert(prefix@ =~= p0);
        }
        let ghost mid = *counts;
        prefix.push(true);
        enumerate(cells, cons, prefix, counts);
        prefix.pop();
        proof {
            assert(prefix@ == p0);
            lemma_dominates_trans(&start, &mid, counts, cells@.len());
            assert forall|a: Seq<bool>| a.len() == cells@.len() && a.take(p0.len() as int) == p0
                && #[trigger] meets(cells@, a, cons@) implies counts.counted(a) by {
                assert(a.take(p0.len() as int) =~= p0);
                if a[p0.len() as int] {
                    assert(a.take(p0.len() as int + 1) =~= p0.push(true));
                } else {
                    assert(a.take(p0.len() as int + 1) =~= p0.push(false));
                    lemma_counted_stays(&mid, counts, a, cells@.len());
                }
            }
            assert(start == *old(counts));
            assert(p0 == old(prefix)@);
            assert forall|t: int| #[trigger] extending(cells@, cons@, p0, t).finite() by {
                lemma_extending_split(cells@, cons@, p0, t, 0, true);
                assert(extending(cells@, cons@, p0.push(false), t).finite());
                assert(extending(cells@, cons@, p0.push(true), t).finite());
            }
            assert forall|t: int, ii: int, v: bool| #[trigger] extending_at(cells@, cons@, p0, t, ii, v).finite() by {
                lemma_extending_at_sub(cells@, cons@, p0, t, ii, v);
            }
            assert forall|t: int| 0 <= t <= cells@.len() implies extending(cells@, cons@, p0, t).finite()
                && #[trigger] counts.dist@[t] == capped(start.dist@[t] + extending(cells@, cons@, p0, t).len()) by {
                assert(mid.dist@[t] == capped(start.dist@[t] + extending(cells@, cons@, p0.push(false), t).len()));
                assert(counts.dist@[t] == capped(mid.dist@[t] + extending(cells@, cons@, p0.push(true), t).len()));
                lemma_extending_split(cells@, cons@, p0, t, 0, true);
                vstd::set_lib::lemma_set_disjoint_lens(extending(cells@, cons@, p0.push(false), t), extending(cells@, cons@, p0.push(true), t));
            }
            assert forall|ii: int, t: int| 0 <= ii < cells@.len() && 0 <= t <= cells@.len() implies
                extending_at(cells@, cons@, p0, t, ii, true).finite()
                && #[trigger] counts.mine_at@[ii]@[t]
                    == capped(start.mine_at@[ii]@[t] + extending_at(cells@, cons@, p0, t, ii, true).len()) by {
                assert(mid.mine_at@[ii]@[t] == capped(start.mine_at@[ii]@[t] + extending_at(cells@, cons@, p0.push(false), t, ii, true).len()));
                assert(counts.mine_at@[ii]@[t] == capped(mid.mine_at@[ii]@[t] + extending_at(cells@, cons@, p0.push(true), t, ii, true).len()));
                lemma_extending_split(cells@, cons@, p0, t, ii, true);
                vstd::set_lib::lemma_set_disjoint_lens(extending_at(cells@, cons@, p0.push(false), t, ii, true),
                    extending_at(cells@, cons@, p0.push(true), t, ii, true));
            }
            assert forall|ii: int, t: int| 0 <= ii < cells@.len() && 0 <= t <= cells@.len() implies
                extending_at(cells@, cons@, p0, t, ii, false).finite()
                && #[trigger] counts.safe_at@[ii]@[t]
                    == capped(start.safe_at@[ii]@[t] + extending_at(cells@, cons@, p0, t, ii, false).len()) by {
                assert(mid.safe_at@[ii]@[t] == capped(start.safe_at@[ii]@[t] + extending_at(cells@, cons@, p0.push(false), t, ii, false).len()));
                assert(counts.safe_at@[ii]@[t] == capped(mid.safe_at@[ii]@[t] + extending_at(cells@, cons@, p0.push(true), t, ii, false).len()));
                lemma_extending_split(cells@, cons@, p0, t, ii, false);
                vstd::set_lib::lemma_set_disjoint_lens(extending_at(cells@, cons@, p0.push(false), t, ii, false),
                    extending_at(cells@, cons@, p0.push(true), t, ii, false));
            }
        }
    }
}

/// Greatest common divisor by Euclid's recurrence.
pub open spec fn gcd_spec(a: nat, b: nat) -> nat
    decreases b,
{
    if b == 0 {
        a
    } else {
        gcd_spec(b, a % b)
    }
}

pub fn gcd(a: u128, b: u128) -> (r: u128)
    ensures
        r == gcd_spec(a as nat, b as nat),
        r == 0 <==> (a == 0 && b == 0),
    decreases b,
{
    if b == 0 {
        a
    } else {
        let r = gcd(b, a % b);
        proof {
            if a % b == 0 {
                assert(r == b);
            }
        }
        r
    }
}

/// The binomial coefficient, by Pascal's rule.
pub open spec fn binom(n: nat, k: nat) -> nat
    decreases n,
{
    if k == 0 {
        1
    } else if n == 0 {
        0
    } else {
        binom((n - 1) as nat, (k - 1) as nat) + binom((n - 1) as nat, k)
    }
}

/// Every step `C(n, i) * (n - i)` of the multiplicative formula up to `kk` fits in 128 bits.
pub open spec fn steps_fit(n: nat, kk: nat) -> bool {
    forall|i: nat| i < kk ==> #[trigger] binom(n, i) * (n - i) <= u128::MAX
}

pub proof fn lemma_choose_above(n: nat, k: nat)
    requires
        k > n,
    ensures
        binom(n, k) == 0,
    decreases n,
{
    if n > 0 {
        lemma_choose_above((n - 1) as nat, (k - 1) as nat);
        lemma_choose_above((n - 1) as nat, k);
    }
}

pub proof fn lemma_choose_all(n: nat)
    ensures
        binom(n, n) == 1,
    decreases n,
{
    if n > 0 {
        lemma_choose_all((n - 1) as nat);
        lemma_choose_above((n - 1) as nat, n);
    }
}

/// `C(n, k) = C(n, n - k)`.
pub proof fn lemma_choose_symmetric(n: nat, k: nat)
    requires
        k <= n,
    ensures
        binom(n, k) == binom(n, (n - k) as nat),
    decreases n,
{
    if k == 0 {
        lemma_choose_all(n);
    } else if k == n {
        lemma_choose_all(n);
    } else {
        lemma_choose_symmetric((n - 1) as nat, (k - 1) as nat);
        lemma_choose_symmetric((n - 1) as nat, k);
        assert(binom(n, (n - k) as nat) == binom((n - 1) as nat, (n - k - 1) as nat) + binom((n - 1) as nat, (n - k) as nat));
    }
}

/// The step of the multiplicative formula: `C(n, i + 1) * (i + 1) = C(n, i) * (n - i)`.
pub proof fn lemma_choose_step(n: nat, i: nat)
    requires
        i <= n,
    ensures
        binom(n, i + 1) * (i + 1) == binom(n, i) * (n - i),
    decreases n,
{
    if n == 0 {
        lemma_choose_above(0, 1);
        assert(binom(n, i + 1) * (i + 1) == binom(n, i) * (n - i)) by (nonlinear_arith)
            requires binom(n, i + 1) == 0, n == 0, i == 0;
    } else if i == n {
        lemma_choose_above(n, i + 1);
        assert(binom(n, i + 1) * (i + 1) == binom(n, i) * (n - i)) by (nonlinear_arith)
            requires binom(n, i + 1) == 0, n == i;
    } else {
        let m = (n - 1) as nat;
        lemma_choose_step(m, i);
        let a = binom(m, i);
        let b = binom(m, i + 1);
        assert(binom(n, i + 1) == a + b);
        assert(b * (i + 1) == a * (m - i));
        assert(binom(n, i + 1) * (i + 1) == a * n) by (nonlinear_arith)
            requires
                binom(n, i + 1) == a + b,
                b * (i + 1) == a * (m - i),
                m == n - 1,
                i <= m;
        if i == 0 {
            assert(binom(n, 0) == 1);
            assert(a == 1);
            assert(binom(n, i) * (n - i) == a * n) by (nonlinear_arith)
                requires binom(n, i) == 1, a == 1, i == 0;
        } else {
            let i1 = (i - 1) as nat;
            lemma_choose_step(m, i1);
            let c = binom(m, i1);
            assert(i1 + 1 == i);
            assert(a * i == c * (m - i1));
            assert(binom(n, i) == c + a);
            assert(binom(n, i) * (n - i) == a * n) by (nonlinear_arith)
                requires
                    binom(n, i) == c + a,
                    a * i == c * (m - i1),
                    m == n - 1,
                    i1 == i - 1,
                    i <= m;
        }
    }
}

/// The binomial coefficient `C(n, k)` by the multiplicative formula over the smaller of `k` and
/// `n - k`; `u128::MAX` when a product on the way does not fit in 128 bits.
pub fn binomial(n: u64, k: u64) -> (r: u128)
    ensures
        k > n ==> r == 0,
        k <= n ==> r == if steps_fit(n as nat, if k < n - k { k as nat } else { (n - k) as nat }) {
            binom(n as nat, k as nat)
        } else {
            u128::MAX as nat
        },
        k <= n ==> r > 0,
{
    if k > n {
        return 0;
    }
    let kk = if k < n - k { k } else { n - k };
    proof {
        lemma_choose_symmetric(n as nat, k as nat);
    }
    let mut result: u128 = 1;
    let mut i: u64 = 0;
    while i < kk
        invariant
            k <= n,
            kk <= n - kk,
            kk == if k < n - k { k } else { (n - k) as u64 },
            binom(n as nat, k as nat) == binom(n as nat, kk as nat),
            0 <= i <= kk,
            result == binom(n as nat, i as nat),
            steps_fit(n as nat, i as nat),
            result >= 1,
        decreases kk - i,
    {
        let num = (n - i) as u128;
        let den = (i + 1) as u128;
        let product = match result.checked_mul(num) {
            Some(v) => v,
            None => u128::MAX,
        };
        let g = gcd(product, den);
        if g == 0 {
            return u128::MAX;
        }
        match result.checked_mul(num) {
            Some(v) => {
                proof {
                    lemma_choose_step(n as nat, i as nat);
                    assert(v == binom(n as nat, (i + 1) as nat) * den);
                    assert(v / den == binom(n as nat, (i + 1) as nat)) by (nonlinear_arith)
                        requires v == binom(n as nat, (i + 1) as nat) * den, den >= 1;
                    assert(num >= den);
                    assert(v >= result * den) by (nonlinear_arith)
                        requires v == result * num, num >= den, result >= 1;
                    assert(v / den >= result) by (nonlinear_arith)
                        requires v >= result * den, den >= 1;
                    assert forall|j: nat| j < i + 1 implies #[trigger] binom(n as nat, j) * (n - j) <= u128::MAX by {
                        if j == i {
                            assert(binom(n as nat, j) * (n - j) == v);
                        }
                    }
                }
                result = v / den;
            },
            None => {
                proof {
                    assert(!steps_fit(n as nat, kk as nat)) by {
                        assert(binom(n as nat, i as nat) * (n - i) > u128::MAX);
                    }
                }
                return u128::MAX;
            },
        }
        i += 1;
    }
    result
}

/// `a / b < c / d` for positive `b` and `d`, compared exactly.
pub fn frac_lt(a: u128, b: u128, c: u128, d: u128) -> (r: bool)
    requires
        b > 0,
        d > 0,
    ensures
        r == (a * d < c * b),
    decreases b + d,
{
    let qa = a / b;
    let qc = c / d;
    let ra = a % b;
    let rc = c % d;
    proof {
        assert(a == qa * b + ra) by (nonlinear_arith) requires qa == a / b, ra == a % b, b > 0;
        assert(c == qc * d + rc) by (nonlinear_arith) requires qc == c / d, rc == c % d, d > 0;
    }
    if qa != qc {
        proof {
            if qa < qc {
                assert(a * d < c * b) by (nonlinear_arith)
                    requires a == qa * b + ra, c == qc * d + rc, 0 <= ra < b, 0 <= rc < d, qa + 1 <= qc, b > 0, d > 0;
            } else {
                assert(!(a * d < c * b)) by (nonlinear_arith)
                    requires a == qa * b + ra, c == qc * d + rc, 0 <= ra < b, 0 <= rc < d, qc + 1 <= qa, b > 0, d > 0;
            }
        }
        return qa < qc;
    }
    proof {
        assert((a * d < c * b) == (ra * d < rc * b)) by (nonlinear_arith)
            requires a == qa * b + ra, c == qc * d + rc, qa == qc;
    }
    if rc == 0 {
        proof {
            assert(ra * d >= 0) by (nonlinear_arith) requires ra >= 0, d > 0;
            assert(rc * b == 0) by (nonlinear_arith) requires rc == 0;
        }
        return false;
    }
    if ra == 0 {
        proof {
            assert(rc * b > 0) by (nonlinear_arith) requires rc > 0, b > 0;
            assert(ra * d == 0) by (nonlinear_arith) requires ra == 0;
        }
        return true;
    }
    let r = frac_lt(d, rc, b, ra);
    proof {
        assert((d * ra < b * rc) == (ra * d < rc * b)) by (nonlinear_arith);
    }
    r
}

/// `x`, or `u128::MAX` where `x` is larger.
pub open spec fn capped(x: int) -> int {
    if x > u128::MAX {
        u128::MAX as int
    } else {
        x
    }
}

/// The sum over `x < a` of the capped products `acc[x] * dist[t - x]`, where `t - x` indexes `dist`.
pub open spec fn conv_upto(acc: Seq<u128>, dist: Seq<u128>, t: int, a: int) -> int
    decreases a,
{
    if a <= 0 {
        0
    } else {
        conv_upto(acc, dist, t, a - 1) + if 0 <= t - (a - 1) < dist.len() {
            capped(acc[a - 1] * dist[t - (a - 1)])
        } else {
            0
        }
    }
}

/// The convolution of two count sequences, cut to the length of `acc`, each product and each sum
/// capped at `u128::MAX`.
#[verifier::spinoff_prover]
pub fn convolve(acc: &Vec<u128>, dist: &Vec<u128>) -> (r: Vec<u128>)
    ensures
        r@.len() == acc@.len(),
        forall|t: int| 0 <= t < acc@.len() ==> #[trigger] r@[t] == capped(conv_upto(acc@, dist@, t, acc@.len() as int)),
        forall|a: int, b: int| 0 <= a < acc@.len() && 0 <= b < dist@.len() && a + b < acc@.len()
            && #[trigger] acc@[a] > 0 && #[trigger] dist@[b] > 0 ==> r@[a + b] > 0,
{
    let n = acc.len();
    let mut r: Vec<u128> = Vec::new();
    let mut t: usize = 0;
    while t < n
        invariant
            n == acc@.len(),
            0 <= t <= n,
            r@.len() == t,
            forall|s: int| 0 <= s < t ==> #[trigger] r@[s] == 0,
        decreases n - t,
    {
        r.push(0);
        t += 1;
    }
    let mut a: usize = 0;
    while a < n
        invariant
            n == acc@.len(),
            r@.len() == n,
            0 <= a <= n,
            forall|x: int, y: int| 0 <= x < a && 0 <= y < dist@.len() && x + y < n
                && #[trigger] acc@[x] > 0 && #[trigger] dist@[y] > 0 ==> r@[x + y] > 0,
            forall|t: int| 0 <= t < n ==> #[trigger] r@[t] == capped(conv_upto(acc@, dist@, t, a as int)),
        decreases n - a,
    {
        let mut b: usize = 0;
        while b < dist.len()
            invariant
                n == acc@.len(),
                r@.len() == n,
                0 <= a < n,
                0 <= b <= dist@.len(),
                forall|x: int, y: int| 0 <= x < a && 0 <= y < dist@.len() && x + y < n
                    && #[trigger] acc@[x] > 0 && #[trigger] dist@[y] > 0 ==> r@[x + y] > 0,
                forall|y: int| 0 <= y < b && a + y < n && acc@[a as int] > 0 && #[trigger] dist@[y] > 0 ==> r@[a + y] > 0,
                forall|t: int| 0 <= t < n ==> #[trigger] r@[t] == capped(conv_upto(acc@, dist@, t,
                    if a <= t < a + b { a + 1 } else { a as int })),
            decreases dist@.len() - b,
        {
            if b < n - a {
                let ghost before = r@;
                let term = sat_mul(acc[a], dist[b]);
                let v = r[a + b].saturating_add(term);
                r.set(a + b, v);
                proof {
                    assert forall|s: int| 0 <= s < n implies #[trigger] r@[s] >= before[s] by {}
                }
            }
            b += 1;
        }
        a += 1;
    }
    r
}

/// What the counting says of one unknown square.
pub struct Estimate {
    pub cell: Pos,
    /// The estimated chance of a mine on the square is `mine / total`.
    pub mine: u128,
    pub total: u128,
    /// No counted layout puts a mine on the square.
    pub certain_safe: bool,
    /// Every counted layout puts a mine on the square.
    pub certain_mine: bool,
}

impl Estimate {
    /// The chance is a fraction between 0 and 1, the square is called surely safe exactly at 0,
    /// and called surely a mine only at 1, which below the cap means surely a mine.
    pub open spec fn coherent(&self) -> bool {
        &&& self.total > 0
        &&& self.mine <= self.total
        &&& self.certain_safe == (self.mine == 0)
        &&& self.certain_mine ==> self.mine == self.total
        &&& self.mine == self.total && self.total < u128::MAX ==> self.certain_mine
    }
}

/// The marking `a` of `cells` meets every constraint that lies inside `cells`.
pub open spec fn meets_within(cells: Seq<Pos>, a: Seq<bool>, cs: Seq<Constraint>) -> bool {
    forall|i: int| 0 <= i < cs.len() && (#[trigger] cs[i]).demand().0.subset_of(cells.to_set())
        ==> holds(marked(cells, a), cs[i].demand())
}

/// Some constraint around `p` asks for no mine (or fewer).
pub open spec fn asks_none(cs: Seq<Constraint>, p: Pos) -> bool {
    exists|i: int| 0 <= i < cs.len() && (#[trigger] cs[i]).demand().0.contains(p) && cs[i].need <= 0
}

/// `c` is well formed and makes the same demand as some constraint of `cs`.
pub open spec fn drawn_from(c: Constraint, cs: Seq<Constraint>) -> bool {
    c.wf() && exists|i: int| 0 <= i < cs.len() && #[trigger] cs[i].demand() == c.demand()
}

/// `c` is drawn from `cs` and lies inside `cells`.
pub open spec fn drawn_within(c: Constraint, cs: Seq<Constraint>, cells: Seq<Pos>) -> bool {
    drawn_from(c, cs) && c.demand().0.subset_of(cells.to_set())
}

/// The constraints that lie inside `cells`, copied.
fn constraints_within(cells: &Vec<Pos>, cs: &Vec<Constraint>) -> (r: Vec<Constraint>)
    requires
        forall|i: int| 0 <= i < cs@.len() ==> (#[trigger] cs@[i]).wf(),
    ensures
        forall|c: int| 0 <= c < r@.len() ==> #[trigger] drawn_within(r@[c], cs@, cells@),
        forall|i: int| 0 <= i < cs@.len() && (#[trigger] cs@[i]).demand().0.subset_of(cells@.to_set()) ==>
            exists|c: int| 0 <= c < r@.len() && #[trigger] r@[c].demand() == cs@[i].demand(),
{
    let mut found: Vec<Constraint> = Vec::new();
    let mut i: usize = 0;
    while i < cs.len()
        invariant
            0 <= i <= cs@.len(),
            forall|i: int| 0 <= i < cs@.len() ==> (#[trigger] cs@[i]).wf(),
            forall|c: int| 0 <= c < found@.len() ==> #[trigger] drawn_within(found@[c], cs@, cells@),
            forall|j: int| 0 <= j < i && (#[trigger] cs@[j]).demand().0.subset_of(cells@.to_set()) ==>
                exists|c: int| 0 <= c < found@.len() && #[trigger] found@[c].demand() == cs@[j].demand(),
        decreases cs@.len() - i,
    {
        let ghost before = found@;
        if within(&cs[i].unknowns, cells) {
            found.push(Constraint { unknowns: copy_positions(&cs[i].unknowns), need: cs[i].need });
            proof {
                assert(found@[found@.len() - 1].demand() == cs@[i as int].demand());
                assert(drawn_from(found@[found@.len() - 1], cs@));
                assert(drawn_within(found@[found@.len() - 1], cs@, cells@));
            }
        }
        proof {
            assert forall|c: int| 0 <= c < before.len() implies found@[c] == before[c] by {}
            assert forall|j: int| 0 <= j < i + 1 && (#[trigger] cs@[j]).demand().0.subset_of(cells@.to_set()) implies
                exists|c: int| 0 <= c < found@.len() && #[trigger] found@[c].demand() == cs@[j].demand() by {
                if j < i {
                    let c = choose|c: int| 0 <= c < before.len() && #[trigger] before[c].demand() == cs@[j].demand();
                    assert(found@[c] == before[c]);
                } else {
                    assert(found@[found@.len() - 1].demand() == cs@[j].demand());
                }
            }
        }
        i += 1;
    }
    found
}

pub proof fn lemma_meets_from_within(cells: Seq<Pos>, a: Seq<bool>, cs: Seq<Constraint>, gcons: Seq<Constraint>)
    requires
        meets_within(cells, a, cs),
        forall|c: int| 0 <= c < gcons.len() ==> #[trigger] drawn_within(gcons[c], cs, cells),
    ensures
        meets(cells, a, gcons),
{
    assert forall|c: int| 0 <= c < gcons.len() implies holds(marked(cells, a), #[trigger] gcons[c].demand()) by {
        assert(drawn_within(gcons[c], cs, cells));
        let i = choose|i: int| 0 <= i < cs.len() && #[trigger] cs[i].demand() == gcons[c].demand();
    }
}

/// The smaller of `a / b` and `c / d`, positive denominators.
fn frac_min(a: u128, b: u128, c: u128, d: u128) -> (r: (u128, u128))
    requires
        b > 0,
        d > 0,
    ensures
        r == (if c * b < a * d { (c, d) } else { (a, b) }),
        r == (a, b) || r == (c, d),
        r.1 > 0,
        r.0 == 0 ==> a == 0 || c == 0,
{
    if frac_lt(c, d, a, b) {
        (c, d)
    } else {
        (a, b)
    }
}

/// The share of mines that constraint `c` asks of its squares: none when it asks for none or fewer,
/// all when it asks for as many as it has squares or more.
pub open spec fn share(c: Constraint) -> (u128, u128) {
    if c.need <= 0 {
        (0, 1)
    } else if c.need >= c.unknowns@.len() {
        (1, 1)
    } else {
        (c.need as u128, c.unknowns@.len() as u128)
    }
}

/// One half, lowered in turn to the share of each of the first `n` constraints around `cell` that is smaller.
pub open spec fn local_share(gcons: Seq<Constraint>, cell: Pos, n: int) -> (u128, u128)
    decreases n,
{
    if n <= 0 {
        (1, 2)
    } else {
        let prev = local_share(gcons, cell, n - 1);
        if gcons[n - 1].unknowns@.contains(cell) {
            let cand = share(gcons[n - 1]);
            if cand.0 * prev.1 < prev.0 * cand.1 { cand } else { prev }
        } else {
            prev
        }
    }
}

/// The local share never exceeds one half, over a positive denominator.
proof fn lemma_local_share_half(gcons: Seq<Constraint>, cell: Pos, n: int)
    ensures
        local_share(gcons, cell, n).1 > 0,
        2 * local_share(gcons, cell, n).0 <= local_share(gcons, cell, n).1,
    decreases n,
{
    if n > 0 {
        lemma_local_share_half(gcons, cell, n - 1);
        let prev = local_share(gcons, cell, n - 1);
        if gcons[n - 1].unknowns@.contains(cell) {
            let cand = share(gcons[n - 1]);
            assert(gcons[n - 1].unknowns.len() == gcons[n - 1].unknowns@.len());
            assert(cand.1 > 0);
            if cand.0 * prev.1 < prev.0 * cand.1 {
                let (a, b, c, d) = (cand.0 as int, cand.1 as int, prev.0 as int, prev.1 as int);
                assert(2 * a <= b) by (nonlinear_arith)
                    requires a * d < c * b, 2 * c <= d, b > 0, d > 0, a >= 0, c >= 0;
            }
        }
    }
}

/// The local estimate for a square of a group too large to enumerate: one half, lowered to the
/// share of mines of any constraint around it that asks for fewer.
fn local_estimate(cell: Pos, gcons: &Vec<Constraint>, Ghost(cs): Ghost<Seq<Constraint>>) -> (e: Estimate)
    requires
        forall|c: int| 0 <= c < gcons@.len() ==> #[trigger] drawn_from(gcons@[c], cs),
    ensures
        e.cell == cell,
        (e.mine, e.total) == local_share(gcons@, cell, gcons@.len() as int),
        e.certain_safe == (e.mine == 0),
        e.total > 0,
        2 * e.mine <= e.total,
        !e.certain_mine,
        e.certain_safe ==> asks_none(cs, cell),
{
    let mut best: (u128, u128) = (1, 2);
    let mut c: usize = 0;
    while c < gcons.len()
        invariant
            forall|c: int| 0 <= c < gcons@.len() ==> #[trigger] drawn_from(gcons@[c], cs),
            0 <= c <= gcons@.len(),
            best.1 > 0,
            best.0 == 0 ==> asks_none(cs, cell),
            best == local_share(gcons@, cell, c as int),
        decreases gcons@.len() - c,
    {
        proof {
            assert(drawn_from(gcons@[c as int], cs));
        }
        if contains_pos(&gcons[c].unknowns, cell) {
            let need = gcons[c].need;
            let len = gcons[c].unknowns.len() as u128;
            let cand: (u128, u128) = if need <= 0 {
                (0, 1)
            } else if need as u128 >= len {
                (1, 1)
            } else {
                (need as u128, len)
            };
            proof {
                assert(drawn_from(gcons@[c as int], cs));
                if need <= 0 {
                    let i = choose|i: int| 0 <= i < cs.len() && #[trigger] cs[i].demand() == gcons@[c as int].demand();
                    assert(cs[i].demand().0.contains(cell));
                }
            }
            proof {
                assert(cand == share(gcons@[c as int]));
            }
            best = frac_min(best.0, best.1, cand.0, cand.1);
        }
        c += 1;
    }
    proof {
        lemma_local_share_half(gcons@, cell, gcons@.len() as int);
    }
    Estimate { cell, mine: best.0, total: best.1, certain_safe: best.0 == 0, certain_mine: false }
}

/// No two estimates are about the same square.
pub open spec fn distinct_cells(out: Seq<Estimate>) -> bool {
    forall|a: int, b: int| 0 <= a < b < out.len() ==> (#[trigger] out[a]).cell != (#[trigger] out[b]).cell
}

/// A group's layouts are counted in `k`: every marking that meets the constraints inside the group.
pub open spec fn covers(cells: Seq<Pos>, k: GroupCounts, cs: Seq<Constraint>) -> bool {
    &&& cells.no_duplicates()
    &&& cells.len() <= 24
    &&& k.shaped(cells.len())
    &&& forall|a: Seq<bool>| a.len() == cells.len() && #[trigger] meets_within(cells, a, cs) ==> k.counted(a)
}

/// An estimate from the local rule: on a square of the region, never certain of a mine, and
/// certain of no mine only where a constraint around the square asks for none.
pub open spec fn local_ok(e: Estimate, region: Set<Pos>, cs: Seq<Constraint>) -> bool {
    &&& region.contains(e.cell)
    &&& e.coherent()
    &&& !e.certain_mine
    &&& e.certain_safe ==> asks_none(cs, e.cell)
}

fn new_counts(g: usize) -> (k: GroupCounts)
    requires
        g <= 24,
    ensures
        k.shaped(g as nat),
        forall|cells: Seq<Pos>, cons: Seq<Constraint>| #[trigger] k.backed(cells, cons),
        forall|t: int| 0 <= t <= g ==> #[trigger] k.dist@[t] == 0,
        forall|i: int, t: int| 0 <= i < g && 0 <= t <= g ==> #[trigger] k.mine_at@[i]@[t] == 0,
        forall|i: int, t: int| 0 <= i < g && 0 <= t <= g ==> #[trigger] k.safe_at@[i]@[t] == 0,
{
    let mut dist: Vec<u128> = Vec::new();
    let mut t: usize = 0;
    while t <= g
        invariant
            g <= 24,
            t <= g + 1,
            dist@.len() == t,
            forall|s: int| 0 <= s < t ==> #[trigger] dist@[s] == 0,
        decreases g + 1 - t,
    {
        dist.push(0);
        t += 1;
    }
    let mut mine_at: Vec<Vec<u128>> = Vec::new();
    let mut safe_at: Vec<Vec<u128>> = Vec::new();
    let mut i: usize = 0;
    while i < g
        invariant
            g <= 24,
            i <= g,
            dist@.len() == g + 1,
            mine_at@.len() == i,
            safe_at@.len() == i,
            forall|j: int| 0 <= j < i ==> (#[trigger] mine_at@[j])@.len() == g + 1,
            forall|j: int| 0 <= j < i ==> (#[trigger] safe_at@[j])@.len() == g + 1,
            forall|s: int| 0 <= s <= g ==> #[trigger] dist@[s] == 0,
            forall|j: int, s: int| 0 <= j < i && 0 <= s <= g ==> #[trigger] mine_at@[j]@[s] == 0,
            forall|j: int, s: int| 0 <= j < i && 0 <= s <= g ==> #[trigger] safe_at@[j]@[s] == 0,
        decreases g - i,
    {
        let mut row: Vec<u128> = Vec::new();
        let mut row2: Vec<u128> = Vec::new();
        let mut t: usize = 0;
        while t <= g
            invariant
                g <= 24,
                t <= g + 1,
                row@.len() == t,
                row2@.len() == t,
                forall|s: int| 0 <= s < t ==> #[trigger] row@[s] == 0,
                forall|s: int| 0 <= s < t ==> #[trigger] row2@[s] == 0,
            decreases g + 1 - t,
        {
            row.push(0);
            row2.push(0);
            t += 1;
        }
        mine_at.push(row);
        safe_at.push(row2);
        i += 1;
    }
    GroupCounts { dist, mine_at, safe_at }
}

/// Enumerates each group of at most 24 squares; a larger group gets local estimates in `out`.
fn count_groups(groups: &Vec<Vec<Pos>>, cs: &Vec<Constraint>, out: &mut Vec<Estimate>) -> (r: (Vec<Vec<Pos>>, Vec<GroupCounts>))
    requires
        partitions(groups@, cs@),
        forall|i: int| 0 <= i < cs@.len() ==> (#[trigger] cs@[i]).wf(),
    ensures
        r.0@.len() == r.1@.len(),
        forall|j: int| 0 <= j < r.0@.len() ==> covers((#[trigger] r.0@[j])@, r.1@[j], cs@),
        forall|j: int| 0 <= j < r.0@.len() ==> (#[trigger] r.1@[j]).backed(r.0@[j]@, cs@),
        forall|j: int| 0 <= j < r.0@.len() ==> (#[trigger] r.1@[j]).exact(r.0@[j]@, cs@),
        forall|j: int| 0 <= j < r.0@.len() ==> exists|k: int| 0 <= k < groups@.len() && (#[trigger] r.0@[j])@ == (#[trigger] groups@[k])@,
        (forall|k: int| 0 <= k < groups@.len() ==> (#[trigger] groups@[k])@.len() <= 24) ==>
            r.0@.len() == groups@.len() && (forall|j: int| 0 <= j < r.0@.len() ==> (#[trigger] r.0@[j])@ == groups@[j]@)
            && final(out)@ == old(out)@,
        final(out)@.len() >= old(out)@.len(),
        final(out)@.take(old(out)@.len() as int) == old(out)@,
        forall|e: int| old(out)@.len() <= e < final(out)@.len() ==>
            local_ok(#[trigger] final(out)@[e], union_of(group_sets(groups@)), cs@),
        old(out)@.len() == 0 ==> distinct_cells(final(out)@),
        forall|e: int, j: int| old(out)@.len() <= e < final(out)@.len() && 0 <= j < r.0@.len() ==>
            !(#[trigger] r.0@[j])@.contains((#[trigger] final(out)@[e]).cell),
        forall|j1: int, j2: int| 0 <= j1 < j2 < r.0@.len() ==>
            (#[trigger] r.0@[j1])@.to_set().disjoint((#[trigger] r.0@[j2])@.to_set()),
{
    let ghost out0 = out@;
    let mut small: Vec<Vec<Pos>> = Vec::new();
    let mut counts: Vec<GroupCounts> = Vec::new();
    let ghost mut all_small = true;
    let mut k: usize = 0;
    proof {
        lemma_union_of(group_sets(groups@));
        assert(out@.take(out0.len() as int) =~= out0);
    }
    while k < groups.len()
        invariant
            partitions(groups@, cs@),
            forall|i: int| 0 <= i < cs@.len() ==> (#[trigger] cs@[i]).wf(),
            forall|p: Pos| #[trigger] union_of(group_sets(groups@)).contains(p) <==>
                exists|k: int| 0 <= k < group_sets(groups@).len() && (#[trigger] group_sets(groups@)[k]).contains(p),
            0 <= k <= groups@.len(),
            small@.len() == counts@.len(),
            forall|j: int| 0 <= j < small@.len() ==> covers((#[trigger] small@[j])@, counts@[j], cs@),
            forall|j: int| 0 <= j < small@.len() ==> (#[trigger] counts@[j]).backed(small@[j]@, cs@),
            forall|j: int| 0 <= j < small@.len() ==> (#[trigger] counts@[j]).exact(small@[j]@, cs@),
            forall|j: int| 0 <= j < small@.len() ==> exists|kk: int| 0 <= kk < k && (#[trigger] small@[j])@ == (#[trigger] groups@[kk])@,
            forall|j1: int, j2: int| 0 <= j1 < j2 < small@.len() ==>
                (#[trigger] small@[j1])@.to_set().disjoint((#[trigger] small@[j2])@.to_set()),
            forall|e: int| out0.len() <= e < out@.len() ==> exists|kk: int| 0 <= kk < k
                && (#[trigger] groups@[kk])@.len() > 24 && groups@[kk]@.contains((#[trigger] out@[e]).cell),
            out0.len() == 0 ==> distinct_cells(out@),
            all_small == (forall|kk: int| 0 <= kk < k ==> (#[trigger] groups@[kk])@.len() <= 24),
            all_small ==> small@.len() == k && (forall|j: int| 0 <= j < small@.len() ==> (#[trigger] small@[j])@ == groups@[j]@)
                && out@ == out0,
            out@.len() >= out0.len(),
            out@.take(out0.len() as int) == out0,
            forall|e: int| out0.len() <= e < out@.len() ==> local_ok(#[trigger] out@[e], union_of(group_sets(groups@)), cs@),
        decreases groups@.len() - k,
    {
        let cells = &groups[k];
        let gcons = constraints_within(cells, cs);
        let ghost out_before = out@;
        let ghost small_before = small@;
        if cells.len() > 24 {
            proof {
                assert forall|c: int| 0 <= c < gcons@.len() implies #[trigger] drawn_from(gcons@[c], cs@) by {
                    assert(drawn_within(gcons@[c], cs@, cells@));
                }
            }
            let mut i: usize = 0;
            while i < cells.len()
                invariant
                    0 <= k < groups@.len(),
                    cells == &groups@[k as int],
                    forall|c: int| 0 <= c < gcons@.len() ==> #[trigger] drawn_from(gcons@[c], cs@),
                    forall|p: Pos| #[trigger] union_of(group_sets(groups@)).contains(p) <==>
                        exists|k: int| 0 <= k < group_sets(groups@).len() && (#[trigger] group_sets(groups@)[k]).contains(p),
                    0 <= i <= cells@.len(),
                    out@.len() >= out_before.len(),
                    out@.take(out_before.len() as int) == out_before,
                    forall|e: int| out0.len() <= e < out_before.len() ==> local_ok(#[trigger] out_before[e], union_of(group_sets(groups@)), cs@),
                    forall|e: int| out_before.len() <= e < out@.len() ==> local_ok(#[trigger] out@[e], union_of(group_sets(groups@)), cs@),
                    out@.len() == out_before.len() + i,
                    forall|e: int| out_before.len() <= e < out@.len() ==> (#[trigger] out@[e]).cell == cells@[e - out_before.len()],
                    forall|e: int| out0.len() <= e < out_before.len() ==> exists|kk: int| 0 <= kk < k
                        && (#[trigger] groups@[kk])@.len() > 24 && groups@[kk]@.contains((#[trigger] out_before[e]).cell),
                    out0.len() == 0 ==> distinct_cells(out@),
                    partitions(groups@, cs@),
                    cells@.len() > 24,
                decreases cells@.len() - i,
            {
                let ghost csv = cs@;
                let e = local_estimate(cells[i], &gcons, Ghost(csv));
                proof {
                    assert(group_sets(groups@)[k as int].contains(cells@[i as int]));
                }
                let ghost ob = out@;
                proof {
                    if out0.len() == 0 {
                        assert forall|a: int| 0 <= a < ob.len() implies ob[a].cell != cells@[i as int] by {
                            if a < out_before.len() {
                                assert(out_before[a] == ob.take(out_before.len() as int)[a]);
                                let kk = choose|kk: int| 0 <= kk < k && (#[trigger] groups@[kk])@.len() > 24
                                    && groups@[kk]@.contains(out_before[a].cell);
                                assert(groups@[kk]@.to_set().disjoint(groups@[k as int]@.to_set()));
                                assert(groups@[kk]@.to_set().contains(out_before[a].cell));
                                assert(groups@[k as int]@.to_set().contains(cells@[i as int]));
                            } else {
                                assert(ob[a].cell == cells@[a - out_before.len()]);
                            }
                        }
                    }
                }
                out.push(e);
                proof {
                    assert(out@.take(out_before.len() as int) =~= ob.take(out_before.len() as int));
                }
                i += 1;
            }
            proof {
                all_small = false;
                assert(out@.take(out0.len() as int) =~= out_before.take(out0.len() as int));
                assert forall|e: int| out0.len() <= e < out@.len() implies local_ok(#[trigger] out@[e], union_of(group_sets(groups@)), cs@) by {
                    if e < out_before.len() {
                        assert(out@.take(out_before.len() as int)[e] == out_before[e]);
                    }
                }
                assert forall|e: int| out0.len() <= e < out@.len() implies exists|kk: int| 0 <= kk < k + 1
                    && (#[trigger] groups@[kk])@.len() > 24 && groups@[kk]@.contains((#[trigger] out@[e]).cell) by {
                    if e < out_before.len() {
                        assert(out@.take(out_before.len() as int)[e] == out_before[e]);
                        let kk = choose|kk: int| 0 <= kk < k && (#[trigger] groups@[kk])@.len() > 24
                            && groups@[kk]@.contains(out_before[e].cell);
                        assert(groups@[kk]@.contains(out@[e].cell));
                    } else {
                        assert(groups@[k as int]@.contains(cells@[e - out_before.len()]));
                    }
                }
            }
        } else {
            let mut kc = new_counts(cells.len());
            let mut prefix: Vec<bool> = Vec::new();
            proof {
                assert forall|c: int| 0 <= c < gcons@.len() implies (#[trigger] gcons@[c]).wf()
                    && gcons@[c].demand().0.subset_of(cells@.to_set()) by {
                    assert(drawn_within(gcons@[c], cs@, cells@));
                }
            }
            let ghost k0 = kc;
            enumerate(cells, &gcons, &mut prefix, &mut kc);
            proof {
                lemma_backed_within(&kc, cells@, gcons@, cs@);
                assert forall|c: int| 0 <= c < gcons@.len() implies #[trigger] drawn_within(gcons@[c], cs@, cells@) by {}
                lemma_fits_within(cells@, gcons@, cs@);
                assert(prefix@.len() == 0 ==> prefix@ =~= Seq::<bool>::empty());
                assert forall|t: int| #[trigger] fits(cells@, cs@, t).finite() by {
                    assert(extending(cells@, gcons@, Seq::<bool>::empty(), t) == fits(cells@, cs@, t));
                    assert(extending(cells@, gcons@, Seq::<bool>::empty(), t).finite());
                }
                assert forall|t: int, i: int, v: bool| #[trigger] fits_at(cells@, cs@, t, cells@[i], v).finite() by {
                    assert(extending_at(cells@, gcons@, Seq::<bool>::empty(), t, i, v) == fits_at(cells@, cs@, t, cells@[i], v));
                    assert(extending_at(cells@, gcons@, Seq::<bool>::empty(), t, i, v).finite());
                }
                assert(kc.exact(cells@, cs@)) by {
                    assert forall|t: int| 0 <= t <= cells@.len() implies fits(cells@, cs@, t).finite()
                        && #[trigger] kc.dist@[t] == capped(fits(cells@, cs@, t).len() as int) by {
                        assert(k0.dist@[t] == 0);
                        assert(extending(cells@, gcons@, Seq::<bool>::empty(), t) == fits(cells@, cs@, t));
                    }
                    assert forall|i: int, t: int| 0 <= i < cells@.len() && 0 <= t <= cells@.len() implies
                        fits_at(cells@, cs@, t, cells@[i], true).finite()
                        && #[trigger] kc.mine_at@[i]@[t] == capped(fits_at(cells@, cs@, t, cells@[i], true).len() as int) by {
                        assert(k0.mine_at@[i]@[t] == 0);
                        assert(extending_at(cells@, gcons@, Seq::<bool>::empty(), t, i, true) == fits_at(cells@, cs@, t, cells@[i], true));
                    }
                    assert forall|i: int, t: int| 0 <= i < cells@.len() && 0 <= t <= cells@.len() implies
                        fits_at(cells@, cs@, t, cells@[i], false).finite()
                        && #[trigger] kc.safe_at@[i]@[t] == capped(fits_at(cells@, cs@, t, cells@[i], false).len() as int) by {
                        assert(k0.safe_at@[i]@[t] == 0);
                        assert(extending_at(cells@, gcons@, Seq::<bool>::empty(), t, i, false) == fits_at(cells@, cs@, t, cells@[i], false));
                    }
                }
                assert(prefix@.take(0) =~= prefix@);
                assert forall|a: Seq<bool>| a.len() == cells@.len() && #[trigger] meets_within(cells@, a, cs@) implies kc.counted(a) by {
                    lemma_meets_from_within(cells@, a, cs@, gcons@);
                    assert(a.take(0) =~= Seq::<bool>::empty());
                    assert(meets(cells@, a, gcons@));
                }
            }
            small.push(copy_positions(cells));
            counts.push(kc);
            proof {
                assert(small@[small@.len() - 1]@ == groups@[k as int]@);
                assert forall|j: int| 0 <= j < small_before.len() implies small@[j] == small_before[j] by {}
                assert forall|j1: int, j2: int| 0 <= j1 < j2 < small@.len() implies
                    (#[trigger] small@[j1])@.to_set().disjoint((#[trigger] small@[j2])@.to_set()) by {
                    if j2 == small@.len() - 1 {
                        let kk = choose|kk: int| 0 <= kk < k && (#[trigger] small_before[j1])@ == (#[trigger] groups@[kk])@;
                        assert(groups@[kk]@.to_set().disjoint(groups@[k as int]@.to_set()));
                    }
                }
                assert forall|j: int| 0 <= j < small@.len() implies exists|kk: int| 0 <= kk < k + 1 && (#[trigger] small@[j])@ == (#[trigger] groups@[kk])@ by {
                    if j < small_before.len() {
                        let kk = choose|kk: int| 0 <= kk < k && (#[trigger] small_before[j])@ == (#[trigger] groups@[kk])@;
                        assert(small@[j]@ == groups@[kk]@);
                    } else {
                        assert(small@[j]@ == groups@[k as int]@);
                    }
                }
            }
        }
        k += 1;
    }
    proof {
        assert forall|e: int, j: int| out0.len() <= e < out@.len() && 0 <= j < small@.len() implies
            !(#[trigger] small@[j])@.contains((#[trigger] out@[e]).cell) by {
            let kk = choose|kk: int| 0 <= kk < k && (#[trigger] groups@[kk])@.len() > 24 && groups@[kk]@.contains(out@[e].cell);
            let kj = choose|kj: int| 0 <= kj < k && (#[trigger] small@[j])@ == (#[trigger] groups@[kj])@;
            assert(covers(small@[j]@, counts@[j], cs@));
            assert(groups@[kk]@.to_set().disjoint(groups@[kj]@.to_set()));
            assert(groups@[kk]@.to_set().contains(out@[e].cell));
        }
    }
    (small, counts)
}

/// The sum of `ks[0..t]`, leaving out `ks[skip]`.
pub open spec fn sum_except(ks: Seq<int>, skip: int, t: int) -> int
    decreases t,
{
    if t <= 0 {
        0
    } else {
        sum_except(ks, skip, t - 1) + if t - 1 == skip { 0 } else { ks[t - 1] }
    }
}

/// For each group before `upto` other than `skip`, `ks` picks a mine count its layouts reach.
pub open spec fn supported(ks: Seq<int>, counts: Seq<GroupCounts>, upto: int, skip: int) -> bool {
    forall|j: int| 0 <= j < upto && j != skip ==> 0 <= #[trigger] ks[j] < counts[j].dist@.len() && counts[j].dist@[ks[j]] > 0
}

pub proof fn lemma_sum_except_nonneg(ks: Seq<int>, skip: int, t: int, counts: Seq<GroupCounts>)
    requires
        supported(ks, counts, t, skip),
    ensures
        sum_except(ks, skip, t) >= 0,
    decreases t,
{
    if t > 0 {
        lemma_sum_except_nonneg(ks, skip, t - 1, counts);
    }
}

/// The squares of the groups `cellss[..n]` but group `skip`.
pub open spec fn union_except(cellss: Seq<Seq<Pos>>, skip: int, n: int) -> Set<Pos>
    decreases n,
{
    if n <= 0 {
        Set::empty()
    } else if n - 1 == skip {
        union_except(cellss, skip, n - 1)
    } else {
        union_except(cellss, skip, n - 1).union(cellss[n - 1].to_set())
    }
}

/// `s` could be where the mines of the groups `cellss[..n]` but group `skip` lie: each group's
/// part of it fits that group.
pub open spec fn spread(cellss: Seq<Seq<Pos>>, cs: Seq<Constraint>, skip: int, n: int, s: Set<Pos>) -> bool {
    &&& s.finite()
    &&& s.subset_of(union_except(cellss, skip, n))
    &&& forall|j: int| 0 <= j < n && j != skip ==> group_fit(cellss[j], cs, #[trigger] s.intersect(cellss[j].to_set()))
}

/// The groups before `n` but `skip` share no square with a group from `n` on.
pub proof fn lemma_union_except_apart(cellss: Seq<Seq<Pos>>, skip: int, n: int, m: int)
    requires
        n <= m < cellss.len(),
        forall|a: int, b: int| 0 <= a < b < cellss.len() ==> (#[trigger] cellss[a]).to_set().disjoint((#[trigger] cellss[b]).to_set()),
    ensures
        union_except(cellss, skip, n).disjoint(cellss[m].to_set()),
        union_except(cellss, skip, n).finite(),
    decreases n,
{
    if n > 0 {
        lemma_union_except_apart(cellss, skip, n - 1, m);
        vstd::seq_lib::seq_to_set_is_finite(cellss[n - 1]);
        if n - 1 != skip {
            assert(cellss[n - 1].to_set().disjoint(cellss[m].to_set()));
        }
    }
}

/// A positive entry of a convolution comes from a positive entry of each side.
pub proof fn lemma_conv_pos(acc: Seq<u128>, dist: Seq<u128>, t: int, a: int)
    requires
        conv_upto(acc, dist, t, a) > 0,
        a <= acc.len(),
    ensures
        exists|x: int| 0 <= x < a && 0 <= t - x < dist.len() && #[trigger] acc[x] > 0 && dist[t - x] > 0,
    decreases a,
{
    if a > 0 {
        if conv_upto(acc, dist, t, a - 1) > 0 {
            lemma_conv_pos(acc, dist, t, a - 1);
            let x = choose|x: int| 0 <= x < a - 1 && 0 <= t - x < dist.len() && #[trigger] acc[x] > 0 && dist[t - x] > 0;
            assert(acc[x] > 0);
        } else {
            let x = a - 1;
            assert(0 <= t - x < dist.len());
            assert(acc[x] > 0 && dist[t - x] > 0) by {
                if acc[x] == 0 || dist[t - x] == 0 {
                    assert(acc[x] * dist[t - x] == 0) by (nonlinear_arith)
                        requires acc[x] == 0 || dist[t - x] == 0;
                }
            }
        }
    }
}

/// The unions of a set of `a` with a set of `b`.
pub open spec fn joins(a: Set<Set<Pos>>, b: Set<Set<Pos>>) -> Set<Set<Pos>> {
    Set::new(|s: Set<Pos>| exists|x: Set<Pos>, y: Set<Pos>| #[trigger] a.contains(x) && #[trigger] b.contains(y) && s == x.union(y))
}

/// Joining each of `a` with each of `b`, where the sets of `a` and those of `b` lie in regions
/// apart, gives `|a| * |b|` distinct sets.
pub proof fn lemma_joins_len(a: Set<Set<Pos>>, b: Set<Set<Pos>>, ua: Set<Pos>, ub: Set<Pos>)
    requires
        a.finite(),
        b.finite(),
        ua.disjoint(ub),
        forall|x: Set<Pos>| #[trigger] a.contains(x) ==> x.subset_of(ua),
        forall|y: Set<Pos>| #[trigger] b.contains(y) ==> y.subset_of(ub),
    ensures
        joins(a, b).finite(),
        joins(a, b).len() == a.len() * b.len(),
    decreases a.len(),
{
    if a.len() == 0 {
        vstd::set_lib::lemma_set_empty_equivalency_len(a);
        assert(joins(a, b) =~= Set::<Set<Pos>>::empty());
    } else {
        let x0 = a.choose();
        let rest = a.remove(x0);
        lemma_joins_len(rest, b, ua, ub);
        let put = |y: Set<Pos>| x0.union(y);
        let row = b.map(put);
        assert(vstd::relations::injective_on(put, b)) by {
            assert forall|y1: Set<Pos>, y2: Set<Pos>| b.contains(y1) && b.contains(y2) && #[trigger] put(y1) == #[trigger] put(y2)
                implies y1 == y2 by {
                assert(put(y1).intersect(ub) =~= y1);
                assert(put(y2).intersect(ub) =~= y2);
            }
        }
        vstd::set_lib::lemma_map_size(b, row, put);
        assert(joins(a, b) =~= joins(rest, b).union(row)) by {
            assert forall|s: Set<Pos>| joins(a, b).contains(s) implies joins(rest, b).union(row).contains(s) by {
                let (x, y) = choose|x: Set<Pos>, y: Set<Pos>| #[trigger] a.contains(x) && #[trigger] b.contains(y) && s == x.union(y);
                if x == x0 {
                    assert(row.contains(put(y)));
                } else {
                    assert(rest.contains(x));
                }
            }
            assert forall|s: Set<Pos>| joins(rest, b).union(row).contains(s) implies joins(a, b).contains(s) by {
                if row.contains(s) {
                    let y = choose|y: Set<Pos>| b.contains(y) && put(y) == s;
                    assert(a.contains(x0));
                }
            }
        }
        assert(joins(rest, b).disjoint(row)) by {
            assert forall|s: Set<Pos>| joins(rest, b).contains(s) implies !row.contains(s) by {
                let (x, y) = choose|x: Set<Pos>, y: Set<Pos>| #[trigger] rest.contains(x) && #[trigger] b.contains(y) && s == x.union(y);
                if row.contains(s) {
                    let y0 = choose|y0: Set<Pos>| b.contains(y0) && put(y0) == s;
                    assert(s.intersect(ua) =~= x);
                    assert(s.intersect(ua) =~= x0);
                }
            }
        }
        vstd::set_lib::lemma_set_disjoint_lens(joins(rest, b), row);
        assert(a.len() * b.len() == rest.len() * b.len() + b.len()) by (nonlinear_arith)
            requires rest.len() + 1 == a.len();
    }
}

/// The squares of each group before `n` but `skip` are among those of `union_except`.
pub proof fn lemma_union_except_has(cellss: Seq<Seq<Pos>>, skip: int, n: int, k: int)
    requires
        0 <= k < n,
        k != skip,
    ensures
        cellss[k].to_set().subset_of(union_except(cellss, skip, n)),
    decreases n,
{
    if k < n - 1 {
        lemma_union_except_has(cellss, skip, n - 1, k);
    }
}

/// The layouts of the groups `cellss[..n]` but group `skip` that have `t` mines.
pub open spec fn spreads(cellss: Seq<Seq<Pos>>, cs: Seq<Constraint>, skip: int, n: int, t: int) -> Set<Set<Pos>> {
    Set::new(|s: Set<Pos>| spread(cellss, cs, skip, n, s) && s.len() == t)
}

/// The layouts of `spreads(.., j + 1, t)` with fewer than `a` of their mines on the groups before `j`.
pub open spec fn spreads_below(cellss: Seq<Seq<Pos>>, cs: Seq<Constraint>, skip: int, j: int, t: int, a: int) -> Set<Set<Pos>> {
    Set::new(|s: Set<Pos>| spread(cellss, cs, skip, j + 1, s) && s.len() == t
        && s.intersect(union_except(cellss, skip, j)).len() < a)
}

/// Each layout of the groups before `j` with `x` mines, joined with each fitting layout of group
/// `j` with the other `t - x`.
pub open spec fn spreads_at(cellss: Seq<Seq<Pos>>, cs: Seq<Constraint>, skip: int, j: int, t: int, x: int) -> Set<Set<Pos>> {
    if 0 <= t - x <= cellss[j].len() {
        joins(spreads(cellss, cs, skip, j, x), fits(cellss[j], cs, t - x))
    } else {
        Set::empty()
    }
}

/// For each `x < a`: the layouts of the groups before `j` with `x` mines times the fitting layouts
/// of group `j` with `t - x`, added up.
pub open spec fn spread_sum(cellss: Seq<Seq<Pos>>, cs: Seq<Constraint>, skip: int, j: int, t: int, a: int) -> int
    decreases a,
{
    if a <= 0 {
        0
    } else {
        spread_sum(cellss, cs, skip, j, t, a - 1) + if 0 <= t - (a - 1) <= cellss[j].len() {
            spreads(cellss, cs, skip, j, a - 1).len() * fits(cellss[j], cs, t - (a - 1)).len()
        } else {
            0
        }
    }
}

/// A layout of the groups up to `j` has `x` mines before `j` just when it joins a layout of those
/// groups with `x` mines and one of group `j` with the rest.
pub proof fn lemma_spreads_below_step(cellss: Seq<Seq<Pos>>, cs: Seq<Constraint>, skip: int, j: int, t: int, x: int)
    requires
        0 <= j < cellss.len(),
        j != skip,
        0 <= x,
        forall|a: int, b: int| 0 <= a < b < cellss.len() ==> (#[trigger] cellss[a]).to_set().disjoint((#[trigger] cellss[b]).to_set()),
        cellss[j].no_duplicates(),
    ensures
        spreads_below(cellss, cs, skip, j, t, x + 1)
            == spreads_below(cellss, cs, skip, j, t, x).union(spreads_at(cellss, cs, skip, j, t, x)),
        spreads_below(cellss, cs, skip, j, t, x).disjoint(spreads_at(cellss, cs, skip, j, t, x)),
{
    let u = union_except(cellss, skip, j);
    let cj = cellss[j].to_set();
    lemma_union_except_apart(cellss, skip, j, j);
    lemma_card(cellss[j]);
    assert(union_except(cellss, skip, j + 1) == u.union(cj));
    let lo = spreads_below(cellss, cs, skip, j, t, x);
    let hi = spreads_below(cellss, cs, skip, j, t, x + 1);
    let at = spreads_at(cellss, cs, skip, j, t, x);
    let before = spreads(cellss, cs, skip, j, x);
    assert forall|s: Set<Pos>| hi.contains(s) implies lo.union(at).contains(s) by {
        if !lo.contains(s) {
            let p = s.intersect(u);
            let q = s.intersect(cj);
            assert(s =~= p.union(q));
            vstd::set_lib::lemma_set_disjoint_lens(p, q);
            vstd::set_lib::lemma_len_subset(q, cj);
            assert forall|k: int| 0 <= k < j && k != skip implies group_fit(cellss[k], cs, #[trigger] p.intersect(cellss[k].to_set())) by {
                lemma_union_except_has(cellss, skip, j, k);
                assert(p.intersect(cellss[k].to_set()) =~= s.intersect(cellss[k].to_set()));
                assert(group_fit(cellss[k], cs, s.intersect(cellss[k].to_set())));
            }
            assert(spread(cellss, cs, skip, j, p));
            assert(before.contains(p));
            assert(group_fit(cellss[j], cs, s.intersect(cellss[j].to_set())));
            assert(fits(cellss[j], cs, t - x).contains(q));
            assert(joins(before, fits(cellss[j], cs, t - x)).contains(s));
        }
    }
    assert forall|s: Set<Pos>| at.contains(s) implies hi.contains(s) && s.intersect(u).len() == x by {
        let f = fits(cellss[j], cs, t - x);
        let (p, q) = choose|p: Set<Pos>, q: Set<Pos>| #[trigger] before.contains(p) && #[trigger] f.contains(q) && s == p.union(q);
        assert(p.disjoint(q));
        vstd::set_lib::lemma_set_disjoint_lens(p, q);
        assert(s.intersect(u) =~= p);
        assert forall|k: int| 0 <= k < j + 1 && k != skip implies group_fit(cellss[k], cs, #[trigger] s.intersect(cellss[k].to_set())) by {
            if k == j {
                assert(s.intersect(cj) =~= q);
            } else {
                assert(cellss[k].to_set().disjoint(cj));
                assert(s.intersect(cellss[k].to_set()) =~= p.intersect(cellss[k].to_set()));
            }
        }
        assert(spread(cellss, cs, skip, j + 1, s));
    }
    assert(hi =~= lo.union(at));
}

/// The layouts of `spreads_below(.., a)` number `spread_sum(.., a)`.
pub proof fn lemma_spreads_below_len(cellss: Seq<Seq<Pos>>, cs: Seq<Constraint>, skip: int, j: int, t: int, a: int)
    requires
        0 <= j < cellss.len(),
        j != skip,
        0 <= a,
        forall|a: int, b: int| 0 <= a < b < cellss.len() ==> (#[trigger] cellss[a]).to_set().disjoint((#[trigger] cellss[b]).to_set()),
        cellss[j].no_duplicates(),
        forall|x: int| 0 <= x < a ==> #[trigger] spreads(cellss, cs, skip, j, x).finite(),
        forall|y: int| 0 <= y <= cellss[j].len() ==> #[trigger] fits(cellss[j], cs, y).finite(),
    ensures
        spreads_below(cellss, cs, skip, j, t, a).finite(),
        spreads_below(cellss, cs, skip, j, t, a).len() == spread_sum(cellss, cs, skip, j, t, a),
    decreases a,
{
    if a == 0 {
        assert(spreads_below(cellss, cs, skip, j, t, a) =~= Set::<Set<Pos>>::empty());
    } else {
        let x = a - 1;
        lemma_spreads_below_len(cellss, cs, skip, j, t, x);
        lemma_spreads_below_step(cellss, cs, skip, j, t, x);
        let at = spreads_at(cellss, cs, skip, j, t, x);
        if 0 <= t - x <= cellss[j].len() {
            lemma_union_except_apart(cellss, skip, j, j);
            lemma_joins_len(spreads(cellss, cs, skip, j, x), fits(cellss[j], cs, t - x),
                union_except(cellss, skip, j), cellss[j].to_set());
        }
        vstd::set_lib::lemma_set_disjoint_lens(spreads_below(cellss, cs, skip, j, t, x), at);
    }
}

/// Capping a product of capped factors, or a sum with a capped term, gives the capped exact value.
pub proof fn lemma_capped_ops(a: int, b: int)
    requires
        a >= 0,
        b >= 0,
    ensures
        capped(capped(a) * capped(b)) == capped(a * b),
        capped(a + capped(b)) == capped(a + b),
        capped(capped(a) + b) == capped(a + b),
{
    let m = u128::MAX as int;
    let ca = capped(a);
    let cb = capped(b);
    if a == 0 || b == 0 {
        assert(a * b == 0 && ca * cb == 0) by (nonlinear_arith)
            requires (a == 0 && ca == 0) || (b == 0 && cb == 0);
    } else if a > m || b > m {
        assert(a * b > m && ca * cb >= m) by (nonlinear_arith)
            requires a >= 1, b >= 1, ca >= 1, cb >= 1, (a > m && ca == m) || (b > m && cb == m), m > 0;
    }
}

/// The capped convolution of capped layout counts is the capped number of joined layouts.
pub proof fn lemma_conv_exact(before: Seq<u128>, dist: Seq<u128>, cellss: Seq<Seq<Pos>>, cs: Seq<Constraint>,
    skip: int, j: int, t: int, a: int)
    requires
        0 <= a <= before.len(),
        0 <= j < cellss.len(),
        dist.len() == cellss[j].len() + 1,
        forall|x: int| 0 <= x < a ==> #[trigger] before[x] == capped(spreads(cellss, cs, skip, j, x).len() as int),
        forall|y: int| 0 <= y <= cellss[j].len() ==> #[trigger] dist[y] == capped(fits(cellss[j], cs, y).len() as int),
    ensures
        conv_upto(before, dist, t, a) >= 0,
        spread_sum(cellss, cs, skip, j, t, a) >= 0,
        capped(conv_upto(before, dist, t, a)) == capped(spread_sum(cellss, cs, skip, j, t, a)),
    decreases a,
{
    if a > 0 {
        let x = a - 1;
        lemma_conv_exact(before, dist, cellss, cs, skip, j, t, x);
        if 0 <= t - x <= cellss[j].len() {
            let e = spreads(cellss, cs, skip, j, x).len() as int;
            let f = fits(cellss[j], cs, t - x).len() as int;
            assert(before[x] == capped(e));
            assert(dist[t - x] == capped(f));
            lemma_capped_ops(e, f);
            assert(e * f >= 0) by (nonlinear_arith)
                requires e >= 0, f >= 0;
            let c = conv_upto(before, dist, t, x);
            let s = spread_sum(cellss, cs, skip, j, t, x);
            lemma_capped_ops(c, e * f);
            lemma_capped_ops(s, e * f);
        }
    }
}

/// One step of the combination: the capped convolution with group `j`'s counts gives the capped
/// number of layouts of the groups up to `j`.
pub proof fn lemma_spreads_next(cellss: Seq<Seq<Pos>>, cs: Seq<Constraint>, skip: int, j: int, t: int, cap: int,
    before: Seq<u128>, dist: Seq<u128>)
    requires
        0 <= j < cellss.len(),
        j != skip,
        0 <= t <= cap,
        before.len() == cap + 1,
        forall|a: int, b: int| 0 <= a < b < cellss.len() ==> (#[trigger] cellss[a]).to_set().disjoint((#[trigger] cellss[b]).to_set()),
        cellss[j].no_duplicates(),
        dist.len() == cellss[j].len() + 1,
        forall|x: int| #![trigger spreads(cellss, cs, skip, j, x)] 0 <= x <= cap ==> spreads(cellss, cs, skip, j, x).finite()
            && before[x] == capped(spreads(cellss, cs, skip, j, x).len() as int),
        forall|y: int| #![trigger fits(cellss[j], cs, y)] 0 <= y <= cellss[j].len() ==> fits(cellss[j], cs, y).finite()
            && dist[y] == capped(fits(cellss[j], cs, y).len() as int),
    ensures
        spreads(cellss, cs, skip, j + 1, t).finite(),
        capped(conv_upto(before, dist, t, cap + 1)) == capped(spreads(cellss, cs, skip, j + 1, t).len() as int),
{
    assert forall|x: int| 0 <= x < cap + 1 implies #[trigger] spreads(cellss, cs, skip, j, x).finite() by {
        assert(before[x] == capped(spreads(cellss, cs, skip, j, x).len() as int));
    }
    assert forall|y: int| 0 <= y <= cellss[j].len() implies #[trigger] fits(cellss[j], cs, y).finite() by {
        assert(dist[y] == capped(fits(cellss[j], cs, y).len() as int));
    }
    lemma_spreads_below_len(cellss, cs, skip, j, t, cap + 1);
    lemma_conv_exact(before, dist, cellss, cs, skip, j, t, cap + 1);
    let u = union_except(cellss, skip, j);
    assert(spreads_below(cellss, cs, skip, j, t, cap + 1) =~= spreads(cellss, cs, skip, j + 1, t)) by {
        assert forall|s: Set<Pos>| #[trigger] spreads(cellss, cs, skip, j + 1, t).contains(s)
            implies s.intersect(u).len() < cap + 1 by {
            vstd::set_lib::lemma_len_intersect(s, u);
        }
    }
}

/// Passing over the left-out group `skip` leaves the layouts as they were.
pub proof fn lemma_spreads_skip(cellss: Seq<Seq<Pos>>, cs: Seq<Constraint>, skip: int, t: int)
    requires
        0 <= skip,
    ensures
        spreads(cellss, cs, skip, skip + 1, t) == spreads(cellss, cs, skip, skip, t),
{
    assert(union_except(cellss, skip, skip + 1) == union_except(cellss, skip, skip));
    assert forall|s: Set<Pos>| spread(cellss, cs, skip, skip, s) implies #[trigger] spread(cellss, cs, skip, skip + 1, s) by {}
    assert(spreads(cellss, cs, skip, skip + 1, t) =~= spreads(cellss, cs, skip, skip, t));
}

/// With no group, the only layout is the empty one.
pub proof fn lemma_spreads_none(cellss: Seq<Seq<Pos>>, cs: Seq<Constraint>, skip: int, t: int)
    ensures
        spreads(cellss, cs, skip, 0, t).finite(),
        spreads(cellss, cs, skip, 0, t).len() == if t == 0 { 1nat } else { 0nat },
{
    let e = Set::<Pos>::empty();
    assert(spread(cellss, cs, skip, 0, e));
    assert forall|s: Set<Pos>| #[trigger] spread(cellss, cs, skip, 0, s) implies s == e by {
        assert(s =~= e);
    }
    if t == 0 {
        assert(spreads(cellss, cs, skip, 0, t) =~= set![e]);
    } else {
        assert(spreads(cellss, cs, skip, 0, t) =~= Set::<Set<Pos>>::empty());
    }
}

/// Combines the mine-count distributions of the groups, leaving out group `skip`, up to `cap` mines.
fn combine(counts: &Vec<GroupCounts>, skip: usize, cap: usize, Ghost(cellss): Ghost<Seq<Seq<Pos>>>,
    Ghost(cs): Ghost<Seq<Constraint>>) -> (acc: Vec<u128>)
    requires
        cap < usize::MAX,
        cellss.len() == counts@.len(),
        forall|j: int| 0 <= j < counts@.len() ==> (#[trigger] counts@[j]).backed(cellss[j], cs),
        forall|a: int, b: int| 0 <= a < b < cellss.len() ==> (#[trigger] cellss[a]).to_set().disjoint((#[trigger] cellss[b]).to_set()),
        forall|j: int| 0 <= j < counts@.len() ==> (#[trigger] counts@[j]).exact(cellss[j], cs),
        forall|j: int| 0 <= j < counts@.len() ==> (#[trigger] counts@[j]).dist@.len() == cellss[j].len() + 1,
        forall|j: int| 0 <= j < cellss.len() ==> (#[trigger] cellss[j]).no_duplicates(),
    ensures
        acc@.len() == cap + 1,
        forall|t: int| #![trigger acc@[t]] #![trigger spreads(cellss, cs, skip as int, counts@.len() as int, t)] 0 <= t <= cap ==> spreads(cellss, cs, skip as int, counts@.len() as int, t).finite()
            && acc@[t] == capped(spreads(cellss, cs, skip as int, counts@.len() as int, t).len() as int),
        forall|t: int| 0 <= t <= cap && #[trigger] acc@[t] > 0 ==>
            exists|s: Set<Pos>| #[trigger] spread(cellss, cs, skip as int, counts@.len() as int, s) && s.len() == t,
        forall|ks: Seq<int>| ks.len() == counts@.len() && #[trigger] supported(ks, counts@, counts@.len() as int, skip as int)
            && sum_except(ks, skip as int, counts@.len() as int) <= cap ==> acc@[sum_except(ks, skip as int, counts@.len() as int)] > 0,
{
    let mut acc: Vec<u128> = Vec::new();
    acc.push(1);
    let mut t: usize = 0;
    while t < cap
        invariant
            cap < usize::MAX,
            0 <= t <= cap,
            acc@.len() == t + 1,
            acc@[0] == 1,
            forall|x: int| 0 < x <= t ==> #[trigger] acc@[x] == 0,
        decreases cap - t,
    {
        acc.push(0);
        t += 1;
    }
    proof {
        assert forall|t: int| #![trigger acc@[t]] #![trigger spreads(cellss, cs, skip as int, 0, t)] 0 <= t <= cap implies
            spreads(cellss, cs, skip as int, 0, t).finite() && acc@[t] == capped(spreads(cellss, cs, skip as int, 0, t).len() as int) by {
            lemma_spreads_none(cellss, cs, skip as int, t);
        }
        assert forall|t: int| 0 <= t <= cap && #[trigger] acc@[t] > 0 implies
            exists|s: Set<Pos>| #[trigger] spread(cellss, cs, skip as int, 0, s) && s.len() == t by {
            assert(t == 0);
            assert(spread(cellss, cs, skip as int, 0, Set::<Pos>::empty()));
        }
    }
    let mut j: usize = 0;
    while j < counts.len()
        invariant
            0 <= j <= counts@.len(),
            acc@.len() == cap + 1,
            forall|ks: Seq<int>| ks.len() == counts@.len() && #[trigger] supported(ks, counts@, j as int, skip as int)
                && sum_except(ks, skip as int, j as int) <= cap ==> acc@[sum_except(ks, skip as int, j as int)] > 0,
            cellss.len() == counts@.len(),
            forall|j: int| 0 <= j < counts@.len() ==> (#[trigger] counts@[j]).backed(cellss[j], cs),
            forall|a: int, b: int| 0 <= a < b < cellss.len() ==> (#[trigger] cellss[a]).to_set().disjoint((#[trigger] cellss[b]).to_set()),
            forall|t: int| 0 <= t <= cap && #[trigger] acc@[t] > 0 ==>
                exists|s: Set<Pos>| #[trigger] spread(cellss, cs, skip as int, j as int, s) && s.len() == t,
            forall|j: int| 0 <= j < counts@.len() ==> (#[trigger] counts@[j]).exact(cellss[j], cs),
            forall|j: int| 0 <= j < counts@.len() ==> (#[trigger] counts@[j]).dist@.len() == cellss[j].len() + 1,
            forall|j: int| 0 <= j < cellss.len() ==> (#[trigger] cellss[j]).no_duplicates(),
            forall|t: int| #![trigger acc@[t]] #![trigger spreads(cellss, cs, skip as int, j as int, t)] 0 <= t <= cap ==> spreads(cellss, cs, skip as int, j as int, t).finite()
                && acc@[t] == capped(spreads(cellss, cs, skip as int, j as int, t).len() as int),
        decreases counts@.len() - j,
    {
        let ghost before = acc@;
        if j != skip {
            acc = convolve(&acc, &counts[j].dist);
        }
        proof {
            assert forall|t: int| #![trigger acc@[t]] #![trigger spreads(cellss, cs, skip as int, j + 1, t)] 0 <= t <= cap implies
                spreads(cellss, cs, skip as int, j + 1, t).finite() && acc@[t] == capped(spreads(cellss, cs, skip as int, j + 1, t).len() as int) by {
                if j == skip {
                    lemma_spreads_skip(cellss, cs, skip as int, t);
                } else {
                    let dist = counts@[j as int].dist@;
                    assert(counts@[j as int].exact(cellss[j as int], cs));
                    assert forall|y: int| #![trigger fits(cellss[j as int], cs, y)] 0 <= y <= cellss[j as int].len() implies
                        fits(cellss[j as int], cs, y).finite() && dist[y] == capped(fits(cellss[j as int], cs, y).len() as int) by {
                        assert(counts@[j as int].dist@[y] == capped(fits(cellss[j as int], cs, y).len() as int));
                    }
                    lemma_spreads_next(cellss, cs, skip as int, j as int, t, cap as int, before, dist);
                }
            }
            assert forall|ks: Seq<int>| ks.len() == counts@.len() && #[trigger] supported(ks, counts@, j + 1, skip as int)
                && sum_except(ks, skip as int, j + 1) <= cap implies acc@[sum_except(ks, skip as int, j + 1)] > 0 by {
                assert(supported(ks, counts@, j as int, skip as int));
                lemma_sum_except_nonneg(ks, skip as int, j as int, counts@);
                if j != skip {
                    assert(0 <= ks[j as int]);
                    assert(before[sum_except(ks, skip as int, j as int)] > 0);
                    assert(counts@[j as int].dist@[ks[j as int]] > 0);
                }
            }
            assert forall|t: int| 0 <= t <= cap && #[trigger] acc@[t] > 0 implies
                exists|s: Set<Pos>| #[trigger] spread(cellss, cs, skip as int, j + 1, s) && s.len() == t by {
                if j == skip {
                    let s = choose|s: Set<Pos>| #[trigger] spread(cellss, cs, skip as int, j as int, s) && s.len() == t;
                    assert(union_except(cellss, skip as int, j + 1) == union_except(cellss, skip as int, j as int));
                    assert(spread(cellss, cs, skip as int, j + 1, s));
                } else {
                    let dist = counts@[j as int].dist@;
                    lemma_conv_pos(before, dist, t, before.len() as int);
                    let x = choose|x: int| 0 <= x < before.len() && 0 <= t - x < dist.len() && #[trigger] before[x] > 0 && dist[t - x] > 0;
                    let sp = choose|s: Set<Pos>| #[trigger] spread(cellss, cs, skip as int, j as int, s) && s.len() == x;
                    assert(counts@[j as int].backed(cellss[j as int], cs));
                    let sj = choose|s: Set<Pos>| #[trigger] group_fit(cellss[j as int], cs, s) && s.len() == t - x;
                    lemma_union_except_apart(cellss, skip as int, j as int, j as int);
                    let cj = cellss[j as int].to_set();
                    let s = sp.union(sj);
                    assert(sp.disjoint(sj));
                    vstd::set_lib::lemma_set_disjoint_lens(sp, sj);
                    assert(s.subset_of(union_except(cellss, skip as int, j + 1)));
                    assert forall|k: int| 0 <= k < j + 1 && k != skip implies
                        group_fit(cellss[k], cs, #[trigger] s.intersect(cellss[k].to_set())) by {
                        if k == j {
                            assert(s.intersect(cj) =~= sj);
                        } else {
                            assert(cellss[k].to_set().disjoint(cj));
                            assert(s.intersect(cellss[k].to_set()) =~= sp.intersect(cellss[k].to_set()));
                        }
                    }
                    assert(spread(cellss, cs, skip as int, j + 1, s));
                }
            }
        }
        j += 1;
    }
    proof {
        assert forall|t: int| 0 <= t <= cap && #[trigger] acc@[t] > 0 implies
            exists|s: Set<Pos>| #[trigger] spread(cellss, cs, skip as int, counts@.len() as int, s) && s.len() == t by {
            assert(j == counts@.len());
        }
    }
    acc
}

/// The ways to pick `k` of the squares of `u`.
pub open spec fn choices(u: Set<Pos>, k: int) -> Set<Set<Pos>> {
    Set::new(|t: Set<Pos>| t.subset_of(u) && t.finite() && t.len() == k)
}

/// There are `C(n, k)` ways to pick `k` of the `n` squares of a finite set.
pub proof fn lemma_choices_count(u: Set<Pos>, k: nat)
    requires
        u.finite(),
    ensures
        choices(u, k as int).finite(),
        choices(u, k as int).len() == binom(u.len(), k),
    decreases u.len(),
{
    if k == 0 {
        assert(choices(u, 0) =~= set![Set::<Pos>::empty()]) by {
            assert forall|t: Set<Pos>| choices(u, 0).contains(t) implies t == Set::<Pos>::empty() by {
                vstd::set_lib::lemma_set_empty_equivalency_len(t);
            }
        }
        assert(set![Set::<Pos>::empty()].len() == 1);
    } else if u.len() == 0 {
        vstd::set_lib::lemma_set_empty_equivalency_len(u);
        assert(choices(u, k as int) =~= Set::<Set<Pos>>::empty()) by {
            assert forall|t: Set<Pos>| !choices(u, k as int).contains(t) by {
                if t.subset_of(u) && t.finite() {
                    vstd::set_lib::lemma_len_subset(t, u);
                }
            }
        }
    } else {
        let x = u.choose();
        let rest = u.remove(x);
        lemma_choices_count(rest, k);
        lemma_choices_count(rest, (k - 1) as nat);
        let without = choices(rest, k as int);
        let smaller = choices(rest, k - 1);
        let put_x = |t: Set<Pos>| t.insert(x);
        let with = smaller.map(put_x);
        assert(vstd::relations::injective_on(put_x, smaller)) by {
            assert forall|a: Set<Pos>, b: Set<Pos>| smaller.contains(a) && smaller.contains(b) && #[trigger] put_x(a) == #[trigger] put_x(b)
                implies a == b by {
                assert(a =~= put_x(a).remove(x));
                assert(b =~= put_x(b).remove(x));
            }
        }
        vstd::set_lib::lemma_map_size(smaller, with, put_x);
        assert(choices(u, k as int) =~= without.union(with)) by {
            assert forall|t: Set<Pos>| choices(u, k as int).contains(t) implies without.union(with).contains(t) by {
                if t.contains(x) {
                    let s0 = t.remove(x);
                    assert(smaller.contains(s0));
                    assert(put_x(s0) =~= t);
                    assert(with.contains(put_x(s0)));
                } else {
                    assert(t.subset_of(rest));
                }
            }
            assert forall|t: Set<Pos>| without.union(with).contains(t) implies choices(u, k as int).contains(t) by {
                if with.contains(t) {
                    let s0 = choose|s0: Set<Pos>| smaller.contains(s0) && put_x(s0) == t;
                    assert(!s0.contains(x));
                }
            }
        }
        assert(without.disjoint(with)) by {
            assert forall|t: Set<Pos>| without.contains(t) implies !with.contains(t) by {
                if with.contains(t) {
                    let s0 = choose|s0: Set<Pos>| smaller.contains(s0) && put_x(s0) == t;
                    assert(t.contains(x));
                }
            }
        }
        vstd::set_lib::lemma_set_disjoint_lens(without, with);
    }
}

/// At least one way to pick `k` of `n` when `k` is at most `n`.
pub proof fn lemma_choose_pos(n: nat, k: nat)
    requires
        k <= n,
    ensures
        binom(n, k) >= 1,
    decreases n,
{
    if k > 0 && n > 0 {
        lemma_choose_pos((n - 1) as nat, (k - 1) as nat);
    }
}

/// What `binomial(n, k)` gives: 0 above `n`, else `C(n, k)`, or `u128::MAX` when a step overflows.
pub open spec fn binomial_of(n: int, k: int) -> int {
    if k < 0 || k > n {
        0
    } else if steps_fit(n as nat, if k < n - k { k as nat } else { (n - k) as nat }) {
        binom(n as nat, k as nat) as int
    } else {
        u128::MAX as int
    }
}

/// The capped weight of `x` layouts of a group with `mc` mines combined with `y` layouts of the
/// other groups with `o` mines: times the ways to place the other `r - mc - o` mines among `uc`
/// squares, where that many are left.
pub open spec fn pair_weight(x: int, y: int, r: int, uc: int, mc: int, o: int) -> int {
    if mc <= r && o <= r - mc && r - mc - o <= uc {
        capped(capped(x * y) * binomial_of(uc, r - mc - o))
    } else {
        0
    }
}

/// The pair weights of `x` layouts with `mc` mines against the first `upto` counts of `other`.
pub open spec fn row_weight(x: int, other: Seq<u128>, r: int, uc: int, mc: int, upto: int) -> int
    decreases upto,
{
    if upto <= 0 {
        0
    } else {
        row_weight(x, other, r, uc, mc, upto - 1) + pair_weight(x, other[upto - 1] as int, r, uc, mc, upto - 1)
    }
}

/// The row weights of the counts `row[..upto]`, each by its number of mines.
pub open spec fn cell_weight(row: Seq<u128>, other: Seq<u128>, r: int, uc: int, upto: int) -> int
    decreases upto,
{
    if upto <= 0 {
        0
    } else {
        cell_weight(row, other, r, uc, upto - 1) + row_weight(row[upto - 1] as int, other, r, uc, upto - 1, other.len() as int)
    }
}

/// The layouts `x` of a group with `mc` mines against each of the first `upto` counts `other[o]`
/// of the other groups with `o` mines, each with every way to place the remaining `r - mc - o`
/// mines on the unconstrained squares `u`.
pub open spec fn ways_row(x: int, other: Seq<u128>, r: int, u: Set<Pos>, mc: int, upto: int) -> int
    decreases upto,
{
    if upto <= 0 {
        0
    } else {
        ways_row(x, other, r, u, mc, upto - 1) + x * other[upto - 1] * choices(u, r - mc - (upto - 1)).len()
    }
}

/// `ways_row` for each count `row[mc]` of the group with `mc < upto` mines, added up.
pub open spec fn ways_all(row: Seq<u128>, other: Seq<u128>, r: int, u: Set<Pos>, upto: int) -> int
    decreases upto,
{
    if upto <= 0 {
        0
    } else {
        ways_all(row, other, r, u, upto - 1) + ways_row(row[upto - 1] as int, other, r, u, upto - 1, other.len() as int)
    }
}

/// Below the cap, a pair weight is the product of the two counts and the number of ways to place
/// the mines left over on the unconstrained squares.
pub proof fn lemma_pair_ways(x: int, y: int, r: int, uc: int, u: Set<Pos>, mc: int, o: int)
    requires
        x >= 0,
        y >= 0,
        mc >= 0,
        o >= 0,
        u.finite(),
        u.len() == uc,
        pair_weight(x, y, r, uc, mc, o) < u128::MAX,
    ensures
        pair_weight(x, y, r, uc, mc, o) == x * y * choices(u, r - mc - o).len(),
{
    let k = r - mc - o;
    assert(x * y >= 0) by (nonlinear_arith) requires x >= 0, y >= 0;
    let n = choices(u, k).len();
    if k < 0 {
        assert(choices(u, k) =~= Set::<Set<Pos>>::empty());
        assert(x * y * n == 0) by (nonlinear_arith) requires n == 0;
    } else {
        lemma_choices_count(u, k as nat);
        if k > uc {
            lemma_choose_above(uc as nat, k as nat);
            assert(x * y * n == 0) by (nonlinear_arith) requires n == 0;
        } else {
            lemma_choose_pos(uc as nat, k as nat);
            let b = binomial_of(uc, k);
            let c = capped(x * y);
            assert(pair_weight(x, y, r, uc, mc, o) == capped(c * b));
            if x * y == 0 {
                assert(c * b == 0) by (nonlinear_arith) requires c == 0;
                assert(x * y * n == 0) by (nonlinear_arith) requires x * y == 0;
            } else {
                if b != binom(uc as nat, k as nat) {
                    assert(b == u128::MAX);
                    assert(c * b >= u128::MAX) by (nonlinear_arith) requires c >= 1, b == u128::MAX;
                }
                if x * y > u128::MAX {
                    assert(c * b >= u128::MAX) by (nonlinear_arith) requires c == u128::MAX, b >= 1;
                }
                assert(b == n);
                assert(c == x * y);
                assert(c * b < u128::MAX);
                assert(x * y * n == c * b) by (nonlinear_arith) requires c == x * y, b == n;
            }
        }
    }
}

/// Below the cap, a row weight counts the ways of `ways_row`.
pub proof fn lemma_row_ways(x: int, other: Seq<u128>, r: int, uc: int, u: Set<Pos>, mc: int, upto: int)
    requires
        x >= 0,
        mc >= 0,
        upto <= other.len(),
        u.finite(),
        u.len() == uc,
        row_weight(x, other, r, uc, mc, upto) < u128::MAX,
    ensures
        row_weight(x, other, r, uc, mc, upto) == ways_row(x, other, r, u, mc, upto),
    decreases upto,
{
    if upto > 0 {
        lemma_row_weight_pos(x, other, r, uc, mc, upto - 1);
        lemma_pair_pos(x, other[upto - 1] as int, r, uc, mc, upto - 1);
        lemma_row_ways(x, other, r, uc, u, mc, upto - 1);
        lemma_pair_ways(x, other[upto - 1] as int, r, uc, u, mc, upto - 1);
    }
}

/// Below the cap, a cell weight counts the ways of `ways_all`.
pub proof fn lemma_cell_ways(row: Seq<u128>, other: Seq<u128>, r: int, uc: int, u: Set<Pos>, upto: int)
    requires
        upto <= row.len(),
        u.finite(),
        u.len() == uc,
        cell_weight(row, other, r, uc, upto) < u128::MAX,
    ensures
        cell_weight(row, other, r, uc, upto) == ways_all(row, other, r, u, upto),
    decreases upto,
{
    if upto > 0 {
        lemma_cell_weight_pos(row, other, r, uc, upto - 1);
        lemma_row_weight_pos(row[upto - 1] as int, other, r, uc, upto - 1, other.len() as int);
        lemma_cell_ways(row, other, r, uc, u, upto - 1);
        lemma_row_ways(row[upto - 1] as int, other, r, uc, u, upto - 1, other.len() as int);
    }
}

/// Weight of the counted layouts in which square `i` of a group is a mine, and in which it is safe:
/// each group count with `mc` mines, times each count `o` of the other groups, times the ways to place
/// the remaining `r - mc - o` mines among the `uc` unconstrained squares.
#[verifier::spinoff_prover]
fn cell_weights(k: &GroupCounts, g: usize, i: usize, other: &Vec<u128>, r: u64, uc: u64) -> (w: (u128, u128))
    requires
        k.shaped(g as nat),
        i < g,
        g <= 24,
    ensures
        w.0 == capped(cell_weight(k.mine_at@[i as int]@, other@, r as int, uc as int, g + 1)),
        w.1 == capped(cell_weight(k.safe_at@[i as int]@, other@, r as int, uc as int, g + 1)),
        forall|u: Set<Pos>| u.finite() && u.len() == uc && w.0 < u128::MAX ==>
            w.0 == #[trigger] ways_all(k.mine_at@[i as int]@, other@, r as int, u, g + 1),
        forall|u: Set<Pos>| u.finite() && u.len() == uc && w.1 < u128::MAX ==>
            w.1 == #[trigger] ways_all(k.safe_at@[i as int]@, other@, r as int, u, g + 1),
        forall|mc: int, o: int| 0 <= mc <= g && 0 <= o < other@.len() && mc + o <= r && r - mc - o <= uc
            && #[trigger] other@[o] > 0 ==> (#[trigger] k.mine_at@[i as int]@[mc] > 0 ==> w.0 > 0)
                && (k.safe_at@[i as int]@[mc] > 0 ==> w.1 > 0),
{
    let ghost rm = k.mine_at@[i as int]@;
    let ghost rs = k.safe_at@[i as int]@;
    let mut mine_w: u128 = 0;
    let mut safe_w: u128 = 0;
    let mut mc: usize = 0;
    while mc <= g
        invariant
            k.shaped(g as nat),
            i < g,
            g <= 24,
            0 <= mc <= g + 1,
            rm == k.mine_at@[i as int]@,
            rs == k.safe_at@[i as int]@,
            mine_w == capped(cell_weight(rm, other@, r as int, uc as int, mc as int)),
            safe_w == capped(cell_weight(rs, other@, r as int, uc as int, mc as int)),
            forall|m: int, o: int| 0 <= m < mc && 0 <= o < other@.len() && m + o <= r && r - m - o <= uc
                && #[trigger] other@[o] > 0 ==> (#[trigger] k.mine_at@[i as int]@[m] > 0 ==> mine_w > 0)
                    && (k.safe_at@[i as int]@[m] > 0 ==> safe_w > 0),
        decreases g + 1 - mc,
    {
        let mut o: usize = 0;
        while o < other.len()
            invariant
                k.shaped(g as nat),
                i < g,
                g <= 24,
                0 <= mc <= g,
                0 <= o <= other@.len(),
                rm == k.mine_at@[i as int]@,
                rs == k.safe_at@[i as int]@,
                mine_w == capped(cell_weight(rm, other@, r as int, uc as int, mc as int)
                    + row_weight(rm[mc as int] as int, other@, r as int, uc as int, mc as int, o as int)),
                safe_w == capped(cell_weight(rs, other@, r as int, uc as int, mc as int)
                    + row_weight(rs[mc as int] as int, other@, r as int, uc as int, mc as int, o as int)),
                forall|m: int, o: int| 0 <= m < mc && 0 <= o < other@.len() && m + o <= r && r - m - o <= uc
                    && #[trigger] other@[o] > 0 ==> (#[trigger] k.mine_at@[i as int]@[m] > 0 ==> mine_w > 0)
                        && (k.safe_at@[i as int]@[m] > 0 ==> safe_w > 0),
                forall|oo: int| 0 <= oo < o && mc + oo <= r && r - mc - oo <= uc
                    && #[trigger] other@[oo] > 0 ==> (k.mine_at@[i as int]@[mc as int] > 0 ==> mine_w > 0)
                        && (k.safe_at@[i as int]@[mc as int] > 0 ==> safe_w > 0),
            decreases other@.len() - o,
        {
            let mo = mc as u64;
            if mo <= r && (o as u64) <= r - mo && r - mo - (o as u64) <= uc {
                let c = binomial(uc, r - mo - (o as u64));
                let a = sat_mul(sat_mul(k.mine_at[i][mc], other[o]), c);
                let b = sat_mul(sat_mul(k.safe_at[i][mc], other[o]), c);
                proof {
                    assert(c == binomial_of(uc as int, r - mc - o));
                    assert(a == pair_weight(rm[mc as int] as int, other@[o as int] as int, r as int, uc as int, mc as int, o as int));
                    assert(b == pair_weight(rs[mc as int] as int, other@[o as int] as int, r as int, uc as int, mc as int, o as int));
                }
                mine_w = mine_w.saturating_add(a);
                safe_w = safe_w.saturating_add(b);
            }
            o += 1;
        }
        proof {
            assert forall|m: int, o: int| 0 <= m < mc + 1 && 0 <= o < other@.len() && m + o <= r && r - m - o <= uc
                && #[trigger] other@[o] > 0 implies (#[trigger] k.mine_at@[i as int]@[m] > 0 ==> mine_w > 0)
                    && (k.safe_at@[i as int]@[m] > 0 ==> safe_w > 0) by {
                if m == mc {
                    assert(0 <= o < other@.len() && mc + o <= r && r - mc - o <= uc && other@[o] > 0);
                }
            }
        }
        mc += 1;
    }
    proof {
        assert forall|u: Set<Pos>| u.finite() && u.len() == uc && mine_w < u128::MAX implies
            mine_w == #[trigger] ways_all(rm, other@, r as int, u, g + 1) by {
            lemma_cell_ways(rm, other@, r as int, uc as int, u, g + 1);
        }
        assert forall|u: Set<Pos>| u.finite() && u.len() == uc && safe_w < u128::MAX implies
            safe_w == #[trigger] ways_all(rs, other@, r as int, u, g + 1) by {
            lemma_cell_ways(rs, other@, r as int, uc as int, u, g + 1);
        }
    }
    (mine_w, safe_w)
}

/// Builds the weight of each total `k` of mines in the groups: the combined count times the ways to
/// place the other `r - k` mines among the `uc` unconstrained squares.
fn total_weights(combined: &Vec<u128>, r: u64, uc: u64) -> (w: Vec<u128>)
    ensures
        w@.len() == combined@.len(),
        forall|k: int| 0 <= k < combined@.len() && k <= r && r - k <= uc ==>
            #[trigger] w@[k] == capped(combined@[k] * binomial_of(uc as int, r - k)),
        forall|k: int| 0 <= k < combined@.len() && k <= r && r - k <= uc && #[trigger] combined@[k] > 0 ==> w@[k] > 0,
        forall|k: int| 0 <= k < combined@.len() && (k > r || r - k > uc) ==> #[trigger] w@[k] == 0,
        forall|u: Set<Pos>, k: int| u.finite() && u.len() == uc && 0 <= k < combined@.len() && #[trigger] w@[k] < u128::MAX ==>
            w@[k] == combined@[k] * (#[trigger] choices(u, r - k)).len(),
{
    let mut w: Vec<u128> = Vec::new();
    let mut k: usize = 0;
    while k < combined.len()
        invariant
            0 <= k <= combined@.len(),
            w@.len() == k,
            forall|kk: int| 0 <= kk < k && kk <= r && r - kk <= uc ==>
                #[trigger] w@[kk] == capped(combined@[kk] * binomial_of(uc as int, r - kk)),
            forall|kk: int| 0 <= kk < k && kk <= r && r - kk <= uc && #[trigger] combined@[kk] > 0 ==> w@[kk] > 0,
            forall|kk: int| 0 <= kk < k && (kk > r || r - kk > uc) ==> #[trigger] w@[kk] == 0,
        decreases combined@.len() - k,
    {
        let kk = k as u64;
        if kk <= r && r - kk <= uc {
            let c = binomial(uc, r - kk);
            w.push(sat_mul(combined[k], c));
        } else {
            w.push(0);
        }
        k += 1;
    }
    proof {
        assert forall|u: Set<Pos>, k: int| u.finite() && u.len() == uc && 0 <= k < combined@.len() && #[trigger] w@[k] < u128::MAX
            implies w@[k] == combined@[k] * (#[trigger] choices(u, r - k)).len() by {
            let x = combined@[k] as int;
            assert(capped(x) == x);
            assert(x * 1 == x);
            if k <= r && r - k <= uc {
                assert(w@[k] == pair_weight(x, 1, r as int, uc as int, k, 0));
            } else {
                assert(pair_weight(x, 1, r as int, uc as int, k, 0) == 0);
            }
            lemma_pair_ways(x, 1, r as int, uc as int, u, k, 0);
        }
    }
    w
}

/// The sum of the numbers of `w`.
#[verifier::opaque]
pub open spec fn total_of(w: Seq<u128>) -> int
    decreases w.len(),
{
    if w.len() == 0 {
        0
    } else {
        total_of(w.drop_last()) + w.last()
    }
}

/// Sum of the weights, capped at `u128::MAX`.
fn weight_sum(w: &Vec<u128>) -> (t: u128)
    ensures
        t == capped(total_of(w@)),
        forall|k: int| 0 <= k < w@.len() && #[trigger] w@[k] > 0 ==> t > 0,
{
    let mut t: u128 = 0;
    let mut k: usize = 0;
    proof {
        reveal(total_of);
    }
    while k < w.len()
        invariant
            0 <= k <= w@.len(),
            t == capped(total_of(w@.take(k as int))),
            forall|kk: int| 0 <= kk < k && #[trigger] w@[kk] > 0 ==> t > 0,
        decreases w@.len() - k,
    {
        proof {
            assert(w@.take(k + 1).drop_last() == w@.take(k as int));
            reveal(total_of);
        }
        t = t.saturating_add(w[k]);
        k += 1;
    }
    proof {
        assert(w@.take(k as int) == w@);
    }
    t
}

/// Over the first `n` weights, each positive weight of `k` mines in the groups times the mines it
/// leaves among the unconstrained squares (`mines`), or the squares it leaves free there, capped.
pub open spec fn open_weight(w: Seq<u128>, r: int, uc: int, n: int, mines: bool) -> int
    decreases n,
{
    if n <= 0 {
        0
    } else {
        open_weight(w, r, uc, n - 1, mines) + if w[n - 1] > 0 {
            capped(w[n - 1] * if mines { r - (n - 1) } else { uc - (r - (n - 1)) })
        } else {
            0
        }
    }
}

/// The ways to pick `k` of the squares of `u` that take the square `p` (`with`), or that leave it.
pub open spec fn choices_at(u: Set<Pos>, p: Pos, k: int, with: bool) -> Set<Set<Pos>> {
    Set::new(|t: Set<Pos>| choices(u, k).contains(t) && t.contains(p) == with)
}

/// Over the first `n` totals `kk` of mines in the groups, `c[kk]` layouts of the groups times the
/// ways to place the other `r - kk` mines on the unconstrained squares `u` with `p` a mine (`with`),
/// or with `p` free.
pub open spec fn open_ways(c: Seq<int>, u: Set<Pos>, p: Pos, r: int, n: int, with: bool) -> int
    decreases n,
{
    if n <= 0 {
        0
    } else {
        open_ways(c, u, p, r, n - 1, with) + c[n - 1] * choices_at(u, p, r - (n - 1), with).len()
    }
}

/// The weights `w` are `c[k]` layouts of the groups with `k` mines, each times the ways to place
/// the other `r - k` mines on the unconstrained squares `u`.
pub open spec fn weighs(w: Seq<u128>, c: Seq<int>, u: Set<Pos>, r: int) -> bool {
    &&& u.finite()
    &&& c.len() == w.len()
    &&& forall|j: int| 0 <= j < c.len() ==> #[trigger] c[j] >= 0
    &&& forall|j: int| 0 <= j < w.len() ==> #[trigger] w[j] == c[j] * choices(u, r - j).len()
}

/// Picking `k` squares of `u` with `p` among them is picking `k - 1` of the others; without it,
/// picking `k` of the others.
pub proof fn lemma_choices_at(u: Set<Pos>, p: Pos, k: int)
    requires
        u.finite(),
        u.contains(p),
        k >= 0,
    ensures
        choices_at(u, p, k, false).len() == binom((u.len() - 1) as nat, k as nat),
        k >= 1 ==> choices_at(u, p, k, true).len() == binom((u.len() - 1) as nat, (k - 1) as nat),
        k == 0 ==> choices_at(u, p, k, true).len() == 0,
{
    let rest = u.remove(p);
    assert(choices_at(u, p, k, false) =~= choices(rest, k)) by {
        assert forall|t: Set<Pos>| choices(rest, k).contains(t) implies choices_at(u, p, k, false).contains(t) by {}
    }
    lemma_choices_count(rest, k as nat);
    if k >= 1 {
        lemma_choices_count(rest, (k - 1) as nat);
        let smaller = choices(rest, k - 1);
        let put_p = |t: Set<Pos>| t.insert(p);
        assert(vstd::relations::injective_on(put_p, smaller)) by {
            assert forall|a: Set<Pos>, b: Set<Pos>| smaller.contains(a) && smaller.contains(b) && #[trigger] put_p(a) == #[trigger] put_p(b)
                implies a == b by {
                assert(a =~= put_p(a).remove(p));
                assert(b =~= put_p(b).remove(p));
            }
        }
        assert(smaller.map(put_p) =~= choices_at(u, p, k, true)) by {
            assert forall|t: Set<Pos>| choices_at(u, p, k, true).contains(t) implies smaller.map(put_p).contains(t) by {
                let s0 = t.remove(p);
                assert(smaller.contains(s0));
                assert(put_p(s0) =~= t);
            }
            assert forall|t: Set<Pos>| smaller.map(put_p).contains(t) implies choices_at(u, p, k, true).contains(t) by {
                let s0 = choose|s0: Set<Pos>| smaller.contains(s0) && put_p(s0) == t;
                assert(!s0.contains(p));
            }
        }
        vstd::set_lib::lemma_map_size(smaller, choices_at(u, p, k, true), put_p);
    } else {
        assert(choices_at(u, p, k, true) =~= Set::<Set<Pos>>::empty()) by {
            assert forall|t: Set<Pos>| !choices_at(u, p, k, true).contains(t) by {
                if choices_at(u, p, k, true).contains(t) {
                    vstd::set_lib::lemma_set_empty_equivalency_len(t);
                }
            }
        }
    }
}

/// `C(n, k) * k == n * C(n - 1, k - 1)` and `C(n, k) * (n - k) == n * C(n - 1, k)`.
pub proof fn lemma_choose_absorb(n: nat, k: nat)
    requires
        1 <= n,
        k <= n,
    ensures
        k >= 1 ==> binom(n, k) * k == n * binom((n - 1) as nat, (k - 1) as nat),
        binom(n, k) * (n - k) == n * binom((n - 1) as nat, k),
{
    let m = (n - 1) as nat;
    if k >= 1 {
        lemma_choose_step(m, (k - 1) as nat);
        let a = binom(m, (k - 1) as nat);
        let b = binom(m, k);
        assert(binom(n, k) == a + b);
        assert(b * k == a * (m - (k - 1)));
        assert(binom(n, k) * k == n * a) by (nonlinear_arith)
            requires binom(n, k) == a + b, b * k == a * (m - (k - 1)), m == n - 1;
        assert(binom(n, k) * (n - k) == n * b) by (nonlinear_arith)
            requires binom(n, k) == a + b, b * k == a * (m - (k - 1)), m == n - 1;
    } else {
        assert(binom(n, 0) == 1 && binom(m, 0) == 1);
        assert(binom(n, k) * (n - k) == n * binom(m, k)) by (nonlinear_arith)
            requires binom(n, k) == 1, binom(m, k) == 1, k == 0;
    }
}

/// Below the cap, the open weight of `p` counts, for each total `kk` of mines in the groups, the
/// layouts of the groups times the ways to place the rest on the unconstrained squares with `p`
/// a mine (`mines`) or free, times the number `uc` of unconstrained squares.
pub proof fn lemma_open_ways(w: Seq<u128>, c: Seq<int>, r: int, uc: int, u: Set<Pos>, p: Pos, n: int, mines: bool)
    requires
        u.finite(),
        u.len() == uc,
        u.contains(p),
        0 <= n <= w.len(),
        c.len() == w.len(),
        forall|j: int| 0 <= j < c.len() ==> #[trigger] c[j] >= 0,
        forall|j: int| 0 <= j < w.len() ==> #[trigger] w[j] == c[j] * choices(u, r - j).len(),
        open_weight(w, r, uc, n, mines) < u128::MAX,
    ensures
        open_weight(w, r, uc, n, mines) == uc * open_ways(c, u, p, r, n, mines),
    decreases n,
{
    if n > 0 {
        let kk = n - 1;
        let k = r - kk;
        assert forall|j: int| 0 <= j < w.len() && #[trigger] w[j] > 0 implies j <= r && r - j <= uc by {
            if !(j <= r && r - j <= uc) {
                if r - j < 0 {
                    assert(choices(u, r - j) =~= Set::<Set<Pos>>::empty());
                } else {
                    lemma_choices_count(u, (r - j) as nat);
                    lemma_choose_above(uc as nat, (r - j) as nat);
                }
                assert(c[j] * choices(u, r - j).len() == 0);
            }
        }
        lemma_open_weight_pos(w, r, uc, kk, mines);
        assert(open_weight(w, r, uc, kk, mines) < u128::MAX);
        lemma_open_ways(w, c, r, uc, u, p, kk, mines);
        let cn = choices_at(u, p, k, mines).len();
        if w[kk] == 0 {
            if c[kk] != 0 {
                assert(choices(u, k).len() == 0) by (nonlinear_arith)
                    requires c[kk] * choices(u, k).len() == 0, c[kk] != 0;
                if k >= 0 {
                    lemma_choices_count(u, k as nat);
                    assert(choices_at(u, p, k, mines).subset_of(choices(u, k)));
                    vstd::set_lib::lemma_len_subset(choices_at(u, p, k, mines), choices(u, k));
                } else {
                    assert(choices_at(u, p, k, mines) =~= Set::<Set<Pos>>::empty());
                }
            }
            assert(uc * (c[kk] * cn) == 0) by (nonlinear_arith) requires c[kk] == 0 || cn == 0;
        } else {
            assert(0 <= k <= uc);
            lemma_choices_count(u, k as nat);
            lemma_choices_at(u, p, k);
            let f = if mines { k } else { uc - k };
            assert(w[kk] * f >= 0) by (nonlinear_arith) requires w[kk] > 0, f >= 0;
            let bk = binom(uc as nat, k as nat);
            assert(w[kk] == c[kk] * bk);
            if mines && k == 0 {
                assert(w[kk] * f == 0);
                assert(uc * (c[kk] * cn) == 0) by (nonlinear_arith) requires cn == 0;
            } else {
                lemma_choose_absorb(uc as nat, k as nat);
                assert(bk * f == uc * cn);
                assert(w[kk] * f == uc * (c[kk] * cn)) by (nonlinear_arith)
                    requires w[kk] == c[kk] * bk, bk * f == uc * cn;
            }
        }
        assert(uc * open_ways(c, u, p, r, n, mines) == uc * open_ways(c, u, p, r, kk, mines) + uc * (c[kk] * cn))
            by (nonlinear_arith)
            requires open_ways(c, u, p, r, n, mines) == open_ways(c, u, p, r, kk, mines) + c[kk] * cn;
    }
}

/// For the unconstrained squares: the weight of layouts times the mines they leave there, and
/// times the squares they leave free there.
fn open_weights(w: &Vec<u128>, r: u64, uc: u64) -> (e: (u128, u128))
    requires
        forall|k: int| 0 <= k < w@.len() && (k > r || r - k > uc) ==> #[trigger] w@[k] == 0,
    ensures
        e.0 == capped(open_weight(w@, r as int, uc as int, w@.len() as int, true)),
        e.1 == capped(open_weight(w@, r as int, uc as int, w@.len() as int, false)),
        forall|k: int| 0 <= k < w@.len() && #[trigger] w@[k] > 0 ==> (r - k > 0 ==> e.0 > 0) && (uc - (r - k) > 0 ==> e.1 > 0),
        forall|u: Set<Pos>, p: Pos, c: Seq<int>| #[trigger] weighs(w@, c, u, r as int) && u.len() == uc && u.contains(p)
            && e.0 < u128::MAX ==> e.0 == uc * #[trigger] open_ways(c, u, p, r as int, w@.len() as int, true),
        forall|u: Set<Pos>, p: Pos, c: Seq<int>| #[trigger] weighs(w@, c, u, r as int) && u.len() == uc && u.contains(p)
            && e.1 < u128::MAX ==> e.1 == uc * #[trigger] open_ways(c, u, p, r as int, w@.len() as int, false),
{
    let mut mine_e: u128 = 0;
    let mut safe_e: u128 = 0;
    let mut k: usize = 0;
    while k < w.len()
        invariant
            0 <= k <= w@.len(),
            forall|k: int| 0 <= k < w@.len() && (k > r || r - k > uc) ==> #[trigger] w@[k] == 0,
            forall|kk: int| 0 <= kk < k && #[trigger] w@[kk] > 0 ==> (r - kk > 0 ==> mine_e > 0) && (uc - (r - kk) > 0 ==> safe_e > 0),
            mine_e == capped(open_weight(w@, r as int, uc as int, k as int, true)),
            safe_e == capped(open_weight(w@, r as int, uc as int, k as int, false)),
        decreases w@.len() - k,
    {
        let kk = k as u64;
        if w[k] > 0 {
            let left = r - kk;
            let free = uc - left;
            mine_e = mine_e.saturating_add(sat_mul(w[k], left as u128));
            safe_e = safe_e.saturating_add(sat_mul(w[k], free as u128));
        }
        k += 1;
    }
    proof {
        assert forall|u: Set<Pos>, p: Pos, c: Seq<int>| #[trigger] weighs(w@, c, u, r as int) && u.len() == uc && u.contains(p)
            && mine_e < u128::MAX implies mine_e == uc * #[trigger] open_ways(c, u, p, r as int, w@.len() as int, true) by {
            lemma_open_ways(w@, c, r as int, uc as int, u, p, w@.len() as int, true);
        }
        assert forall|u: Set<Pos>, p: Pos, c: Seq<int>| #[trigger] weighs(w@, c, u, r as int) && u.len() == uc && u.contains(p)
            && safe_e < u128::MAX implies safe_e == uc * #[trigger] open_ways(c, u, p, r as int, w@.len() as int, false) by {
            lemma_open_ways(w@, c, r as int, uc as int, u, p, w@.len() as int, false);
        }
    }
    (mine_e, safe_e)
}

/// The estimate says neither that its square is surely safe nor that it surely holds a mine.
pub open spec fn uncertain(e: Estimate) -> bool {
    !e.certain_safe && !e.certain_mine
}

/// The first uncertain estimate whose chance `mine / total` is least among the uncertain ones;
/// `None` when every estimate is certain.
pub(crate) fn least_guess(ests: &Vec<Estimate>) -> (g: Option<usize>)
    requires
        forall|e: int| 0 <= e < ests@.len() ==> (#[trigger] ests@[e]).total > 0,
    ensures
        g is None <==> forall|e: int| 0 <= e < ests@.len() ==> !uncertain(#[trigger] ests@[e]),
        g matches Some(j) ==> j < ests@.len() && uncertain(ests@[j as int])
            && (forall|e: int| 0 <= e < ests@.len() && uncertain(#[trigger] ests@[e]) ==>
                ests@[j as int].mine * ests@[e].total <= ests@[e].mine * ests@[j as int].total)
            && (forall|e: int| 0 <= e < j && uncertain(#[trigger] ests@[e]) ==>
                ests@[j as int].mine * ests@[e].total < ests@[e].mine * ests@[j as int].total),
{
    let mut best: Option<usize> = None;
    let mut i: usize = 0;
    while i < ests.len()
        invariant
            0 <= i <= ests@.len(),
            forall|e: int| 0 <= e < ests@.len() ==> (#[trigger] ests@[e]).total > 0,
            best is None <==> forall|e: int| 0 <= e < i ==> !uncertain(#[trigger] ests@[e]),
            best matches Some(j) ==> j < i && uncertain(ests@[j as int])
                && (forall|e: int| 0 <= e < i && uncertain(#[trigger] ests@[e]) ==>
                    ests@[j as int].mine * ests@[e].total <= ests@[e].mine * ests@[j as int].total)
                && (forall|e: int| 0 <= e < j && uncertain(#[trigger] ests@[e]) ==>
                    ests@[j as int].mine * ests@[e].total < ests@[e].mine * ests@[j as int].total),
        decreases ests@.len() - i,
    {
        let e = &ests[i];
        if !e.certain_safe && !e.certain_mine {
            match best {
                None => {
                    best = Some(i);
                },
                Some(j) => {
                    let b = &ests[j];
                    if frac_lt(e.mine, e.total, b.mine, b.total) {
                        proof {
                            lemma_least_step(ests@, j as int, i as int);
                        }
                        best = Some(i);
                    } else {
                        proof {
                            assert(!(ests@[i as int].mine * ests@[j as int].total < ests@[j as int].mine * ests@[i as int].total));
                            assert(ests@[j as int].mine * ests@[i as int].total <= ests@[i as int].mine * ests@[j as int].total)
                                by (nonlinear_arith)
                                requires
                                    !(ests@[i as int].mine * ests@[j as int].total < ests@[j as int].mine * ests@[i as int].total);
                        }
                    }
                },
            }
        }
        i += 1;
    }
    best
}

/// A new estimate with a smaller chance than the least so far is the least, and strictly below all before it.
proof fn lemma_least_step(ests: Seq<Estimate>, j: int, i: int)
    requires
        0 <= j < i < ests.len(),
        forall|e: int| 0 <= e < ests.len() ==> (#[trigger] ests[e]).total > 0,
        forall|e: int| 0 <= e < i && uncertain(#[trigger] ests[e]) ==>
            ests[j].mine * ests[e].total <= ests[e].mine * ests[j].total,
        ests[i].mine * ests[j].total < ests[j].mine * ests[i].total,
    ensures
        forall|e: int| 0 <= e < i && uncertain(#[trigger] ests[e]) ==>
            ests[i].mine * ests[e].total < ests[e].mine * ests[i].total,
{
    assert forall|e: int| 0 <= e < i && uncertain(#[trigger] ests[e]) implies
        ests[i].mine * ests[e].total < ests[e].mine * ests[i].total by {
        let (a, b, c, d, x, y) = (ests[i].mine as int, ests[i].total as int, ests[j].mine as int, ests[j].total as int,
            ests[e].mine as int, ests[e].total as int);
        assert(c * y <= x * d);
        assert(a * d < c * b);
        assert(a * y < x * b) by (nonlinear_arith)
            requires c * y <= x * d, a * d < c * b, b > 0, d > 0, y > 0, a >= 0, c >= 0, x >= 0;
    }
}

/// The estimate never contradicts the mine layout `m`.
pub open spec fn agrees(e: Estimate, m: Set<Pos>) -> bool {
    &&& e.certain_safe ==> !m.contains(e.cell)
    &&& e.certain_mine ==> m.contains(e.cell)
}

/// `m` could be where the mines are: unknown squares only, meeting every constraint, and as many
/// mines as the board has left once the flags are taken as mines.
pub open spec fn possible_layout(board: &Board, cs: Seq<Constraint>, unknowns: Set<Pos>, m: Set<Pos>) -> bool {
    &&& m.finite()
    &&& m.subset_of(unknowns)
    &&& all_hold(m, cs)
    &&& board.flag_total() <= i32::MAX
    &&& m.len() == board.mine_count - board.flag_total()
}

/// Under every possible layout, when the constrained squares fall into clusters small enough to be
/// counted exactly (at most 24 squares each), the estimate is never wrong about a certainty.
pub open spec fn sound_for(e: Estimate, board: &Board, cs: Seq<Constraint>, unknowns: Set<Pos>) -> bool {
    forall|m: Set<Pos>| #[trigger] possible_layout(board, cs, unknowns, m) && small_clusters(cs) ==> agrees(e, m)
}

/// Which squares of `cells` the layout `m` puts mines on.
pub open spec fn mark(cells: Seq<Pos>, m: Set<Pos>) -> Seq<bool> {
    Seq::new(cells.len(), |i: int| m.contains(cells[i]))
}

pub proof fn lemma_marked_mark(cells: Seq<Pos>, m: Set<Pos>)
    ensures
        marked(cells, mark(cells, m)) == cells.to_set().intersect(m),
{
    assert forall|p: Pos| marked(cells, mark(cells, m)).contains(p) <==> cells.to_set().intersect(m).contains(p) by {
        if cells.to_set().intersect(m).contains(p) {
            let i = choose|i: int| 0 <= i < cells.len() && cells[i] == p;
            assert(mark(cells, m)[i]);
        }
    }
    assert(marked(cells, mark(cells, m)) =~= cells.to_set().intersect(m));
}

pub proof fn lemma_local_sound(e: Estimate, region: Set<Pos>, board: &Board, cs: Seq<Constraint>, unknowns: Set<Pos>)
    requires
        local_ok(e, region, cs),
        forall|i: int| 0 <= i < cs.len() ==> (#[trigger] cs[i]).wf(),
    ensures
        sound_for(e, board, cs, unknowns),
{
    assert forall|m: Set<Pos>| #[trigger] possible_layout(board, cs, unknowns, m) && small_clusters(cs) implies agrees(e, m) by {
        if e.certain_safe {
            let i = choose|i: int| 0 <= i < cs.len() && (#[trigger] cs[i]).demand().0.contains(e.cell) && cs[i].need <= 0;
            assert(holds(m, cs[i].demand()));
            lemma_card(cs[i].unknowns@);
            let x = cs[i].demand().0.intersect(m);
            vstd::set_lib::lemma_set_empty_equivalency_len(x);
            assert(!x.contains(e.cell));
        }
    }
}

/// The layout's share of each group, and how those shares add up.
pub proof fn lemma_layout_counts(gs: Seq<Vec<Pos>>, small: Seq<Vec<Pos>>, counts: Seq<GroupCounts>, cs: Seq<Constraint>, m: Set<Pos>) -> (ks: Seq<int>)
    requires
        partitions(gs, cs),
        small.len() == gs.len(),
        counts.len() == gs.len(),
        forall|j: int| 0 <= j < small.len() ==> (#[trigger] small[j])@ == gs[j]@,
        forall|j: int| 0 <= j < small.len() ==> covers((#[trigger] small[j])@, counts[j], cs),
        all_hold(m, cs),
    ensures
        ks.len() == gs.len(),
        forall|j: int| 0 <= j < ks.len() ==> #[trigger] ks[j] == mines_in(mark(small[j]@, m)),
        forall|j: int| 0 <= j < ks.len() ==> (#[trigger] counts[j]).counted(mark(small[j]@, m)),
        forall|j: int| 0 <= j < ks.len() ==> 0 <= #[trigger] ks[j] <= small[j]@.len(),
        supported(ks, counts, gs.len() as int, gs.len() as int),
        sum_except(ks, gs.len() as int, gs.len() as int) == squares_of(cs).intersect(m).len(),
{
    let n = gs.len() as int;
    let ks = Seq::new(gs.len(), |j: int| mines_in(mark(small[j]@, m)) as int);
    assert forall|j: int| 0 <= j < n implies (#[trigger] counts[j]).counted(mark(small[j]@, m))
        && 0 <= ks[j] <= small[j]@.len() && ks[j] == small[j]@.to_set().intersect(m).len() by {
        let cells = small[j]@;
        let a = mark(cells, m);
        assert(covers(cells, counts[j], cs));
        lemma_marked_mark(cells, m);
        assert forall|i: int| 0 <= i < cs.len() && (#[trigger] cs[i]).demand().0.subset_of(cells.to_set())
            implies holds(marked(cells, a), cs[i].demand()) by {
            assert(cs[i].demand().0.intersect(marked(cells, a)) =~= cs[i].demand().0.intersect(m));
        }
        assert(meets_within(cells, a, cs));
        lemma_mines_in_le(a);
        lemma_mines_in_marked(cells, a);
    }
    assert forall|j: int| 0 <= j < n && j != n implies 0 <= #[trigger] ks[j] < counts[j].dist@.len() && counts[j].dist@[ks[j]] > 0 by {
        assert(counts[j].counted(mark(small[j]@, m)));
        assert(covers(small[j]@, counts[j], cs));
    }
    lemma_partition_sum(gs, small, ks, m, n);
    assert(gs.take(n) == gs);
    ks
}

pub proof fn lemma_partition_sum(gs: Seq<Vec<Pos>>, small: Seq<Vec<Pos>>, ks: Seq<int>, m: Set<Pos>, t: int)
    requires
        0 <= t <= gs.len(),
        ks.len() == gs.len(),
        small.len() == gs.len(),
        forall|j: int| 0 <= j < small.len() ==> (#[trigger] small[j])@ == gs[j]@,
        forall|j: int| 0 <= j < ks.len() ==> ks[j] == (#[trigger] small[j])@.to_set().intersect(m).len(),
        forall|k: int, l: int| 0 <= k < gs.len() && 0 <= l < gs.len() && k != l ==>
            (#[trigger] gs[k])@.to_set().disjoint((#[trigger] gs[l])@.to_set()),
    ensures
        sum_except(ks, gs.len() as int, t) == union_of(group_sets(gs.take(t))).intersect(m).len(),
        union_of(group_sets(gs.take(t))).finite(),
    decreases t,
{
    if t == 0 {
        assert(group_sets(gs.take(0)) =~= Seq::<Set<Pos>>::empty());
        assert(union_of(group_sets(gs.take(0))).intersect(m) =~= Set::empty());
    } else {
        lemma_partition_sum(gs, small, ks, m, t - 1);
        let before = union_of(group_sets(gs.take(t - 1)));
        let g = gs[t - 1]@.to_set();
        assert(group_sets(gs.take(t)).drop_last() =~= group_sets(gs.take(t - 1)));
        assert(group_sets(gs.take(t)).last() == g);
        assert(union_of(group_sets(gs.take(t))) == before.union(g));
        lemma_union_of(group_sets(gs.take(t - 1)));
        assert(before.disjoint(g)) by {
            assert forall|p: Pos| before.contains(p) implies !g.contains(p) by {
                let k = choose|k: int| 0 <= k < group_sets(gs.take(t - 1)).len() && (#[trigger] group_sets(gs.take(t - 1))[k]).contains(p);
                assert(group_sets(gs.take(t - 1))[k] == gs[k]@.to_set());
                assert(gs[k]@.to_set().disjoint(gs[t - 1]@.to_set()));
            }
        }
        assert(before.union(g).intersect(m) =~= before.intersect(m).union(g.intersect(m)));
        assert(before.intersect(m).disjoint(g.intersect(m)));
        vstd::set_lib::lemma_set_disjoint_lens(before.intersect(m), g.intersect(m));
        assert(ks[t - 1] == small[t - 1]@.to_set().intersect(m).len());
    }
}

pub proof fn lemma_sum_except_split(ks: Seq<int>, j: int, n: int, t: int)
    requires
        0 <= j < n,
        j < t <= n,
    ensures
        sum_except(ks, n, t) == sum_except(ks, j, t) + ks[j],
    decreases t,
{
    if t > j + 1 {
        lemma_sum_except_split(ks, j, n, t - 1);
    } else {
        lemma_sum_except_same(ks, j, n, j);
    }
}

pub proof fn lemma_sum_except_same(ks: Seq<int>, j: int, n: int, t: int)
    requires
        0 <= t <= j,
        j < n,
    ensures
        sum_except(ks, n, t) == sum_except(ks, j, t),
    decreases t,
{
    if t > 0 {
        lemma_sum_except_same(ks, j, n, t - 1);
    }
}

pub proof fn lemma_remaining(board: &Board, cs: Seq<Constraint>, unknowns: Set<Pos>, m: Set<Pos>, flags: i32, rem: i64, r: u64)
    requires
        possible_layout(board, cs, unknowns, m),
        flags == board.flag_total() as i32,
        rem == board.mine_count - flags,
        r == if rem > 0 { rem as u64 } else { 0 },
    ensures
        r == m.len(),
{
}

pub proof fn lemma_split_layout(m: Set<Pos>, unknowns: Set<Pos>, b: Set<Pos>)
    requires
        m.finite(),
        m.subset_of(unknowns),
    ensures
        m.len() == b.intersect(m).len() + unknowns.difference(b).intersect(m).len(),
{
    let x = b.intersect(m);
    let y = unknowns.difference(b).intersect(m);
    assert(m =~= x.union(y));
    assert(x.disjoint(y));
    vstd::set_lib::lemma_set_disjoint_lens(x, y);
}

/// Every group is a set of constrained squares connected to one another, so none has more than 24 squares.
pub proof fn lemma_groups_small(gs: Seq<Vec<Pos>>, cs: Seq<Constraint>)
    requires
        partitions(gs, cs),
        grouped(gs, cs),
        small_clusters(cs),
    ensures
        forall|k: int| 0 <= k < gs.len() ==> (#[trigger] gs[k])@.len() <= 24,
{
    lemma_squares_of(cs);
    lemma_union_of(group_sets(gs));
    assert forall|k: int| 0 <= k < gs.len() implies (#[trigger] gs[k])@.len() <= 24 by {
        let s = gs[k]@.to_set();
        assert forall|p: Pos| s.contains(p) implies squares_of(cs).contains(p) by {
            assert(group_sets(gs)[k].contains(p));
        }
        assert forall|p: Pos, q: Pos| s.contains(p) && s.contains(q) implies connected(cs, p, q) by {
            assert(gs[k]@.to_set().contains(p) && gs[k]@.to_set().contains(q));
        }
        assert(s.subset_of(squares_of(cs)));
        lemma_card(gs[k]@);
    }
}

/// Some estimate is about square `p`.
pub open spec fn has_cell(out: Seq<Estimate>, p: Pos) -> bool {
    exists|e: int| 0 <= e < out.len() && (#[trigger] out[e]).cell == p
}

/// Adding an estimate keeps every square that had one, and gives its own square one.
pub proof fn lemma_has_cell_push(out: Seq<Estimate>, est: Estimate)
    ensures
        forall|p: Pos| has_cell(out, p) ==> #[trigger] has_cell(out.push(est), p),
        has_cell(out.push(est), est.cell),
{
    assert forall|p: Pos| has_cell(out, p) implies #[trigger] has_cell(out.push(est), p) by {
        let e = choose|e: int| 0 <= e < out.len() && (#[trigger] out[e]).cell == p;
        assert(out.push(est)[e] == out[e]);
    }
    assert(out.push(est)[out.len() as int] == est);
}

/// The mines the board has left once every flag is taken for a mine, and none when that is negative.
pub open spec fn mines_left(board: &Board) -> int {
    let d = board.mine_count - (board.flag_total() as i32);
    if d > 0 {
        d
    } else {
        0
    }
}

/// A finite set has a subset of each size up to its own.
pub proof fn lemma_subset_of_size(s: Set<Pos>, t: nat)
    requires
        s.finite(),
        t <= s.len(),
    ensures
        exists|x: Set<Pos>| #[trigger] x.subset_of(s) && x.finite() && x.len() == t,
    decreases t,
{
    if t == 0 {
        assert(Set::<Pos>::empty().subset_of(s));
    } else {
        lemma_subset_of_size(s, (t - 1) as nat);
        let x = choose|x: Set<Pos>| #[trigger] x.subset_of(s) && x.finite() && x.len() == t - 1;
        if s.subset_of(x) {
            vstd::set_lib::lemma_len_subset(s, x);
            assert(false);
        }
        let y = choose|y: Pos| s.contains(y) && !x.contains(y);
        assert(x.insert(y).subset_of(s));
    }
}

/// A finite set has, for each size up to its own, a subset of that size holding its element `p`,
/// and, below its own size, one without `p`.
pub proof fn lemma_subset_with(s: Set<Pos>, p: Pos, t: nat)
    requires
        s.finite(),
        s.contains(p),
    ensures
        1 <= t <= s.len() ==> exists|x: Set<Pos>| #[trigger] x.subset_of(s) && x.finite() && x.len() == t && x.contains(p),
        t < s.len() ==> exists|x: Set<Pos>| #[trigger] x.subset_of(s) && x.finite() && x.len() == t && !x.contains(p),
{
    let rest = s.remove(p);
    if 1 <= t <= s.len() {
        lemma_subset_of_size(rest, (t - 1) as nat);
        let x = choose|x: Set<Pos>| #[trigger] x.subset_of(rest) && x.finite() && x.len() == t - 1;
        assert(x.insert(p).subset_of(s));
        assert(!x.contains(p));
    }
    if t < s.len() {
        lemma_subset_of_size(rest, t);
        let x = choose|x: Set<Pos>| #[trigger] x.subset_of(rest) && x.finite() && x.len() == t;
        assert(x.subset_of(s));
    }
}

/// A square lies in the groups before `n` but `skip` just when one of them holds it.
pub proof fn lemma_union_except(cellss: Seq<Seq<Pos>>, skip: int, n: int)
    requires
        n <= cellss.len(),
    ensures
        forall|p: Pos| #[trigger] union_except(cellss, skip, n).contains(p) <==>
            exists|k: int| 0 <= k < n && k != skip && (#[trigger] cellss[k]).contains(p),
        union_except(cellss, skip, n).finite(),
    decreases n,
{
    if n > 0 {
        lemma_union_except(cellss, skip, n - 1);
        vstd::seq_lib::seq_to_set_is_finite(cellss[n - 1]);
        assert forall|p: Pos| #[trigger] union_except(cellss, skip, n).contains(p) <==>
            exists|k: int| 0 <= k < n && k != skip && (#[trigger] cellss[k]).contains(p) by {
            if union_except(cellss, skip, n).contains(p) && !union_except(cellss, skip, n - 1).contains(p) {
                assert(cellss[n - 1].to_set().contains(p));
                assert(cellss[n - 1].contains(p));
            }
            if exists|k: int| 0 <= k < n && k != skip && (#[trigger] cellss[k]).contains(p) {
                let k = choose|k: int| 0 <= k < n && k != skip && (#[trigger] cellss[k]).contains(p);
                if k == n - 1 {
                    assert(cellss[n - 1].to_set().contains(p));
                }
            }
        }
    }
}

/// A layout spread over the groups but one, with a fitting layout of that group added, is spread
/// over all the groups, with the mines of both.
pub proof fn lemma_spread_add(cellss: Seq<Seq<Pos>>, cs: Seq<Constraint>, j: int, so: Set<Pos>, sj: Set<Pos>)
    requires
        0 <= j < cellss.len(),
        spread(cellss, cs, j, cellss.len() as int, so),
        group_fit(cellss[j], cs, sj),
        forall|a: int, b: int| 0 <= a < b < cellss.len() ==> (#[trigger] cellss[a]).to_set().disjoint((#[trigger] cellss[b]).to_set()),
    ensures
        spread(cellss, cs, cellss.len() as int, cellss.len() as int, so.union(sj)),
        so.union(sj).len() == so.len() + sj.len(),
{
    let n = cellss.len() as int;
    lemma_union_except(cellss, j, n);
    lemma_union_except(cellss, n, n);
    let cj = cellss[j].to_set();
    assert forall|k: int| 0 <= k < n && k != j implies (#[trigger] cellss[k]).to_set().disjoint(cj) by {
        if k < j {
            assert(cellss[k].to_set().disjoint(cellss[j].to_set()));
        } else {
            assert(cellss[j].to_set().disjoint(cellss[k].to_set()));
        }
    }
    assert(so.disjoint(sj)) by {
        assert forall|p: Pos| so.contains(p) implies !sj.contains(p) by {
            assert(union_except(cellss, j, n).contains(p));
            let k = choose|k: int| 0 <= k < n && k != j && (#[trigger] cellss[k]).contains(p);
            assert(cellss[k].to_set().contains(p));
        }
    }
    vstd::set_lib::lemma_set_disjoint_lens(so, sj);
    let s = so.union(sj);
    assert(s.subset_of(union_except(cellss, n, n))) by {
        assert forall|p: Pos| s.contains(p) implies union_except(cellss, n, n).contains(p) by {
            if so.contains(p) {
                let k = choose|k: int| 0 <= k < n && k != j && (#[trigger] cellss[k]).contains(p);
            } else {
                assert(cj.contains(p));
                assert(cellss[j].contains(p));
            }
        }
    }
    assert forall|k: int| 0 <= k < n && k != n implies group_fit(cellss[k], cs, #[trigger] s.intersect(cellss[k].to_set())) by {
        if k == j {
            assert forall|p: Pos| so.contains(p) implies !cj.contains(p) by {
                let kk = choose|kk: int| 0 <= kk < n && kk != j && (#[trigger] cellss[kk]).contains(p);
                assert(cellss[kk].to_set().contains(p));
            }
            assert(s.intersect(cj) =~= sj);
        } else {
            assert(cellss[k].to_set().disjoint(cj));
            assert(s.intersect(cellss[k].to_set()) =~= so.intersect(cellss[k].to_set()));
        }
    }
}

/// Fitting layouts of all the groups, with as many more mines on unconstrained squares as make up
/// the count of a possible layout, make a possible layout.
pub proof fn lemma_build_layout(board: &Board, cs: Seq<Constraint>, unk: Set<Pos>, groups: Seq<Vec<Pos>>,
    cellss: Seq<Seq<Pos>>, s: Set<Pos>, t: Set<Pos>, m0: Set<Pos>)
    requires
        partitions(groups, cs),
        cellss.len() == groups.len(),
        forall|k: int| 0 <= k < groups.len() ==> #[trigger] cellss[k] == groups[k]@,
        squares_of(cs).subset_of(unk),
        spread(cellss, cs, cellss.len() as int, cellss.len() as int, s),
        t.finite(),
        t.subset_of(unk.difference(squares_of(cs))),
        possible_layout(board, cs, unk, m0),
        s.len() + t.len() == m0.len(),
    ensures
        possible_layout(board, cs, unk, s.union(t)),
{
    let n = cellss.len() as int;
    lemma_union_except(cellss, n, n);
    lemma_union_of(group_sets(groups));
    lemma_squares_of(cs);
    assert(s.subset_of(squares_of(cs))) by {
        assert forall|p: Pos| s.contains(p) implies squares_of(cs).contains(p) by {
            let k = choose|k: int| 0 <= k < n && k != n && (#[trigger] cellss[k]).contains(p);
            assert(group_sets(groups)[k].contains(p));
            assert(union_of(group_sets(groups)).contains(p));
        }
    }
    assert(s.disjoint(t));
    vstd::set_lib::lemma_set_disjoint_lens(s, t);
    let m = s.union(t);
    assert forall|i: int| 0 <= i < cs.len() implies holds(m, #[trigger] cs[i].demand()) by {
        let c = cs[i].demand();
        let k = choose|k: int| 0 <= k < groups.len() && (#[trigger] cs[i]).demand().0.subset_of((#[trigger] groups[k])@.to_set());
        let ck = cellss[k].to_set();
        assert(c.0.subset_of(ck));
        assert(group_fit(cellss[k], cs, s.intersect(ck)));
        assert(holds(s.intersect(ck), c));
        assert forall|p: Pos| c.0.contains(p) implies !t.contains(p) by {
            assert(squares_of(cs).contains(p));
        }
        assert(c.0.intersect(m) =~= c.0.intersect(s.intersect(ck)));
    }
}

/// `cellss` are the squares of the groups `groups` of the constraints `cs`, which lie among the
/// unknown squares `unk`.
pub open spec fn grouped_board(cs: Seq<Constraint>, unk: Set<Pos>, groups: Seq<Vec<Pos>>, cellss: Seq<Seq<Pos>>) -> bool {
    &&& partitions(groups, cs)
    &&& cellss.len() == groups.len()
    &&& forall|k: int| 0 <= k < groups.len() ==> #[trigger] cellss[k] == groups[k]@
    &&& squares_of(cs).subset_of(unk)
    &&& unk.finite()
}

/// The possible layouts.
pub open spec fn layouts(board: &Board, cs: Seq<Constraint>, unk: Set<Pos>) -> Set<Set<Pos>> {
    Set::new(|m: Set<Pos>| possible_layout(board, cs, unk, m))
}

/// The possible layouts with fewer than `a` mines on the constrained squares.
pub open spec fn layouts_below(board: &Board, cs: Seq<Constraint>, unk: Set<Pos>, a: int) -> Set<Set<Pos>> {
    Set::new(|m: Set<Pos>| possible_layout(board, cs, unk, m) && m.intersect(squares_of(cs)).len() < a)
}

/// For each `k < a`: the layouts of all the groups with `k` mines times the ways to place the
/// other `r - k` mines on the unconstrained squares `u`, added up.
pub open spec fn layout_sum(cellss: Seq<Seq<Pos>>, cs: Seq<Constraint>, u: Set<Pos>, r: int, a: int) -> int
    decreases a,
{
    if a <= 0 {
        0
    } else {
        layout_sum(cellss, cs, u, r, a - 1)
            + spreads(cellss, cs, cellss.len() as int, cellss.len() as int, a - 1).len() * choices(u, r - (a - 1)).len()
    }
}

/// The groups together hold exactly the constrained squares, and no two share a square.
pub proof fn lemma_groups_cover(cs: Seq<Constraint>, unk: Set<Pos>, groups: Seq<Vec<Pos>>, cellss: Seq<Seq<Pos>>)
    requires
        grouped_board(cs, unk, groups, cellss),
    ensures
        union_except(cellss, cellss.len() as int, cellss.len() as int) == squares_of(cs),
        squares_of(cs).finite(),
        forall|a: int, b: int| 0 <= a < b < cellss.len() ==> (#[trigger] cellss[a]).to_set().disjoint((#[trigger] cellss[b]).to_set()),
{
    let n = cellss.len() as int;
    lemma_union_except(cellss, n, n);
    lemma_union_of(group_sets(groups));
    assert forall|p: Pos| #[trigger] union_except(cellss, n, n).contains(p) <==> squares_of(cs).contains(p) by {
        if union_except(cellss, n, n).contains(p) {
            let k = choose|k: int| 0 <= k < n && k != n && (#[trigger] cellss[k]).contains(p);
            assert(group_sets(groups)[k].contains(p));
        }
        if squares_of(cs).contains(p) {
            let k = choose|k: int| 0 <= k < group_sets(groups).len() && (#[trigger] group_sets(groups)[k]).contains(p);
            assert(cellss[k].contains(p));
        }
    }
    assert(union_except(cellss, n, n) =~= squares_of(cs));
    assert forall|a: int, b: int| 0 <= a < b < cellss.len() implies (#[trigger] cellss[a]).to_set().disjoint((#[trigger] cellss[b]).to_set()) by {
        assert(groups[a]@.to_set().disjoint(groups[b]@.to_set()));
    }
}

/// The possible layouts with `k` mines on the constrained squares are the layouts of the groups
/// with `k` mines, each with each way to place the other mines on the unconstrained squares.
pub proof fn lemma_layouts_below_step(board: &Board, cs: Seq<Constraint>, unk: Set<Pos>, groups: Seq<Vec<Pos>>,
    cellss: Seq<Seq<Pos>>, m0: Set<Pos>, k: int)
    requires
        grouped_board(cs, unk, groups, cellss),
        possible_layout(board, cs, unk, m0),
        0 <= k,
    ensures
        layouts_below(board, cs, unk, k + 1) == layouts_below(board, cs, unk, k).union(
            joins(spreads(cellss, cs, cellss.len() as int, cellss.len() as int, k), choices(unk.difference(squares_of(cs)), m0.len() - k))),
        layouts_below(board, cs, unk, k).disjoint(
            joins(spreads(cellss, cs, cellss.len() as int, cellss.len() as int, k), choices(unk.difference(squares_of(cs)), m0.len() - k))),
{
    let n = cellss.len() as int;
    let sq = squares_of(cs);
    let u = unk.difference(sq);
    let a = spreads(cellss, cs, n, n, k);
    let b = choices(u, m0.len() - k);
    let lo = layouts_below(board, cs, unk, k);
    let hi = layouts_below(board, cs, unk, k + 1);
    lemma_groups_cover(cs, unk, groups, cellss);
    assert forall|m: Set<Pos>| hi.contains(m) && !lo.contains(m) implies joins(a, b).contains(m) by {
        let s = m.intersect(sq);
        let t = m.intersect(u);
        assert(m =~= s.union(t));
        vstd::set_lib::lemma_set_disjoint_lens(s, t);
        assert forall|kk: int| 0 <= kk < n && kk != n implies group_fit(cellss[kk], cs, #[trigger] s.intersect(cellss[kk].to_set())) by {
            let ck = cellss[kk].to_set();
            assert(ck.subset_of(sq)) by {
                lemma_union_except_has(cellss, n, n, kk);
            }
            assert forall|c: int| 0 <= c < cs.len() && (#[trigger] cs[c]).demand().0.subset_of(ck)
                implies holds(s.intersect(ck), cs[c].demand()) by {
                assert(holds(m, cs[c].demand()));
                assert(cs[c].demand().0.intersect(s.intersect(ck)) =~= cs[c].demand().0.intersect(m));
            }
        }
        assert(spread(cellss, cs, n, n, s));
        assert(a.contains(s));
        assert(b.contains(t));
    }
    assert forall|m: Set<Pos>| joins(a, b).contains(m) implies hi.contains(m) && m.intersect(sq).len() == k by {
        let (s, t) = choose|s: Set<Pos>, t: Set<Pos>| #[trigger] a.contains(s) && #[trigger] b.contains(t) && m == s.union(t);
        vstd::set_lib::lemma_set_disjoint_lens(s, t);
        lemma_build_layout(board, cs, unk, groups, cellss, s, t, m0);
        assert(m.intersect(sq) =~= s);
    }
    assert(hi =~= lo.union(joins(a, b)));
    assert forall|m: Set<Pos>| lo.contains(m) implies !joins(a, b).contains(m) by {
        if joins(a, b).contains(m) {
            let (s, t) = choose|s: Set<Pos>, t: Set<Pos>| #[trigger] a.contains(s) && #[trigger] b.contains(t) && m == s.union(t);
            assert(m.intersect(sq) =~= s);
        }
    }
}

/// The possible layouts with fewer than `a` mines on the constrained squares number `layout_sum(.., a)`.
pub proof fn lemma_layouts_below_len(board: &Board, cs: Seq<Constraint>, unk: Set<Pos>, groups: Seq<Vec<Pos>>,
    cellss: Seq<Seq<Pos>>, m0: Set<Pos>, a: int)
    requires
        grouped_board(cs, unk, groups, cellss),
        possible_layout(board, cs, unk, m0),
        0 <= a,
    ensures
        layouts_below(board, cs, unk, a).finite(),
        layouts_below(board, cs, unk, a).len()
            == layout_sum(cellss, cs, unk.difference(squares_of(cs)), m0.len() as int, a),
    decreases a,
{
    let n = cellss.len() as int;
    let sq = squares_of(cs);
    let u = unk.difference(sq);
    if a == 0 {
        assert(layouts_below(board, cs, unk, a) =~= Set::<Set<Pos>>::empty());
    } else {
        let k = a - 1;
        lemma_layouts_below_len(board, cs, unk, groups, cellss, m0, k);
        lemma_layouts_below_step(board, cs, unk, groups, cellss, m0, k);
        lemma_groups_cover(cs, unk, groups, cellss);
        let sp = spreads(cellss, cs, n, n, k);
        let ch = choices(u, m0.len() - k);
        lemma_subsets_finite(sq);
        assert(sp.subset_of(subsets_of(sq)));
        vstd::set_lib::lemma_len_subset(sp, subsets_of(sq));
        if m0.len() - k >= 0 {
            lemma_choices_count(u, (m0.len() - k) as nat);
        } else {
            assert(ch =~= Set::<Set<Pos>>::empty());
        }
        lemma_joins_len(sp, ch, sq, u);
        vstd::set_lib::lemma_set_disjoint_lens(layouts_below(board, cs, unk, k), joins(sp, ch));
    }
}

/// Every possible layout is a layout of the groups with some number `k` of mines on the
/// constrained squares together with a placement of the other `r - k` mines on the unconstrained
/// squares, and each such pair is a possible layout: there are `layout_sum` of them, where `r` is
/// the number of mines of any possible layout.
pub proof fn lemma_layouts_count(board: &Board, cs: Seq<Constraint>, unk: Set<Pos>, groups: Seq<Vec<Pos>>,
    cellss: Seq<Seq<Pos>>, m0: Set<Pos>, a: int)
    requires
        grouped_board(cs, unk, groups, cellss),
        possible_layout(board, cs, unk, m0),
        a > squares_of(cs).len(),
    ensures
        layouts(board, cs, unk).finite(),
        layouts(board, cs, unk).len() == layout_sum(cellss, cs, unk.difference(squares_of(cs)), m0.len() as int, a),
{
    lemma_groups_cover(cs, unk, groups, cellss);
    lemma_layouts_below_len(board, cs, unk, groups, cellss, m0, a);
    assert(layouts_below(board, cs, unk, a) =~= layouts(board, cs, unk)) by {
        assert forall|m: Set<Pos>| #[trigger] layouts(board, cs, unk).contains(m)
            implies m.intersect(squares_of(cs)).len() < a by {
            vstd::set_lib::lemma_len_intersect(squares_of(cs), m);
            assert(squares_of(cs).intersect(m) =~= m.intersect(squares_of(cs)));
        }
    }
}

/// A possible layout splits into its part on group `j`, which fits that group, its part on the
/// other groups, spread over them, and its part on the unconstrained squares.
pub proof fn lemma_layout_parts(board: &Board, cs: Seq<Constraint>, unk: Set<Pos>, groups: Seq<Vec<Pos>>,
    cellss: Seq<Seq<Pos>>, j: int, m: Set<Pos>)
    requires
        grouped_board(cs, unk, groups, cellss),
        0 <= j < cellss.len(),
        possible_layout(board, cs, unk, m),
    ensures
        group_fit(cellss[j], cs, m.intersect(cellss[j].to_set())),
        spread(cellss, cs, j, cellss.len() as int, m.intersect(union_except(cellss, j, cellss.len() as int))),
        m.intersect(unk.difference(squares_of(cs))).finite(),
        m =~= m.intersect(cellss[j].to_set()).union(m.intersect(union_except(cellss, j, cellss.len() as int)))
            .union(m.intersect(unk.difference(squares_of(cs)))),
        m.len() == m.intersect(cellss[j].to_set()).len() + m.intersect(union_except(cellss, j, cellss.len() as int)).len()
            + m.intersect(unk.difference(squares_of(cs))).len(),
        cellss[j].to_set().disjoint(union_except(cellss, j, cellss.len() as int)),
        squares_of(cs) == cellss[j].to_set().union(union_except(cellss, j, cellss.len() as int)),
{
    let n = cellss.len() as int;
    let sq = squares_of(cs);
    let cj = cellss[j].to_set();
    let o = union_except(cellss, j, n);
    let u = unk.difference(sq);
    lemma_groups_cover(cs, unk, groups, cellss);
    lemma_union_except(cellss, j, n);
    lemma_union_except(cellss, n, n);
    assert(sq =~= cj.union(o)) by {
        assert forall|p: Pos| sq.contains(p) implies cj.union(o).contains(p) by {
            let k = choose|k: int| 0 <= k < n && k != n && (#[trigger] cellss[k]).contains(p);
            if k == j {
                assert(cj.contains(p));
            }
        }
        assert forall|p: Pos| cj.contains(p) implies sq.contains(p) by {
            assert(cellss[j].contains(p));
        }
    }
    assert(cj.disjoint(o)) by {
        assert forall|p: Pos| o.contains(p) implies !cj.contains(p) by {
            let k = choose|k: int| 0 <= k < n && k != j && (#[trigger] cellss[k]).contains(p);
            assert(cellss[k].to_set().contains(p));
            if k < j {
                assert(cellss[k].to_set().disjoint(cj));
            } else {
                assert(cj.disjoint(cellss[k].to_set()));
            }
        }
    }
    let f = m.intersect(cj);
    let g = m.intersect(o);
    let h = m.intersect(u);
    assert(m =~= f.union(g).union(h));
    vstd::set_lib::lemma_set_disjoint_lens(f, g);
    vstd::set_lib::lemma_set_disjoint_lens(f.union(g), h);
    assert forall|kk: int| 0 <= kk < n implies group_fit(cellss[kk], cs, #[trigger] m.intersect(cellss[kk].to_set())) by {
        let ck = cellss[kk].to_set();
        lemma_union_except_has(cellss, n, n, kk);
        assert forall|c: int| 0 <= c < cs.len() && (#[trigger] cs[c]).demand().0.subset_of(ck)
            implies holds(m.intersect(ck), cs[c].demand()) by {
            assert(holds(m, cs[c].demand()));
            assert(cs[c].demand().0.intersect(m.intersect(ck)) =~= cs[c].demand().0.intersect(m));
        }
    }
    assert(group_fit(cellss[j], cs, f));
    assert forall|kk: int| 0 <= kk < n && kk != j implies group_fit(cellss[kk], cs, #[trigger] g.intersect(cellss[kk].to_set())) by {
        lemma_union_except_has(cellss, j, n, kk);
        assert(g.intersect(cellss[kk].to_set()) =~= m.intersect(cellss[kk].to_set()));
    }
}

/// The possible layouts with square `p` a mine (`v`) or safe.
pub open spec fn layouts_with(board: &Board, cs: Seq<Constraint>, unk: Set<Pos>, p: Pos, v: bool) -> Set<Set<Pos>> {
    Set::new(|m: Set<Pos>| possible_layout(board, cs, unk, m) && m.contains(p) == v)
}

/// Those with fewer than `a` mines on group `j`.
pub open spec fn with_below(board: &Board, cs: Seq<Constraint>, unk: Set<Pos>, cellss: Seq<Seq<Pos>>, j: int,
    p: Pos, v: bool, a: int) -> Set<Set<Pos>> {
    Set::new(|m: Set<Pos>| possible_layout(board, cs, unk, m) && m.contains(p) == v
        && m.intersect(cellss[j].to_set()).len() < a)
}

/// Those with `mc` mines on group `j` and fewer than `b` on the other groups.
pub open spec fn with_at_below(board: &Board, cs: Seq<Constraint>, unk: Set<Pos>, cellss: Seq<Seq<Pos>>, j: int,
    p: Pos, v: bool, mc: int, b: int) -> Set<Set<Pos>> {
    Set::new(|m: Set<Pos>| possible_layout(board, cs, unk, m) && m.contains(p) == v
        && m.intersect(cellss[j].to_set()).len() == mc
        && m.intersect(union_except(cellss, j, cellss.len() as int)).len() < b)
}

/// The layouts made of a fitting layout of group `j` with `mc` mines and `p` a mine (`v`) or safe,
/// a layout of the other groups with `o` mines, and `r - mc - o` mines on the squares `u`.
pub open spec fn joined_three(cellss: Seq<Seq<Pos>>, cs: Seq<Constraint>, u: Set<Pos>, j: int, p: Pos, v: bool,
    r: int, mc: int, o: int) -> Set<Set<Pos>> {
    joins(joins(fits_at(cellss[j], cs, mc, p, v), spreads(cellss, cs, j, cellss.len() as int, o)), choices(u, r - mc - o))
}

/// Each layout so joined is a possible layout with `p` that way, `mc` mines on group `j` and `o`
/// on the others.
pub proof fn lemma_three_parts(board: &Board, cs: Seq<Constraint>, unk: Set<Pos>, groups: Seq<Vec<Pos>>,
    cellss: Seq<Seq<Pos>>, m0: Set<Pos>, j: int, p: Pos, v: bool, mc: int, o: int, m: Set<Pos>)
    requires
        grouped_board(cs, unk, groups, cellss),
        possible_layout(board, cs, unk, m0),
        0 <= j < cellss.len(),
        cellss[j].contains(p),
        joined_three(cellss, cs, unk.difference(squares_of(cs)), j, p, v, m0.len() as int, mc, o).contains(m),
    ensures
        possible_layout(board, cs, unk, m),
        m.contains(p) == v,
        m.intersect(cellss[j].to_set()).len() == mc,
        m.intersect(union_except(cellss, j, cellss.len() as int)).len() == o,
{
    let n = cellss.len() as int;
    let sq = squares_of(cs);
    let u = unk.difference(sq);
    let cj = cellss[j].to_set();
    let ot = union_except(cellss, j, n);
    let ff = fits_at(cellss[j], cs, mc, p, v);
    let gg = spreads(cellss, cs, j, n, o);
    let hh = choices(u, m0.len() - mc - o);
    lemma_layout_parts(board, cs, unk, groups, cellss, j, m0);
    lemma_groups_cover(cs, unk, groups, cellss);
    let (x, h) = choose|x: Set<Pos>, h: Set<Pos>| #[trigger] joins(ff, gg).contains(x) && #[trigger] hh.contains(h) && m == x.union(h);
    let (f, g) = choose|f: Set<Pos>, g: Set<Pos>| #[trigger] ff.contains(f) && #[trigger] gg.contains(g) && x == f.union(g);
    lemma_spread_add(cellss, cs, j, g, f);
    assert(x =~= g.union(f));
    lemma_build_layout(board, cs, unk, groups, cellss, x, h, m0);
    assert(cj.contains(p));
    assert(m.intersect(cj) =~= f);
    assert(m.intersect(ot) =~= g);
}

/// The possible layouts with `p` that way and `mc` mines on group `j` with fewer than `b + 1` on
/// the other groups are those with fewer than `b` and those joined with exactly `b`.
pub proof fn lemma_with_at_below_step(board: &Board, cs: Seq<Constraint>, unk: Set<Pos>, groups: Seq<Vec<Pos>>,
    cellss: Seq<Seq<Pos>>, m0: Set<Pos>, j: int, p: Pos, v: bool, mc: int, b: int)
    requires
        grouped_board(cs, unk, groups, cellss),
        possible_layout(board, cs, unk, m0),
        0 <= j < cellss.len(),
        cellss[j].contains(p),
        0 <= b,
    ensures
        with_at_below(board, cs, unk, cellss, j, p, v, mc, b + 1) == with_at_below(board, cs, unk, cellss, j, p, v, mc, b)
            .union(joined_three(cellss, cs, unk.difference(squares_of(cs)), j, p, v, m0.len() as int, mc, b)),
        with_at_below(board, cs, unk, cellss, j, p, v, mc, b)
            .disjoint(joined_three(cellss, cs, unk.difference(squares_of(cs)), j, p, v, m0.len() as int, mc, b)),
{
    let n = cellss.len() as int;
    let sq = squares_of(cs);
    let u = unk.difference(sq);
    let cj = cellss[j].to_set();
    let ot = union_except(cellss, j, n);
    let lo = with_at_below(board, cs, unk, cellss, j, p, v, mc, b);
    let hi = with_at_below(board, cs, unk, cellss, j, p, v, mc, b + 1);
    let three = joined_three(cellss, cs, u, j, p, v, m0.len() as int, mc, b);
    let ff = fits_at(cellss[j], cs, mc, p, v);
    let gg = spreads(cellss, cs, j, n, b);
    let hh = choices(u, m0.len() - mc - b);
    assert(cj.contains(p));
    assert forall|m: Set<Pos>| hi.contains(m) && !lo.contains(m) implies three.contains(m) by {
        lemma_layout_parts(board, cs, unk, groups, cellss, j, m);
        let f = m.intersect(cj);
        let g = m.intersect(ot);
        let h = m.intersect(u);
        assert(ff.contains(f));
        assert(gg.contains(g));
        assert(hh.contains(h));
        assert(joins(ff, gg).contains(f.union(g)));
    }
    assert forall|m: Set<Pos>| three.contains(m) implies hi.contains(m) && !lo.contains(m) by {
        lemma_three_parts(board, cs, unk, groups, cellss, m0, j, p, v, mc, b, m);
    }
    assert(hi =~= lo.union(three));
}

/// The weights of `ways_row` are never negative.
pub proof fn lemma_ways_row_nonneg(x: int, other: Seq<u128>, r: int, u: Set<Pos>, mc: int, a: int)
    requires
        x >= 0,
    ensures
        ways_row(x, other, r, u, mc, a) >= 0,
    decreases a,
{
    if a > 0 {
        lemma_ways_row_nonneg(x, other, r, u, mc, a - 1);
        let y = other[a - 1] as int;
        let z = choices(u, r - mc - (a - 1)).len() as int;
        assert(x * y * z >= 0) by (nonlinear_arith)
            requires x >= 0, y >= 0, z >= 0;
    }
}

/// The weights of `ways_all` are never negative.
pub proof fn lemma_ways_all_nonneg(row: Seq<u128>, other: Seq<u128>, r: int, u: Set<Pos>, a: int)
    ensures
        ways_all(row, other, r, u, a) >= 0,
    decreases a,
{
    if a > 0 {
        lemma_ways_all_nonneg(row, other, r, u, a - 1);
        lemma_ways_row_nonneg(row[a - 1] as int, other, r, u, a - 1, other.len() as int);
    }
}

/// A product of capped counts and a count that stays below the cap is the product of the counts.
pub proof fn lemma_capped_product(xx: int, yy: int, z: int)
    requires
        xx >= 0,
        yy >= 0,
        z >= 0,
        capped(xx) * capped(yy) * z < u128::MAX,
    ensures
        capped(xx) * capped(yy) * z == xx * yy * z,
{
    let m = u128::MAX as int;
    let x = capped(xx);
    let y = capped(yy);
    if z == 0 || x == 0 || y == 0 {
        assert(x * y * z == 0 && xx * yy * z == 0) by (nonlinear_arith)
            requires z == 0 || (x == 0 && xx == 0) || (y == 0 && yy == 0);
    } else {
        assert(x < m && y < m) by (nonlinear_arith)
            requires x >= 1, y >= 1, z >= 1, x * y * z < m;
    }
}

/// Below the cap, `ways_row` of the capped counts counts the possible layouts with `p` that way,
/// `mc` mines on group `j` and fewer than `b` on the other groups.
pub proof fn lemma_with_at_below_capped(board: &Board, cs: Seq<Constraint>, unk: Set<Pos>, groups: Seq<Vec<Pos>>,
    cellss: Seq<Seq<Pos>>, m0: Set<Pos>, j: int, p: Pos, v: bool, mc: int, other: Seq<u128>, b: int)
    requires
        grouped_board(cs, unk, groups, cellss),
        possible_layout(board, cs, unk, m0),
        0 <= j < cellss.len(),
        cellss[j].contains(p),
        0 <= b <= other.len(),
        forall|o: int| #![trigger spreads(cellss, cs, j, cellss.len() as int, o)] 0 <= o < other.len() ==>
            other[o] == capped(spreads(cellss, cs, j, cellss.len() as int, o).len() as int),
    ensures
        with_at_below(board, cs, unk, cellss, j, p, v, mc, b).finite(),
        ways_row(capped(fits_at(cellss[j], cs, mc, p, v).len() as int), other, m0.len() as int, unk.difference(squares_of(cs)), mc, b)
            < u128::MAX ==>
        with_at_below(board, cs, unk, cellss, j, p, v, mc, b).len() == ways_row(capped(fits_at(cellss[j], cs, mc, p, v).len() as int),
            other, m0.len() as int, unk.difference(squares_of(cs)), mc, b),
    decreases b,
{
    let x = capped(fits_at(cellss[j], cs, mc, p, v).len() as int);
    let u = unk.difference(squares_of(cs));
    if b == 0 {
        assert(with_at_below(board, cs, unk, cellss, j, p, v, mc, b) =~= Set::<Set<Pos>>::empty());
    } else {
        let n = cellss.len() as int;
        let o = b - 1;
        let sq = squares_of(cs);
        let cj = cellss[j].to_set();
        let ot = union_except(cellss, j, n);
        let ff = fits_at(cellss[j], cs, mc, p, v);
        let gg = spreads(cellss, cs, j, n, o);
        let hh = choices(u, m0.len() - mc - o);
        lemma_with_at_below_capped(board, cs, unk, groups, cellss, m0, j, p, v, mc, other, o);
        lemma_with_at_below_step(board, cs, unk, groups, cellss, m0, j, p, v, mc, o);
        lemma_layout_parts(board, cs, unk, groups, cellss, j, m0);
        lemma_groups_cover(cs, unk, groups, cellss);
        lemma_union_except(cellss, j, n);
        lemma_card(cellss[j]);
        lemma_subsets_finite(cj);
        assert(ff.subset_of(subsets_of(cj)));
        vstd::set_lib::lemma_len_subset(ff, subsets_of(cj));
        lemma_subsets_finite(ot);
        assert(gg.subset_of(subsets_of(ot)));
        vstd::set_lib::lemma_len_subset(gg, subsets_of(ot));
        if m0.len() - mc - o >= 0 {
            lemma_choices_count(u, (m0.len() - mc - o) as nat);
        } else {
            assert(hh =~= Set::<Set<Pos>>::empty());
        }
        lemma_joins_len(ff, gg, cj, ot);
        assert forall|y: Set<Pos>| #[trigger] joins(ff, gg).contains(y) implies y.subset_of(sq) by {
            let (f, g) = choose|f: Set<Pos>, g: Set<Pos>| #[trigger] ff.contains(f) && #[trigger] gg.contains(g) && y == f.union(g);
        }
        lemma_joins_len(joins(ff, gg), hh, sq, u);
        vstd::set_lib::lemma_set_disjoint_lens(with_at_below(board, cs, unk, cellss, j, p, v, mc, o),
            joined_three(cellss, cs, u, j, p, v, m0.len() as int, mc, o));
        lemma_ways_row_nonneg(x, other, m0.len() as int, u, mc, o);
        let y = other[o] as int;
        let z = hh.len() as int;
        assert(x * y * z >= 0) by (nonlinear_arith)
            requires x >= 0, y >= 0, z >= 0;
        if ways_row(x, other, m0.len() as int, u, mc, b) < u128::MAX {
            lemma_capped_product(ff.len() as int, gg.len() as int, hh.len() as int);
        }
    }
}

/// Below the cap, `ways_all` of the capped counts counts the possible layouts with `p` that way
/// and fewer than `a` mines on group `j`.
pub proof fn lemma_with_below_capped(board: &Board, cs: Seq<Constraint>, unk: Set<Pos>, groups: Seq<Vec<Pos>>,
    cellss: Seq<Seq<Pos>>, m0: Set<Pos>, j: int, p: Pos, v: bool, row: Seq<u128>, other: Seq<u128>, a: int)
    requires
        grouped_board(cs, unk, groups, cellss),
        possible_layout(board, cs, unk, m0),
        0 <= j < cellss.len(),
        cellss[j].contains(p),
        0 <= a <= row.len(),
        forall|mc: int| #![trigger fits_at(cellss[j], cs, mc, p, v)] 0 <= mc < row.len() ==>
            row[mc] == capped(fits_at(cellss[j], cs, mc, p, v).len() as int),
        forall|o: int| #![trigger spreads(cellss, cs, j, cellss.len() as int, o)] 0 <= o < other.len() ==>
            other[o] == capped(spreads(cellss, cs, j, cellss.len() as int, o).len() as int),
        other.len() > m0.len() || other.len() > squares_of(cs).len(),
    ensures
        with_below(board, cs, unk, cellss, j, p, v, a).finite(),
        ways_all(row, other, m0.len() as int, unk.difference(squares_of(cs)), a) < u128::MAX ==>
            with_below(board, cs, unk, cellss, j, p, v, a).len() == ways_all(row, other, m0.len() as int, unk.difference(squares_of(cs)), a),
    decreases a,
{
    if a == 0 {
        assert(with_below(board, cs, unk, cellss, j, p, v, a) =~= Set::<Set<Pos>>::empty());
    } else {
        let n = cellss.len() as int;
        let mc = a - 1;
        let sq = squares_of(cs);
        let u = unk.difference(sq);
        let ot = union_except(cellss, j, n);
        let lo = with_below(board, cs, unk, cellss, j, p, v, mc);
        let at = with_at_below(board, cs, unk, cellss, j, p, v, mc, other.len() as int);
        lemma_with_below_capped(board, cs, unk, groups, cellss, m0, j, p, v, row, other, mc);
        lemma_with_at_below_capped(board, cs, unk, groups, cellss, m0, j, p, v, mc, other, other.len() as int);
        lemma_groups_cover(cs, unk, groups, cellss);
        assert forall|m: Set<Pos>| with_below(board, cs, unk, cellss, j, p, v, a).contains(m) && !lo.contains(m)
            implies at.contains(m) by {
            lemma_layout_parts(board, cs, unk, groups, cellss, j, m);
            vstd::set_lib::lemma_len_subset(m.intersect(ot), sq);
        }
        assert(with_below(board, cs, unk, cellss, j, p, v, a) =~= lo.union(at));
        vstd::set_lib::lemma_set_disjoint_lens(lo, at);
        lemma_ways_all_nonneg(row, other, m0.len() as int, u, mc);
        lemma_ways_row_nonneg(row[mc] as int, other, m0.len() as int, u, mc, other.len() as int);
    }
}

/// The possible layouts split by whether the square `p` is a mine.
pub proof fn lemma_layouts_split(board: &Board, cs: Seq<Constraint>, unk: Set<Pos>, p: Pos)
    requires
        unk.finite(),
    ensures
        layouts(board, cs, unk).finite(),
        layouts_with(board, cs, unk, p, true).finite(),
        layouts_with(board, cs, unk, p, false).finite(),
        layouts(board, cs, unk).len()
            == layouts_with(board, cs, unk, p, true).len() + layouts_with(board, cs, unk, p, false).len(),
{
    lemma_subsets_finite(unk);
    assert(layouts(board, cs, unk).subset_of(subsets_of(unk)));
    vstd::set_lib::lemma_len_subset(layouts(board, cs, unk), subsets_of(unk));
    assert(layouts(board, cs, unk) =~= layouts_with(board, cs, unk, p, true).union(layouts_with(board, cs, unk, p, false)));
    vstd::set_lib::lemma_len_subset(layouts_with(board, cs, unk, p, true), layouts(board, cs, unk));
    vstd::set_lib::lemma_len_subset(layouts_with(board, cs, unk, p, false), layouts(board, cs, unk));
    vstd::set_lib::lemma_set_disjoint_lens(layouts_with(board, cs, unk, p, true), layouts_with(board, cs, unk, p, false));
}

/// Below the cap, the weights of square `i` of group `j`, from the group's exact counts `k` and the
/// capped numbers `other` of layouts of the other groups, count the possible layouts with a mine
/// on the square (`w.0`) and without one (`w.1`).
pub proof fn lemma_cell_weights_count(board: &Board, cs: Seq<Constraint>, unk: Set<Pos>, groups: Seq<Vec<Pos>>,
    cellss: Seq<Seq<Pos>>, m0: Set<Pos>, j: int, i: int, k: GroupCounts, other: Seq<u128>, w: (u128, u128))
    requires
        grouped_board(cs, unk, groups, cellss),
        possible_layout(board, cs, unk, m0),
        0 <= j < cellss.len(),
        0 <= i < cellss[j].len(),
        k.shaped(cellss[j].len()),
        k.exact(cellss[j], cs),
        forall|o: int| #![trigger spreads(cellss, cs, j, cellss.len() as int, o)] 0 <= o < other.len() ==>
            other[o] == capped(spreads(cellss, cs, j, cellss.len() as int, o).len() as int),
        other.len() > m0.len() || other.len() > squares_of(cs).len(),
        w.0 < u128::MAX ==> w.0 == ways_all(k.mine_at@[i]@, other, m0.len() as int, unk.difference(squares_of(cs)), cellss[j].len() as int + 1),
        w.1 < u128::MAX ==> w.1 == ways_all(k.safe_at@[i]@, other, m0.len() as int, unk.difference(squares_of(cs)), cellss[j].len() as int + 1),
    ensures
        w.0 < u128::MAX ==> w.0 == layouts_with(board, cs, unk, cellss[j][i], true).len(),
        w.1 < u128::MAX ==> w.1 == layouts_with(board, cs, unk, cellss[j][i], false).len(),
{
    let g = cellss[j].len() as int;
    let p = cellss[j][i];
    assert(cellss[j].contains(p));
    assert(groups[j]@.no_duplicates());
    lemma_card(cellss[j]);
    assert forall|v: bool| #![trigger layouts_with(board, cs, unk, p, v)]
        with_below(board, cs, unk, cellss, j, p, v, g + 1) == layouts_with(board, cs, unk, p, v) by {
        assert forall|m: Set<Pos>| #[trigger] layouts_with(board, cs, unk, p, v).contains(m)
            implies m.intersect(cellss[j].to_set()).len() < g + 1 by {
            vstd::set_lib::lemma_len_intersect(cellss[j].to_set(), m);
            assert(cellss[j].to_set().intersect(m) =~= m.intersect(cellss[j].to_set()));
        }
        assert(with_below(board, cs, unk, cellss, j, p, v, g + 1) =~= layouts_with(board, cs, unk, p, v));
    }
    let mrow = k.mine_at@[i]@;
    let srow = k.safe_at@[i]@;
    assert forall|mc: int| #![trigger fits_at(cellss[j], cs, mc, p, true)] 0 <= mc < mrow.len() implies
        mrow[mc] == capped(fits_at(cellss[j], cs, mc, p, true).len() as int) by {
        assert(k.mine_at@[i]@[mc] == capped(fits_at(cellss[j], cs, mc, cellss[j][i], true).len() as int));
    }
    assert forall|mc: int| #![trigger fits_at(cellss[j], cs, mc, p, false)] 0 <= mc < srow.len() implies
        srow[mc] == capped(fits_at(cellss[j], cs, mc, p, false).len() as int) by {
        assert(k.safe_at@[i]@[mc] == capped(fits_at(cellss[j], cs, mc, cellss[j][i], false).len() as int));
    }
    lemma_with_below_capped(board, cs, unk, groups, cellss, m0, j, p, true, mrow, other, g + 1);
    lemma_with_below_capped(board, cs, unk, groups, cellss, m0, j, p, false, srow, other, g + 1);
    assert(layouts_with(board, cs, unk, p, true) == with_below(board, cs, unk, cellss, j, p, true, g + 1));
    assert(layouts_with(board, cs, unk, p, false) == with_below(board, cs, unk, cellss, j, p, false, g + 1));
}

/// Below the cap, the estimate counts possible layouts: `mine` of them with a mine on the square,
/// and `total` of them in all.
pub open spec fn counts_layouts(e: Estimate, board: &Board, cs: Seq<Constraint>, unk: Set<Pos>) -> bool {
    &&& e.mine < u128::MAX ==> e.mine == layouts_with(board, cs, unk, e.cell, true).len()
    &&& e.total < u128::MAX ==> e.total == layouts(board, cs, unk).len()
}

/// The estimate of a square of a group, its `mine` the weight with a mine there and its `total`
/// the weights with and without one added (or another positive number where both are 0), counts
/// possible layouts.
pub proof fn lemma_group_estimate_counts(board: &Board, cs: Seq<Constraint>, unk: Set<Pos>, groups: Seq<Vec<Pos>>,
    cellss: Seq<Seq<Pos>>, m0: Set<Pos>, j: int, i: int, k: GroupCounts, other: Seq<u128>, w: (u128, u128), est: Estimate)
    requires
        grouped_board(cs, unk, groups, cellss),
        possible_layout(board, cs, unk, m0),
        0 <= j < cellss.len(),
        0 <= i < cellss[j].len(),
        k.shaped(cellss[j].len()),
        k.exact(cellss[j], cs),
        forall|o: int| #![trigger spreads(cellss, cs, j, cellss.len() as int, o)] 0 <= o < other.len() ==>
            other[o] == capped(spreads(cellss, cs, j, cellss.len() as int, o).len() as int),
        other.len() > m0.len() || other.len() > squares_of(cs).len(),
        w.0 < u128::MAX ==> w.0 == ways_all(k.mine_at@[i]@, other, m0.len() as int, unk.difference(squares_of(cs)), cellss[j].len() as int + 1),
        w.1 < u128::MAX ==> w.1 == ways_all(k.safe_at@[i]@, other, m0.len() as int, unk.difference(squares_of(cs)), cellss[j].len() as int + 1),
        est.cell == cellss[j][i],
        est.mine == w.0,
        est.total > 0,
        w.0 as int + w.1 as int > 0 ==> est.total == capped(w.0 + w.1),
    ensures
        counts_layouts(est, board, cs, unk),
{
    let p = cellss[j][i];
    lemma_cell_weights_count(board, cs, unk, groups, cellss, m0, j, i, k, other, w);
    lemma_layouts_split(board, cs, unk, p);
    assert(layouts(board, cs, unk).contains(m0));
    if layouts(board, cs, unk).len() == 0 {
        vstd::set_lib::lemma_set_empty_equivalency_len(layouts(board, cs, unk));
    }
}

/// The possible layouts with `p` a mine (`v`) or safe and fewer than `a` mines on the constrained
/// squares.
pub open spec fn open_below(board: &Board, cs: Seq<Constraint>, unk: Set<Pos>, p: Pos, v: bool, a: int) -> Set<Set<Pos>> {
    Set::new(|m: Set<Pos>| possible_layout(board, cs, unk, m) && m.contains(p) == v
        && m.intersect(squares_of(cs)).len() < a)
}

/// For an unconstrained square `p`, the possible layouts with `p` a mine (`v`) or safe and `k`
/// mines on the constrained squares are the layouts of the groups with `k` mines, each with each
/// placement of the other mines on the unconstrained squares with `p` that way.
pub proof fn lemma_open_below_step(board: &Board, cs: Seq<Constraint>, unk: Set<Pos>, groups: Seq<Vec<Pos>>,
    cellss: Seq<Seq<Pos>>, m0: Set<Pos>, p: Pos, v: bool, k: int)
    requires
        grouped_board(cs, unk, groups, cellss),
        possible_layout(board, cs, unk, m0),
        unk.difference(squares_of(cs)).contains(p),
        0 <= k,
    ensures
        open_below(board, cs, unk, p, v, k + 1) == open_below(board, cs, unk, p, v, k).union(
            joins(spreads(cellss, cs, cellss.len() as int, cellss.len() as int, k),
                choices_at(unk.difference(squares_of(cs)), p, m0.len() - k, v))),
        open_below(board, cs, unk, p, v, k).disjoint(
            joins(spreads(cellss, cs, cellss.len() as int, cellss.len() as int, k),
                choices_at(unk.difference(squares_of(cs)), p, m0.len() - k, v))),
{
    let n = cellss.len() as int;
    let sq = squares_of(cs);
    let u = unk.difference(sq);
    let a = spreads(cellss, cs, n, n, k);
    let b = choices_at(u, p, m0.len() - k, v);
    let lo = open_below(board, cs, unk, p, v, k);
    let hi = open_below(board, cs, unk, p, v, k + 1);
    lemma_groups_cover(cs, unk, groups, cellss);
    assert forall|m: Set<Pos>| hi.contains(m) && !lo.contains(m) implies joins(a, b).contains(m) by {
        let s = m.intersect(sq);
        let t = m.intersect(u);
        assert(m =~= s.union(t));
        vstd::set_lib::lemma_set_disjoint_lens(s, t);
        assert forall|kk: int| 0 <= kk < n && kk != n implies group_fit(cellss[kk], cs, #[trigger] s.intersect(cellss[kk].to_set())) by {
            let ck = cellss[kk].to_set();
            assert(ck.subset_of(sq)) by {
                lemma_union_except_has(cellss, n, n, kk);
            }
            assert forall|c: int| 0 <= c < cs.len() && (#[trigger] cs[c]).demand().0.subset_of(ck)
                implies holds(s.intersect(ck), cs[c].demand()) by {
                assert(holds(m, cs[c].demand()));
                assert(cs[c].demand().0.intersect(s.intersect(ck)) =~= cs[c].demand().0.intersect(m));
            }
        }
        assert(spread(cellss, cs, n, n, s));
        assert(a.contains(s));
        assert(choices(u, m0.len() - k).contains(t));
        assert(b.contains(t));
    }
    assert forall|m: Set<Pos>| joins(a, b).contains(m) implies hi.contains(m) && !lo.contains(m) by {
        let (s, t) = choose|s: Set<Pos>, t: Set<Pos>| #[trigger] a.contains(s) && #[trigger] b.contains(t) && m == s.union(t);
        vstd::set_lib::lemma_set_disjoint_lens(s, t);
        lemma_build_layout(board, cs, unk, groups, cellss, s, t, m0);
        assert(m.intersect(sq) =~= s);
        assert(!s.contains(p));
    }
    assert(hi =~= lo.union(joins(a, b)));
}

/// For an unconstrained square `p`, the possible layouts with `p` a mine (`v`) or safe and fewer
/// than `a` mines on the constrained squares number `open_ways` of the layouts of the groups `c`.
pub proof fn lemma_open_below_len(board: &Board, cs: Seq<Constraint>, unk: Set<Pos>, groups: Seq<Vec<Pos>>,
    cellss: Seq<Seq<Pos>>, m0: Set<Pos>, p: Pos, v: bool, c: Seq<int>, a: int)
    requires
        grouped_board(cs, unk, groups, cellss),
        possible_layout(board, cs, unk, m0),
        unk.difference(squares_of(cs)).contains(p),
        0 <= a <= c.len(),
        forall|k: int| #![trigger spreads(cellss, cs, cellss.len() as int, cellss.len() as int, k)] 0 <= k < c.len() ==>
            c[k] == spreads(cellss, cs, cellss.len() as int, cellss.len() as int, k).len(),
    ensures
        open_below(board, cs, unk, p, v, a).finite(),
        open_below(board, cs, unk, p, v, a).len()
            == open_ways(c, unk.difference(squares_of(cs)), p, m0.len() as int, a, v),
    decreases a,
{
    let n = cellss.len() as int;
    let sq = squares_of(cs);
    let u = unk.difference(sq);
    if a == 0 {
        assert(open_below(board, cs, unk, p, v, a) =~= Set::<Set<Pos>>::empty());
    } else {
        let k = a - 1;
        lemma_open_below_len(board, cs, unk, groups, cellss, m0, p, v, c, k);
        lemma_open_below_step(board, cs, unk, groups, cellss, m0, p, v, k);
        lemma_groups_cover(cs, unk, groups, cellss);
        let sp = spreads(cellss, cs, n, n, k);
        let ch = choices_at(u, p, m0.len() - k, v);
        assert(c[k] == sp.len());
        lemma_subsets_finite(sq);
        assert(sp.subset_of(subsets_of(sq)));
        vstd::set_lib::lemma_len_subset(sp, subsets_of(sq));
        if m0.len() - k >= 0 {
            lemma_choices_count(u, (m0.len() - k) as nat);
            assert(ch.subset_of(choices(u, m0.len() - k)));
            vstd::set_lib::lemma_len_subset(ch, choices(u, m0.len() - k));
        } else {
            assert(ch =~= Set::<Set<Pos>>::empty());
        }
        lemma_joins_len(sp, ch, sq, u);
        vstd::set_lib::lemma_set_disjoint_lens(open_below(board, cs, unk, p, v, k), joins(sp, ch));
    }
}

/// Below the cap, the chance `mine / total` of the estimate is the share of the possible layouts
/// with a mine on the square.
pub open spec fn rates_layouts(e: Estimate, board: &Board, cs: Seq<Constraint>, unk: Set<Pos>) -> bool {
    e.mine < u128::MAX && e.total < u128::MAX ==>
        e.mine * layouts(board, cs, unk).len() == e.total * layouts_with(board, cs, unk, e.cell, true).len()
}

/// An estimate that counts the layouts rates them.
pub proof fn lemma_counts_rates(e: Estimate, board: &Board, cs: Seq<Constraint>, unk: Set<Pos>)
    requires
        counts_layouts(e, board, cs, unk),
    ensures
        rates_layouts(e, board, cs, unk),
{
}

/// The open weight of the first `n` counts is at least the term of each of them, and never
/// negative, when the counts vanish where no placement is left.
pub proof fn lemma_open_weight_ge(w: Seq<u128>, r: int, uc: int, n: int, mines: bool, k: int)
    requires
        0 <= n <= w.len(),
        uc >= 0,
        forall|j: int| 0 <= j < w.len() && (j > r || r - j > uc) ==> #[trigger] w[j] == 0,
    ensures
        open_weight(w, r, uc, n, mines) >= 0,
        0 <= k < n && w[k] > 0 ==> open_weight(w, r, uc, n, mines) >= capped(w[k] * if mines { r - k } else { uc - (r - k) }),
    decreases n,
{
    if n > 0 {
        lemma_open_weight_ge(w, r, uc, n - 1, mines, k);
        let j = n - 1;
        if w[j] > 0 {
            let f = if mines { r - j } else { uc - (r - j) };
            assert(w[j] * f >= 0) by (nonlinear_arith)
                requires w[j] > 0, f >= 0;
        }
    }
}

/// Below the cap, the estimate of an unconstrained square `p` — its `mine` and the sum with its
/// safe weight from `open_weights`, over the layout weights `w` of `total_weights` and the capped
/// layout counts `combined` of the groups — rates the possible layouts.
pub proof fn lemma_open_estimate_rates(board: &Board, cs: Seq<Constraint>, unk: Set<Pos>, groups: Seq<Vec<Pos>>,
    cellss: Seq<Seq<Pos>>, m0: Set<Pos>, p: Pos, combined: Seq<u128>, w: Seq<u128>, e: (u128, u128), est: Estimate)
    requires
        grouped_board(cs, unk, groups, cellss),
        possible_layout(board, cs, unk, m0),
        unk.difference(squares_of(cs)).contains(p),
        w.len() == combined.len(),
        combined.len() > m0.len() || combined.len() > squares_of(cs).len(),
        forall|t: int| #![trigger spreads(cellss, cs, cellss.len() as int, cellss.len() as int, t)] 0 <= t < combined.len() ==>
            combined[t] == capped(spreads(cellss, cs, cellss.len() as int, cellss.len() as int, t).len() as int),
        forall|k: int| 0 <= k < w.len() && #[trigger] w[k] < u128::MAX ==>
            w[k] == combined[k] * choices(unk.difference(squares_of(cs)), m0.len() - k).len(),
        forall|k: int| 0 <= k < w.len() && (k > m0.len() || m0.len() - k > unk.difference(squares_of(cs)).len()) ==> #[trigger] w[k] == 0,
        e.0 == capped(open_weight(w, m0.len() as int, unk.difference(squares_of(cs)).len() as int, w.len() as int, true)),
        e.1 == capped(open_weight(w, m0.len() as int, unk.difference(squares_of(cs)).len() as int, w.len() as int, false)),
        forall|c: Seq<int>| #[trigger] weighs(w, c, unk.difference(squares_of(cs)), m0.len() as int) && e.0 < u128::MAX ==>
            e.0 == unk.difference(squares_of(cs)).len() * open_ways(c, unk.difference(squares_of(cs)), p, m0.len() as int, w.len() as int, true),
        forall|c: Seq<int>| #[trigger] weighs(w, c, unk.difference(squares_of(cs)), m0.len() as int) && e.1 < u128::MAX ==>
            e.1 == unk.difference(squares_of(cs)).len() * open_ways(c, unk.difference(squares_of(cs)), p, m0.len() as int, w.len() as int, false),
        est.cell == p,
        est.mine == e.0,
        est.total > 0,
        e.0 as int + e.1 as int > 0 ==> est.total == capped(e.0 + e.1),
    ensures
        rates_layouts(est, board, cs, unk),
{
    let n = cellss.len() as int;
    let sq = squares_of(cs);
    let u = unk.difference(sq);
    let r = m0.len() as int;
    let uc = u.len() as int;
    lemma_groups_cover(cs, unk, groups, cellss);
    vstd::set_lib::lemma_set_empty_equivalency_len(u);
    if e.0 < u128::MAX && e.1 < u128::MAX {
        assert forall|k: int| 0 <= k < w.len() implies #[trigger] w[k] < u128::MAX by {
            lemma_open_weight_ge(w, r, uc, w.len() as int, true, k);
            lemma_open_weight_ge(w, r, uc, w.len() as int, false, k);
            if w[k] == u128::MAX {
                let m = u128::MAX as int;
                if r - k >= 1 {
                    assert(w[k] * (r - k) >= m) by (nonlinear_arith)
                        requires w[k] == m, r - k >= 1;
                } else {
                    assert(w[k] * (uc - (r - k)) >= m) by (nonlinear_arith)
                        requires w[k] == m, uc - (r - k) >= 1;
                }
            }
        }
        let c = Seq::new(w.len(), |k: int| spreads(cellss, cs, n, n, k).len() as int);
        assert forall|k: int| 0 <= k < w.len() implies #[trigger] w[k] == c[k] * choices(u, r - k).len() by {
            let sk = spreads(cellss, cs, n, n, k).len() as int;
            let ch = choices(u, r - k).len() as int;
            assert(combined[k] == capped(sk));
            assert(w[k] == combined[k] * ch);
            if ch >= 1 {
                assert(combined[k] < u128::MAX) by (nonlinear_arith)
                    requires combined[k] * ch < u128::MAX, ch >= 1, combined[k] >= 0;
            } else {
                assert(combined[k] * ch == 0 && sk * ch == 0) by (nonlinear_arith)
                    requires ch == 0;
            }
        }
        assert(weighs(w, c, u, r));
        let len = w.len() as int;
        lemma_open_below_len(board, cs, unk, groups, cellss, m0, p, true, c, len);
        lemma_open_below_len(board, cs, unk, groups, cellss, m0, p, false, c, len);
        assert forall|v: bool| #![trigger layouts_with(board, cs, unk, p, v)]
            open_below(board, cs, unk, p, v, len) == layouts_with(board, cs, unk, p, v) by {
            assert forall|m: Set<Pos>| #[trigger] layouts_with(board, cs, unk, p, v).contains(m)
                implies m.intersect(sq).len() < len by {
                vstd::set_lib::lemma_len_intersect(sq, m);
                vstd::set_lib::lemma_len_intersect(m, sq);
                assert(sq.intersect(m) =~= m.intersect(sq));
            }
            assert(open_below(board, cs, unk, p, v, len) =~= layouts_with(board, cs, unk, p, v));
        }
        lemma_layouts_split(board, cs, unk, p);
        let lt = layouts_with(board, cs, unk, p, true).len() as int;
        let lf = layouts_with(board, cs, unk, p, false).len() as int;
        let ll = layouts(board, cs, unk).len() as int;
        assert(e.0 == uc * lt);
        assert(e.1 == uc * lf);
        assert(layouts(board, cs, unk).contains(m0));
        if ll == 0 {
            vstd::set_lib::lemma_set_empty_equivalency_len(layouts(board, cs, unk));
        }
        assert(uc * lt + uc * lf > 0) by (nonlinear_arith)
            requires uc >= 1, lt >= 0, lf >= 0, lt + lf >= 1;
        if est.total < u128::MAX {
            assert(est.total == uc * lt + uc * lf);
            assert(est.mine * ll == est.total * lt) by (nonlinear_arith)
                requires est.mine == uc * lt, est.total == uc * lt + uc * lf, ll == lt + lf;
        }
    } else {
        if est.mine < u128::MAX && est.total < u128::MAX {
            assert(e.0 as int + e.1 as int > 0);
        }
    }
}

/// With no constraints, the possible layouts are the placements of the remaining mines among the
/// unknown squares, and an estimate of that many mines over that many squares rates them.
pub proof fn lemma_free_estimate_rates(board: &Board, cs: Seq<Constraint>, unk: Set<Pos>, m0: Set<Pos>, est: Estimate)
    requires
        cs.len() == 0,
        unk.finite(),
        possible_layout(board, cs, unk, m0),
        unk.contains(est.cell),
        est.total == unk.len(),
        est.mine == m0.len(),
    ensures
        rates_layouts(est, board, cs, unk),
{
    let r = m0.len();
    let n = unk.len();
    let p = est.cell;
    vstd::set_lib::lemma_len_subset(m0, unk);
    assert(layouts(board, cs, unk) =~= choices(unk, r as int));
    assert(layouts_with(board, cs, unk, p, true) =~= choices_at(unk, p, r as int, true));
    lemma_choices_count(unk, r);
    lemma_choices_at(unk, p, r as int);
    vstd::set_lib::lemma_set_empty_equivalency_len(unk);
    lemma_choose_absorb(n, r);
    if r == 0 {
        assert(est.mine * layouts(board, cs, unk).len() == 0);
    } else {
        assert(est.mine * layouts(board, cs, unk).len() == binom(n, r) * r) by (nonlinear_arith)
            requires est.mine == r, layouts(board, cs, unk).len() == binom(n, r);
        assert(est.total * layouts_with(board, cs, unk, p, true).len() == n * binom((n - 1) as nat, (r - 1) as nat)) by (nonlinear_arith)
            requires est.total == n, layouts_with(board, cs, unk, p, true).len() == binom((n - 1) as nat, (r - 1) as nat);
    }
}

/// A positive pair weight comes from positive counts whose mines leave a possible remainder.
pub proof fn lemma_pair_pos(x: int, y: int, r: int, uc: int, mc: int, o: int)
    requires
        x >= 0,
        y >= 0,
    ensures
        pair_weight(x, y, r, uc, mc, o) >= 0,
        pair_weight(x, y, r, uc, mc, o) > 0 ==> x > 0 && y > 0 && mc <= r && o <= r - mc && r - mc - o <= uc,
{
    if mc <= r && o <= r - mc && r - mc - o <= uc {
        let b = binomial_of(uc, r - mc - o);
        assert(b >= 0);
        assert(x * y >= 0) by (nonlinear_arith) requires x >= 0, y >= 0;
        let c = capped(x * y);
        assert(c * b >= 0) by (nonlinear_arith) requires c >= 0, b >= 0;
        if x == 0 || y == 0 {
            assert(x * y == 0) by (nonlinear_arith) requires x == 0 || y == 0;
            assert(c * b == 0) by (nonlinear_arith) requires c == 0;
        }
    }
}

/// A positive row weight has a positive pair weight in it.
pub proof fn lemma_row_weight_pos(x: int, other: Seq<u128>, r: int, uc: int, mc: int, upto: int)
    requires
        x >= 0,
        upto <= other.len(),
    ensures
        row_weight(x, other, r, uc, mc, upto) >= 0,
        row_weight(x, other, r, uc, mc, upto) > 0 ==> exists|o: int| 0 <= o < upto
            && #[trigger] pair_weight(x, other[o] as int, r, uc, mc, o) > 0,
    decreases upto,
{
    if upto > 0 {
        lemma_row_weight_pos(x, other, r, uc, mc, upto - 1);
        lemma_pair_pos(x, other[upto - 1] as int, r, uc, mc, upto - 1);
    }
}

/// A positive cell weight comes from a positive count of the group and a positive count of the
/// other groups whose mines leave a possible number for the unconstrained squares.
pub proof fn lemma_cell_weight_pos(row: Seq<u128>, other: Seq<u128>, r: int, uc: int, upto: int)
    requires
        upto <= row.len(),
    ensures
        cell_weight(row, other, r, uc, upto) >= 0,
        cell_weight(row, other, r, uc, upto) > 0 ==> exists|mc: int, o: int| 0 <= mc < upto && 0 <= o < other.len()
            && #[trigger] row[mc] > 0 && #[trigger] other[o] > 0 && mc <= r && o <= r - mc && r - mc - o <= uc,
    decreases upto,
{
    if upto > 0 {
        lemma_cell_weight_pos(row, other, r, uc, upto - 1);
        let mc = upto - 1;
        lemma_row_weight_pos(row[mc] as int, other, r, uc, mc, other.len() as int);
        if cell_weight(row, other, r, uc, upto) > 0 && cell_weight(row, other, r, uc, upto - 1) <= 0 {
            let o = choose|o: int| 0 <= o < other.len() && #[trigger] pair_weight(row[mc] as int, other[o] as int, r, uc, mc, o) > 0;
            lemma_pair_pos(row[mc] as int, other[o] as int, r, uc, mc, o);
            assert(row[mc] > 0 && other[o] > 0);
        }
    }
}

/// A positive open weight comes from a positive weight of `k` mines in the groups that leaves some
/// mine (`mines`), or some free square, among the unconstrained squares.
pub proof fn lemma_open_weight_pos(w: Seq<u128>, r: int, uc: int, n: int, mines: bool)
    requires
        n <= w.len(),
        forall|k: int| 0 <= k < w.len() && #[trigger] w[k] > 0 ==> k <= r && r - k <= uc,
    ensures
        open_weight(w, r, uc, n, mines) >= 0,
        open_weight(w, r, uc, n, mines) > 0 ==> exists|k: int| 0 <= k < n && #[trigger] w[k] > 0
            && (if mines { r - k > 0 } else { uc - (r - k) > 0 }),
    decreases n,
{
    if n > 0 {
        lemma_open_weight_pos(w, r, uc, n - 1, mines);
        let k = n - 1;
        if w[k] > 0 {
            let f = if mines { r - k } else { uc - (r - k) };
            assert(f >= 0);
            assert(w[k] * f >= 0) by (nonlinear_arith) requires w[k] > 0, f >= 0;
            if f == 0 {
                assert(w[k] * f == 0) by (nonlinear_arith) requires f == 0;
            }
        }
    }
}

/// Where some layout is possible, the estimate calls a square surely safe, or surely a mine, only
/// when every possible layout agrees.
pub open spec fn complete_for(e: Estimate, board: &Board, cs: Seq<Constraint>, unknowns: Set<Pos>) -> bool {
    &&& !e.certain_safe ==> exists|m: Set<Pos>| #[trigger] possible_layout(board, cs, unknowns, m) && m.contains(e.cell)
    &&& !e.certain_mine ==> exists|m: Set<Pos>| #[trigger] possible_layout(board, cs, unknowns, m) && !m.contains(e.cell)
}

/// A positive weight for square `i` of group `j` (mined when `want_mine`, else safe) comes from a
/// possible layout with the square that way.
pub proof fn lemma_group_witness(board: &Board, cs: Seq<Constraint>, unk: Set<Pos>, groups: Seq<Vec<Pos>>,
    cellss: Seq<Seq<Pos>>, k: GroupCounts, j: int, i: int, other: Seq<u128>, cap: int, r: int, uc: int,
    unc: Set<Pos>, m0: Set<Pos>, want_mine: bool)
    requires
        partitions(groups, cs),
        cellss.len() == groups.len(),
        forall|kk: int| 0 <= kk < groups.len() ==> #[trigger] cellss[kk] == groups[kk]@,
        forall|a: int, b: int| 0 <= a < b < cellss.len() ==> (#[trigger] cellss[a]).to_set().disjoint((#[trigger] cellss[b]).to_set()),
        squares_of(cs).subset_of(unk),
        0 <= j < cellss.len(),
        k.shaped(cellss[j].len()),
        0 <= i < cellss[j].len(),
        k.backed(cellss[j], cs),
        other.len() == cap + 1,
        forall|t: int| 0 <= t <= cap && #[trigger] other[t] > 0 ==>
            exists|s: Set<Pos>| #[trigger] spread(cellss, cs, j, cellss.len() as int, s) && s.len() == t,
        unc.finite(),
        unc == unk.difference(squares_of(cs)),
        unc.len() == uc,
        possible_layout(board, cs, unk, m0),
        r == m0.len(),
        cell_weight(if want_mine { k.mine_at@[i]@ } else { k.safe_at@[i]@ }, other, r, uc, cellss[j].len() as int + 1) > 0,
    ensures
        exists|m: Set<Pos>| #[trigger] possible_layout(board, cs, unk, m) && m.contains(cellss[j][i]) == want_mine,
{
    let row = if want_mine { k.mine_at@[i]@ } else { k.safe_at@[i]@ };
    let g = cellss[j].len() as int;
    lemma_cell_weight_pos(row, other, r, uc, g + 1);
    let (mc, o) = choose|mc: int, o: int| 0 <= mc < g + 1 && 0 <= o < other.len()
        && #[trigger] row[mc] > 0 && #[trigger] other[o] > 0 && mc <= r && o <= r - mc && r - mc - o <= uc;
    let sj = if want_mine {
        assert(k.mine_at@[i]@[mc] > 0);
        choose|s: Set<Pos>| #[trigger] group_fit(cellss[j], cs, s) && s.len() == mc && s.contains(cellss[j][i])
    } else {
        assert(k.safe_at@[i]@[mc] > 0);
        choose|s: Set<Pos>| #[trigger] group_fit(cellss[j], cs, s) && s.len() == mc && !s.contains(cellss[j][i])
    };
    let so = choose|s: Set<Pos>| #[trigger] spread(cellss, cs, j, cellss.len() as int, s) && s.len() == o;
    lemma_spread_add(cellss, cs, j, so, sj);
    let sa = so.union(sj);
    lemma_subset_of_size(unc, (r - mc - o) as nat);
    let t = choose|x: Set<Pos>| #[trigger] x.subset_of(unc) && x.finite() && x.len() == r - mc - o;
    lemma_build_layout(board, cs, unk, groups, cellss, sa, t, m0);
    let m = sa.union(t);
    assert(possible_layout(board, cs, unk, m));
    // The square lies in group `j`, so the unconstrained squares and the other groups never hold it.
    let p = cellss[j][i];
    assert(cellss[j].contains(p));
    lemma_union_of(group_sets(groups));
    assert(group_sets(groups)[j].contains(p));
    assert(squares_of(cs).contains(p));
    assert(!t.contains(p));
    lemma_union_except(cellss, j, cellss.len() as int);
    assert(!so.contains(p)) by {
        if so.contains(p) {
            let kk = choose|kk: int| 0 <= kk < cellss.len() && kk != j && (#[trigger] cellss[kk]).contains(p);
            assert(cellss[kk].to_set().contains(p) && cellss[j].to_set().contains(p));
            if kk < j {
                assert(cellss[kk].to_set().disjoint(cellss[j].to_set()));
            } else {
                assert(cellss[j].to_set().disjoint(cellss[kk].to_set()));
            }
        }
    }
    assert(m.contains(p) == want_mine);
}

/// A positive open weight (mines when `want_mine`, else free squares) for the unconstrained square
/// `p` comes from a possible layout with `p` that way.
pub proof fn lemma_open_witness(board: &Board, cs: Seq<Constraint>, unk: Set<Pos>, groups: Seq<Vec<Pos>>,
    cellss: Seq<Seq<Pos>>, combined: Seq<u128>, w: Seq<u128>, cap: int, r: int, uc: int,
    unc: Set<Pos>, p: Pos, m0: Set<Pos>, want_mine: bool)
    requires
        partitions(groups, cs),
        cellss.len() == groups.len(),
        forall|kk: int| 0 <= kk < groups.len() ==> #[trigger] cellss[kk] == groups[kk]@,
        squares_of(cs).subset_of(unk),
        combined.len() == cap + 1,
        w.len() == combined.len(),
        forall|t: int| 0 <= t <= cap && #[trigger] combined[t] > 0 ==>
            exists|s: Set<Pos>| #[trigger] spread(cellss, cs, cellss.len() as int, cellss.len() as int, s) && s.len() == t,
        forall|t: int| 0 <= t < w.len() && #[trigger] w[t] > 0 ==> t <= r && r - t <= uc && combined[t] > 0,
        unc.finite(),
        unc == unk.difference(squares_of(cs)),
        unc.len() == uc,
        unc.contains(p),
        possible_layout(board, cs, unk, m0),
        r == m0.len(),
        open_weight(w, r, uc, w.len() as int, want_mine) > 0,
    ensures
        exists|m: Set<Pos>| #[trigger] possible_layout(board, cs, unk, m) && m.contains(p) == want_mine,
{
    lemma_open_weight_pos(w, r, uc, w.len() as int, want_mine);
    let kk = choose|kk: int| 0 <= kk < w.len() && #[trigger] w[kk] > 0 && (if want_mine { r - kk > 0 } else { uc - (r - kk) > 0 });
    assert(combined[kk] > 0);
    let s = choose|s: Set<Pos>| #[trigger] spread(cellss, cs, cellss.len() as int, cellss.len() as int, s) && s.len() == kk;
    lemma_subset_with(unc, p, (r - kk) as nat);
    let t = if want_mine {
        choose|x: Set<Pos>| #[trigger] x.subset_of(unc) && x.finite() && x.len() == r - kk && x.contains(p)
    } else {
        choose|x: Set<Pos>| #[trigger] x.subset_of(unc) && x.finite() && x.len() == r - kk && !x.contains(p)
    };
    lemma_build_layout(board, cs, unk, groups, cellss, s, t, m0);
    let m = s.union(t);
    assert(possible_layout(board, cs, unk, m));
    lemma_union_except(cellss, cellss.len() as int, cellss.len() as int);
    assert(!s.contains(p)) by {
        if s.contains(p) {
            let k2 = choose|k2: int| 0 <= k2 < cellss.len() && k2 != cellss.len() && (#[trigger] cellss[k2]).contains(p);
            lemma_union_of(group_sets(groups));
            assert(group_sets(groups)[k2].contains(p));
            assert(squares_of(cs).contains(p));
        }
    }
    assert(m.contains(p) == want_mine);
}

/// The estimate of square `i` of group `j`, made from the weights of the layouts with the square
/// mined and safe, is complete where some layout is possible.
pub proof fn lemma_group_complete(board: &Board, cs: Seq<Constraint>, unk: Set<Pos>, groups: Seq<Vec<Pos>>,
    cellss: Seq<Seq<Pos>>, k: GroupCounts, j: int, i: int, other: Seq<u128>, cap: int, r: int, uc: int,
    unc: Set<Pos>, m0: Set<Pos>, est: Estimate, mine_w: int, safe_w: int)
    requires
        partitions(groups, cs),
        cellss.len() == groups.len(),
        forall|kk: int| 0 <= kk < groups.len() ==> #[trigger] cellss[kk] == groups[kk]@,
        forall|a: int, b: int| 0 <= a < b < cellss.len() ==> (#[trigger] cellss[a]).to_set().disjoint((#[trigger] cellss[b]).to_set()),
        squares_of(cs).subset_of(unk),
        0 <= j < cellss.len(),
        k.shaped(cellss[j].len()),
        0 <= i < cellss[j].len(),
        k.backed(cellss[j], cs),
        other.len() == cap + 1,
        forall|t: int| 0 <= t <= cap && #[trigger] other[t] > 0 ==>
            exists|s: Set<Pos>| #[trigger] spread(cellss, cs, j, cellss.len() as int, s) && s.len() == t,
        unc.finite(),
        unc == unk.difference(squares_of(cs)),
        unc.len() == uc,
        possible_layout(board, cs, unk, m0),
        r == m0.len(),
        agrees(est, m0),
        est.cell == cellss[j][i],
        est.certain_safe == (mine_w == 0),
        est.certain_mine == (safe_w == 0 && mine_w > 0),
        mine_w == capped(cell_weight(k.mine_at@[i]@, other, r, uc, cellss[j].len() as int + 1)),
        safe_w == capped(cell_weight(k.safe_at@[i]@, other, r, uc, cellss[j].len() as int + 1)),
    ensures
        complete_for(est, board, cs, unk),
{
    let g = cellss[j].len() as int;
    lemma_cell_weight_pos(k.mine_at@[i]@, other, r, uc, g + 1);
    lemma_cell_weight_pos(k.safe_at@[i]@, other, r, uc, g + 1);
    if !est.certain_safe {
        lemma_group_witness(board, cs, unk, groups, cellss, k, j, i, other, cap, r, uc, unc, m0, true);
    }
    if !est.certain_mine && safe_w > 0 {
        lemma_group_witness(board, cs, unk, groups, cellss, k, j, i, other, cap, r, uc, unc, m0, false);
    }
}

/// The estimate of an unconstrained square `p`, made from the open weights, is complete where some
/// layout is possible.
pub proof fn lemma_open_complete(board: &Board, cs: Seq<Constraint>, unk: Set<Pos>, groups: Seq<Vec<Pos>>,
    cellss: Seq<Seq<Pos>>, combined: Seq<u128>, w: Seq<u128>, cap: int, r: int, uc: int,
    unc: Set<Pos>, p: Pos, m0: Set<Pos>, est: Estimate, mine_e: int, safe_e: int)
    requires
        partitions(groups, cs),
        cellss.len() == groups.len(),
        forall|kk: int| 0 <= kk < groups.len() ==> #[trigger] cellss[kk] == groups[kk]@,
        squares_of(cs).subset_of(unk),
        combined.len() == cap + 1,
        w.len() == combined.len(),
        forall|t: int| 0 <= t <= cap && #[trigger] combined[t] > 0 ==>
            exists|s: Set<Pos>| #[trigger] spread(cellss, cs, cellss.len() as int, cellss.len() as int, s) && s.len() == t,
        forall|t: int| 0 <= t < w.len() && #[trigger] w[t] > 0 ==> t <= r && r - t <= uc && combined[t] > 0,
        unc.finite(),
        unc == unk.difference(squares_of(cs)),
        unc.len() == uc,
        unc.contains(p),
        possible_layout(board, cs, unk, m0),
        r == m0.len(),
        agrees(est, m0),
        est.cell == p,
        est.certain_safe == (mine_e == 0),
        est.certain_mine == (safe_e == 0 && mine_e > 0),
        mine_e == capped(open_weight(w, r, uc, w.len() as int, true)),
        safe_e == capped(open_weight(w, r, uc, w.len() as int, false)),
    ensures
        complete_for(est, board, cs, unk),
{
    lemma_open_weight_pos(w, r, uc, w.len() as int, true);
    lemma_open_weight_pos(w, r, uc, w.len() as int, false);
    if !est.certain_safe {
        lemma_open_witness(board, cs, unk, groups, cellss, combined, w, cap, r, uc, unc, p, m0, true);
    }
    if !est.certain_mine && safe_e > 0 {
        lemma_open_witness(board, cs, unk, groups, cellss, combined, w, cap, r, uc, unc, p, m0, false);
    }
}

/// The chance of a mine on each unknown square, from the layouts the constraints and the mine total allow.
#[verifier::loop_isolation(false)]
#[verifier::spinoff_prover]
#[verifier::rlimit(80)]
pub(crate) fn mine_probabilities(board: &Board, cs: &Vec<Constraint>, unknowns: &Vec<Pos>) -> (out: Vec<Estimate>)
    requires
        board.wf(),
        forall|i: int| 0 <= i < cs@.len() ==> (#[trigger] cs@[i]).wf(),
        unknowns@.no_duplicates(),
        squares_of(cs@).subset_of(unknowns@.to_set()),
    ensures
        forall|e: int| 0 <= e < out@.len() ==> unknowns@.contains((#[trigger] out@[e]).cell) && out@[e].coherent(),
        forall|e: int| 0 <= e < out@.len() ==> sound_for(#[trigger] out@[e], board, cs@, unknowns@.to_set()),
        distinct_cells(out@),
        squares_of(cs@) == Set::<Pos>::empty() ==> out@.len() == unknowns@.len()
            && forall|e: int| 0 <= e < out@.len() ==> (#[trigger] out@[e]).cell == unknowns@[e]
                && out@[e].total == unknowns@.len()
                && out@[e].mine == (if mines_left(board) < unknowns@.len() { mines_left(board) } else { unknowns@.len() as int })
                && out@[e].certain_safe == (mines_left(board) == 0)
                && out@[e].certain_mine == (mines_left(board) >= unknowns@.len()),
        small_clusters(cs@) && (exists|m: Set<Pos>| #[trigger] possible_layout(board, cs@, unknowns@.to_set(), m))
            && unknowns@.len() < usize::MAX ==> forall|p: Pos| #[trigger] unknowns@.contains(p) ==> has_cell(out@, p),
        small_clusters(cs@) && (exists|m: Set<Pos>| #[trigger] possible_layout(board, cs@, unknowns@.to_set(), m)) ==>
            forall|e: int| 0 <= e < out@.len() ==> complete_for(#[trigger] out@[e], board, cs@, unknowns@.to_set()),
        small_clusters(cs@) && (exists|m: Set<Pos>| #[trigger] possible_layout(board, cs@, unknowns@.to_set(), m)) ==>
            forall|e: int| 0 <= e < out@.len() && squares_of(cs@).contains((#[trigger] out@[e]).cell)
                ==> counts_layouts(out@[e], board, cs@, unknowns@.to_set()),
        small_clusters(cs@) && (exists|m: Set<Pos>| #[trigger] possible_layout(board, cs@, unknowns@.to_set(), m)) ==>
            forall|e: int| 0 <= e < out@.len() ==> rates_layouts(#[trigger] out@[e], board, cs@, unknowns@.to_set()),
{
    let ghost unk = unknowns@.to_set();
    let ghost fine = small_clusters(cs@) && (exists|m: Set<Pos>| #[trigger] possible_layout(board, cs@, unk, m));
    let ghost full = small_clusters(cs@) && (exists|m: Set<Pos>| #[trigger] possible_layout(board, cs@, unk, m))
        && unknowns@.len() < usize::MAX;
    let mut out: Vec<Estimate> = Vec::new();
    let flags = board.flag_count();
    let rem: i64 = board.mine_count as i64 - flags as i64;
    let r: u64 = if rem > 0 { rem as u64 } else { 0 };
    let groups = split_groups(cs);
    let mut boundary: Vec<Pos> = Vec::new();
    let mut k: usize = 0;
    while k < groups.len()
        invariant
            partitions(groups@, cs@),
            0 <= k <= groups@.len(),
            boundary@.no_duplicates(),
            boundary@.to_set() == union_of(group_sets(groups@.take(k as int))),
        decreases groups@.len() - k,
    {
        absorb(&mut boundary, &groups[k]);
        proof {
            assert(group_sets(groups@.take(k + 1)).drop_last() == group_sets(groups@.take(k as int)));
        }
        k += 1;
    }
    proof {
        assert(groups@.take(k as int) == groups@);
        lemma_squares_of(cs@);
    }
    if boundary.len() == 0 {
        let n = unknowns.len() as u128;
        let mut i: usize = 0;
        while i < unknowns.len()
            invariant
                0 <= i <= unknowns@.len(),
                n == unknowns@.len(),
                r == mines_left(board),
                out@.len() == i,
                forall|e: int| 0 <= e < out@.len() ==> (#[trigger] out@[e]).cell == unknowns@[e]
                    && out@[e].total == unknowns@.len()
                    && out@[e].mine == (if mines_left(board) < unknowns@.len() { mines_left(board) } else { unknowns@.len() as int })
                    && out@[e].certain_safe == (mines_left(board) == 0)
                    && out@[e].certain_mine == (mines_left(board) >= unknowns@.len()),
                forall|e: int| 0 <= e < out@.len() ==> unknowns@.contains((#[trigger] out@[e]).cell) && out@[e].coherent(),
                forall|e: int| 0 <= e < out@.len() ==> sound_for(#[trigger] out@[e], board, cs@, unk),
                fine ==> forall|e: int| 0 <= e < out@.len() ==> complete_for(#[trigger] out@[e], board, cs@, unk),
            decreases unknowns@.len() - i,
        {
            let rr = r as u128;
            let mine = if rr < n { rr } else { n };
            let est = Estimate { cell: unknowns[i], mine, total: n, certain_safe: r == 0, certain_mine: rr >= n };
            proof {
                assert(unknowns@.contains(unknowns@[i as int]));
                assert forall|m: Set<Pos>| #[trigger] possible_layout(board, cs@, unk, m) && small_clusters(cs@)
                    implies agrees(est, m) by {
                    lemma_remaining(board, cs@, unk, m, flags, rem, r);
                    if r == 0 {
                        vstd::set_lib::lemma_set_empty_equivalency_len(m);
                    }
                    if rr >= n {
                        lemma_card(unknowns@);
                        vstd::set_lib::lemma_len_subset(m, unk);
                        vstd::set_lib::lemma_subset_equality(m, unk);
                        assert(unk.contains(unknowns@[i as int]));
                    }
                }
                if fine {
                    let m0 = choose|m: Set<Pos>| #[trigger] possible_layout(board, cs@, unk, m);
                    lemma_remaining(board, cs@, unk, m0, flags, rem, r);
                    lemma_card(unknowns@);
                    vstd::set_lib::lemma_len_subset(m0, unk);
                    let p = unknowns@[i as int];
                    assert(unk.contains(p));
                    if cs@.len() > 0 {
                        assert(cs@[0].unknowns@.contains(cs@[0].unknowns@[0]));
                        assert(squares_of(cs@).contains(cs@[0].unknowns@[0]));
                    }
                    lemma_subset_with(unk, p, r as nat);
                    if !est.certain_safe {
                        let x = choose|x: Set<Pos>| #[trigger] x.subset_of(unk) && x.finite() && x.len() == r && x.contains(p);
                        assert(possible_layout(board, cs@, unk, x));
                    }
                    if !est.certain_mine {
                        let x = choose|x: Set<Pos>| #[trigger] x.subset_of(unk) && x.finite() && x.len() == r && !x.contains(p);
                        assert(possible_layout(board, cs@, unk, x));
                    }
                    assert(complete_for(est, board, cs@, unk));
                }
            }
            out.push(est);
            i += 1;
        }
        proof {
            assert forall|p: Pos| #[trigger] unknowns@.contains(p) implies has_cell(out@, p) by {
                let e = choose|e: int| 0 <= e < unknowns@.len() && unknowns@[e] == p;
                assert(out@[e].cell == p);
            }
            assert forall|a: int, b: int| 0 <= a < b < out@.len() implies (#[trigger] out@[a]).cell != (#[trigger] out@[b]).cell by {
                assert(out@[a].cell == unknowns@[a] && out@[b].cell == unknowns@[b]);
            }
            if fine {
                let m0 = choose|m: Set<Pos>| #[trigger] possible_layout(board, cs@, unk, m);
                lemma_remaining(board, cs@, unk, m0, flags, rem, r);
                lemma_card(unknowns@);
                vstd::set_lib::lemma_len_subset(m0, unk);
                assert(boundary@.to_set() == squares_of(cs@));
                if cs@.len() > 0 {
                    let x = cs@[0].unknowns@[0];
                    assert(cs@[0].unknowns@.contains(x));
                    assert(squares_of(cs@).contains(x));
                    assert(boundary@.to_set().contains(x));
                    assert(boundary@.contains(x));
                }
                assert(cs@.len() == 0);
                assert forall|e: int| 0 <= e < out@.len() implies rates_layouts(#[trigger] out@[e], board, cs@, unk) by {
                    assert(unknowns@.contains(out@[e].cell));
                    assert(unk.contains(out@[e].cell));
                    lemma_free_estimate_rates(board, cs@, unk, m0, out@[e]);
                }
            }
        }
        return out;
    }
    proof {
        assert(boundary@.to_set().contains(boundary@[0]));
        assert(squares_of(cs@).contains(boundary@[0]));
    }
    let unc = minus(unknowns, &boundary);
    let (small, counts) = count_groups(&groups, cs, &mut out);
    proof {
        lemma_union_of(group_sets(groups@));
        assert forall|e: int| 0 <= e < out@.len() implies unknowns@.contains((#[trigger] out@[e]).cell) && out@[e].coherent() by {
            assert(squares_of(cs@).contains(out@[e].cell));
            assert(unknowns@.to_set().contains(out@[e].cell));
        }
        assert forall|e: int| 0 <= e < out@.len() implies sound_for(#[trigger] out@[e], board, cs@, unk) by {
            lemma_local_sound(out@[e], union_of(group_sets(groups@)), board, cs@, unk);
        }
        assert forall|e: int| 0 <= e < out@.len() implies boundary@.to_set().contains((#[trigger] out@[e]).cell) by {
            assert(local_ok(out@[e], union_of(group_sets(groups@)), cs@));
        }
        lemma_card(boundary@);
        lemma_card(unc@);
    }
    proof {
        if full {
            lemma_card(unknowns@);
            vstd::set_lib::lemma_len_subset(boundary@.to_set(), unk);
        }
        if fine {
            lemma_groups_small(groups@, cs@);
            assert(out@.len() == 0);
        }
        assert(boundary@.to_set() == squares_of(cs@));
        assert(unc@.to_set() == unk.difference(squares_of(cs@)));
    }
    if boundary.len() == usize::MAX {
        return out;
    }
    let b_len = boundary.len() as u64;
    let cap: usize = if r < b_len { r as usize } else { boundary.len() };
    let ghost cellss = small@.map_values(|v: Vec<Pos>| v@);
    proof {
        assert forall|a: int, b: int| 0 <= a < b < cellss.len() implies
            (#[trigger] cellss[a]).to_set().disjoint((#[trigger] cellss[b]).to_set()) by {
            assert(small@[a]@.to_set().disjoint(small@[b]@.to_set()));
        }
        assert forall|j: int| 0 <= j < counts@.len() implies (#[trigger] counts@[j]).backed(cellss[j], cs@) by {
            assert(counts@[j].backed(small@[j]@, cs@));
        }
        assert forall|j: int| 0 <= j < counts@.len() implies (#[trigger] counts@[j]).exact(cellss[j], cs@) by {
            assert(counts@[j].exact(small@[j]@, cs@));
        }
        assert forall|j: int| 0 <= j < counts@.len() implies (#[trigger] counts@[j]).dist@.len() == cellss[j].len() + 1 by {
            assert(covers(small@[j]@, counts@[j], cs@));
        }
        assert forall|j: int| 0 <= j < cellss.len() implies (#[trigger] cellss[j]).no_duplicates() by {
            assert(covers(small@[j]@, counts@[j], cs@));
        }
    }
    let combined = combine(&counts, counts.len(), cap, Ghost(cellss), Ghost(cs@));
    let uc = unc.len() as u64;
    let weights = total_weights(&combined, r, uc);
    let total = weight_sum(&weights);
    proof {
        if full {
            let m = choose|m: Set<Pos>| #[trigger] possible_layout(board, cs@, unk, m);
            let n = groups@.len() as int;
            lemma_groups_small(groups@, cs@);
            let ks = lemma_layout_counts(groups@, small@, counts@, cs@, m);
            lemma_remaining(board, cs@, unk, m, flags, rem, r);
            lemma_split_layout(m, unk, squares_of(cs@));
            let big_k = sum_except(ks, n, n);
            assert(boundary@.to_set() == squares_of(cs@));
            vstd::set_lib::lemma_len_intersect(squares_of(cs@), m);
            assert(unc@.to_set() == unk.difference(squares_of(cs@)));
            vstd::set_lib::lemma_len_intersect(unc@.to_set(), m);
            assert(big_k <= cap);
            assert(supported(ks, counts@, n, n));
            assert(combined@[big_k] > 0);
            assert(weights@[big_k] > 0);
            assert(total > 0);
        }
    }
    if total == 0 {
        return out;
    }
    let mut j: usize = 0;
    while j < small.len()
        invariant
            small@.len() == counts@.len(),
            forall|j: int| 0 <= j < small@.len() ==> covers((#[trigger] small@[j])@, counts@[j], cs@),
            forall|j: int| 0 <= j < small@.len() ==> exists|k: int| 0 <= k < groups@.len() && (#[trigger] small@[j])@ == (#[trigger] groups@[k])@,
            partitions(groups@, cs@),
            forall|p: Pos| #[trigger] union_of(group_sets(groups@)).contains(p) <==>
                exists|k: int| 0 <= k < group_sets(groups@).len() && (#[trigger] group_sets(groups@)[k]).contains(p),
            squares_of(cs@).subset_of(unknowns@.to_set()),
            total > 0,
            cap < usize::MAX,
            0 <= j <= small@.len(),
            full ==> forall|jj: int, ii: int| 0 <= jj < j && 0 <= ii < small@[jj]@.len() ==>
                #[trigger] has_cell(out@, small@[jj]@[ii]),
            forall|e: int| 0 <= e < out@.len() ==> unknowns@.contains((#[trigger] out@[e]).cell) && out@[e].coherent(),
            forall|e: int| 0 <= e < out@.len() ==> sound_for(#[trigger] out@[e], board, cs@, unk),
            distinct_cells(out@),
            forall|j1: int, j2: int| 0 <= j1 < j2 < small@.len() ==>
                (#[trigger] small@[j1])@.to_set().disjoint((#[trigger] small@[j2])@.to_set()),
            boundary@.to_set() == union_of(group_sets(groups@)),
            forall|e: int| 0 <= e < out@.len() ==> boundary@.to_set().contains((#[trigger] out@[e]).cell),
            forall|e: int| 0 <= e < out@.len() ==> (forall|jj: int| 0 <= jj < small@.len() ==> !(#[trigger] small@[jj])@.contains(out@[e].cell))
                || exists|jj: int| 0 <= jj < j && (#[trigger] small@[jj])@.contains((#[trigger] out@[e]).cell),
            fine ==> forall|e: int| 0 <= e < out@.len() ==> complete_for(#[trigger] out@[e], board, cs@, unk),
            fine ==> forall|e: int| 0 <= e < out@.len() && squares_of(cs@).contains((#[trigger] out@[e]).cell) ==> counts_layouts(out@[e], board, cs@, unk),
            fine ==> forall|e: int| 0 <= e < out@.len() ==> rates_layouts(#[trigger] out@[e], board, cs@, unk),
        decreases small@.len() - j,
    {
        let other = combine(&counts, j, cap, Ghost(cellss), Ghost(cs@));
        let cells = &small[j];
        let g = cells.len();
        let mut i: usize = 0;
        while i < g
            invariant
                0 <= j < small@.len(),
                small@.len() == counts@.len(),
                cells == &small@[j as int],
                g == cells@.len(),
                covers(cells@, counts@[j as int], cs@),
                exists|k: int| 0 <= k < groups@.len() && cells@ == (#[trigger] groups@[k])@,
                forall|p: Pos| #[trigger] union_of(group_sets(groups@)).contains(p) <==>
                    exists|k: int| 0 <= k < group_sets(groups@).len() && (#[trigger] group_sets(groups@)[k]).contains(p),
                partitions(groups@, cs@),
                squares_of(cs@).subset_of(unknowns@.to_set()),
                total > 0,
                0 <= i <= g,
                full ==> forall|jj: int, ii: int| 0 <= jj < j && 0 <= ii < small@[jj]@.len() ==>
                    #[trigger] has_cell(out@, small@[jj]@[ii]),
                full ==> forall|ii: int| 0 <= ii < i ==> #[trigger] has_cell(out@, cells@[ii]),
                forall|e: int| 0 <= e < out@.len() ==> unknowns@.contains((#[trigger] out@[e]).cell) && out@[e].coherent(),
                forall|e: int| 0 <= e < out@.len() ==> sound_for(#[trigger] out@[e], board, cs@, unk),
                distinct_cells(out@),
                forall|j1: int, j2: int| 0 <= j1 < j2 < small@.len() ==>
                    (#[trigger] small@[j1])@.to_set().disjoint((#[trigger] small@[j2])@.to_set()),
                boundary@.to_set() == union_of(group_sets(groups@)),
                forall|e: int| 0 <= e < out@.len() ==> boundary@.to_set().contains((#[trigger] out@[e]).cell),
                forall|e: int| 0 <= e < out@.len() ==> (forall|jj: int| 0 <= jj < small@.len() ==> !(#[trigger] small@[jj])@.contains(out@[e].cell))
                    || (exists|jj: int| 0 <= jj < j && (#[trigger] small@[jj])@.contains((#[trigger] out@[e]).cell))
                    || exists|ii: int| 0 <= ii < i && cells@[ii] == (#[trigger] out@[e]).cell,
                fine ==> forall|e: int| 0 <= e < out@.len() ==> complete_for(#[trigger] out@[e], board, cs@, unk),
                fine ==> forall|e: int| 0 <= e < out@.len() && squares_of(cs@).contains((#[trigger] out@[e]).cell) ==> counts_layouts(out@[e], board, cs@, unk),
                fine ==> forall|e: int| 0 <= e < out@.len() ==> rates_layouts(#[trigger] out@[e], board, cs@, unk),
            decreases g - i,
        {
            let (mine_w, safe_w) = cell_weights(&counts[j], g, i, &other, r, uc);
            proof {
                let kk = choose|k: int| 0 <= k < groups@.len() && cells@ == (#[trigger] groups@[k])@;
                assert(group_sets(groups@)[kk].contains(cells@[i as int]));
                assert(squares_of(cs@).contains(cells@[i as int]));
            }
            let both = mine_w.saturating_add(safe_w);
            let denom = if both > 0 { both } else { total };
            let est = Estimate { cell: cells[i], mine: mine_w, total: denom, certain_safe: mine_w == 0, certain_mine: safe_w == 0 && mine_w > 0 };
            proof {
                assert forall|m: Set<Pos>| #[trigger] possible_layout(board, cs@, unk, m) && small_clusters(cs@)
                    implies agrees(est, m) by {
                    let n = groups@.len() as int;
                    lemma_groups_small(groups@, cs@);
                    let ks = lemma_layout_counts(groups@, small@, counts@, cs@, m);
                    lemma_remaining(board, cs@, unk, m, flags, rem, r);
                    lemma_split_layout(m, unk, squares_of(cs@));
                    let big_k = sum_except(ks, n, n);
                    lemma_sum_except_split(ks, j as int, n, n);
                    assert(boundary@.to_set() == squares_of(cs@));
                    vstd::set_lib::lemma_len_intersect(squares_of(cs@), m);
                    assert(unc@.to_set() == unk.difference(squares_of(cs@)));
                    vstd::set_lib::lemma_len_intersect(unc@.to_set(), m);
                    assert(big_k <= cap);
                    assert(supported(ks, counts@, n, n));
                    assert(combined@[big_k] > 0);
                    assert(weights@[big_k] > 0);
                    assert(supported(ks, counts@, n, j as int)) by {
                        assert forall|jj: int| 0 <= jj < n && jj != j implies 0 <= #[trigger] ks[jj] < counts@[jj].dist@.len()
                            && counts@[jj].dist@[ks[jj]] > 0 by {
                            assert(supported(ks, counts@, n, n));
                        }
                    }
                    lemma_sum_except_nonneg(ks, j as int, n, counts@);
                    let o = sum_except(ks, j as int, n);
                    assert(other@[o] > 0);
                    let mc = ks[j as int];
                    let a = mark(small@[j as int]@, m);
                    assert(counts@[j as int].counted(a));
                    assert(mines_in(a) == mc);
                    assert(mc + o == big_k);
                    assert(0 <= mc <= g);
                    assert(0 <= o < other@.len());
                    assert(mc + o <= r && r - mc - o <= uc);
                    if m.contains(cells@[i as int]) {
                        assert(a[i as int]);
                        assert(counts@[j as int].mine_at@[i as int]@[mc] > 0);
                        assert(mine_w > 0);
                        assert(!est.certain_safe);
                    } else {
                        assert(!a[i as int]);
                        assert(counts@[j as int].safe_at@[i as int]@[mc] > 0);
                        assert(counts@[j as int].mine_at@[i as int]@[mc] >= 0);
                        assert(safe_w > 0);
                        assert(!est.certain_mine);
                    }
                }
            }
            proof {
                if fine {
                    assert(complete_for(est, board, cs@, unk)) by {
                        let m0 = choose|m: Set<Pos>| #[trigger] possible_layout(board, cs@, unk, m);
                        lemma_remaining(board, cs@, unk, m0, flags, rem, r);
                        assert(agrees(est, m0));
                        lemma_groups_small(groups@, cs@);
                        assert forall|kk: int| 0 <= kk < groups@.len() implies #[trigger] cellss[kk] == groups@[kk]@ by {
                            assert(small@[kk]@ == groups@[kk]@);
                        }
                        assert(cellss[j as int] == cells@);
                        assert(covers(cells@, counts@[j as int], cs@));
                        lemma_card(unc@);
                        assert(cellss.len() == counts@.len());
                        assert forall|t: int| 0 <= t <= cap && #[trigger] other@[t] > 0 implies
                            exists|s: Set<Pos>| #[trigger] spread(cellss, cs@, j as int, cellss.len() as int, s) && s.len() == t by {
                            assert(other@[t] > 0);
                        }
                        lemma_group_complete(board, cs@, unk, groups@, cellss, counts@[j as int], j as int, i as int,
                            other@, cap as int, r as int, uc as int, unc@.to_set(), m0, est, mine_w as int, safe_w as int);
                    }
                    assert(counts_layouts(est, board, cs@, unk)) by {
                        let m0 = choose|m: Set<Pos>| #[trigger] possible_layout(board, cs@, unk, m);
                        lemma_remaining(board, cs@, unk, m0, flags, rem, r);
                        lemma_groups_small(groups@, cs@);
                        assert forall|kk: int| 0 <= kk < groups@.len() implies #[trigger] cellss[kk] == groups@[kk]@ by {
                            assert(small@[kk]@ == groups@[kk]@);
                        }
                        assert(cellss[j as int] == cells@);
                        assert(covers(cells@, counts@[j as int], cs@));
                        assert(counts@[j as int].exact(small@[j as int]@, cs@));
                        lemma_card(unc@);
                        lemma_card(unknowns@);
                        lemma_card(boundary@);
                        assert(cellss.len() == counts@.len());
                        assert(grouped_board(cs@, unk, groups@, cellss));
                        let u = unk.difference(squares_of(cs@));
                        assert(unc@.to_set() == u);
                        assert(mine_w < u128::MAX ==> mine_w == ways_all(counts@[j as int].mine_at@[i as int]@, other@, r as int, u, g + 1));
                        assert(safe_w < u128::MAX ==> safe_w == ways_all(counts@[j as int].safe_at@[i as int]@, other@, r as int, u, g + 1));
                        assert forall|o: int| #![trigger spreads(cellss, cs@, j as int, cellss.len() as int, o)] 0 <= o < other@.len() implies
                            other@[o] == capped(spreads(cellss, cs@, j as int, cellss.len() as int, o).len() as int) by {
                            assert(other@[o] == capped(spreads(cellss, cs@, j as int, counts@.len() as int, o).len() as int));
                        }
                        lemma_group_estimate_counts(board, cs@, unk, groups@, cellss, m0, j as int, i as int, counts@[j as int],
                            other@, (mine_w, safe_w), est);
                    }
                    lemma_counts_rates(est, board, cs@, unk);
                }
            }
            proof {
                lemma_has_cell_push(out@, est);
                let c = cells@[i as int];
                assert(boundary@.to_set().contains(c));
                assert forall|a: int| 0 <= a < out@.len() implies (#[trigger] out@[a]).cell != c by {
                    if exists|jj: int| 0 <= jj < j && (#[trigger] small@[jj])@.contains(out@[a].cell) {
                        let jj = choose|jj: int| 0 <= jj < j && (#[trigger] small@[jj])@.contains(out@[a].cell);
                        assert(small@[jj]@.to_set().disjoint(small@[j as int]@.to_set()));
                        assert(small@[jj]@.to_set().contains(out@[a].cell));
                        assert(small@[j as int]@.to_set().contains(c));
                    } else if exists|ii: int| 0 <= ii < i && cells@[ii] == (#[trigger] out@[a]).cell {
                        let ii = choose|ii: int| 0 <= ii < i && cells@[ii] == (#[trigger] out@[a]).cell;
                        assert(covers(cells@, counts@[j as int], cs@));
                    } else {
                        assert(!small@[j as int]@.contains(out@[a].cell));
                        assert(small@[j as int]@.contains(c));
                    }
                }
            }
            let ghost before_push = out@;
            out.push(est);
            proof {
                if fine {
                    assert forall|e: int| 0 <= e < out@.len() && squares_of(cs@).contains((#[trigger] out@[e]).cell)
                        implies counts_layouts(out@[e], board, cs@, unk) by {
                        if e < before_push.len() {
                            assert(out@[e] == before_push[e]);
                        } else {
                            assert(out@[e] == est);
                        }
                    }
                    assert forall|e: int| 0 <= e < out@.len() implies rates_layouts(#[trigger] out@[e], board, cs@, unk) by {
                        if e < before_push.len() {
                            assert(out@[e] == before_push[e]);
                        } else {
                            assert(out@[e] == est);
                        }
                    }
                }
            }
            proof {
                assert forall|e: int| 0 <= e < out@.len() implies (forall|jj: int| 0 <= jj < small@.len() ==> !(#[trigger] small@[jj])@.contains(out@[e].cell))
                    || (exists|jj: int| 0 <= jj < j && (#[trigger] small@[jj])@.contains((#[trigger] out@[e]).cell))
                    || exists|ii: int| 0 <= ii < i + 1 && cells@[ii] == (#[trigger] out@[e]).cell by {
                    if e < before_push.len() {
                        assert(out@[e] == before_push[e]);
                    } else {
                        assert(cells@[i as int] == out@[e].cell);
                    }
                }
            }
            i += 1;
        }
        proof {
            assert forall|e: int| 0 <= e < out@.len() implies (forall|jj: int| 0 <= jj < small@.len() ==> !(#[trigger] small@[jj])@.contains(out@[e].cell))
                || exists|jj: int| 0 <= jj < j + 1 && (#[trigger] small@[jj])@.contains((#[trigger] out@[e]).cell) by {
                if exists|ii: int| 0 <= ii < i && cells@[ii] == (#[trigger] out@[e]).cell {
                    let ii = choose|ii: int| 0 <= ii < i && cells@[ii] == (#[trigger] out@[e]).cell;
                    assert(small@[j as int]@.contains(out@[e].cell));
                }
            }
        }
        proof {
            if full {
                assert forall|jj: int, ii: int| 0 <= jj < j + 1 && 0 <= ii < small@[jj]@.len() implies
                    #[trigger] has_cell(out@, small@[jj]@[ii]) by {
                    if jj == j {
                        assert(has_cell(out@, cells@[ii]));
                    }
                }
            }
        }
        j += 1;
    }
    if uc > 0 {
        let (mine_e, safe_e) = open_weights(&weights, r, uc);
        let both = mine_e.saturating_add(safe_e);
        let total_e = if both > 0 { both } else { sat_mul(total, uc as u128) };
        let mut i: usize = 0;
        while i < unc.len()
            invariant
                0 <= i <= unc@.len(),
                unc@.to_set() == unknowns@.to_set().difference(boundary@.to_set()),
                total_e > 0,
                full ==> forall|jj: int, ii: int| 0 <= jj < small@.len() && 0 <= ii < small@[jj]@.len() ==>
                    #[trigger] has_cell(out@, small@[jj]@[ii]),
                full ==> forall|ii: int| 0 <= ii < i ==> #[trigger] has_cell(out@, unc@[ii]),
                forall|e: int| 0 <= e < out@.len() ==> unknowns@.contains((#[trigger] out@[e]).cell) && out@[e].coherent(),
                forall|e: int| 0 <= e < out@.len() ==> sound_for(#[trigger] out@[e], board, cs@, unk),
                distinct_cells(out@),
                fine ==> forall|e: int| 0 <= e < out@.len() ==> complete_for(#[trigger] out@[e], board, cs@, unk),
                fine ==> forall|e: int| 0 <= e < out@.len() && squares_of(cs@).contains((#[trigger] out@[e]).cell) ==> counts_layouts(out@[e], board, cs@, unk),
                fine ==> forall|e: int| 0 <= e < out@.len() ==> rates_layouts(#[trigger] out@[e], board, cs@, unk),
                unc@.no_duplicates(),
                forall|e: int| 0 <= e < out@.len() ==> boundary@.to_set().contains((#[trigger] out@[e]).cell)
                    || exists|ii: int| 0 <= ii < i && unc@[ii] == (#[trigger] out@[e]).cell,
            decreases unc@.len() - i,
        {
            proof {
                assert(unc@.to_set().contains(unc@[i as int]));
            }
            let est = Estimate { cell: unc[i], mine: mine_e, total: total_e, certain_safe: mine_e == 0, certain_mine: safe_e == 0 && mine_e > 0 };
            proof {
                assert(boundary@.to_set() == squares_of(cs@));
                assert(!squares_of(cs@).contains(est.cell));
                if fine {
                    assert(rates_layouts(est, board, cs@, unk)) by {
                        let m0 = choose|m: Set<Pos>| #[trigger] possible_layout(board, cs@, unk, m);
                        lemma_remaining(board, cs@, unk, m0, flags, rem, r);
                        lemma_groups_small(groups@, cs@);
                        assert forall|kk: int| 0 <= kk < groups@.len() implies #[trigger] cellss[kk] == groups@[kk]@ by {
                            assert(small@[kk]@ == groups@[kk]@);
                        }
                        lemma_card(unc@);
                        lemma_card(unknowns@);
                        lemma_card(boundary@);
                        assert(cellss.len() == counts@.len());
                        assert(grouped_board(cs@, unk, groups@, cellss));
                        let u = unk.difference(squares_of(cs@));
                        assert(unc@.to_set() == u);
                        assert(u.contains(est.cell));
                        assert forall|t: int| #![trigger spreads(cellss, cs@, cellss.len() as int, cellss.len() as int, t)]
                            0 <= t < combined@.len() implies
                            combined@[t] == capped(spreads(cellss, cs@, cellss.len() as int, cellss.len() as int, t).len() as int) by {
                            assert(combined@[t] == capped(spreads(cellss, cs@, counts@.len() as int, counts@.len() as int, t).len() as int));
                        }
                        assert forall|k: int| 0 <= k < weights@.len() && #[trigger] weights@[k] < u128::MAX implies
                            weights@[k] == combined@[k] * choices(u, m0.len() - k).len() by {
                            assert(weights@[k] == combined@[k] * choices(u, r - k).len());
                        }
                        lemma_open_estimate_rates(board, cs@, unk, groups@, cellss, m0, est.cell, combined@, weights@,
                            (mine_e, safe_e), est);
                    }
                }
            }
            proof {
                assert forall|m: Set<Pos>| #[trigger] possible_layout(board, cs@, unk, m) && small_clusters(cs@)
                    implies agrees(est, m) by {
                    let n = groups@.len() as int;
                    lemma_groups_small(groups@, cs@);
                    let ks = lemma_layout_counts(groups@, small@, counts@, cs@, m);
                    lemma_remaining(board, cs@, unk, m, flags, rem, r);
                    lemma_split_layout(m, unk, squares_of(cs@));
                    let big_k = sum_except(ks, n, n);
                    assert(boundary@.to_set() == squares_of(cs@));
                    vstd::set_lib::lemma_len_intersect(squares_of(cs@), m);
                    let open = unc@.to_set();
                    assert(open == unk.difference(squares_of(cs@)));
                    vstd::set_lib::lemma_len_intersect(open, m);
                    assert(big_k <= cap);
                    assert(supported(ks, counts@, n, n));
                    assert(combined@[big_k] > 0);
                    assert(weights@[big_k] > 0);
                    let u = unc@[i as int];
                    if m.contains(u) {
                        assert(open.intersect(m).contains(u));
                        assert(open.intersect(m).len() > 0);
                    } else {
                        assert(open.intersect(m).subset_of(open.remove(u)));
                        vstd::set_lib::lemma_len_subset(open.intersect(m), open.remove(u));
                    }
                }
            }
            proof {
                if fine {
                    assert(complete_for(est, board, cs@, unk)) by {
                        let m0 = choose|m: Set<Pos>| #[trigger] possible_layout(board, cs@, unk, m);
                        lemma_remaining(board, cs@, unk, m0, flags, rem, r);
                        assert(agrees(est, m0));
                        lemma_groups_small(groups@, cs@);
                        assert forall|kk: int| 0 <= kk < groups@.len() implies #[trigger] cellss[kk] == groups@[kk]@ by {
                            assert(small@[kk]@ == groups@[kk]@);
                        }
                        lemma_card(unc@);
                        assert forall|t: int| 0 <= t < weights@.len() && #[trigger] weights@[t] > 0 implies
                            t <= r && r - t <= uc && combined@[t] > 0 by {
                            if t <= r && r - t <= uc {
                                let b = binomial_of(uc as int, r - t);
                                assert(b >= 0);
                                if combined@[t] == 0 {
                                    assert(combined@[t] * b == 0) by (nonlinear_arith) requires combined@[t] == 0;
                                }
                            }
                        }
                        assert(cellss.len() == counts@.len());
                        assert forall|t: int| 0 <= t <= cap && #[trigger] combined@[t] > 0 implies
                            exists|s: Set<Pos>| #[trigger] spread(cellss, cs@, cellss.len() as int, cellss.len() as int, s) && s.len() == t by {
                            assert(combined@[t] > 0);
                        }
                        lemma_open_complete(board, cs@, unk, groups@, cellss, combined@, weights@, cap as int, r as int,
                            uc as int, unc@.to_set(), unc@[i as int], m0, est, mine_e as int, safe_e as int);
                    }
                }
            }
            proof {
                lemma_has_cell_push(out@, est);
                let c = unc@[i as int];
                assert forall|a: int| 0 <= a < out@.len() implies (#[trigger] out@[a]).cell != c by {
                    if !boundary@.to_set().contains(out@[a].cell) {
                        let ii = choose|ii: int| 0 <= ii < i && unc@[ii] == (#[trigger] out@[a]).cell;
                    }
                }
            }
            let ghost before_push = out@;
            out.push(est);
            proof {
                if fine {
                    assert forall|e: int| 0 <= e < out@.len() && squares_of(cs@).contains((#[trigger] out@[e]).cell)
                        implies counts_layouts(out@[e], board, cs@, unk) by {
                        if e < before_push.len() {
                            assert(out@[e] == before_push[e]);
                        } else {
                            assert(out@[e] == est);
                        }
                    }
                    assert forall|e: int| 0 <= e < out@.len() implies rates_layouts(#[trigger] out@[e], board, cs@, unk) by {
                        if e < before_push.len() {
                            assert(out@[e] == before_push[e]);
                        } else {
                            assert(out@[e] == est);
                        }
                    }
                }
            }
            proof {
                assert forall|e: int| 0 <= e < out@.len() implies boundary@.to_set().contains((#[trigger] out@[e]).cell)
                    || exists|ii: int| 0 <= ii < i + 1 && unc@[ii] == (#[trigger] out@[e]).cell by {
                    if e < before_push.len() {
                        assert(out@[e] == before_push[e]);
                    } else {
                        assert(unc@[i as int] == out@[e].cell);
                    }
                }
            }
            i += 1;
        }
    }
    proof {
        if full {
            lemma_groups_small(groups@, cs@);
            assert forall|p: Pos| #[trigger] unknowns@.contains(p) implies has_cell(out@, p) by {
                if boundary@.to_set().contains(p) {
                    assert(union_of(group_sets(groups@)).contains(p));
                    let k = choose|k: int| 0 <= k < group_sets(groups@).len() && (#[trigger] group_sets(groups@)[k]).contains(p);
                    assert(small@[k]@ == groups@[k]@);
                    let ii = choose|ii: int| 0 <= ii < groups@[k]@.len() && groups@[k]@[ii] == p;
                    assert(has_cell(out@, small@[k]@[ii]));
                } else {
                    assert(unk.contains(p));
                    assert(unc@.to_set().contains(p));
                    let ii = choose|ii: int| 0 <= ii < unc@.len() && unc@[ii] == p;
                    assert(has_cell(out@, unc@[ii]));
                }
            }
        }
    }
    out
}

} // verus!
