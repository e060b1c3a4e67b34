//! Small sets of board positions kept as duplicate-free vectors.
use vstd::prelude::*;

verus! {

pub type Pos = (i32, i32);

pub proof fn lemma_push_contains<A>(s: Seq<A>, e: A)
    ensures
        forall|p: A| #[trigger] s.push(e).contains(p) <==> (s.contains(p) || p == e),
{
    assert forall|p: A| #[trigger] s.push(e).contains(p) <==> (s.contains(p) || p == e) by {
        if s.push(e).contains(p) && p != e {
            let k = choose|k: int| 0 <= k < s.push(e).len() && s.push(e)[k] == p;
            assert(s[k] == p);
        }
        if s.contains(p) {
            let k = choose|k: int| 0 <= k < s.len() && s[k] == p;
            assert(s.push(e)[k] == p);
        }
        if p == e {
            assert(s.push(e)[s.len() as int] == p);
        }
    }
}

pub proof fn lemma_push_no_dup<A>(s: Seq<A>, e: A)
    requires
        s.no_duplicates(),
        !s.contains(e),
    ensures
        s.push(e).no_duplicates(),
{
    assert forall|i: int, j: int| 0 <= i < s.push(e).len() && 0 <= j < s.push(e).len() && i != j
        implies s.push(e)[i] != s.push(e)[j] by {
        if i < s.len() && j < s.len() {
        } else if i < s.len() {
            assert(s.contains(s[i]));
        } else if j < s.len() {
            assert(s.contains(s[j]));
        }
    }
}

/// A duplicate-free sequence has as many elements as its set.
pub proof fn lemma_card(s: Seq<Pos>)
    requires
        s.no_duplicates(),
    ensures
        s.to_set().len() == s.len(),
        s.to_set().finite(),
{
    s.unique_seq_to_set();
}

/// Whether two positions are the same.
pub fn same_pos(p: Pos, q: Pos) -> (r: bool)
    ensures
        r == (p == q),
{
    p.0 == q.0 && p.1 == q.1
}

pub fn contains_pos(v: &Vec<Pos>, p: Pos) -> (r: bool)
    ensures
        r == v@.contains(p),
{
    let mut i: usize = 0;
    while i < v.len()
        invariant
            0 <= i <= v@.len(),
            forall|j: int| 0 <= j < i ==> v@[j] != p,
        decreases v@.len() - i,
    {
        if v[i].0 == p.0 && v[i].1 == p.1 {
            return true;
        }
        i += 1;
    }
    false
}

/// Adds `p` unless it is already there; says whether it was added.
pub fn add_new(v: &mut Vec<Pos>, p: Pos) -> (added: bool)
    requires
        old(v)@.no_duplicates(),
    ensures
        final(v)@.no_duplicates(),
        added == !old(v)@.contains(p),
        added ==> final(v)@ == old(v)@.push(p),
        !added ==> final(v)@ == old(v)@,
        final(v)@.to_set() == old(v)@.to_set().insert(p),
{
    if contains_pos(v, p) {
        proof {
            assert(v@.to_set() =~= v@.to_set().insert(p));
        }
        false
    } else {
        let ghost before = v@;
        v.push(p);
        proof {
            lemma_push_contains(before, p);
            assert(v@.to_set() =~= before.to_set().insert(p));
        }
        true
    }
}

/// The elements of `a` that are not in `b`, in the order of `a`.
pub fn minus(a: &Vec<Pos>, b: &Vec<Pos>) -> (r: Vec<Pos>)
    requires
        a@.no_duplicates(),
    ensures
        r@.no_duplicates(),
        r@.len() <= a@.len(),
        r@.to_set() == a@.to_set().difference(b@.to_set()),
{
    let mut r: Vec<Pos> = Vec::new();
    let mut i: usize = 0;
    while i < a.len()
        invariant
            a@.no_duplicates(),
            0 <= i <= a@.len(),
            r@.no_duplicates(),
            r@.len() <= i,
            forall|p: Pos| r@.contains(p) <==> (a@.take(i as int).contains(p) && !b@.contains(p)),
        decreases a@.len() - i,
    {
        let ghost before = r@;
        let p = a[i];
        proof {
            lemma_push_contains(a@.take(i as int), p);
            assert(a@.take(i + 1) == a@.take(i as int).push(p));
            if a@.take(i as int).contains(p) {
                let k = choose|k: int| 0 <= k < i && a@.take(i as int)[k] == p;
                assert(a@[k] == a@[i as int]);
            }
        }
        if !contains_pos(b, p) {
            r.push(p);
            proof {
                lemma_push_contains(before, p);
            }
        }
        i += 1;
    }
    proof {
        assert(a@.take(i as int) == a@);
        assert(r@.to_set() =~= a@.to_set().difference(b@.to_set()));
    }
    r
}

/// Every element of `a` is in `b`.
pub fn within(a: &Vec<Pos>, b: &Vec<Pos>) -> (r: bool)
    ensures
        r == a@.to_set().subset_of(b@.to_set()),
{
    let mut i: usize = 0;
    while i < a.len()
        invariant
            0 <= i <= a@.len(),
            forall|j: int| 0 <= j < i ==> b@.contains(#[trigger] a@[j]),
        decreases a@.len() - i,
    {
        if !contains_pos(b, a[i]) {
            proof {
                assert(a@.to_set().contains(a@[i as int]));
            }
            return false;
        }
        i += 1;
    }
    proof {
        assert forall|p: Pos| a@.to_set().contains(p) implies b@.to_set().contains(p) by {
            let k = choose|k: int| 0 <= k < a@.len() && a@[k] == p;
        }
    }
    true
}

/// Adds every element of `cells` to `v`; says whether anything was added.
pub fn add_all(v: &mut Vec<Pos>, cells: &Vec<Pos>) -> (added: bool)
    requires
        old(v)@.no_duplicates(),
    ensures
        final(v)@.no_duplicates(),
        final(v)@.len() >= old(v)@.len(),
        final(v)@.take(old(v)@.len() as int) == old(v)@,
        final(v)@.to_set() == old(v)@.to_set().union(cells@.to_set()),
        added == !cells@.to_set().subset_of(old(v)@.to_set()),
        !added ==> final(v)@ == old(v)@,
        added ==> final(v)@.len() > old(v)@.len(),
{
    let ghost start = v@;
    let mut added = false;
    let mut i: usize = 0;
    while i < cells.len()
        invariant
            v@.no_duplicates(),
            0 <= i <= cells@.len(),
            v@.len() >= start.len(),
            v@.take(start.len() as int) == start,
            v@.to_set() == start.to_set().union(cells@.take(i as int).to_set()),
            added == !cells@.take(i as int).to_set().subset_of(start.to_set()),
            !added ==> v@ == start,
            added ==> v@.len() > start.len(),
        decreases cells@.len() - i,
    {
        let ghost before = v@;
        let p = cells[i];
        let a = add_new(v, p);
        proof {
            assert(cells@.take(i + 1) == cells@.take(i as int).push(p));
            lemma_push_contains(cells@.take(i as int), p);
            assert(cells@.take(i + 1).to_set() =~= cells@.take(i as int).to_set().insert(p));
            assert(v@.to_set() =~= start.to_set().union(cells@.take(i + 1).to_set()));
            if a {
                assert(v@.take(start.len() as int) =~= before.take(start.len() as int));
            }
            assert(cells@.take(i + 1).to_set().contains(p));
            if !cells@.take(i as int).to_set().subset_of(start.to_set()) {
                let q = choose|q: Pos| cells@.take(i as int).to_set().contains(q) && !start.to_set().contains(q);
                assert(cells@.take(i + 1).to_set().contains(q));
            }
        }
        if a {
            added = true;
        }
        i += 1;
    }
    proof {
        assert(cells@.take(i as int) == cells@);
    }
    added
}

pub fn copy_positions(a: &Vec<Pos>) -> (r: Vec<Pos>)
    ensures
        r@ == a@,
{
    let mut r: Vec<Pos> = Vec::new();
    let mut i: usize = 0;
    while i < a.len()
        invariant
            0 <= i <= a@.len(),
            r@ == a@.take(i as int),
        decreases a@.len() - i,
    {
        r.push(a[i]);
        proof {
            assert(a@.take(i + 1) == a@.take(i as int).push(a@[i as int]));
        }
        i += 1;
    }
    proof {
        assert(a@.take(i as int) == a@);
    }
    r
}


/// `p` comes before `q` as tuples are ordered: by the first coordinate, then by the second.
pub open spec fn pos_lt(p: Pos, q: Pos) -> bool {
    p.0 < q.0 || (p.0 == q.0 && p.1 < q.1)
}

/// Each position of `s` comes before every later one.
pub open spec fn ascending(s: Seq<Pos>) -> bool {
    forall|a: int, b: int| 0 <= a < b < s.len() ==> pos_lt(#[trigger] s[a], #[trigger] s[b])
}

fn pos_before(p: Pos, q: Pos) -> (r: bool)
    ensures
        r == pos_lt(p, q),
{
    p.0 < q.0 || (p.0 == q.0 && p.1 < q.1)
}

/// The positions of `v`, each once, in ascending order.
pub fn sorted_positions(v: &Vec<Pos>) -> (r: Vec<Pos>)
    requires
        v@.no_duplicates(),
    ensures
        r@.len() == v@.len(),
        r@.to_set() == v@.to_set(),
        ascending(r@),
        r@.no_duplicates(),
{
    let mut r: Vec<Pos> = Vec::new();
    let mut i: usize = 0;
    while i < v.len()
        invariant
            0 <= i <= v@.len(),
            v@.no_duplicates(),
            r@.len() == i,
            ascending(r@),
            r@.to_set() == v@.take(i as int).to_set(),
        decreases v@.len() - i,
    {
        let p = v[i];
        proof {
            if r@.contains(p) {
                assert(r@.to_set().contains(p));
                let a = choose|a: int| 0 <= a < i && v@.take(i as int)[a] == p;
                assert(v@[a] == v@[i as int]);
            }
        }
        let mut k: usize = 0;
        while k < r.len()
            invariant
                0 <= k <= r@.len(),
                forall|a: int| 0 <= a < k ==> pos_lt(#[trigger] r@[a], p),
            ensures
                0 <= k <= r@.len(),
                forall|a: int| 0 <= a < k ==> pos_lt(#[trigger] r@[a], p),
                k < r@.len() ==> !pos_lt(r@[k as int], p),
            decreases r@.len() - k,
        {
            if !pos_before(r[k], p) {
                break;
            }
            k += 1;
        }
        let ghost old_r = r@;
        proof {
            if k < r@.len() {
                assert(old_r[k as int] != p) by {
                    assert(old_r.contains(old_r[k as int]));
                }
                assert(pos_lt(p, old_r[k as int]));
            }
            assert(!old_r.contains(p));
        }
        r.insert(k, p);
        proof {
            assert forall|a: int, b: int| 0 <= a < b < r@.len() implies pos_lt(#[trigger] r@[a], #[trigger] r@[b]) by {
                if b < k {
                    assert(r@[a] == old_r[a] && r@[b] == old_r[b]);
                } else if b == k {
                    assert(r@[a] == old_r[a]);
                } else if a < k {
                    assert(r@[a] == old_r[a] && r@[b] == old_r[b - 1]);
                    assert(pos_lt(old_r[a], p));
                    if !pos_lt(old_r[k as int], p) {
                        assert(pos_lt(p, old_r[k as int]));
                    }
                    if k < b - 1 {
                        assert(pos_lt(old_r[k as int], old_r[b - 1]));
                    }
                } else if a == k {
                    assert(r@[b] == old_r[b - 1]);
                    assert(pos_lt(p, old_r[k as int]));
                    if k < b - 1 {
                        assert(pos_lt(old_r[k as int], old_r[b - 1]));
                    }
                } else {
                    assert(r@[a] == old_r[a - 1] && r@[b] == old_r[b - 1]);
                }
            }
            assert(v@.take(i + 1) == v@.take(i as int).push(p));
            lemma_push_contains(v@.take(i as int), p);
            assert forall|q: Pos| r@.to_set().contains(q) <==> v@.take(i + 1).to_set().contains(q) by {
                assert(old_r.to_set().contains(q) == v@.take(i as int).to_set().contains(q));
                assert(v@.take(i + 1).contains(q) <==> (v@.take(i as int).contains(q) || q == p));
                if r@.contains(q) {
                    let a = choose|a: int| 0 <= a < r@.len() && r@[a] == q;
                    if a < k {
                        assert(old_r.contains(old_r[a]));
                    } else if a > k {
                        assert(old_r.contains(old_r[a - 1]));
                    }
                }
                if old_r.contains(q) {
                    let a = choose|a: int| 0 <= a < old_r.len() && old_r[a] == q;
                    if a < k {
                        assert(r@[a] == q);
                    } else {
                        assert(r@[a + 1] == q);
                    }
                }
                assert(r@[k as int] == p);
            }
            assert(r@.to_set() =~= v@.take(i + 1).to_set());
        }
        i += 1;
    }
    proof {
        assert(v@.take(i as int) == v@);
        assert forall|a: int, b: int| 0 <= a < r@.len() && 0 <= b < r@.len() && a != b implies r@[a] != r@[b] by {
            if a < b {
                assert(pos_lt(r@[a], r@[b]));
            } else {
                assert(pos_lt(r@[b], r@[a]));
            }
        }
    }
    r
}

} // verus!
