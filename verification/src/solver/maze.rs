//! Maze solving: a breadth-first search over the open edges, from the player to the exit.
use vstd::prelude::*;
use crate::solver::sets::{Pos, same_pos, contains_pos, lemma_push_contains, lemma_push_no_dup, lemma_card};

verus! {

/// A move of the player: up and down change the row, left and right the column.
#[derive(Debug, Clone, Copy)]
pub enum Direction {
    Up,
    Down,
    Left,
    Right,
}

impl Direction {
    /// How a move changes `(row, column)`.
    pub open spec fn delta(self) -> (int, int) {
        match self {
            Direction::Up => (-1, 0),
            Direction::Down => (1, 0),
            Direction::Left => (0, -1),
            Direction::Right => (0, 1),
        }
    }

    /// The name the game's interface uses for the move.
    pub fn name(self) -> (r: &'static str)
        ensures
            self is Up ==> r@ == "up"@,
            self is Down ==> r@ == "down"@,
            self is Left ==> r@ == "left"@,
            self is Right ==> r@ == "right"@,
    {
        match self {
            Direction::Up => "up",
            Direction::Down => "down",
            Direction::Left => "left",
            Direction::Right => "right",
        }
    }

    /// The move that changes `(row, column)` by `(dr, dc)`, if there is one.
    pub(crate) fn from_delta(dr: i32, dc: i32) -> (r: Option<Self>)
        ensures
            r matches Some(d) ==> d.delta() == (dr as int, dc as int),
            r is None <==> !unit_step(dr as int, dc as int),
    {
        if dr == -1 && dc == 0 {
            Some(Direction::Up)
        } else if dr == 1 && dc == 0 {
            Some(Direction::Down)
        } else if dr == 0 && dc == -1 {
            Some(Direction::Left)
        } else if dr == 0 && dc == 1 {
            Some(Direction::Right)
        } else {
            None
        }
    }
}

/// `(dr, dc)` is one step up, down, left or right.
pub open spec fn unit_step(dr: int, dc: int) -> bool {
    (dr == 0 && (dc == 1 || dc == -1)) || (dc == 0 && (dr == 1 || dr == -1))
}

/// What the solver reads of a maze: where the player stands, where the exit is, and the open
/// edges, each joining two cells `[row, column]` with no wall between them.
pub struct MazeLayout {
    pub player: [i32; 2],
    pub exit: [i32; 2],
    pub open_edges: Vec<[[i32; 2]; 2]>,
}

/// A cell `[row, column]` as a pair.
pub open spec fn cell_of(a: [i32; 2]) -> Pos {
    (a[0], a[1])
}

/// An open edge joins `p` and `q`, in either direction.
pub open spec fn linked(edges: Seq<[[i32; 2]; 2]>, p: Pos, q: Pos) -> bool {
    exists|i: int| 0 <= i < edges.len() && #[trigger] joins(edges[i], p, q)
}

pub open spec fn joins(e: [[i32; 2]; 2], p: Pos, q: Pos) -> bool {
    (cell_of(e[0]) == p && cell_of(e[1]) == q) || (cell_of(e[1]) == p && cell_of(e[0]) == q)
}

/// Consecutive cells of `w` are joined by open edges.
pub open spec fn is_walk(edges: Seq<[[i32; 2]; 2]>, w: Seq<Pos>) -> bool {
    forall|i: int| 0 <= i < w.len() - 1 ==> #[trigger] linked(edges, w[i], w[i + 1])
}

/// Some walk along open edges leads from `s` to `t`.
pub open spec fn reaches(edges: Seq<[[i32; 2]; 2]>, s: Pos, t: Pos) -> bool {
    exists|w: Seq<Pos>| w.len() >= 1 && w[0] == s && w.last() == t && #[trigger] is_walk(edges, w)
}

/// Every open edge joins two cells side by side.
pub open spec fn unit_edges(edges: Seq<[[i32; 2]; 2]>) -> bool {
    forall|i: int| 0 <= i < edges.len() ==> unit_step(
        (#[trigger] edges[i])[1][0] - edges[i][0][0], edges[i][1][1] - edges[i][0][1])
}

/// The cells visited by following `dirs` from `s`, `s` included.
pub open spec fn trail(s: Pos, dirs: Seq<Direction>) -> Seq<(int, int)>
    decreases dirs.len(),
{
    if dirs.len() == 0 {
        seq![(s.0 as int, s.1 as int)]
    } else {
        let before = trail(s, dirs.drop_last());
        let d = dirs.last().delta();
        before.push((before.last().0 + d.0, before.last().1 + d.1))
    }
}

/// The cells of `w` as integer pairs.
pub open spec fn wide(w: Seq<Pos>) -> Seq<(int, int)> {
    w.map_values(|p: Pos| (p.0 as int, p.1 as int))
}

/// Every cell at either end of an open edge, and `s`.
pub open spec fn nodes(edges: Seq<[[i32; 2]; 2]>, s: Pos) -> Seq<Pos> {
    seq![s] + Seq::new(2 * edges.len(), |k: int| cell_of(edges[k / 2][k % 2]))
}

pub proof fn lemma_nodes(edges: Seq<[[i32; 2]; 2]>, s: Pos, i: int)
    requires
        0 <= i < edges.len(),
    ensures
        nodes(edges, s).contains(cell_of(edges[i][0])),
        nodes(edges, s).contains(cell_of(edges[i][1])),
        nodes(edges, s).contains(s),
{
    assert(nodes(edges, s)[1 + 2 * i] == cell_of(edges[i][0]));
    assert(nodes(edges, s)[2 + 2 * i] == cell_of(edges[i][1]));
    assert(nodes(edges, s)[0] == s);
}

/// A duplicate-free sequence drawn from `all`, missing `x` of `all`, is shorter than `all`.
pub proof fn lemma_room(s: Seq<Pos>, all: Seq<Pos>, x: Pos)
    requires
        s.no_duplicates(),
        forall|i: int| 0 <= i < s.len() ==> all.contains(#[trigger] s[i]),
        all.contains(x),
        !s.contains(x),
    ensures
        s.len() < all.len(),
{
    lemma_push_no_dup(s, x);
    lemma_push_contains(s, x);
    lemma_card(s.push(x));
    assert(s.push(x).to_set().subset_of(all.to_set())) by {
        assert forall|p: Pos| s.push(x).to_set().contains(p) implies all.to_set().contains(p) by {
            if p != x {
                assert(s.contains(p));
                let k = choose|k: int| 0 <= k < s.len() && s[k] == p;
                assert(all.contains(s[k]));
            }
        }
    }
    all.lemma_cardinality_of_set();
    vstd::set_lib::lemma_len_subset(s.push(x).to_set(), all.to_set());
}

/// A set that holds `s`, lacks `t`, and holds every cell joined to one of its cells: no walk leads from `s` to `t`.
pub proof fn lemma_closed_unreachable(edges: Seq<[[i32; 2]; 2]>, seen: Seq<Pos>, s: Pos, t: Pos)
    requires
        seen.contains(s),
        !seen.contains(t),
        forall|p: Pos, q: Pos| seen.contains(p) && #[trigger] linked(edges, p, q) ==> seen.contains(q),
    ensures
        !reaches(edges, s, t),
{
    if reaches(edges, s, t) {
        let w = choose|w: Seq<Pos>| w.len() >= 1 && w[0] == s && w.last() == t && #[trigger] is_walk(edges, w);
        lemma_walk_stays(edges, seen, w, w.len() - 1);
    }
}

/// A walk that starts in a set closed under open edges stays in it.
pub proof fn lemma_walk_stays(edges: Seq<[[i32; 2]; 2]>, seen: Seq<Pos>, w: Seq<Pos>, k: int)
    requires
        0 <= k < w.len(),
        seen.contains(w[0]),
        is_walk(edges, w),
        forall|p: Pos, q: Pos| seen.contains(p) && #[trigger] linked(edges, p, q) ==> seen.contains(q),
    ensures
        seen.contains(w[k]),
    decreases k,
{
    if k > 0 {
        lemma_walk_stays(edges, seen, w, k - 1);
        let i = k - 1;
        assert(linked(edges, w[i], w[i + 1]));
    }
}

/// No walk along open edges leads from `s` to `t` in fewer than `n` steps.
pub open spec fn no_shorter(edges: Seq<[[i32; 2]; 2]>, s: Pos, t: Pos, n: int) -> bool {
    forall|w: Seq<Pos>| w.len() >= 1 && w[0] == s && w.last() == t && #[trigger] is_walk(edges, w) ==> n <= w.len() - 1
}

/// Some cell of `seen` is `q`, reached in at most `bound` steps.
pub open spec fn found_within(seen: Seq<Pos>, depth: Seq<nat>, q: Pos, bound: int) -> bool {
    exists|j: int| 0 <= j < seen.len() && seen[j] == q && #[trigger] depth[j] <= bound
}

/// The search visits cells in order of their steps from the start.
pub open spec fn layered(depth: Seq<nat>) -> bool {
    forall|i: int, j: int| 0 <= i <= j < depth.len() ==> #[trigger] depth[i] <= #[trigger] depth[j]
}

/// Every neighbour of a cell the search has finished is found, one step further at most.
pub open spec fn finished(edges: Seq<[[i32; 2]; 2]>, seen: Seq<Pos>, depth: Seq<nat>, head: int) -> bool {
    forall|p: int, q: Pos| 0 <= p < head && #[trigger] linked(edges, seen[p], q) ==> found_within(seen, depth, q, depth[p] + 1int)
}

/// A walk of fewer steps than the cell under search takes to reach: each cell on it was found
/// within as many steps as the walk took to get there.
pub proof fn lemma_walk_depth(edges: Seq<[[i32; 2]; 2]>, seen: Seq<Pos>, depth: Seq<nat>, head: int, w: Seq<Pos>, k: int)
    requires
        0 <= head < seen.len(),
        depth.len() == seen.len(),
        seen[0] == w[0],
        depth[0] == 0,
        layered(depth),
        finished(edges, seen, depth, head),
        is_walk(edges, w),
        0 <= k < w.len(),
        k < depth[head],
    ensures
        found_within(seen, depth, w[k], k),
    decreases k,
{
    if k == 0 {
        assert(seen[0] == w[0] && depth[0] <= 0);
    } else {
        lemma_walk_depth(edges, seen, depth, head, w, k - 1);
        let j0 = choose|j: int| 0 <= j < seen.len() && seen[j] == w[k - 1] && #[trigger] depth[j] <= k - 1;
        if j0 >= head {
            assert(depth[head] <= depth[j0]);
        }
        assert(linked(edges, w[k - 1], w[(k - 1) + 1]));
        assert(linked(edges, seen[j0], w[k]));
    }
}

/// Cells found stay found when the search finds one more.
pub proof fn lemma_found_kept(edges: Seq<[[i32; 2]; 2]>, seen: Seq<Pos>, depth: Seq<nat>, seen2: Seq<Pos>, depth2: Seq<nat>, head: int)
    requires
        finished(edges, seen, depth, head),
        seen.len() == depth.len(),
        seen2.len() == seen.len() + 1,
        depth2.len() == depth.len() + 1,
        forall|i: int| 0 <= i < seen.len() ==> seen2[i] == seen[i] && depth2[i] == depth[i],
        head <= seen.len(),
    ensures
        finished(edges, seen2, depth2, head),
{
    assert forall|p: int, q: Pos| 0 <= p < head && #[trigger] linked(edges, seen2[p], q)
        implies found_within(seen2, depth2, q, depth2[p] + 1int) by {
        assert(seen2[p] == seen[p]);
        assert(linked(edges, seen[p], q));
        let j = choose|j: int| 0 <= j < seen.len() && seen[j] == q && #[trigger] depth[j] <= depth[p] + 1;
        assert(seen2[j] == q && depth2[j] <= depth2[p] + 1);
    }
}

/// The cell under search, reached in `depth[head]` steps: no walk from the start reaches it in fewer.
pub proof fn lemma_found_shortest(edges: Seq<[[i32; 2]; 2]>, seen: Seq<Pos>, depth: Seq<nat>, head: int)
    requires
        0 <= head < seen.len(),
        depth.len() == seen.len(),
        depth[0] == 0,
        seen.no_duplicates(),
        layered(depth),
        finished(edges, seen, depth, head),
    ensures
        no_shorter(edges, seen[0], seen[head], depth[head] as int),
{
    assert forall|w: Seq<Pos>| w.len() >= 1 && w[0] == seen[0] && w.last() == seen[head] && #[trigger] is_walk(edges, w)
        implies depth[head] <= w.len() - 1 by {
        if depth[head] > w.len() - 1 {
            lemma_walk_depth(edges, seen, depth, head, w, w.len() - 1);
            let j = choose|j: int| 0 <= j < seen.len() && seen[j] == w[w.len() - 1] && #[trigger] depth[j] <= w.len() - 1;
            assert(seen[j] == seen[head]);
        }
    }
}

/// Once every open edge at the cell under search has been followed, the search is done with it.
pub proof fn lemma_finish_cell(edges: Seq<[[i32; 2]; 2]>, seen: Seq<Pos>, depth: Seq<nat>, head: int)
    requires
        0 <= head < seen.len(),
        depth.len() == seen.len(),
        layered(depth),
        forall|j: int| 0 <= j < seen.len() ==> #[trigger] depth[j] <= depth[head] + 1,
        forall|p: Pos, q: Pos| seen.take(head).contains(p) && #[trigger] linked(edges, p, q) ==> seen.contains(q),
        forall|i: int, q: Pos| 0 <= i < edges.len() && #[trigger] joins(edges[i], seen[head], q) ==> seen.contains(q),
        finished(edges, seen, depth, head),
    ensures
        forall|p: Pos, q: Pos| seen.take(head + 1).contains(p) && #[trigger] linked(edges, p, q) ==> seen.contains(q),
        finished(edges, seen, depth, head + 1),
        head + 1 < seen.len() ==> forall|j: int| 0 <= j < seen.len() ==> #[trigger] depth[j] <= depth[head + 1] + 1,
{
    let cur = seen[head];
    lemma_push_contains(seen.take(head), cur);
    assert(seen.take(head + 1) == seen.take(head).push(cur));
    assert forall|p: Pos, q: Pos| seen.take(head + 1).contains(p) && #[trigger] linked(edges, p, q) implies seen.contains(q) by {
        if p == cur {
            let i = choose|i: int| 0 <= i < edges.len() && #[trigger] joins(edges[i], p, q);
        }
    }
    assert forall|p: int, q: Pos| 0 <= p < head + 1 && #[trigger] linked(edges, seen[p], q)
        implies found_within(seen, depth, q, depth[p] + 1int) by {
        if p == head {
            let i = choose|i: int| 0 <= i < edges.len() && #[trigger] joins(edges[i], cur, q);
            assert(seen.contains(q));
            let j = choose|j: int| 0 <= j < seen.len() && seen[j] == q;
            assert(depth[j] <= depth[p] + 1);
        }
    }
    if head + 1 < seen.len() {
        assert(depth[head] <= depth[head + 1]);
    }
}

/// A shortest walk from the player to the exit, as moves, found breadth first.
///
/// Already at the exit: no move at all. `None` when the exit cannot be reached, or when the walk
/// found takes an open edge that is not a single step up, down, left or right.
#[verifier::spinoff_prover]
#[verifier::rlimit(30)]
pub fn solve(maze: &MazeLayout) -> (r: Option<Vec<Direction>>)
    ensures
        r matches Some(dirs) ==> is_walk_of(maze.open_edges@, cell_of(maze.player), dirs@)
            && trail(cell_of(maze.player), dirs@).last() == (maze.exit[0] as int, maze.exit[1] as int)
            && no_shorter(maze.open_edges@, cell_of(maze.player), cell_of(maze.exit), dirs@.len() as int),
        r is None ==> !reaches(maze.open_edges@, cell_of(maze.player), cell_of(maze.exit))
            || !unit_edges(maze.open_edges@),
        cell_of(maze.player) == cell_of(maze.exit) ==> (r matches Some(dirs) && dirs@.len() == 0),
{
    let start: Pos = (maze.player[0], maze.player[1]);
    let end: Pos = (maze.exit[0], maze.exit[1]);
    if same_pos(start, end) {
        proof {
            assert(trail(start, Seq::<Direction>::empty()) == seq![(start.0 as int, start.1 as int)]);
            assert(is_walk_of(maze.open_edges@, start, Seq::<Direction>::empty())) by {
                assert(wide(seq![start]) == trail(start, Seq::<Direction>::empty()));
                assert(is_walk(maze.open_edges@, seq![start]));
            }
        }
        return Some(Vec::new());
    }
    let edges = &maze.open_edges;
    let ghost es = edges@;
    let ghost all = nodes(es, start);
    let mut seen: Vec<Pos> = Vec::new();
    seen.push(start);
    let mut parent: Vec<usize> = Vec::new();
    parent.push(0);
    let mut head: usize = 0;
    let ghost mut depth: Seq<nat> = seq![0nat];
    proof {
        assert(seen@.no_duplicates());
        assert(all[0] == start);
    }
    while head < seen.len()
        invariant
            es == edges@,
            es == maze.open_edges@,
            start == cell_of(maze.player),
            end == cell_of(maze.exit),
            all == nodes(es, start),
            start != end,
            seen@.len() >= 1,
            seen@[0] == start,
            parent@.len() == seen@.len(),
            seen@.no_duplicates(),
            seen@.len() <= all.len(),
            forall|i: int| 0 <= i < seen@.len() ==> all.contains(#[trigger] seen@[i]),
            forall|i: int| 1 <= i < seen@.len() ==> (#[trigger] parent@[i]) < i
                && linked(es, seen@[parent@[i] as int], seen@[i]),
            0 <= head <= seen@.len(),
            forall|i: int| 0 <= i < head ==> #[trigger] seen@[i] != end,
            forall|p: Pos, q: Pos| seen@.take(head as int).contains(p) && #[trigger] linked(es, p, q) ==> seen@.contains(q),
            chained(parent@, depth),
            layered(depth),
            head < seen@.len() ==> forall|j: int| 0 <= j < seen@.len() ==> #[trigger] depth[j] <= depth[head as int] + 1,
            finished(es, seen@, depth, head as int),
        decreases all.len() - head,
    {
        let cur = seen[head];
        if same_pos(cur, end) {
            let r = trace_back(edges, &seen, &parent, head, Ghost(depth));
            proof {
                assert(seen@[0] == cell_of(maze.player));
                assert(seen@[head as int] == end);
                assert(es == maze.open_edges@);
                lemma_found_shortest(es, seen@, depth, head as int);
            }
            return r;
        }
        let mut e: usize = 0;
        while e < edges.len()
            invariant
                es == edges@,
                all == nodes(es, start),
                start != end,
                seen@.len() >= 1,
                seen@[0] == start,
                parent@.len() == seen@.len(),
                seen@.no_duplicates(),
                seen@.len() <= all.len(),
                forall|i: int| 0 <= i < seen@.len() ==> all.contains(#[trigger] seen@[i]),
                forall|i: int| 1 <= i < seen@.len() ==> (#[trigger] parent@[i]) < i
                    && linked(es, seen@[parent@[i] as int], seen@[i]),
                0 <= head < seen@.len(),
                cur == seen@[head as int],
                cur != end,
                forall|i: int| 0 <= i < head ==> #[trigger] seen@[i] != end,
                forall|p: Pos, q: Pos| seen@.take(head as int).contains(p) && #[trigger] linked(es, p, q) ==> seen@.contains(q),
                forall|i: int, q: Pos| 0 <= i < e && #[trigger] joins(es[i], cur, q) ==> seen@.contains(q),
                0 <= e <= es.len(),
                chained(parent@, depth),
                layered(depth),
                forall|j: int| 0 <= j < seen@.len() ==> #[trigger] depth[j] <= depth[head as int] + 1,
                finished(es, seen@, depth, head as int),
            decreases es.len() - e,
        {
            let a: Pos = (edges[e][0][0], edges[e][0][1]);
            let b: Pos = (edges[e][1][0], edges[e][1][1]);
            proof {
                lemma_nodes(es, start, e as int);
                assert(a == cell_of(es[e as int][0]));
                assert(b == cell_of(es[e as int][1]));
            }
            if same_pos(a, cur) && !contains_pos(&seen, b) {
                proof {
                    lemma_room(seen@, all, b);
                    assert(joins(es[e as int], cur, b));
                    assert(linked(es, cur, b));
                    lemma_push_no_dup(seen@, b);
                }
                let ghost before = seen@;
                let ghost old_depth = depth;
                seen.push(b);
                parent.push(head);
                proof {
                    lemma_push_contains(before, b);
                    assert(seen@.take(head as int) == before.take(head as int));
                    depth = depth.push(depth[head as int] + 1);
                    lemma_found_kept(es, before, old_depth, seen@, depth, head as int);
                }
            }
            if same_pos(b, cur) && !contains_pos(&seen, a) {
                proof {
                    lemma_room(seen@, all, a);
                    assert(joins(es[e as int], cur, a));
                    assert(linked(es, cur, a));
                    lemma_push_no_dup(seen@, a);
                }
                let ghost before = seen@;
                let ghost old_depth = depth;
                seen.push(a);
                parent.push(head);
                proof {
                    lemma_push_contains(before, a);
                    assert(seen@.take(head as int) == before.take(head as int));
                    depth = depth.push(depth[head as int] + 1);
                    lemma_found_kept(es, before, old_depth, seen@, depth, head as int);
                }
            }
            proof {
                assert forall|i: int, q: Pos| 0 <= i < e + 1 && #[trigger] joins(es[i], cur, q) implies seen@.contains(q) by {
                    if i == e {
                        if q == b {
                            assert(a == cur || (b == cur && a == q));
                        }
                    }
                }
            }
            e += 1;
        }
        proof {
            lemma_finish_cell(es, seen@, depth, head as int);
        }
        head += 1;
    }
    proof {
        assert(seen@.take(head as int) == seen@);
        assert(seen@.contains(start));
        assert(!seen@.contains(end)) by {
            if seen@.contains(end) {
                let k = choose|k: int| 0 <= k < seen@.len() && seen@[k] == end;
                assert(seen@[k] != end);
            }
        }
        lemma_closed_unreachable(es, seen@, start, end);
    }
    None
}

/// `depth` counts the steps back to the first cell along `parent`.
pub open spec fn chained(parent: Seq<usize>, depth: Seq<nat>) -> bool {
    &&& depth.len() == parent.len()
    &&& depth.len() >= 1
    &&& depth[0] == 0
    &&& forall|i: int| 1 <= i < depth.len() ==> #[trigger] depth[i] == depth[parent[i] as int] + 1
}

/// `dirs` followed from `s` walks along open edges.
pub open spec fn is_walk_of(edges: Seq<[[i32; 2]; 2]>, s: Pos, dirs: Seq<Direction>) -> bool {
    exists|w: Seq<Pos>| #[trigger] wide(w) == trail(s, dirs) && is_walk(edges, w)
}

/// The moves along the chain of discoveries that ends at `seen[at]`.
fn trace_back(edges: &Vec<[[i32; 2]; 2]>, seen: &Vec<Pos>, parent: &Vec<usize>, at: usize, Ghost(depth): Ghost<Seq<nat>>) -> (r: Option<Vec<Direction>>)
    requires
        seen@.len() >= 1,
        parent@.len() == seen@.len(),
        at < seen@.len(),
        forall|i: int| 1 <= i < seen@.len() ==> (#[trigger] parent@[i]) < i
            && linked(edges@, seen@[parent@[i] as int], seen@[i]),
        chained(parent@, depth),
    ensures
        r matches Some(dirs) ==> is_walk_of(edges@, seen@[0], dirs@)
            && trail(seen@[0], dirs@).last() == (seen@[at as int].0 as int, seen@[at as int].1 as int)
            && dirs@.len() == depth[at as int],
        r is None ==> !unit_edges(edges@),
{
    // The chain from `seen[at]` back to `seen[0]`, as indices.
    let mut back: Vec<usize> = Vec::new();
    let mut k: usize = at;
    while k != 0
        invariant
            seen@.len() >= 1,
            parent@.len() == seen@.len(),
            k < seen@.len(),
            forall|i: int| 1 <= i < seen@.len() ==> (#[trigger] parent@[i]) < i
                && linked(edges@, seen@[parent@[i] as int], seen@[i]),
            back@.len() >= 1 ==> back@[0] == at,
            back@.len() == 0 ==> k == at,
            back@.len() >= 1 ==> k == parent@[back@.last() as int],
            forall|j: int| 0 <= j < back@.len() ==> 1 <= #[trigger] back@[j] < seen@.len(),
            forall|j: int| 0 <= j < back@.len() - 1 ==> back@[j + 1] == parent@[#[trigger] back@[j] as int],
            chained(parent@, depth),
            depth[k as int] + back@.len() == depth[at as int],
        decreases k,
    {
        back.push(k);
        k = parent[k];
    }
    back.push(0);
    // The chain from `seen[0]` forwards, as cells.
    let n = back.len();
    let mut fw: Vec<Pos> = Vec::new();
    let mut j: usize = 0;
    while j < n
        invariant
            n == back@.len(),
            n == depth[at as int] + 1,
            n >= 1,
            0 <= j <= n,
            back@[0] == at,
            back@[n - 1] == 0,
            forall|i: int| 0 <= i < n ==> 0 <= #[trigger] back@[i] < seen@.len(),
            fw@.len() == j,
            forall|i: int| 0 <= i < j ==> #[trigger] fw@[i] == seen@[back@[n - 1 - i] as int],
        decreases n - j,
    {
        fw.push(seen[back[n - 1 - j]]);
        j += 1;
    }
    proof {
        assert(fw@[0] == seen@[0]);
        assert(fw@[n - 1] == seen@[at as int]);
        assert forall|i: int| 0 <= i < fw@.len() - 1 implies #[trigger] linked(edges@, fw@[i], fw@[i + 1]) by {
            let c = back@[n - 2 - i];
            assert(back@[n - 1 - i] == parent@[c as int]);
            assert(1 <= c);
        }
    }
    let mut dirs: Vec<Direction> = Vec::new();
    let mut j: usize = 0;
    while j + 1 < n
        invariant
            n == fw@.len(),
            n == depth[at as int] + 1,
            n >= 1,
            0 <= j < n,
            is_walk(edges@, fw@),
            dirs@.len() == j,
            trail(fw@[0], dirs@) == wide(fw@.take(j + 1)),
        decreases n - j,
    {
        let from = fw[j];
        let to = fw[j + 1];
        proof {
            assert(linked(edges@, fw@[j as int], fw@[j + 1]));
        }
        let dr: i64 = to.0 as i64 - from.0 as i64;
        let dc: i64 = to.1 as i64 - from.1 as i64;
        if dr < -1 || dr > 1 || dc < -1 || dc > 1 {
            proof {
                lemma_step_not_unit(edges@, from, to);
            }
            return None;
        }
        match Direction::from_delta(dr as i32, dc as i32) {
            Some(d) => {
                let ghost before = dirs@;
                dirs.push(d);
                proof {
                    assert(dirs@.drop_last() == before);
                    assert(fw@.take(j + 2) == fw@.take(j + 1).push(to));
                    assert(wide(fw@.take(j + 1)).last() == (from.0 as int, from.1 as int));
                    assert(wide(fw@.take(j + 2)) == wide(fw@.take(j + 1)).push((to.0 as int, to.1 as int)));
                }
            },
            None => {
                proof {
                    lemma_step_not_unit(edges@, from, to);
                }
                return None;
            },
        }
        j += 1;
    }
    proof {
        assert(fw@.take(j + 1) == fw@);
        assert(wide(fw@).last() == (fw@[n - 1].0 as int, fw@[n - 1].1 as int));
    }
    Some(dirs)
}

/// Two cells joined by an open edge that are not side by side: some open edge is no single step.
pub proof fn lemma_step_not_unit(edges: Seq<[[i32; 2]; 2]>, p: Pos, q: Pos)
    requires
        linked(edges, p, q),
        !unit_step(q.0 - p.0, q.1 - p.1),
    ensures
        !unit_edges(edges),
{
    let i = choose|i: int| 0 <= i < edges.len() && #[trigger] joins(edges[i], p, q);
    assert(!unit_step(edges[i][1][0] - edges[i][0][0], edges[i][1][1] - edges[i][0][1]));
}

} // verus!
