use vstd::prelude::*;

use crate::maze::{lemma_step_in_bounds, lemma_walk_in_bounds, Maze};
use crate::solver::astar::manhattan;
use crate::solver::explore::within;
use crate::solver::search::{tree_link, tree_ok, ParentGrid, Position};

verus! {

/// The fewest moves from the upper-left corner to `v` are `d`.
pub open spec fn dist_is(m: &Maze, v: Position, d: int) -> bool {
    &&& within(m, v, d)
    &&& forall|n: int| #[trigger] within(m, v, n) ==> n >= d
}

/// A cell that can be reached in `n` moves has a distance from the corner,
/// at most `n`.
pub proof fn lemma_dist_exists(m: &Maze, v: Position, n: int)
    requires
        within(m, v, n),
    ensures
        exists|d: int| d <= n && #[trigger] dist_is(m, v, d),
    decreases n,
{
    let s = choose|s: Seq<Position>| #[trigger] m.is_walk_between(s, Maze::start(), v) && s.len() <= n + 1;
    assert(n >= 0);
    if forall|k: int| #[trigger] within(m, v, k) ==> k >= n {
        assert(dist_is(m, v, n));
    } else {
        let k = choose|k: int| #[trigger] within(m, v, k) && k < n;
        let w = choose|w: Seq<Position>| #[trigger] m.is_walk_between(w, Maze::start(), v) && w.len() <= k + 1;
        assert(k >= 0);
        lemma_dist_exists(m, v, k);
        let d = choose|d: int| d <= k && #[trigger] dist_is(m, v, d);
        assert(d <= n && dist_is(m, v, d));
    }
}

/// Following the parents from a reached cell back to the corner takes at
/// most as many moves as its depth.
pub proof fn lemma_within_tree(m: &Maze, t: &ParentGrid, depth: Map<Position, int>, v: Position)
    requires
        tree_ok(m, t, depth, Maze::start()),
        m.in_bounds(v),
        t.recorded(v),
    ensures
        within(m, v, depth[v]),
    decreases depth[v],
{
    if v == Maze::start() {
        let s = seq![v];
        assert(m.is_walk_between(s, Maze::start(), v));
    } else {
        assert(tree_link(m, t, depth, v));
        let p = t.at(v)->0;
        lemma_within_tree(m, t, depth, p);
        let s = choose|s: Seq<Position>| #[trigger] m.is_walk_between(s, Maze::start(), p) && s.len() <= depth[p] + 1;
        lemma_within_step(m, p, depth[p], v);
        let s2 = choose|s2: Seq<Position>| #[trigger] m.is_walk_between(s2, Maze::start(), v) && s2.len() <= depth[p] + 2;
        assert(m.is_walk_between(s2, Maze::start(), v) && s2.len() <= depth[v] + 1);
    }
}

/// One more move reaches a neighbour in one more move.
pub proof fn lemma_within_step(m: &Maze, v: Position, d: int, u: Position)
    requires
        within(m, v, d),
        m.step(v, u),
    ensures
        within(m, u, d + 1),
{
    let s = choose|s: Seq<Position>| #[trigger] m.is_walk_between(s, Maze::start(), v) && s.len() <= d + 1;
    let s2 = s.push(u);
    assert forall|i: int| 0 <= i < s2.len() - 1 implies #[trigger] m.linked(s2, i) by {
        if i < s.len() - 1 {
            assert(m.linked(s, i));
        }
    }
    assert(m.is_walk_between(s2, Maze::start(), u));
}

/// A cell `k` moves along a shortest walk lies `k` moves from the corner.
pub proof fn lemma_shortest_prefix(m: &Maze, s: Seq<Position>, v: Position, k: int)
    requires
        m.is_walk_between(s, Maze::start(), v),
        dist_is(m, v, s.len() - 1),
        0 <= k < s.len(),
    ensures
        dist_is(m, s[k], k),
{
    let p = s.subrange(0, k + 1);
    assert forall|i: int| 0 <= i < p.len() - 1 implies #[trigger] m.linked(p, i) by {
        assert(m.linked(s, i));
    }
    assert(m.is_walk_between(p, Maze::start(), s[k]));
    assert forall|n: int| #[trigger] within(m, s[k], n) implies n >= k by {
        let w = choose|w: Seq<Position>| #[trigger] m.is_walk_between(w, Maze::start(), s[k]) && w.len() <= n + 1;
        let rest = s.subrange(k + 1, s.len() as int);
        let c = w + rest;
        assert forall|i: int| 0 <= i < c.len() - 1 implies #[trigger] m.linked(c, i) by {
            if i < w.len() - 1 {
                assert(m.linked(w, i));
            } else if i == w.len() - 1 {
                assert(c[i] == s[k]);
                assert(c[i + 1] == s[k + 1]);
                assert(m.linked(s, k));
            } else {
                let j = i - w.len() + k + 1;
                assert(c[i] == s[j]);
                assert(c[i + 1] == s[j + 1]);
                assert(m.linked(s, j));
            }
        }
        if k + 1 < s.len() {
            assert(c.last() == s.last());
        } else {
            assert(c =~= w);
        }
        assert(m.is_walk_between(c, Maze::start(), v));
        assert(within(m, v, c.len() - 1));
    }
}

/// Along a walk, the Manhattan distance to `goal` falls by at most one per
/// move.
pub proof fn lemma_manhattan_along(m: &Maze, s: Seq<Position>, goal: Position, i: int)
    requires
        m.is_walk(s),
        0 <= i < s.len(),
    ensures
        manhattan(s[i], goal) <= (s.len() - 1 - i) + manhattan(s.last(), goal),
    decreases s.len() - i,
{
    if i < s.len() - 1 {
        lemma_manhattan_along(m, s, goal, i + 1);
        assert(m.linked(s, i));
        lemma_step_in_bounds(m, s[i], s[i + 1]);
    }
}


/// The index of a cell of a grid `w` cells wide, row after row.
pub open spec fn cell_index(p: Position, w: int) -> int {
    p.1 * w + p.0
}

proof fn lemma_cell_index_bounds(x: int, y: int, w: int, h: int)
    by (nonlinear_arith)
    requires
        0 <= x < w,
        0 <= y < h,
    ensures
        0 <= y * w + x < w * h,
{
}

proof fn lemma_cell_index_injective(x1: int, y1: int, x2: int, y2: int, w: int)
    by (nonlinear_arith)
    requires
        0 <= x1 < w,
        0 <= x2 < w,
        0 <= y1,
        0 <= y2,
        y1 * w + x1 == y2 * w + x2,
    ensures
        x1 == x2,
        y1 == y2,
{
    if y1 < y2 {
        assert(y2 * w >= (y1 + 1) * w);
    } else if y2 < y1 {
        assert(y1 * w >= (y2 + 1) * w);
    }
}

/// Distinct cells of the grid number at most its cells.
pub proof fn lemma_distinct_cells_bound(m: &Maze, s: Seq<Position>)
    requires
        s.no_duplicates(),
        forall|k: int| 0 <= k < s.len() ==> m.in_bounds(#[trigger] s[k]),
    ensures
        s.len() <= m.width * m.height,
{
    let w = m.width as int;
    let h = m.height as int;
    let t = s.map_values(|p: Position| cell_index(p, w));
    assert forall|a: int, b: int| 0 <= a < b < t.len() implies t[a] != t[b] by {
        let p = s[a];
        let q = s[b];
        assert(m.in_bounds(p));
        assert(m.in_bounds(q));
        if t[a] == t[b] {
            lemma_cell_index_injective(p.0 as int, p.1 as int, q.0 as int, q.1 as int, w);
            assert(p == q);
        }
    }
    assert(t.no_duplicates());
    t.unique_seq_to_set();
    assert(w * h >= 0) by (nonlinear_arith)
        requires
            w >= 0,
            h >= 0,
    ;
    vstd::set_lib::lemma_int_range(0, w * h);
    assert forall|x: int| t.to_set().contains(x) implies vstd::set_lib::set_int_range(0, w * h).contains(x) by {
        let k = choose|k: int| 0 <= k < t.len() && t[k] == x;
        let p = s[k];
        assert(m.in_bounds(p));
        lemma_cell_index_bounds(p.0 as int, p.1 as int, w, h);
    }
    vstd::set_lib::lemma_len_subset(t.to_set(), vstd::set_lib::set_int_range(0, w * h));
}

} // verus!
