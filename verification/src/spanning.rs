use vstd::prelude::*;

use crate::grid::{grid_total, lemma_grid_total_at_most, lemma_grid_total_bounds, lemma_grid_total_bump, lemma_grid_total_fn_eq};
use crate::maze::{lemma_closed_set_holds_reachable, lemma_step_in_bounds, lemma_walk_in_bounds, passage_indicator, Cell, Maze};
use crate::solver::search::{direction_of, Direction, Position};
use crate::tree::joined;

verus! {

/// The side crossed by a move from `a` to `b`, named by the cell that owns
/// it (the western or northern one of the two) and by whether it is that
/// cell's east side (`true`) or its south side (`false`).
pub open spec fn side_key(a: Position, b: Position) -> (int, int, bool) {
    match direction_of(a, b) {
        Some(Direction::East) => (a.0 as int, a.1 as int, true),
        Some(Direction::West) => (b.0 as int, b.1 as int, true),
        Some(Direction::South) => (a.0 as int, a.1 as int, false),
        Some(Direction::North) => (b.0 as int, b.1 as int, false),
        None => (-1, -1, true),
    }
}

/// The number of sides in `keys` that the cell `(x, y)` owns.
pub open spec fn key_indicator(keys: Set<(int, int, bool)>) -> spec_fn(Cell, int, int) -> int {
    |c: Cell, x: int, y: int|
        (if keys.contains((x, y, true)) { 1int } else { 0int }) + (if keys.contains((x, y, false)) {
            1int
        } else {
            0int
        })
}

/// 1 for a cell that `cells` holds.
pub open spec fn member_indicator(cells: Set<Position>) -> spec_fn(Cell, int, int) -> int {
    |c: Cell, x: int, y: int| if cells.contains((x as usize, y as usize)) { 1int } else { 0int }
}

/// The parent of `v` lies on the grid one level above `v`.
pub open spec fn parent_link(m: &Maze, par: Map<Position, Position>, depth: Map<Position, nat>, v: Position) -> bool {
    &&& par.dom().contains(v)
    &&& depth.dom().contains(v)
    &&& m.in_bounds(par[v])
    &&& depth.dom().contains(par[v])
    &&& depth[par[v]] + 1 == depth[v]
}

/// Parent links of a tree that spans the grid: the upper-left corner lies
/// at level 0, every other cell has a parent one level above it, and every
/// move joins a cell and its parent.
pub open spec fn spanning_links(m: &Maze, par: Map<Position, Position>, depth: Map<Position, nat>) -> bool {
    &&& depth.dom().contains(Maze::start())
    &&& depth[Maze::start()] == 0
    &&& forall|v: Position| m.in_bounds(v) && v != Maze::start() ==> #[trigger] parent_link(m, par, depth, v)
    &&& forall|u: Position, v: Position| #[trigger] m.step(u, v) ==> joined(par, u, v)
}

/// Parent links of a tree over the cells reachable from the upper-left
/// corner: the corner lies at level 0, every other reachable cell has a
/// parent one level above it, and every move from a reachable cell joins a
/// cell and its parent. Such links exist exactly when the reachable cells
/// and the passages between them form a tree.
pub open spec fn component_tree_links(m: &Maze, par: Map<Position, Position>, depth: Map<Position, nat>) -> bool {
    &&& depth.dom().contains(Maze::start())
    &&& depth[Maze::start()] == 0
    &&& forall|v: Position| m.reachable(Maze::start(), v) && v != Maze::start() ==> #[trigger] parent_link(m, par, depth, v)
    &&& forall|u: Position, v: Position| #[trigger] m.step(u, v) && m.reachable(Maze::start(), u) ==> joined(par, u, v)
}

/// The cells reachable from the upper-left corner form a tree.
pub open spec fn reachable_cells_form_tree(m: &Maze) -> bool {
    exists|par: Map<Position, Position>, depth: Map<Position, nat>| #[trigger] component_tree_links(m, par, depth)
}

/// Links that span the whole grid are links over the reachable cells.
pub proof fn lemma_spanning_component(m: &Maze, par: Map<Position, Position>, depth: Map<Position, nat>)
    requires
        spanning_links(m, par, depth),
    ensures
        component_tree_links(m, par, depth),
{
    assert forall|v: Position| m.reachable(Maze::start(), v) && v != Maze::start() implies #[trigger] parent_link(
        m,
        par,
        depth,
        v,
    ) by {
        let s = choose|s: Seq<Position>| #[trigger] m.is_walk_between(s, Maze::start(), v);
        lemma_walk_in_bounds(m, s);
        assert(m.in_bounds(s[s.len() - 1]));
    }
}

/// Every cell of a walk from the corner is reachable from the corner.
proof fn lemma_walk_cells_reachable(m: &Maze, s: Seq<Position>, k: int)
    requires
        m.is_walk(s),
        s[0] == Maze::start(),
        0 <= k < s.len(),
    ensures
        m.reachable(Maze::start(), s[k]),
{
    let t = s.subrange(0, k + 1);
    assert forall|i: int| 0 <= i < t.len() - 1 implies #[trigger] m.linked(t, i) by {
        assert(m.linked(s, i));
    }
    assert(m.is_walk_between(t, Maze::start(), s[k]));
}

/// The cell `v` was reached from its parent, a cell reached before it, one
/// level above it, through the side `side_key` names.
pub open spec fn grown_edge(
    m: &Maze,
    seen: Set<Position>,
    par: Map<Position, Position>,
    depth: Map<Position, nat>,
    keys: Set<(int, int, bool)>,
    v: Position,
) -> bool {
    &&& par.dom().contains(v)
    &&& depth.dom().contains(v)
    &&& seen.contains(par[v])
    &&& depth.dom().contains(par[v])
    &&& depth[par[v]] + 1 == depth[v]
    &&& m.step(par[v], v)
    &&& keys.contains(side_key(par[v], v))
}

/// A tree grown from the upper-left corner: the cells `seen`, their parent
/// links, and the sides crossed by those links, each with the cell it leads
/// to; there is one side fewer than cells.
pub open spec fn grown(
    m: &Maze,
    seen: Set<Position>,
    par: Map<Position, Position>,
    depth: Map<Position, nat>,
    keys: Set<(int, int, bool)>,
    child: Map<(int, int, bool), Position>,
) -> bool {
    &&& seen.contains(Maze::start())
    &&& forall|v: Position| #[trigger] seen.contains(v) ==> m.in_bounds(v)
    &&& depth.dom().contains(Maze::start())
    &&& depth[Maze::start()] == 0
    &&& forall|v: Position| seen.contains(v) && v != Maze::start() ==> #[trigger] grown_edge(m, seen, par, depth, keys, v)
    &&& forall|k: (int, int, bool)|
        #[trigger] keys.contains(k) ==> {
            &&& child.dom().contains(k)
            &&& seen.contains(child[k])
            &&& child[k] != Maze::start()
            &&& side_key(par[child[k]], child[k]) == k
        }
    &&& grid_total(m.grid(), key_indicator(keys), m.height as int) + 1 == grid_total(
        m.grid(),
        member_indicator(seen),
        m.height as int,
    )
}

proof fn lemma_grid_rows(m: &Maze)
    requires
        m.has_shape(),
    ensures
        m.grid().len() == m.height,
        forall|j: int| 0 <= j < m.height ==> (#[trigger] m.grid()[j]).len() == m.width,
        forall|i: int, j: int| 0 <= j < m.height && 0 <= i < m.width ==> #[trigger] m.grid()[j][i] == m.cell(i, j),
{
    assert forall|j: int| 0 <= j < m.height implies (#[trigger] m.grid()[j]).len() == m.width by {
        assert(m.grid()[j] == m.cells@[j]@);
    }
    assert forall|i: int, j: int| 0 <= j < m.height && 0 <= i < m.width implies #[trigger] m.grid()[j][i] == m.cell(
        i,
        j,
    ) by {
        assert(m.grid()[j] == m.cells@[j]@);
    }
}

/// A move crosses a side that lies on the grid and is open from the cell
/// that owns it.
proof fn lemma_side_key_open(m: &Maze, a: Position, b: Position)
    requires
        m.walls_consistent(),
        m.step(a, b),
    ensures
        0 <= side_key(a, b).0 < m.width,
        0 <= side_key(a, b).1 < m.height,
        side_key(a, b).2 ==> side_key(a, b).0 + 1 < m.width && !m.cell(side_key(a, b).0, side_key(a, b).1).east,
        !side_key(a, b).2 ==> side_key(a, b).1 + 1 < m.height && !m.cell(side_key(a, b).0, side_key(a, b).1).south,
{
    lemma_step_in_bounds(m, a, b);
    match direction_of(a, b)->0 {
        Direction::West => {
            assert(m.cell(b.0 as int, b.1 as int).east == m.cell(b.0 as int + 1, b.1 as int).west);
        },
        Direction::North => {
            assert(m.cell(b.0 as int, b.1 as int).south == m.cell(b.0 as int, b.1 as int + 1).north);
        },
        _ => {},
    }
}

/// Two moves that cross the same side join the same two cells.
proof fn lemma_side_key_pair(a: Position, b: Position, c: Position, d: Position)
    requires
        direction_of(a, b) is Some,
        direction_of(c, d) is Some,
        side_key(a, b) == side_key(c, d),
    ensures
        (a == c && b == d) || (a == d && b == c),
{
}

/// Each side that a grown tree holds is open, so a cell owns no more of
/// them than it has open passages.
proof fn lemma_key_bits(
    m: &Maze,
    seen: Set<Position>,
    par: Map<Position, Position>,
    depth: Map<Position, nat>,
    keys: Set<(int, int, bool)>,
    child: Map<(int, int, bool), Position>,
    x: int,
    y: int,
)
    requires
        m.walls_consistent(),
        grown(m, seen, par, depth, keys, child),
    ensures
        keys.contains((x, y, true)) ==> x + 1 < m.width && !m.cell(x, y).east,
        keys.contains((x, y, false)) ==> y + 1 < m.height && !m.cell(x, y).south,
{
    if keys.contains((x, y, true)) {
        let c = child[(x, y, true)];
        assert(grown_edge(m, seen, par, depth, keys, c));
        lemma_side_key_open(m, par[c], c);
    }
    if keys.contains((x, y, false)) {
        let c = child[(x, y, false)];
        assert(grown_edge(m, seen, par, depth, keys, c));
        lemma_side_key_open(m, par[c], c);
    }
}

/// The tree of the upper-left corner alone.
proof fn lemma_grown_start(m: &Maze)
    requires
        m.well_shaped(),
    ensures
        grown(
            m,
            Set::<Position>::empty().insert(Maze::start()),
            Map::<Position, Position>::empty(),
            Map::<Position, nat>::empty().insert(Maze::start(), 0),
            Set::<(int, int, bool)>::empty(),
            Map::<(int, int, bool), Position>::empty(),
        ),
{
    let g = m.grid();
    let h = m.height as int;
    let w = m.width as int;
    let seen = Set::<Position>::empty().insert(Maze::start());
    lemma_grid_rows(m);
    lemma_grid_total_at_most(g, key_indicator(Set::empty()), h, w, 0);
    lemma_grid_total_at_most(g, member_indicator(Set::empty()), h, w, 0);
    assert forall|i: int, j: int| 0 <= j < h && 0 <= i < w implies #[trigger] member_indicator(seen)(g[j][i], i, j)
        == member_indicator(Set::empty())(g[j][i], i, j) + (if i == 0 && j == 0 {
        1int
    } else {
        0int
    }) by {
        if seen.contains((i as usize, j as usize)) {
            assert((i as usize, j as usize) == (0usize, 0usize));
        }
    }
    lemma_grid_total_bump(g, member_indicator(Set::empty()), member_indicator(seen), h, w, 0, 0);
}

/// Growing the tree by one move out of it at a time, until no move leaves
/// it, keeps it a tree.
proof fn lemma_grow(
    m: &Maze,
    seen: Set<Position>,
    par: Map<Position, Position>,
    depth: Map<Position, nat>,
    keys: Set<(int, int, bool)>,
    child: Map<(int, int, bool), Position>,
) -> (r: (Set<Position>, Map<Position, Position>, Map<Position, nat>, Set<(int, int, bool)>, Map<(int, int, bool), Position>))
    requires
        m.well_shaped(),
        m.walls_consistent(),
        grown(m, seen, par, depth, keys, child),
    ensures
        grown(m, r.0, r.1, r.2, r.3, r.4),
        forall|u: Position, v: Position| r.0.contains(u) && #[trigger] m.step(u, v) ==> r.0.contains(v),
    decreases m.width * m.height - grid_total(m.grid(), member_indicator(seen), m.height as int),
{
    let g = m.grid();
    let h = m.height as int;
    let w = m.width as int;
    lemma_grid_rows(m);
    if exists|u: Position, v: Position| seen.contains(u) && #[trigger] m.step(u, v) && !seen.contains(v) {
        let (u, v) = choose|u: Position, v: Position| seen.contains(u) && #[trigger] m.step(u, v) && !seen.contains(v);
        lemma_step_in_bounds(m, u, v);
        lemma_side_key_open(m, u, v);
        let k = side_key(u, v);
        if keys.contains(k) {
            let c = child[k];
            assert(grown_edge(m, seen, par, depth, keys, c));
            lemma_side_key_pair(u, v, par[c], c);
            assert(false);
        }
        let seen2 = seen.insert(v);
        let par2 = par.insert(v, u);
        let depth2 = depth.insert(v, depth[u] + 1);
        let keys2 = keys.insert(k);
        let child2 = child.insert(k, v);
        if u != Maze::start() {
            assert(grown_edge(m, seen, par, depth, keys, u));
        }
        assert forall|x: Position| seen2.contains(x) && x != Maze::start() implies #[trigger] grown_edge(
            m,
            seen2,
            par2,
            depth2,
            keys2,
            x,
        ) by {
            if x != v {
                assert(grown_edge(m, seen, par, depth, keys, x));
            }
        }
        assert forall|k2: (int, int, bool)| #[trigger] keys2.contains(k2) implies {
            &&& child2.dom().contains(k2)
            &&& seen2.contains(child2[k2])
            &&& child2[k2] != Maze::start()
            &&& side_key(par2[child2[k2]], child2[k2]) == k2
        } by {
            if k2 != k {
                assert(keys.contains(k2));
            }
        }
        assert forall|i: int, j: int| 0 <= j < h && 0 <= i < w implies #[trigger] member_indicator(seen2)(g[j][i], i, j)
            == member_indicator(seen)(g[j][i], i, j) + (if i == v.0 && j == v.1 {
            1int
        } else {
            0int
        }) by {
            if i == v.0 && j == v.1 {
                assert((i as usize, j as usize) == v);
            } else {
                assert((i as usize, j as usize) != v);
            }
        }
        lemma_grid_total_bump(g, member_indicator(seen), member_indicator(seen2), h, w, v.0 as int, v.1 as int);
        assert forall|i: int, j: int| 0 <= j < h && 0 <= i < w implies #[trigger] key_indicator(keys2)(g[j][i], i, j)
            == key_indicator(keys)(g[j][i], i, j) + (if i == k.0 && j == k.1 {
            1int
        } else {
            0int
        }) by {
            if i == k.0 && j == k.1 {
                if k.2 {
                    assert((i, j, true) == k);
                } else {
                    assert((i, j, false) == k);
                }
            } else {
                assert((i, j, true) != k);
                assert((i, j, false) != k);
            }
        }
        lemma_grid_total_bump(g, key_indicator(keys), key_indicator(keys2), h, w, k.0, k.1);
        assert(grown(m, seen2, par2, depth2, keys2, child2));
        assert forall|i: int, j: int| 0 <= j < h && 0 <= i < w implies 0 <= #[trigger] member_indicator(seen2)(
            g[j][i],
            i,
            j,
        ) <= 1 by {}
        lemma_grid_total_bounds(g, member_indicator(seen2), h, w);
        assert(h * w == w * h) by (nonlinear_arith);
        lemma_grow(m, seen2, par2, depth2, keys2, child2)
    } else {
        (seen, par, depth, keys, child)
    }
}

/// In a perfect maze the passages form a tree that spans the grid: a tree
/// grown from the upper-left corner reaches every cell, and it then holds
/// as many sides as the maze has open passages, so it holds all of them.
pub proof fn lemma_perfect_spanning(m: &Maze) -> (links: (Map<Position, Position>, Map<Position, nat>))
    requires
        m.is_perfect(),
    ensures
        spanning_links(m, links.0, links.1),
{
    let g = m.grid();
    let h = m.height as int;
    let w = m.width as int;
    lemma_grid_rows(m);
    lemma_grown_start(m);
    let r = lemma_grow(
        m,
        Set::<Position>::empty().insert(Maze::start()),
        Map::<Position, Position>::empty(),
        Map::<Position, nat>::empty().insert(Maze::start(), 0),
        Set::<(int, int, bool)>::empty(),
        Map::<(int, int, bool), Position>::empty(),
    );
    let (seen, par, depth, keys, child) = r;
    let member = |q: Position| seen.contains(q);
    assert forall|p: Position| m.in_bounds(p) implies seen.contains(p) by {
        assert(m.reachable(Maze::start(), p));
        lemma_closed_set_holds_reachable(m, Maze::start(), p, member);
    }
    assert forall|i: int, j: int| 0 <= j < h && 0 <= i < w implies #[trigger] member_indicator(seen)(g[j][i], i, j)
        == 1 by {
        assert(m.in_bounds((i as usize, j as usize)));
    }
    lemma_grid_total_bounds(g, member_indicator(seen), h, w);
    assert(h * w == w * h) by (nonlinear_arith);
    let pf = passage_indicator(w, h);
    assert forall|i: int, j: int| 0 <= j < h && 0 <= i < w implies #[trigger] key_indicator(keys)(g[j][i], i, j)
        <= pf(g[j][i], i, j) by {
        lemma_key_bits(m, seen, par, depth, keys, child, i, j);
    }
    lemma_grid_total_fn_eq(g, key_indicator(keys), pf, h, w);
    assert forall|u: Position, v: Position| #[trigger] m.step(u, v) implies joined(par, u, v) by {
        lemma_side_key_open(m, u, v);
        let k = side_key(u, v);
        lemma_key_bits(m, seen, par, depth, keys, child, k.0, k.1);
        assert(key_indicator(keys)(g[k.1][k.0], k.0, k.1) == pf(g[k.1][k.0], k.0, k.1));
        if k.2 {
            assert(keys.contains((k.0, k.1, true)));
        } else {
            assert(keys.contains((k.0, k.1, false)));
        }
        assert(keys.contains(k));
        let c = child[k];
        assert(grown_edge(m, seen, par, depth, keys, c));
        lemma_side_key_pair(u, v, par[c], c);
    }
    assert forall|v: Position| m.in_bounds(v) && v != Maze::start() implies #[trigger] parent_link(m, par, depth, v) by {
        assert(grown_edge(m, seen, par, depth, keys, v));
    }
    (par, depth)
}

/// `u` lies in the subtree of `v`: following parents from `u` at most `k`
/// times reaches `v`.
pub open spec fn descends(par: Map<Position, Position>, u: Position, v: Position, k: nat) -> bool
    decreases k,
{
    u == v || (k > 0 && u != Maze::start() && descends(par, par[u], v, (k - 1) as nat))
}

/// A walk from the corner that ends in the subtree of `v` (not the corner)
/// passes through `v`.
proof fn lemma_walk_enters_subtree(
    m: &Maze,
    par: Map<Position, Position>,
    depth: Map<Position, nat>,
    s: Seq<Position>,
    k: int,
    v: Position,
)
    requires
        component_tree_links(m, par, depth),
        m.is_walk(s),
        s[0] == Maze::start(),
        0 <= k < s.len(),
        v != Maze::start(),
        descends(par, s[k], v, depth[s[k]]),
    ensures
        exists|j: int| 0 <= j <= k && s[j] == v,
    decreases k,
{
    lemma_walk_in_bounds(m, s);
    if k > 0 {
        lemma_walk_cells_reachable(m, s, k - 1);
        lemma_walk_cells_reachable(m, s, k);
    }
    if s[k] == v {
        assert(s[k] == v);
    } else if k == 0 {
        assert(depth[s[0]] == 0);
    } else {
        assert(m.linked(s, k - 1));
        let a = s[k - 1];
        let b = s[k];
        assert(m.step(a, b));
        assert(joined(par, a, b));
        if b != Maze::start() && par.dom().contains(b) && par[b] == a {
            assert(parent_link(m, par, depth, b));
            assert(descends(par, a, v, depth[a]));
            lemma_walk_enters_subtree(m, par, depth, s, k - 1, v);
        } else {
            assert(a != Maze::start() && par[a] == b);
            assert(parent_link(m, par, depth, a));
            assert(depth[a] == depth[b] + 1);
            assert(descends(par, a, v, depth[a]));
            lemma_walk_enters_subtree(m, par, depth, s, k - 1, v);
        }
        let j = choose|j: int| 0 <= j <= k - 1 && s[j] == v;
        assert(0 <= j <= k && s[j] == v);
    }
}

/// The cell before the end of a walk without repeated cells from the corner
/// to `v` (not the corner) is the parent of `v`.
proof fn lemma_last_step_from_parent(
    m: &Maze,
    par: Map<Position, Position>,
    depth: Map<Position, nat>,
    p: Seq<Position>,
    v: Position,
)
    requires
        component_tree_links(m, par, depth),
        m.is_walk_between(p, Maze::start(), v),
        p.no_duplicates(),
        v != Maze::start(),
    ensures
        p.len() >= 2,
        par.dom().contains(v),
        p[p.len() - 2] == par[v],
{
    lemma_walk_in_bounds(m, p);
    let k = p.len() - 1;
    assert(k >= 1);
    lemma_walk_cells_reachable(m, p, k - 1);
    lemma_walk_cells_reachable(m, p, k);
    assert(m.linked(p, k - 1));
    let a = p[k - 1];
    assert(m.step(a, v));
    assert(joined(par, a, v));
    if !(v != Maze::start() && par.dom().contains(v) && par[v] == a) {
        assert(a != Maze::start() && par[a] == v);
        assert(parent_link(m, par, depth, a));
        assert(descends(par, v, v, depth[v]));
        assert(descends(par, a, v, depth[a]));
        lemma_walk_enters_subtree(m, par, depth, p, k - 1, v);
        let j = choose|j: int| 0 <= j <= k - 1 && p[j] == v;
        assert(p[j] == p[k]);
    }
}

/// Two walks without repeated cells from the corner to the same cell are
/// the same walk.
pub proof fn lemma_simple_walks_agree(
    m: &Maze,
    par: Map<Position, Position>,
    depth: Map<Position, nat>,
    p: Seq<Position>,
    q: Seq<Position>,
    v: Position,
)
    requires
        component_tree_links(m, par, depth),
        m.is_walk_between(p, Maze::start(), v),
        m.is_walk_between(q, Maze::start(), v),
        p.no_duplicates(),
        q.no_duplicates(),
    ensures
        p == q,
    decreases p.len(),
{
    let start = Maze::start();
    lemma_walk_in_bounds(m, p);
    lemma_walk_in_bounds(m, q);
    if v == start {
        if p.len() > 1 {
            assert(p[0] == p[p.len() - 1]);
        }
        if q.len() > 1 {
            assert(q[0] == q[q.len() - 1]);
        }
        assert(p =~= q);
    } else {
        lemma_last_step_from_parent(m, par, depth, p, v);
        lemma_last_step_from_parent(m, par, depth, q, v);
        let p0 = p.drop_last();
        let q0 = q.drop_last();
        assert(m.is_walk_between(p0, start, par[v])) by {
            assert forall|i: int| 0 <= i < p0.len() - 1 implies #[trigger] m.linked(p0, i) by {
                assert(m.linked(p, i));
            }
        }
        assert(m.is_walk_between(q0, start, par[v])) by {
            assert forall|i: int| 0 <= i < q0.len() - 1 implies #[trigger] m.linked(q0, i) by {
                assert(m.linked(q, i));
            }
        }
        assert(p0.no_duplicates());
        assert(q0.no_duplicates());
        lemma_simple_walks_agree(m, par, depth, p0, q0, par[v]);
        assert(p =~= p0.push(v));
        assert(q =~= q0.push(v));
    }
}

} // verus!
