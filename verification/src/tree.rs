use vstd::prelude::*;

use crate::generator::{cell_at, inside_toward, open_side, opposite, sealed, visited_at};
use crate::maze::{lemma_step_in_bounds, moved, Cell, Maze};
use crate::solver::search::{direction_of, Direction, Position};

verus! {

/// One of `u` and `v` is the parent of the other.
pub open spec fn joined(par: Map<Position, Position>, u: Position, v: Position) -> bool {
    ||| (v != Maze::start() && par.dom().contains(v) && par[v] == u)
    ||| (u != Maze::start() && par.dom().contains(u) && par[u] == v)
}

/// The cell `v` has a visited parent one level above it.
pub open spec fn linked_below(m: &Maze, par: Map<Position, Position>, depth: Map<Position, nat>, v: Position) -> bool {
    &&& par.dom().contains(v)
    &&& depth.dom().contains(v)
    &&& m.in_bounds(par[v])
    &&& visited_at(m, par[v])
    &&& depth.dom().contains(par[v])
    &&& depth[par[v]] + 1 == depth[v]
}

/// The parent links of a carving: the upper-left corner lies at level 0,
/// every other visited cell has a visited parent one level above it, and
/// every open passage joins a cell and its parent.
pub open spec fn tree_links(m: &Maze, par: Map<Position, Position>, depth: Map<Position, nat>) -> bool {
    &&& depth.dom().contains(Maze::start())
    &&& depth[Maze::start()] == 0
    &&& forall|v: Position| m.in_bounds(v) && #[trigger] visited_at(m, v) ==> par.dom().contains(v) && depth.dom().contains(v)
    &&& forall|v: Position|
        m.in_bounds(v) && #[trigger] visited_at(m, v) && v != Maze::start() ==> linked_below(m, par, depth, v)
    &&& forall|u: Position, v: Position| #[trigger] m.step(u, v) ==> joined(par, u, v)
}

/// Every cell was visited by a carving whose passages form a tree rooted at
/// the upper-left corner.
pub open spec fn carved_tree(m: &Maze) -> bool {
    &&& forall|p: Position| m.in_bounds(p) ==> #[trigger] visited_at(m, p)
    &&& exists|par: Map<Position, Position>, depth: Map<Position, nat>| tree_links(m, par, depth)
}

/// Opening a side of a border cell toward the outside changes no move.
pub proof fn lemma_door_steps(m0: &Maze, m1: &Maze, x: int, y: int, c: Cell)
    requires
        0 <= x < m0.width,
        0 <= y < m0.height,
        m1.width == m0.width,
        m1.height == m0.height,
        c.north == m0.cell(x, y).north,
        c.south == m0.cell(x, y).south,
        (c.east != m0.cell(x, y).east) ==> x == m0.width - 1,
        (c.west != m0.cell(x, y).west) ==> x == 0,
        forall|i: int, j: int| 0 <= i < m1.width && 0 <= j < m1.height ==> #[trigger] m1.cell(i, j) == (if i == x && j == y {
            c
        } else {
            m0.cell(i, j)
        }),
    ensures
        forall|u: Position, v: Position| m1.step(u, v) == m0.step(u, v),
{
    assert forall|u: Position, v: Position| m1.step(u, v) == m0.step(u, v) by {
        if m0.in_bounds(u) && u.0 == x && u.1 == y {
            assert(m1.cell(x, y) == c);
        } else {
            lemma_same_sides_same_steps(m0, m1, u, v);
        }
    }
}

/// A fresh maze, with every wall standing and nothing visited, has the
/// links of an empty carving.
pub proof fn lemma_links_fresh(m: &Maze)
    requires
        m.well_shaped(),
        forall|x: int, y: int| 0 <= x < m.width && 0 <= y < m.height ==> m.cell(x, y) == Cell::closed(),
    ensures
        tree_links(
            m,
            Map::<Position, Position>::empty().insert(Maze::start(), Maze::start()),
            Map::<Position, nat>::empty().insert(Maze::start(), 0),
        ),
{
    assert forall|v: Position| m.in_bounds(v) implies !#[trigger] visited_at(m, v) by {
        assert(m.cell(v.0 as int, v.1 as int) == Cell::closed());
    }
    assert forall|u: Position, v: Position| #[trigger] m.step(u, v) implies false by {
        assert(m.cell(u.0 as int, u.1 as int) == Cell::closed());
    }
}

/// Only the sides of a cell decide where one can move from it.
proof fn lemma_same_sides_same_steps(m0: &Maze, m1: &Maze, u: Position, v: Position)
    requires
        m0.width == m1.width,
        m0.height == m1.height,
        m0.in_bounds(u) ==> {
            let c0 = cell_at(m0, u);
            let c1 = cell_at(m1, u);
            c0.north == c1.north && c0.east == c1.east && c0.south == c1.south && c0.west == c1.west
        },
    ensures
        m1.step(u, v) == m0.step(u, v),
{
}

/// No move leads into a cell whose four walls stand.
proof fn lemma_no_step_into_sealed(m: &Maze, u: Position, n: Position)
    requires
        m.walls_consistent(),
        m.in_bounds(n),
        sealed(cell_at(m, n)),
    ensures
        !m.step(u, n),
        !m.step(n, u),
{
    if m.step(u, n) {
        let d = direction_of(u, n)->0;
        let x = u.0 as int;
        let y = u.1 as int;
        match d {
            Direction::North => {
                assert(m.cell(x, y - 1).south == m.cell(x, y).north);
            },
            Direction::East => {
                assert(m.cell(x, y).east == m.cell(x + 1, y).west);
            },
            Direction::South => {
                assert(m.cell(x, y).south == m.cell(x, y + 1).north);
            },
            Direction::West => {
                assert(m.cell(x - 1, y).east == m.cell(x, y).west);
            },
        }
    }
}

/// Marking the cell `(x, y)` visited keeps the links when the cell has its
/// parent entry (for a cell other than the corner, a visited parent one
/// level above it).
pub proof fn lemma_links_marked(
    m0: &Maze,
    m1: &Maze,
    p: Position,
    par: Map<Position, Position>,
    depth: Map<Position, nat>,
)
    requires
        m0.well_shaped(),
        m0.in_bounds(p),
        tree_links(m0, par, depth),
        par.dom().contains(p),
        depth.dom().contains(p),
        p != Maze::start() ==> linked_below(m0, par, depth, p),
        m1.width == m0.width,
        m1.height == m0.height,
        forall|i: int, j: int|
            0 <= i < m0.width && 0 <= j < m0.height ==> #[trigger] m1.cell(i, j) == (if i == p.0 && j == p.1 {
                Cell { visited: true, ..m0.cell(i, j) }
            } else {
                m0.cell(i, j)
            }),
    ensures
        tree_links(m1, par, depth),
{
    assert forall|v: Position| m1.in_bounds(v) implies #[trigger] visited_at(m1, v) == (visited_at(m0, v) || v == p) by {}
    assert forall|u: Position, v: Position| #[trigger] m1.step(u, v) implies joined(par, u, v) by {
        lemma_same_sides_same_steps(m0, m1, u, v);
    }
    assert forall|v: Position| m1.in_bounds(v) && #[trigger] visited_at(m1, v) && v != Maze::start() implies linked_below(
        m1,
        par,
        depth,
        v,
    ) by {
        if v != p {
            assert(visited_at(m0, v));
            assert(linked_below(m0, par, depth, v));
        }
        assert(visited_at(m1, par[v]));
    }
}

/// Opening the wall between the visited cell `p` and the unvisited cell
/// `n` beyond its side `d` keeps the links once `p` is made the parent of
/// `n`, one level below it.
pub proof fn lemma_links_opened(
    mb: &Maze,
    ma: &Maze,
    p: Position,
    n: Position,
    d: Direction,
    par: Map<Position, Position>,
    depth: Map<Position, nat>,
)
    requires
        mb.well_shaped(),
        mb.in_bounds(p),
        inside_toward(mb.width as int, mb.height as int, p, d),
        n == moved(p, d),
        n != p,
        ma.in_bounds(n),
        visited_at(mb, p),
        !visited_at(mb, n),
        visited_at(mb, Maze::start()),
        mb.walls_consistent(),
        sealed(cell_at(mb, n)),
        tree_links(mb, par, depth),
        ma.width == mb.width,
        ma.height == mb.height,
        forall|i: int, j: int|
            0 <= i < mb.width && 0 <= j < mb.height ==> #[trigger] ma.cell(i, j) == (if i == n.0 && j == n.1 {
                open_side(mb.cell(n.0 as int, n.1 as int), opposite(d))
            } else if i == p.0 && j == p.1 {
                open_side(mb.cell(p.0 as int, p.1 as int), d)
            } else {
                mb.cell(i, j)
            }),
    ensures
        tree_links(ma, par.insert(n, p), depth.insert(n, depth[p] + 1)),
        linked_below(ma, par.insert(n, p), depth.insert(n, depth[p] + 1), n),
{
    let par2 = par.insert(n, p);
    let depth2 = depth.insert(n, depth[p] + 1);
    let start = Maze::start();
    assert(n != start);
    assert forall|v: Position| ma.in_bounds(v) implies #[trigger] visited_at(ma, v) == visited_at(mb, v) by {}
    assert forall|v: Position| ma.in_bounds(v) && #[trigger] visited_at(ma, v) && v != start implies linked_below(
        ma,
        par2,
        depth2,
        v,
    ) by {
        assert(visited_at(mb, v));
        assert(linked_below(mb, par, depth, v));
        assert(par[v] != n);
        assert(visited_at(ma, par[v]));
    }
    assert forall|u: Position, v: Position| #[trigger] ma.step(u, v) implies joined(par2, u, v) by {
        lemma_opened_step(mb, ma, p, n, d, u, v);
        if !(u == p && v == n) && !(u == n && v == p) {
            lemma_no_step_into_sealed(mb, u, n);
            assert(joined(par, u, v));
        }
    }
    assert(ma.step(p, n));
    assert(visited_at(ma, p));
}

/// After the wall between `p` and `n` is opened, a move is one that was
/// possible before or one through that wall.
proof fn lemma_opened_step(mb: &Maze, ma: &Maze, p: Position, n: Position, d: Direction, u: Position, v: Position)
    requires
        mb.in_bounds(p),
        inside_toward(mb.width as int, mb.height as int, p, d),
        n == moved(p, d),
        n != p,
        ma.width == mb.width,
        ma.height == mb.height,
        forall|i: int, j: int|
            0 <= i < mb.width && 0 <= j < mb.height ==> #[trigger] ma.cell(i, j) == (if i == n.0 && j == n.1 {
                open_side(mb.cell(n.0 as int, n.1 as int), opposite(d))
            } else if i == p.0 && j == p.1 {
                open_side(mb.cell(p.0 as int, p.1 as int), d)
            } else {
                mb.cell(i, j)
            }),
        ma.step(u, v),
    ensures
        mb.step(u, v) || (u == p && v == n) || (u == n && v == p),
{
    if u == p && v == n {
    } else if u == n && v == p {
    } else if u != p && u != n {
        lemma_same_sides_same_steps(mb, ma, u, v);
    } else if u == p {
        let e = direction_of(u, v)->0;
        assert(ma.cell(p.0 as int, p.1 as int) == open_side(mb.cell(p.0 as int, p.1 as int), d));
        assert(v == moved(u, e));
        assert(e != d);
    } else {
        let e = direction_of(u, v)->0;
        assert(ma.cell(n.0 as int, n.1 as int) == open_side(mb.cell(n.0 as int, n.1 as int), opposite(d)));
        assert(moved(n, opposite(d)) == p);
        assert(v == moved(u, e));
        assert(e != opposite(d));
    }
}

/// Opening a side of a cell on the border of the grid changes no move.
pub proof fn lemma_links_door(m0: &Maze, m1: &Maze, par: Map<Position, Position>, depth: Map<Position, nat>)
    requires
        tree_links(m0, par, depth),
        m1.width == m0.width,
        m1.height == m0.height,
        forall|q: Position| m1.in_bounds(q) ==> #[trigger] visited_at(m1, q) == visited_at(m0, q),
        forall|u: Position, v: Position| m1.step(u, v) == m0.step(u, v),
    ensures
        tree_links(m1, par, depth),
{
    assert forall|v: Position| m1.in_bounds(v) && #[trigger] visited_at(m1, v) && v != Maze::start() implies linked_below(
        m1,
        par,
        depth,
        v,
    ) by {
        assert(visited_at(m0, v));
        assert(linked_below(m0, par, depth, v));
    }
    assert forall|u: Position, v: Position| #[trigger] m1.step(u, v) implies joined(par, u, v) by {
        assert(m0.step(u, v));
    }
}

} // verus!
