use vstd::prelude::*;

use std::collections::HashSet;
use std::time::Duration;

use crate::grid::{grid_total, grid_update, lemma_grid_total_bounds, lemma_grid_total_update};
use crate::maze::{lemma_closed_set_holds_reachable, lemma_reachable_refl, lemma_reachable_step, lemma_step_in_bounds, Maze};

verus! {

/// A cell position `(x, y)`: column first, then row. Row 0 is the top row.
pub type Position = (usize, usize);

/// One of the four moves between orthogonally adjacent cells.
#[derive(Debug, Clone, Copy, PartialEq, Eq, Structural)]
pub enum Direction {
    North,
    East,
    South,
    West,
}

/// The direction that leads from `from` to `to`, when the two are adjacent.
pub open spec fn direction_of(from: Position, to: Position) -> Option<Direction> {
    let dx = to.0 as int - from.0 as int;
    let dy = to.1 as int - from.1 as int;
    if dx == 0 && dy == -1 {
        Some(Direction::North)
    } else if dx == 1 && dy == 0 {
        Some(Direction::East)
    } else if dx == 0 && dy == 1 {
        Some(Direction::South)
    } else if dx == -1 && dy == 0 {
        Some(Direction::West)
    } else {
        None
    }
}

/// Whether two positions are the same.
pub fn same_position(a: Position, b: Position) -> (same: bool)
    ensures
        same == (a == b),
{
    a.0 == b.0 && a.1 == b.1
}

/// Returns the direction of the single step from `from` to `to`, or `None`
/// when the two positions are not orthogonally adjacent.
pub fn direction_between(from: Position, to: Position) -> (result: Option<Direction>)
    ensures
        result == direction_of(from, to),
{
    if to.0 == from.0 && from.1 > 0 && to.1 == from.1 - 1 {
        Some(Direction::North)
    } else if from.0 < usize::MAX && to.0 == from.0 + 1 && to.1 == from.1 {
        Some(Direction::East)
    } else if to.0 == from.0 && from.1 < usize::MAX && to.1 == from.1 + 1 {
        Some(Direction::South)
    } else if from.0 > 0 && to.0 == from.0 - 1 && to.1 == from.1 {
        Some(Direction::West)
    } else {
        None
    }
}

/// One move made by a solver while it explored: it reached `to` from `from`.
#[derive(Debug, Clone, Copy)]
pub struct SearchStep {
    pub from: Position,
    pub to: Position,
    pub direction: Direction,
    pub visit_order: usize,
    pub on_solution_path: bool,
}

/// What a solver reports about one run.
#[derive(Debug, Clone)]
pub struct SolutionStats {
    pub algorithm: &'static str,
    pub solved: bool,
    pub path_length: usize,
    pub nodes_explored: usize,
    pub duration: Duration,
}

/// The outcome of one solver run: the path found, if any, every move made
/// while exploring, and the statistics.
#[derive(Debug, Clone)]
pub struct SolverOutput {
    pub path: Option<Vec<Position>>,
    pub trace: Vec<SearchStep>,
    pub stats: SolutionStats,
}

/// The pair of positions at index `i` and `i + 1` of a path.
pub open spec fn edge_at(path: Seq<Position>, i: int) -> (Position, Position) {
    (path[i], path[i + 1])
}

/// Among the first `n` pairs of consecutive positions of `path` is `(a, b)`.
pub open spec fn has_edge_before(path: Seq<Position>, a: Position, b: Position, n: int) -> bool {
    exists|i: int| 0 <= i < n && i + 1 < path.len() && #[trigger] edge_at(path, i) == (a, b)
}

/// `b` directly follows `a` somewhere in `path`.
pub open spec fn path_has_edge(path: Seq<Position>, a: Position, b: Position) -> bool {
    has_edge_before(path, a, b, path.len() - 1)
}

/// Calls `HashSet::insert` on a set of pairs of positions. The contract
/// claims that the element is in the set afterwards and nothing else changed:
/// std's `Hash` and `Eq` for tuples of `usize` agree with equality.
#[verifier::external_body]
fn insert_edge(edges: &mut HashSet<(Position, Position)>, edge: (Position, Position))
    ensures
        final(edges)@ == old(edges)@.insert(edge),
{
    edges.insert(edge);
}

/// Calls `HashSet::contains` on a set of pairs of positions. The contract
/// claims that the answer is membership, for the same reason as above.
#[verifier::external_body]
fn contains_edge(edges: &HashSet<(Position, Position)>, edge: (Position, Position)) -> (found: bool)
    ensures
        found == edges@.contains(edge),
{
    edges.contains(&edge)
}

/// Sets the `on_solution_path` flag of every step: true exactly when the
/// step's move appears as two consecutive positions of `path`.
pub fn mark_solution_path(trace: &mut Vec<SearchStep>, path: &[Position])
    ensures
        final(trace)@.len() == old(trace)@.len(),
        forall|i: int|
            0 <= i < old(trace)@.len() ==> #[trigger] final(trace)@[i] == (SearchStep {
                on_solution_path: path_has_edge(path@, old(trace)@[i].from, old(trace)@[i].to),
                ..old(trace)@[i]
            }),
{
    let mut solution_edges: HashSet<(Position, Position)> = HashSet::new();
    let mut i: usize = 1;
    while i < path.len()
        invariant
            1 <= i,
            i <= path@.len() || path@.len() == 0,
            forall|e: (Position, Position)| solution_edges@.contains(e) <==> has_edge_before(path@, e.0, e.1, i - 1),
        decreases path@.len() - i,
    {
        insert_edge(&mut solution_edges, (path[i - 1], path[i]));
        proof {
            let k = i - 1;
            assert forall|e: (Position, Position)| solution_edges@.contains(e) <==> has_edge_before(path@, e.0, e.1, k + 1) by {
                if e == edge_at(path@, k) {
                    assert(has_edge_before(path@, e.0, e.1, k + 1));
                }
                if has_edge_before(path@, e.0, e.1, k + 1) && !has_edge_before(path@, e.0, e.1, k) {
                    let j = choose|j: int| 0 <= j < k + 1 && j + 1 < path@.len() && #[trigger] edge_at(path@, j) == (e.0, e.1);
                    assert(j == k);
                }
            }
        }
        i = i + 1;
    }
    proof {
        assert forall|e: (Position, Position)| solution_edges@.contains(e) <==> path_has_edge(path@, e.0, e.1) by {
            if has_edge_before(path@, e.0, e.1, i - 1) {
                let j = choose|j: int| 0 <= j < i - 1 && j + 1 < path@.len() && #[trigger] edge_at(path@, j) == (e.0, e.1);
                assert(has_edge_before(path@, e.0, e.1, path@.len() - 1));
            }
            if path_has_edge(path@, e.0, e.1) {
                let j = choose|j: int| 0 <= j < path@.len() - 1 && j + 1 < path@.len() && #[trigger] edge_at(path@, j) == (e.0, e.1);
                assert(has_edge_before(path@, e.0, e.1, i - 1));
            }
        }
    }
    let ghost initial = trace@;
    let mut k: usize = 0;
    while k < trace.len()
        invariant
            trace@.len() == initial.len(),
            0 <= k <= trace@.len(),
            forall|e: (Position, Position)| solution_edges@.contains(e) <==> path_has_edge(path@, e.0, e.1),
            forall|j: int|
                0 <= j < k ==> #[trigger] trace@[j] == (SearchStep {
                    on_solution_path: path_has_edge(path@, initial[j].from, initial[j].to),
                    ..initial[j]
                }),
            forall|j: int| k <= j < trace@.len() ==> #[trigger] trace@[j] == initial[j],
        decreases initial.len() - k,
    {
        let step = trace[k];
        let on_path = contains_edge(&solution_edges, (step.from, step.to));
        trace[k] = SearchStep { on_solution_path: on_path, ..step };
        k = k + 1;
    }
}

/// An optional value for each cell of the grid.
pub struct CellMap<V> {
    pub rows: Vec<Vec<Option<V>>>,
}

/// For each cell, the cell from which a search reached it, if it did.
pub type ParentGrid = CellMap<Position>;

/// 1 for a cell that holds a value.
pub open spec fn reached_indicator<V>() -> spec_fn(Option<V>, int, int) -> int {
    |o: Option<V>, x: int, y: int| if o is Some { 1int } else { 0int }
}

impl<V: Copy> CellMap<V> {
    pub open spec fn view_rows(&self) -> Seq<Seq<Option<V>>> {
        self.rows@.map_values(|row: Vec<Option<V>>| row@)
    }

    pub open spec fn at(&self, p: Position) -> Option<V> {
        self.rows@[p.1 as int]@[p.0 as int]
    }

    pub open spec fn recorded(&self, p: Position) -> bool {
        self.at(p) is Some
    }

    pub open spec fn shaped(&self, width: int, height: int) -> bool {
        &&& self.rows@.len() == height
        &&& forall|j: int| 0 <= j < height ==> (#[trigger] self.rows@[j]@.len()) == width
    }

    /// The number of cells reached.
    pub open spec fn reached_count(&self, height: int) -> int {
        grid_total(self.view_rows(), reached_indicator::<V>(), height)
    }

    pub fn new(width: usize, height: usize) -> (grid: Self)
        ensures
            grid.shaped(width as int, height as int),
            forall|p: Position| p.0 < width && p.1 < height ==> !#[trigger] grid.recorded(p),
            grid.reached_count(height as int) == 0,
    {
        let mut rows: Vec<Vec<Option<V>>> = Vec::new();
        let mut y: usize = 0;
        while y < height
            invariant
                y <= height,
                rows@.len() == y,
                forall|j: int| 0 <= j < y ==> (#[trigger] rows@[j]@.len()) == width,
                forall|i: int, j: int| 0 <= i < width && 0 <= j < y ==> (#[trigger] rows@[j]@[i]) is None,
            decreases height - y,
        {
            let mut row: Vec<Option<V>> = Vec::new();
            let mut x: usize = 0;
            while x < width
                invariant
                    x <= width,
                    row@.len() == x,
                    forall|i: int| 0 <= i < x ==> (#[trigger] row@[i]) is None,
                decreases width - x,
            {
                row.push(None);
                x = x + 1;
            }
            rows.push(row);
            y = y + 1;
        }
        let grid = CellMap { rows };
        proof {
            let g = grid.view_rows();
            assert forall|j: int| 0 <= j < height implies (#[trigger] g[j]).len() == width by {
                assert(g[j] == grid.rows@[j]@);
            }
            assert forall|i: int, j: int| 0 <= j < height && 0 <= i < width implies #[trigger] reached_indicator::<V>()(g[j][i], i, j) == 0 by {
                assert(g[j] == grid.rows@[j]@);
            }
            lemma_grid_total_bounds(g, reached_indicator::<V>(), height as int, width as int);
        }
        grid
    }

    pub fn get(&self, p: Position, Ghost(width): Ghost<int>, Ghost(height): Ghost<int>) -> (value: Option<V>)
        requires
            self.shaped(width, height),
            p.0 < width,
            p.1 < height,
        ensures
            value == self.at(p),
    {
        self.rows[p.1][p.0]
    }

    pub fn set(&mut self, p: Position, value: V, Ghost(width): Ghost<int>, Ghost(height): Ghost<int>)
        requires
            old(self).shaped(width, height),
            p.0 < width,
            p.1 < height,
        ensures
            final(self).shaped(width, height),
            final(self).at(p) == Some(value),
            final(self).view_rows() == grid_update(old(self).view_rows(), p.0 as int, p.1 as int, Some(value)),
            forall|q: Position| q.0 < width && q.1 < height && q != p ==> #[trigger] final(self).at(q) == old(self).at(q),
            final(self).reached_count(height) == old(self).reached_count(height) + (if old(self).recorded(p) {
                0int
            } else {
                1int
            }),
    {
        let ghost before = *self;
        self.rows[p.1][p.0] = Some(value);
        proof {
            let g0 = before.view_rows();
            assert(self.view_rows() =~= grid_update(g0, p.0 as int, p.1 as int, Some(value)));
            assert forall|j: int| 0 <= j < height implies (#[trigger] self.rows@[j]@.len()) == width by {
                assert(self.view_rows()[j] == self.rows@[j]@);
                assert(g0[j] == before.rows@[j]@);
            }
            assert forall|q: Position| q.0 < width && q.1 < height && q != p implies #[trigger] self.at(q) == before.at(q) by {
                assert(self.view_rows()[q.1 as int] == self.rows@[q.1 as int]@);
                assert(g0[q.1 as int] == before.rows@[q.1 as int]@);
            }
            assert(g0[p.1 as int] == before.rows@[p.1 as int]@);
            lemma_grid_total_update(g0, reached_indicator::<V>(), height, p.0 as int, p.1 as int, Some(value));
        }
    }
}

/// At most every cell is reached.
pub proof fn lemma_reached_count_bounds<V: Copy>(t: &CellMap<V>, width: int, height: int)
    requires
        t.shaped(width, height),
        0 <= width,
        0 <= height,
    ensures
        0 <= t.reached_count(height) <= height * width,
{
    let g = t.view_rows();
    assert forall|j: int| 0 <= j < height implies (#[trigger] g[j]).len() == width by {
        assert(g[j] == t.rows@[j]@);
    }
    lemma_grid_total_bounds(g, reached_indicator::<V>(), height, width);
}

/// The parent grid is a tree rooted at `start`: every reached cell other than
/// `start` was reached by one step from its parent, itself reached, and lies
/// one level deeper.
pub open spec fn tree_ok(m: &Maze, t: &ParentGrid, depth: Map<Position, int>, start: Position) -> bool {
    &&& t.shaped(m.width as int, m.height as int)
    &&& m.in_bounds(start)
    &&& t.at(start) == Some(start)
    &&& depth.dom().contains(start)
    &&& depth[start] == 0
    &&& forall|v: Position| m.in_bounds(v) && #[trigger] t.recorded(v) && v != start ==> tree_link(m, t, depth, v)
}

pub open spec fn tree_link(m: &Maze, t: &ParentGrid, depth: Map<Position, int>, v: Position) -> bool {
    let p = t.at(v)->0;
    &&& m.in_bounds(p)
    &&& t.recorded(p)
    &&& m.step(p, v)
    &&& depth.dom().contains(v)
    &&& depth.dom().contains(p)
    &&& depth[p] >= 0
    &&& depth[p] < depth[v]
}

/// Every reached cell other than the root lies exactly one level below its parent.
pub open spec fn exact_depths(m: &Maze, t: &ParentGrid, depth: Map<Position, int>, start: Position) -> bool {
    forall|v: Position|
        m.in_bounds(v) && #[trigger] t.recorded(v) && v != start ==> depth[v] == depth[t.at(v)->0] + 1
}

/// Giving one unreached cell a reached parent one step away extends the tree.
pub proof fn lemma_tree_extended(
    m: &Maze,
    tb: &ParentGrid,
    t: &ParentGrid,
    db: Map<Position, int>,
    depth: Map<Position, int>,
    start: Position,
    current: Position,
    neighbor: Position,
)
    requires
        tree_ok(m, tb, db, start),
        m.in_bounds(current),
        tb.recorded(current),
        m.step(current, neighbor),
        m.in_bounds(neighbor),
        !tb.recorded(neighbor),
        t.shaped(m.width as int, m.height as int),
        t.at(neighbor) == Some(current),
        forall|p: Position| p.0 < m.width && p.1 < m.height && p != neighbor ==> #[trigger] t.at(p) == tb.at(p),
        depth == db.insert(neighbor, db[current] + 1),
    ensures
        tree_ok(m, t, depth, start),
        exact_depths(m, tb, db, start) ==> exact_depths(m, t, depth, start),
        forall|v: Position| m.in_bounds(v) ==> (#[trigger] t.recorded(v) <==> (v == neighbor || tb.recorded(v))),
        forall|v: Position| m.in_bounds(v) && tb.recorded(v) ==> #[trigger] depth[v] == db[v],
{
    assert(neighbor != current);
    assert(neighbor != start);
    assert(t.at(start) == tb.at(start));
    assert(t.at(current) == tb.at(current));
    if current != start {
        assert(tree_link(m, tb, db, current));
    }
    lemma_tree_reachable(m, tb, db, start, current);
    assert forall|v: Position| m.in_bounds(v) implies (#[trigger] t.recorded(v) <==> (v == neighbor || tb.recorded(v))) by {
        if v != neighbor {
            assert(t.at(v) == tb.at(v));
        }
    }
    assert forall|v: Position| m.in_bounds(v) && #[trigger] t.recorded(v) && v != start implies tree_link(m, t, depth, v) by {
        if v != neighbor {
            assert(t.at(v) == tb.at(v));
            assert(tb.recorded(v));
            assert(tree_link(m, tb, db, v));
            let p = tb.at(v)->0;
            assert(p != neighbor);
            assert(t.at(p) == tb.at(p));
        }
    }
    if exact_depths(m, tb, db, start) {
        assert forall|v: Position| m.in_bounds(v) && #[trigger] t.recorded(v) && v != start implies depth[v] == depth[t.at(v)->0] + 1 by {
            if v != neighbor {
                assert(t.at(v) == tb.at(v));
                assert(tb.recorded(v));
                assert(tree_link(m, tb, db, v));
                let p = tb.at(v)->0;
                assert(p != neighbor);
            }
        }
    }
}

/// Every reached cell can be reached from the root by a walk.
pub proof fn lemma_tree_reachable(m: &Maze, t: &ParentGrid, depth: Map<Position, int>, start: Position, v: Position)
    requires
        tree_ok(m, t, depth, start),
        m.in_bounds(v),
        t.recorded(v),
    ensures
        m.reachable(start, v),
        depth.dom().contains(v),
        depth[v] >= 0,
    decreases depth[v],
{
    if v == start {
        lemma_reachable_refl(m, start);
    } else {
        assert(tree_link(m, t, depth, v));
        let p = t.at(v)->0;
        lemma_tree_reachable(m, t, depth, start, p);
        lemma_reachable_step(m, start, p, v);
    }
}

#[verifier::rlimit(30)]
/// Follows the parents from `goal` back to `start` and returns the positions
/// from `start` to `goal`.
pub fn reconstruct_path(
    maze: &Maze,
    came_from: &ParentGrid,
    start: Position,
    goal: Position,
    Ghost(depth): Ghost<Map<Position, int>>,
) -> (path: Vec<Position>)
    requires
        tree_ok(maze, came_from, depth, start),
        maze.in_bounds(goal),
        came_from.recorded(goal),
    ensures
        maze.is_walk_between(path@, start, goal),
        path@.no_duplicates(),
        exact_depths(maze, came_from, depth, start) ==> path@.len() == depth[goal] + 1,
        forall|i: int| 0 <= i < path@.len() - 1 ==> came_from.at(#[trigger] path@[i + 1]) == Some(path@[i]),
{
    proof {
        lemma_tree_reachable(maze, came_from, depth, start, goal);
    }
    let ghost w = maze.width as int;
    let ghost h = maze.height as int;
    let ghost exact = exact_depths(maze, came_from, depth, start);
    let mut chain: Vec<Position> = Vec::new();
    chain.push(goal);
    let mut current = goal;
    while !same_position(current, start)
        invariant
            tree_ok(maze, came_from, depth, start),
            exact == exact_depths(maze, came_from, depth, start),
            w == maze.width,
            h == maze.height,
            maze.in_bounds(current),
            came_from.recorded(current),
            depth.dom().contains(current),
            depth[current] >= 0,
            chain@.len() >= 1,
            chain@.last() == current,
            chain@[0] == goal,
            depth.dom().contains(goal),
            forall|k: int, l: int| 0 <= k < l < chain@.len() ==> depth[#[trigger] chain@[l]] < depth[#[trigger] chain@[k]],
            exact ==> forall|k: int| 0 <= k < chain@.len() ==> depth[#[trigger] chain@[k]] == depth[goal] - k,
            forall|k: int| 0 <= k < chain@.len() ==> maze.in_bounds(#[trigger] chain@[k]),
            forall|k: int| 0 <= k < chain@.len() - 1 ==> maze.step(#[trigger] chain@[k + 1], chain@[k]),
            forall|k: int| 0 <= k < chain@.len() - 1 ==> came_from.at(#[trigger] chain@[k]) == Some(chain@[k + 1]),
        decreases depth[current],
    {
        proof {
            assert(tree_link(maze, came_from, depth, current));
        }
        let parent = came_from.get(current, Ghost(w), Ghost(h)).unwrap();
        let ghost before = chain@;
        current = parent;
        chain.push(current);
        proof {
            assert forall|k: int, l: int| 0 <= k < l < chain@.len() implies depth[#[trigger] chain@[l]] < depth[#[trigger] chain@[k]] by {
                if l == chain@.len() - 1 && k < l - 1 {
                    assert(depth[before[l - 1]] < depth[before[k]]);
                }
            }
        }
    }
    let ghost full = chain@;
    let ghost n = full.len();
    let mut path: Vec<Position> = Vec::new();
    while chain.len() > 0
        invariant
            n == full.len(),
            chain@.len() + path@.len() == n,
            chain@ == full.subrange(0, chain@.len() as int),
            forall|i: int| 0 <= i < path@.len() ==> #[trigger] path@[i] == full[n - 1 - i],
        decreases chain@.len(),
    {
        let ghost before = chain@;
        let popped = chain.pop();
        proof {
            assert(before.len() > 0);
            assert(popped == Some(before[before.len() - 1]));
            assert(chain@ == before.subrange(0, before.len() - 1));
        }
        let position = popped.unwrap();
        path.push(position);
        proof {
            assert(chain@ =~= full.subrange(0, chain@.len() as int));
            assert(position == full[n - path@.len()]);
        }
    }
    proof {
        assert forall|i: int| 0 <= i < path@.len() - 1 implies #[trigger] maze.linked(path@, i) by {
            assert(path@[i] == full[n - 1 - i]);
            assert(path@[i + 1] == full[n - 1 - (i + 1)]);
            assert(maze.step(full[(n - 1 - (i + 1)) + 1], full[n - 1 - (i + 1)]));
        }
        assert(path@[0] == full[n - 1]);
        assert(path@[n - 1] == full[0]);
        assert(maze.in_bounds(full[n - 1]));
        assert forall|i: int, j: int| 0 <= i < path@.len() && 0 <= j < path@.len() && i != j implies path@[i] != path@[j] by {
            assert(path@[i] == full[n - 1 - i]);
            assert(path@[j] == full[n - 1 - j]);
            if i < j {
                assert(depth[full[n - 1 - i]] < depth[full[n - 1 - j]]);
            } else {
                assert(depth[full[n - 1 - j]] < depth[full[n - 1 - i]]);
            }
        }
        if exact {
            assert(depth[full[n - 1]] == depth[goal] - (n - 1));
        }
        assert forall|i: int| 0 <= i < path@.len() - 1 implies came_from.at(#[trigger] path@[i + 1]) == Some(path@[i]) by {
            assert(path@[i] == full[n - 1 - i]);
            assert(path@[i + 1] == full[n - 1 - (i + 1)]);
            assert(came_from.at(full[n - 1 - (i + 1)]) == Some(full[(n - 1 - (i + 1)) + 1]));
        }
    }
    path
}

/// Records the move that reached `current`, unless `current` is the start or
/// no such move is known.
pub fn record_search_step(
    current: Position,
    start: Position,
    visit_order: usize,
    came_from: &ParentGrid,
    trace: &mut Vec<SearchStep>,
    Ghost(width): Ghost<int>,
    Ghost(height): Ghost<int>,
)
    requires
        came_from.shaped(width, height),
        current.0 < width,
        current.1 < height,
    ensures
        (current != start && came_from.at(current) is Some && direction_of(
            came_from.at(current)->0,
            current,
        ) is Some) ==> final(trace)@ == old(trace)@.push(
            SearchStep {
                from: came_from.at(current)->0,
                to: current,
                direction: direction_of(came_from.at(current)->0, current)->0,
                visit_order,
                on_solution_path: false,
            },
        ),
        !(current != start && came_from.at(current) is Some && direction_of(
            came_from.at(current)->0,
            current,
        ) is Some) ==> final(trace)@ == old(trace)@,
{
    if same_position(current, start) {
        return;
    }
    let parent = match came_from.get(current, Ghost(width), Ghost(height)) {
        Some(parent) => parent,
        None => {
            return;
        },
    };
    let direction = match direction_between(parent, current) {
        Some(direction) => direction,
        None => {
            return;
        },
    };
    trace.push(SearchStep { from: parent, to: current, direction, visit_order, on_solution_path: false });
}

/// The path of a run as a sequence, empty when there is none.
pub open spec fn solution_seq(path: Option<Vec<Position>>) -> Seq<Position> {
    match path {
        Some(p) => p@,
        None => Seq::empty(),
    }
}

/// Each recorded move is a step of the maze in the stated direction, the
/// `i`-th one was made when the `i + 2`-th cell was explored, and it is
/// flagged exactly when it lies on the solution path.
pub open spec fn trace_consistent(m: &Maze, trace: Seq<SearchStep>, path: Seq<Position>) -> bool {
    forall|i: int|
        0 <= i < trace.len() ==> {
            &&& m.step((#[trigger] trace[i]).from, trace[i].to)
            &&& direction_of(trace[i].from, trace[i].to) == Some(trace[i].direction)
            &&& trace[i].visit_order == i + 2
            &&& trace[i].on_solution_path == path_has_edge(path, trace[i].from, trace[i].to)
        }
}

/// A path found is a shortest walk from the entrance to the exit.
pub open spec fn shortest_solution(m: &Maze, out: SolverOutput) -> bool {
    out.path matches Some(p) ==> forall|s: Seq<Position>|
        m.is_walk_between(s, Maze::start(), m.exit()) ==> p@.len() <= s.len()
}

/// What every classical solver guarantees of its output: a path exactly when
/// the exit can be reached, a path that is a walk from the upper-left corner
/// to the exit without repeated cells, consistent statistics, and one
/// recorded move per explored cell after the first.
pub open spec fn solver_output_ok(m: &Maze, out: SolverOutput, name: Seq<char>) -> bool {
    &&& out.stats.algorithm@ == name
    &&& out.stats.solved == out.path is Some
    &&& (out.path is Some <==> m.reachable(Maze::start(), m.exit()))
    &&& match out.path {
        Some(p) => {
            &&& m.is_walk_between(p@, Maze::start(), m.exit())
            &&& p@.no_duplicates()
            &&& out.stats.path_length == p@.len()
        },
        None => out.stats.path_length == 0,
    }
    &&& 1 <= out.stats.nodes_explored
    &&& out.trace@.len() == out.stats.nodes_explored - 1
    &&& trace_consistent(m, out.trace@, solution_seq(out.path))
}

/// When every reached cell has all its step-neighbours reached, every cell
/// reachable from the root has been reached.
pub proof fn lemma_closed_tree_holds_reachable(
    m: &Maze,
    t: &ParentGrid,
    depth: Map<Position, int>,
    start: Position,
    p: Position,
)
    requires
        tree_ok(m, t, depth, start),
        forall|v: Position, u: Position| m.in_bounds(v) && t.recorded(v) && #[trigger] m.step(v, u) ==> t.recorded(u),
        m.reachable(start, p),
    ensures
        m.in_bounds(p),
        t.recorded(p),
{
    let member = |q: Position| m.in_bounds(q) && t.recorded(q);
    assert forall|u: Position, v: Position| member(u) && #[trigger] m.step(u, v) implies member(v) by {
        lemma_step_in_bounds(m, u, v);
    }
    lemma_closed_set_holds_reachable(m, start, p, member);
}

/// Marking the solution path in a consistent trace keeps it consistent with
/// that path.
pub proof fn lemma_marked_trace(m: &Maze, unmarked: Seq<SearchStep>, marked: Seq<SearchStep>, path: Seq<Position>)
    requires
        trace_consistent(m, unmarked, Seq::empty()),
        marked.len() == unmarked.len(),
        forall|i: int|
            0 <= i < unmarked.len() ==> #[trigger] marked[i] == (SearchStep {
                on_solution_path: path_has_edge(path, unmarked[i].from, unmarked[i].to),
                ..unmarked[i]
            }),
    ensures
        trace_consistent(m, marked, path),
{
    assert forall|i: int| 0 <= i < marked.len() implies {
        &&& m.step((#[trigger] marked[i]).from, marked[i].to)
        &&& direction_of(marked[i].from, marked[i].to) == Some(marked[i].direction)
        &&& marked[i].visit_order == i + 2
        &&& marked[i].on_solution_path == path_has_edge(path, marked[i].from, marked[i].to)
    } by {
        assert(m.step(unmarked[i].from, unmarked[i].to));
    }
}

} // verus!
