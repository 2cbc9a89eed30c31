use vstd::prelude::*;

use std::time::Instant;

use crate::clock::{elapsed_since, instant_now};
use crate::grid::{grid_total, grid_update, lemma_grid_total_at_most, lemma_grid_total_bounds, lemma_grid_total_update};
use crate::maze::{lemma_step_in_bounds, lemma_walk_in_bounds, Maze};
use crate::solver::dfs::{lemma_search_started, lemma_step_recorded, trace_so_far};
use crate::solver::distance::{lemma_distinct_cells_bound, dist_is, lemma_dist_exists, lemma_manhattan_along, lemma_within_step, lemma_within_tree};
use crate::solver::explore::{
    exploration_ok, explored_in_order, lemma_explored_in_order, lemma_in_order_push, lemma_path_along_parents,
    explored_cells, lemma_trace_follows_push, trace_follows, within,
};
use crate::solver::search::{
    shortest_solution,
    lemma_closed_tree_holds_reachable, lemma_marked_trace, lemma_reached_count_bounds, lemma_tree_reachable,
    mark_solution_path, reached_indicator, reconstruct_path, record_search_step, same_position, solver_output_ok,
    exact_depths, tree_link, tree_ok, CellMap, ParentGrid, Position, SearchStep, SolutionStats, SolverOutput,
};

verus! {

/// An entry of the open set: a cell, the cost of the best known walk to it
/// when the entry was made, and that cost plus the heuristic estimate.
#[derive(Debug, Clone, Copy)]
pub struct Node {
    pub position: Position,
    pub g_score: usize,
    pub f_score: usize,
}

/// `a` leaves the open set before `b`: a lower estimate first, then a lower
/// cost so far, then a lower position (column, then row).
pub open spec fn precedes(a: Node, b: Node) -> bool {
    ||| a.f_score < b.f_score
    ||| a.f_score == b.f_score && a.g_score < b.g_score
    ||| a.f_score == b.f_score && a.g_score == b.g_score && a.position.0 < b.position.0
    ||| a.f_score == b.f_score && a.g_score == b.g_score && a.position.0 == b.position.0 && a.position.1 < b.position.1
}

fn takes_precedence(a: &Node, b: &Node) -> (result: bool)
    ensures
        result == precedes(*a, *b),
{
    if a.f_score != b.f_score {
        a.f_score < b.f_score
    } else if a.g_score != b.g_score {
        a.g_score < b.g_score
    } else if a.position.0 != b.position.0 {
        a.position.0 < b.position.0
    } else {
        a.position.1 < b.position.1
    }
}

/// The Manhattan distance between two positions.
pub open spec fn manhattan(a: Position, b: Position) -> int {
    (if a.0 >= b.0 { a.0 - b.0 } else { b.0 - a.0 }) + (if a.1 >= b.1 { a.1 - b.1 } else { b.1 - a.1 })
}

/// The Manhattan distance from `position` to `goal`: a lower bound on the
/// number of moves between them.
pub fn heuristic(position: Position, goal: Position) -> (estimate: usize)
    requires
        manhattan(position, goal) <= usize::MAX,
    ensures
        estimate == manhattan(position, goal),
{
    let dx = if position.0 >= goal.0 { position.0 - goal.0 } else { goal.0 - position.0 };
    let dy = if position.1 >= goal.1 { position.1 - goal.1 } else { goal.1 - position.1 };
    dx + dy
}

/// Removes and returns the entry of the open set that comes out first.
fn pop_best(open: &mut Vec<Node>) -> (best: Node)
    requires
        old(open)@.len() > 0,
    ensures
        exists|i: int|
            0 <= i < old(open)@.len() && best == old(open)@[i] && final(open)@ == old(open)@.remove(i),
        forall|j: int| 0 <= j < old(open)@.len() ==> !precedes(#[trigger] old(open)@[j], best),
{
    let mut best_index: usize = 0;
    let mut i: usize = 1;
    while i < open.len()
        invariant
            1 <= i <= open@.len(),
            best_index < i,
            forall|j: int| 0 <= j < i ==> !precedes(#[trigger] open@[j], open@[best_index as int]),
        decreases open@.len() - i,
    {
        if takes_precedence(&open[i], &open[best_index]) {
            best_index = i;
        }
        i = i + 1;
    }
    open.remove(best_index)
}

/// The value a cell contributes to the potential of a search: its best known
/// cost, or `bound` while it has none.
pub open spec fn cost_or(bound: int) -> spec_fn(Option<usize>, int, int) -> int {
    |o: Option<usize>, x: int, y: int|
        match o {
            Some(g) => g as int,
            None => bound,
        }
}

pub open spec fn cost(g: &CellMap<usize>, p: Position) -> int {
    g.at(p)->0 as int
}

/// An entry of the open set for `v` carries its best known cost.
pub open spec fn has_fresh_entry(open: Seq<Node>, g: &CellMap<usize>, v: Position) -> bool {
    exists|i: int| 0 <= i < open.len() && (#[trigger] open[i]).position == v && open[i].g_score == cost(g, v)
}

/// Every cell one step from `v` has a known cost at most one more than `v`'s.
pub open spec fn closed(m: &Maze, t: &ParentGrid, g: &CellMap<usize>, v: Position) -> bool {
    forall|u: Position| #[trigger] m.step(v, u) ==> t.recorded(u) && cost(g, u) <= cost(g, v) + 1
}

/// The number of cells.
pub open spec fn cells(m: &Maze) -> int {
    m.width * m.height
}

/// Twice the total of the known costs (`cells` for a cell without one) plus
/// the size of the open set: it falls with every entry taken or improved.
pub open spec fn potential(m: &Maze, g: &CellMap<usize>, open: Seq<Node>) -> int {
    2 * grid_total(g.view_rows(), cost_or(cells(m)), m.height as int) + open.len()
}

/// The state of the search between two entries taken from the open set.
/// `except` is a cell being expanded, if any.
pub open spec fn astar_state(
    m: &Maze,
    t: &ParentGrid,
    g: &CellMap<usize>,
    depth: Map<Position, int>,
    open: Seq<Node>,
    explored: int,
    except: Option<Position>,
) -> bool {
    &&& tree_ok(m, t, depth, Maze::start())
    &&& g.shaped(m.width as int, m.height as int)
    &&& 0 <= explored
    &&& explored + potential(m, g, open) <= 2 * cells(m) * cells(m) + 1
    &&& astar_invariant(m, t, g, depth, open, explored, except)
}

/// What the search keeps of its costs, its open set and the cells it has
/// finished with.
#[verifier::opaque]
pub open spec fn astar_invariant(
    m: &Maze,
    t: &ParentGrid,
    g: &CellMap<usize>,
    depth: Map<Position, int>,
    open: Seq<Node>,
    explored: int,
    except: Option<Position>,
) -> bool {
    let start = Maze::start();
    let goal = m.exit();
    let h = m.height as int;
    &&& forall|p: Position| m.in_bounds(p) ==> (#[trigger] g.recorded(p) <==> t.recorded(p))
    &&& forall|p: Position| m.in_bounds(p) && #[trigger] t.recorded(p) ==> depth[p] == cost(g, p)
    &&& forall|p: Position| m.in_bounds(p) && #[trigger] t.recorded(p) ==> cost(g, p) < t.reached_count(h)
    &&& forall|i: int| 0 <= i < open.len() ==> {
        &&& m.in_bounds((#[trigger] open[i]).position)
        &&& t.recorded(open[i].position)
        &&& open[i].g_score >= cost(g, open[i].position)
    }
    &&& forall|v: Position|
        m.in_bounds(v) && #[trigger] t.recorded(v) ==> has_fresh_entry(open, g, v) || closed(m, t, g, v) || except == Some(v)
    &&& (t.recorded(goal) ==> exists|i: int| 0 <= i < open.len() && (#[trigger] open[i]).position == goal)
    &&& explored == 0 ==> open.len() == 1 && open[0].position == start && open[0].g_score == 0
    &&& explored > 0 ==> forall|i: int| 0 <= i < open.len() ==> (#[trigger] open[i]).position != start
}

/// Every entry of the open set carries its estimate: its cost plus the
/// Manhattan distance from its cell to the exit.
pub open spec fn entries_scored(m: &Maze, open: Seq<Node>) -> bool {
    forall|i: int| 0 <= i < open.len() ==> (#[trigger] open[i]).f_score == open[i].g_score + manhattan(open[i].position, m.exit())
}

/// Along a walk from the corner, either every cell up to `v` has been
/// finished with, so `v` costs at most the length of the walk, or the first
/// cell not finished with has a fresh entry whose estimate is at most that
/// length plus the Manhattan distance from `v` to the exit.
proof fn lemma_walk_front(
    m: &Maze,
    t: &ParentGrid,
    g: &CellMap<usize>,
    depth: Map<Position, int>,
    o: Seq<Node>,
    explored: int,
    s: Seq<Position>,
    k: int,
)
    requires
        astar_state(m, t, g, depth, o, explored, None),
        entries_scored(m, o),
        m.is_walk_between(s, Maze::start(), s.last()),
        0 <= k < s.len(),
        t.recorded(s[k]),
        cost(g, s[k]) <= k,
    ensures
        cost(g, s.last()) <= s.len() - 1 || exists|j: int|
            0 <= j < o.len() && #[trigger] o[j].f_score <= (s.len() - 1) + manhattan(s.last(), m.exit()),
    decreases s.len() - k,
{
    reveal(astar_invariant);
    lemma_walk_in_bounds(m, s);
    if !closed(m, t, g, s[k]) {
        assert(has_fresh_entry(o, g, s[k]));
        let j = choose|j: int| 0 <= j < o.len() && (#[trigger] o[j]).position == s[k] && o[j].g_score == cost(g, s[k]);
        lemma_manhattan_along(m, s, m.exit(), k);
        assert(o[j].f_score <= (s.len() - 1) + manhattan(s.last(), m.exit()));
    } else if k < s.len() - 1 {
        assert(m.linked(s, k));
        assert(m.step(s[k], s[k + 1]));
        lemma_walk_front(m, t, g, depth, o, explored, s, k + 1);
    }
}

/// An entry taken from the open set, before any of lower estimate, is for
/// a cell whose cost is at most its distance from the corner.
proof fn lemma_popped_bound(
    m: &Maze,
    t: &ParentGrid,
    g: &CellMap<usize>,
    depth: Map<Position, int>,
    o: Seq<Node>,
    explored: int,
    node: Node,
    d: int,
)
    requires
        astar_state(m, t, g, depth, o, explored, None),
        entries_scored(m, o),
        exists|i: int| 0 <= i < o.len() && node == o[i],
        forall|j: int| 0 <= j < o.len() ==> !precedes(#[trigger] o[j], node),
        dist_is(m, node.position, d),
    ensures
        cost(g, node.position) <= d,
{
    reveal(astar_invariant);
    let v = node.position;
    let s = choose|s: Seq<Position>| #[trigger] m.is_walk_between(s, Maze::start(), v) && s.len() <= d + 1;
    assert(within(m, v, s.len() - 1));
    let i = choose|i: int| 0 <= i < o.len() && node == o[i];
    assert(t.recorded(Maze::start()));
    assert(depth[Maze::start()] == cost(g, Maze::start()));
    lemma_walk_front(m, t, g, depth, o, explored, s, 0);
    if cost(g, v) > d {
        let j = choose|j: int| 0 <= j < o.len() && #[trigger] o[j].f_score <= (s.len() - 1) + manhattan(s.last(), m.exit());
        assert(o[i].f_score == o[i].g_score + manhattan(v, m.exit()));
        assert(o[i].g_score >= cost(g, v));
        assert(precedes(o[j], node));
    }
}

/// What makes A* explore each cell once: the entries carry their
/// estimates; an explored cell (never the exit) costs its distance from the
/// corner and has no fresh entry; no cell has two fresh entries; and each
/// reached cell lies one level below its parent.
#[verifier::opaque]
pub open spec fn astar_settled(
    m: &Maze,
    t: &ParentGrid,
    g: &CellMap<usize>,
    depth: Map<Position, int>,
    open: Seq<Node>,
    done: Seq<Position>,
) -> bool {
    &&& entries_scored(m, open)
    &&& done.no_duplicates()
    &&& !done.contains(m.exit())
    &&& forall|k: int|
        0 <= k < done.len() ==> dist_is(m, #[trigger] done[k], cost(g, done[k])) && !has_fresh_entry(open, g, done[k])
            && g.recorded(done[k])
    &&& forall|i: int, j: int|
        #![trigger open[i], open[j]]
        0 <= i < open.len() && 0 <= j < open.len() && i != j && open[i].position == open[j].position && open[i].g_score
            == cost(g, open[i].position) ==> open[j].g_score != cost(g, open[j].position)
    &&& exact_depths(m, t, depth, Maze::start())
}

/// At the start only the corner is reached, with its single entry.
proof fn lemma_settled_started(m: &Maze, t: &ParentGrid, g: &CellMap<usize>, depth: Map<Position, int>, open: Seq<Node>)
    requires
        forall|v: Position| m.in_bounds(v) && #[trigger] t.recorded(v) ==> v == Maze::start(),
        open.len() == 1,
        open[0].f_score == open[0].g_score + manhattan(open[0].position, m.exit()),
    ensures
        astar_settled(m, t, g, depth, open, Seq::empty()),
{
    reveal(astar_settled);
}

/// Taking an entry that is not fresh keeps the search settled.
proof fn lemma_settled_skipped(
    m: &Maze,
    t: &ParentGrid,
    g: &CellMap<usize>,
    depth: Map<Position, int>,
    o0: Seq<Node>,
    o: Seq<Node>,
    i: int,
    done: Seq<Position>,
)
    requires
        astar_settled(m, t, g, depth, o0, done),
        0 <= i < o0.len(),
        o == o0.remove(i),
    ensures
        astar_settled(m, t, g, depth, o, done),
{
    reveal(astar_settled);
    lemma_removed(o0, o, i);
    assert forall|k: int| 0 <= k < done.len() implies !has_fresh_entry(o, g, #[trigger] done[k]) by {
        if has_fresh_entry(o, g, done[k]) {
            let j = choose|j: int| 0 <= j < o.len() && (#[trigger] o[j]).position == done[k] && o[j].g_score == cost(g, done[k]);
            let j0 = if j < i { j } else { j + 1 };
            assert(o0[j0] == o[j]);
            assert(has_fresh_entry(o0, g, done[k]));
        }
    }
    assert forall|a: int, b: int|
        #![trigger o[a], o[b]]
        0 <= a < o.len() && 0 <= b < o.len() && a != b && o[a].position == o[b].position && o[a].g_score == cost(
            g,
            o[a].position,
        ) implies o[b].g_score != cost(g, o[b].position) by {
        let a0 = if a < i { a } else { a + 1 };
        let b0 = if b < i { b } else { b + 1 };
        assert(o0[a0] == o[a] && o0[b0] == o[b]);
    }
}

/// A cell whose entry is taken before any entry of lower estimate costs its
/// distance from the corner.
proof fn lemma_popped_optimal(
    m: &Maze,
    t: &ParentGrid,
    g: &CellMap<usize>,
    depth: Map<Position, int>,
    o: Seq<Node>,
    explored: int,
    done: Seq<Position>,
    node: Node,
)
    requires
        astar_state(m, t, g, depth, o, explored, None),
        astar_settled(m, t, g, depth, o, done),
        exists|i: int| 0 <= i < o.len() && node == o[i],
        forall|j: int| 0 <= j < o.len() ==> !precedes(#[trigger] o[j], node),
    ensures
        dist_is(m, node.position, cost(g, node.position)),
{
    reveal(astar_invariant);
    reveal(astar_settled);
    let v = node.position;
    let i = choose|i: int| 0 <= i < o.len() && node == o[i];
    assert(m.in_bounds(o[i].position) && t.recorded(o[i].position));
    lemma_within_tree(m, t, depth, v);
    assert(depth[v] == cost(g, v));
    lemma_dist_exists(m, v, cost(g, v));
    let d = choose|d: int| d <= cost(g, v) && #[trigger] dist_is(m, v, d);
    lemma_popped_bound(m, t, g, depth, o, explored, node, d);
}

/// Expanding a fresh entry's cell, other than the exit, explores it.
proof fn lemma_settled_taken(
    m: &Maze,
    t: &ParentGrid,
    g: &CellMap<usize>,
    depth: Map<Position, int>,
    o0: Seq<Node>,
    o: Seq<Node>,
    i: int,
    done: Seq<Position>,
)
    requires
        astar_settled(m, t, g, depth, o0, done),
        0 <= i < o0.len(),
        o == o0.remove(i),
        o0[i].g_score == cost(g, o0[i].position),
        o0[i].position != m.exit(),
        g.recorded(o0[i].position),
        dist_is(m, o0[i].position, cost(g, o0[i].position)),
    ensures
        astar_settled(m, t, g, depth, o, done.push(o0[i].position)),
        !done.contains(o0[i].position),
{
    reveal(astar_settled);
    let v = o0[i].position;
    let done2 = done.push(v);
    lemma_removed(o0, o, i);
    if done.contains(v) {
        let k = choose|k: int| 0 <= k < done.len() && done[k] == v;
        assert(!has_fresh_entry(o0, g, done[k]));
        assert(o0[i].position == done[k]);
    }
    assert forall|k: int| 0 <= k < done2.len() implies dist_is(m, #[trigger] done2[k], cost(g, done2[k])) && !has_fresh_entry(
        o,
        g,
        done2[k],
    ) && g.recorded(done2[k]) by {
        if has_fresh_entry(o, g, done2[k]) {
            let j = choose|j: int| 0 <= j < o.len() && (#[trigger] o[j]).position == done2[k] && o[j].g_score == cost(g, done2[k]);
            let j0 = if j < i { j } else { j + 1 };
            assert(o0[j0] == o[j]);
            if k < done.len() {
                assert(done2[k] == done[k]);
                assert(has_fresh_entry(o0, g, done[k]));
            } else {
                assert(j0 != i);
                assert(o0[i].position == o0[j0].position);
            }
        }
        if k < done.len() {
            assert(done2[k] == done[k]);
        }
    }
    assert forall|a: int, b: int|
        #![trigger o[a], o[b]]
        0 <= a < o.len() && 0 <= b < o.len() && a != b && o[a].position == o[b].position && o[a].g_score == cost(
            g,
            o[a].position,
        ) implies o[b].g_score != cost(g, o[b].position) by {
        let a0 = if a < i { a } else { a + 1 };
        let b0 = if b < i { b } else { b + 1 };
        assert(o0[a0] == o[a] && o0[b0] == o[b]);
    }
    assert forall|a: int| 0 <= a < o.len() implies (#[trigger] o[a]).f_score == o[a].g_score + manhattan(o[a].position, m.exit()) by {
        let a0 = if a < i { a } else { a + 1 };
        assert(o0[a0] == o[a]);
    }
    assert(!done2.contains(m.exit())) by {
        if done2.contains(m.exit()) {
            let k = choose|k: int| 0 <= k < done2.len() && done2[k] == m.exit();
            if k < done.len() {
                assert(done[k] == m.exit());
            }
        }
    }
}

/// Giving the neighbour `u` of the explored cell `cur` a lower cost, `cur`
/// as parent and a fresh entry keeps the search settled; `u` was not
/// explored.
proof fn lemma_settled_relaxed(
    m: &Maze,
    tb: &ParentGrid,
    t: &ParentGrid,
    gb: &CellMap<usize>,
    g: &CellMap<usize>,
    db: Map<Position, int>,
    depth: Map<Position, int>,
    ob: Seq<Node>,
    o: Seq<Node>,
    entry: Node,
    cur: Position,
    done: Seq<Position>,
    trace: Seq<SearchStep>,
)
    requires
        astar_settled(m, tb, gb, db, ob, done),
        astar_explored(m, tb, gb, ob, done),
        trace_follows(tb, trace, done),
        done.contains(cur),
        m.in_bounds(cur),
        gb.recorded(cur),
        db[cur] == cost(gb, cur),
        dist_is(m, cur, cost(gb, cur)),
        m.step(cur, entry.position),
        m.in_bounds(entry.position),
        entry.g_score == cost(gb, cur) + 1,
        entry.f_score == entry.g_score + manhattan(entry.position, m.exit()),
        gb.recorded(entry.position) ==> entry.g_score < cost(gb, entry.position),
        forall|i: int|
            0 <= i < ob.len() ==> m.in_bounds((#[trigger] ob[i]).position) && gb.recorded(ob[i].position) && ob[i].g_score
                >= cost(gb, ob[i].position),
        t.at(entry.position) == Some(cur),
        forall|q: Position| q.0 < m.width && q.1 < m.height && q != entry.position ==> #[trigger] t.at(q) == tb.at(q),
        g.at(entry.position) == Some(entry.g_score),
        forall|q: Position| q.0 < m.width && q.1 < m.height && q != entry.position ==> #[trigger] g.at(q) == gb.at(q),
        depth == db.insert(entry.position, entry.g_score as int),
        o == ob.push(entry),
    ensures
        astar_settled(m, t, g, depth, o, done),
        trace_follows(t, trace, done),
        !done.contains(entry.position),
{
    reveal(astar_settled);
    reveal(astar_explored);
    let u = entry.position;
    lemma_within_step(m, cur, cost(gb, cur), u);
    if done.contains(u) {
        let k = choose|k: int| 0 <= k < done.len() && done[k] == u;
        assert(dist_is(m, done[k], cost(gb, done[k])));
        assert(gb.recorded(done[k]));
        assert(within(m, u, cost(gb, cur) + 1));
    }
    assert forall|k: int| 0 <= k < done.len() implies dist_is(m, #[trigger] done[k], cost(g, done[k])) && !has_fresh_entry(
        o,
        g,
        done[k],
    ) && g.recorded(done[k]) by {
        assert(done[k] != u);
        lemma_step_in_bounds(m, cur, u);
        assert(tb.recorded(done[k]));
        assert(g.at(done[k]) == gb.at(done[k]));
        if has_fresh_entry(o, g, done[k]) {
            let j = choose|j: int| 0 <= j < o.len() && (#[trigger] o[j]).position == done[k] && o[j].g_score == cost(g, done[k]);
            assert(j < ob.len());
            assert(o[j] == ob[j]);
            assert(has_fresh_entry(ob, gb, done[k]));
        }
    }
    assert forall|a: int, b: int|
        #![trigger o[a], o[b]]
        0 <= a < o.len() && 0 <= b < o.len() && a != b && o[a].position == o[b].position && o[a].g_score == cost(
            g,
            o[a].position,
        ) implies o[b].g_score != cost(g, o[b].position) by {
        let n = ob.len() as int;
        if a < n && b < n {
            assert(o[a] == ob[a] && o[b] == ob[b]);
            if o[a].position != u {
                assert(gb.recorded(ob[a].position));
                assert(g.at(o[a].position) == gb.at(o[a].position));
            } else {
                assert(ob[a].g_score >= cost(gb, u));
            }
        } else if a < n {
            assert(o[a] == ob[a]);
            assert(ob[a].g_score >= cost(gb, u));
        } else {
            assert(o[b] == ob[b]);
            assert(ob[b].g_score >= cost(gb, u));
        }
    }
    assert forall|a: int| 0 <= a < o.len() implies (#[trigger] o[a]).f_score == o[a].g_score + manhattan(o[a].position, m.exit()) by {
        if a < ob.len() {
            assert(o[a] == ob[a]);
        }
    }
    assert forall|v: Position| m.in_bounds(v) && #[trigger] t.recorded(v) && v != Maze::start() implies depth[v] == depth[t.at(
        v,
    )->0] + 1 by {
        if v == u {
            assert(cur != u);
        } else {
            assert(t.at(v) == tb.at(v));
            assert(tb.recorded(v));
            assert(done.contains(tb.at(v)->0));
            assert(tb.at(v)->0 != u);
        }
    }
    assert forall|i: int| 0 <= i < trace.len() implies (#[trigger] trace[i]).to == done[i + 1] && trace[i].from == t.at(
        done[i + 1],
    )->0 by {
        assert(done[i + 1] != u);
        assert(tb.recorded(done[i + 1]));
    }
}

/// The cells an A* search has explored, in order: the first is the
/// upper-left corner, each reached cell's parent is among them, and each
/// reached cell either is among them or has a fresh entry in the open set.
#[verifier::opaque]
pub open spec fn astar_explored(
    m: &Maze,
    t: &ParentGrid,
    g: &CellMap<usize>,
    open: Seq<Node>,
    done: Seq<Position>,
) -> bool {
    &&& forall|i: int| 0 <= i < done.len() ==> m.in_bounds(#[trigger] done[i]) && t.recorded(done[i])
    &&& done.len() > 0 ==> done[0] == Maze::start()
    &&& forall|v: Position|
        m.in_bounds(v) && #[trigger] t.recorded(v) && v != Maze::start() ==> done.contains(t.at(v)->0)
    &&& forall|v: Position| m.in_bounds(v) && #[trigger] t.recorded(v) ==> done.contains(v) || has_fresh_entry(open, g, v)
}

/// The search at its start: only the corner is reached, with a fresh entry.
proof fn lemma_explored_started(m: &Maze, t: &ParentGrid, g: &CellMap<usize>, open: Seq<Node>)
    requires
        forall|v: Position| m.in_bounds(v) && #[trigger] t.recorded(v) ==> v == Maze::start(),
        open.len() == 1,
        open[0].position == Maze::start(),
        open[0].g_score == cost(g, Maze::start()),
    ensures
        astar_explored(m, t, g, open, Seq::empty()),
{
    reveal(astar_explored);
    assert forall|v: Position| m.in_bounds(v) && #[trigger] t.recorded(v) implies has_fresh_entry(open, g, v) by {
        assert(open[0].position == v);
    }
}

/// Taking an entry that is not fresh explores nothing.
proof fn lemma_explored_skipped(
    m: &Maze,
    t: &ParentGrid,
    g: &CellMap<usize>,
    o0: Seq<Node>,
    o: Seq<Node>,
    i: int,
    done: Seq<Position>,
)
    requires
        astar_explored(m, t, g, o0, done),
        0 <= i < o0.len(),
        o == o0.remove(i),
        o0[i].g_score != cost(g, o0[i].position),
    ensures
        astar_explored(m, t, g, o, done),
{
    reveal(astar_explored);
    lemma_removed(o0, o, i);
    assert forall|v: Position| m.in_bounds(v) && #[trigger] t.recorded(v) implies done.contains(v) || has_fresh_entry(o, g, v) by {
        if !done.contains(v) {
            let j = choose|j: int| 0 <= j < o0.len() && (#[trigger] o0[j]).position == v && o0[j].g_score == cost(g, v);
            assert(j != i);
            assert(o[if j < i { j } else { j - 1 }] == o0[j]);
        }
    }
}

/// Taking an entry and expanding its cell explores the cell.
proof fn lemma_explored_taken(
    m: &Maze,
    t: &ParentGrid,
    g: &CellMap<usize>,
    o0: Seq<Node>,
    o: Seq<Node>,
    i: int,
    done: Seq<Position>,
)
    requires
        astar_explored(m, t, g, o0, done),
        0 <= i < o0.len(),
        o == o0.remove(i),
        m.in_bounds(o0[i].position),
        t.recorded(o0[i].position),
        done.len() == 0 ==> o0[i].position == Maze::start(),
    ensures
        astar_explored(m, t, g, o, done.push(o0[i].position)),
        done.push(o0[i].position)[0] == Maze::start(),
        done.len() > 0 ==> o0[i].position != Maze::start() ==> done.contains(t.at(o0[i].position)->0),
{
    reveal(astar_explored);
    let current = o0[i].position;
    let done2 = done.push(current);
    lemma_removed(o0, o, i);
    assert forall|k: int| 0 <= k < done2.len() implies m.in_bounds(#[trigger] done2[k]) && t.recorded(done2[k]) by {
        if k < done.len() {
            assert(done2[k] == done[k]);
        }
    }
    assert forall|v: Position| m.in_bounds(v) && #[trigger] t.recorded(v) && v != Maze::start() implies done2.contains(
        t.at(v)->0,
    ) by {
        let k = choose|k: int| 0 <= k < done.len() && done[k] == t.at(v)->0;
        assert(done2[k] == done[k]);
    }
    assert forall|v: Position| m.in_bounds(v) && #[trigger] t.recorded(v) implies done2.contains(v) || has_fresh_entry(o, g, v) by {
        if v == current {
            assert(done2[done.len() as int] == v);
        } else if done.contains(v) {
            let k = choose|k: int| 0 <= k < done.len() && done[k] == v;
            assert(done2[k] == v);
        } else {
            let j = choose|j: int| 0 <= j < o0.len() && (#[trigger] o0[j]).position == v && o0[j].g_score == cost(g, v);
            assert(j != i);
            assert(o[if j < i { j } else { j - 1 }] == o0[j]);
        }
    }
}

/// Giving a cell the explored cell `current` as parent, a new cost and a
/// fresh entry keeps what the search has explored.
proof fn lemma_explored_relaxed(
    m: &Maze,
    tb: &ParentGrid,
    t: &ParentGrid,
    gb: &CellMap<usize>,
    g: &CellMap<usize>,
    ob: Seq<Node>,
    o: Seq<Node>,
    entry: Node,
    current: Position,
    done: Seq<Position>,
)
    requires
        astar_explored(m, tb, gb, ob, done),
        done.contains(current),
        m.in_bounds(entry.position),
        t.at(entry.position) == Some(current),
        forall|q: Position|
            q.0 < m.width && q.1 < m.height && q != entry.position ==> #[trigger] t.at(q) == tb.at(q),
        g.at(entry.position) == Some(entry.g_score),
        forall|q: Position|
            q.0 < m.width && q.1 < m.height && q != entry.position ==> #[trigger] g.at(q) == gb.at(q),
        o == ob.push(entry),
    ensures
        astar_explored(m, t, g, o, done),
{
    reveal(astar_explored);
    let v0 = entry.position;
    assert forall|k: int| 0 <= k < done.len() implies m.in_bounds(#[trigger] done[k]) && t.recorded(done[k]) by {
        if done[k] != v0 {
            assert(t.at(done[k]) == tb.at(done[k]));
        }
    }
    assert forall|v: Position| m.in_bounds(v) && #[trigger] t.recorded(v) && v != Maze::start() implies done.contains(
        t.at(v)->0,
    ) by {
        if v != v0 {
            assert(t.at(v) == tb.at(v));
            assert(tb.recorded(v));
        }
    }
    assert forall|v: Position| m.in_bounds(v) && #[trigger] t.recorded(v) implies done.contains(v) || has_fresh_entry(o, g, v) by {
        if v == v0 {
            assert(o[ob.len() as int] == entry);
        } else {
            assert(t.at(v) == tb.at(v));
            assert(g.at(v) == gb.at(v));
            assert(tb.recorded(v));
            if !done.contains(v) {
                assert(has_fresh_entry(ob, gb, v));
                let j = choose|j: int| 0 <= j < ob.len() && (#[trigger] ob[j]).position == v && ob[j].g_score == cost(gb, v);
                assert(o[j] == ob[j]);
            }
        }
    }
}


/// The facts of a settled search that its end needs.
proof fn lemma_settled_facts(
    m: &Maze,
    t: &ParentGrid,
    g: &CellMap<usize>,
    depth: Map<Position, int>,
    o: Seq<Node>,
    done: Seq<Position>,
)
    requires
        astar_settled(m, t, g, depth, o, done),
    ensures
        exact_depths(m, t, depth, Maze::start()),
        done.no_duplicates(),
        !done.contains(m.exit()),
        entries_scored(m, o),
        forall|k: int| 0 <= k < done.len() ==> dist_is(m, #[trigger] done[k], cost(g, done[k])),
{
    reveal(astar_settled);
}

/// The explored cells lie on the grid.
proof fn lemma_explored_in_bounds(m: &Maze, t: &ParentGrid, g: &CellMap<usize>, o: Seq<Node>, done: Seq<Position>)
    requires
        astar_explored(m, t, g, o, done),
    ensures
        forall|k: int| 0 <= k < done.len() ==> m.in_bounds(#[trigger] done[k]),
{
    reveal(astar_explored);
}

/// Nothing explored yet: the order holds trivially.
proof fn lemma_monotone_started(m: &Maze, g: &CellMap<usize>, o: Seq<Node>)
    ensures
        astar_monotone(m, g, o, Seq::empty()),
{
    reveal(astar_monotone);
}

/// A cell's estimate: its cost plus the Manhattan distance to the exit.
pub open spec fn estimate(m: &Maze, g: &CellMap<usize>, v: Position) -> int {
    cost(g, v) + manhattan(v, m.exit())
}

/// The explored cells come in order of estimate, and no entry of the open
/// set has a lower estimate than the cell explored last.
#[verifier::opaque]
pub open spec fn astar_monotone(m: &Maze, g: &CellMap<usize>, open: Seq<Node>, done: Seq<Position>) -> bool {
    &&& forall|a: int, b: int| #![trigger done[a], done[b]] 0 <= a < b < done.len() ==> estimate(m, g, done[a]) <= estimate(m, g, done[b])
    &&& done.len() > 0 ==> forall|i: int| 0 <= i < open.len() ==> (#[trigger] open[i]).f_score >= estimate(m, g, done.last())
}

/// Cells explored before the exit come in order of their distance from the
/// corner plus their Manhattan distance to the exit.
pub open spec fn explored_by_estimate(m: &Maze, e: Seq<Position>) -> bool {
    forall|i: int, j: int, di: int, dj: int|
        #![trigger dist_is(m, e[i], di), dist_is(m, e[j], dj)]
        0 <= i < j < e.len() && e[j] != m.exit() && dist_is(m, e[i], di) && dist_is(m, e[j], dj) ==> di + manhattan(
            e[i],
            m.exit(),
        ) <= dj + manhattan(e[j], m.exit())
}

/// Taking an entry that is not fresh keeps the order.
proof fn lemma_monotone_skipped(m: &Maze, g: &CellMap<usize>, o0: Seq<Node>, o: Seq<Node>, i: int, done: Seq<Position>)
    requires
        astar_monotone(m, g, o0, done),
        0 <= i < o0.len(),
        o == o0.remove(i),
    ensures
        astar_monotone(m, g, o, done),
{
    reveal(astar_monotone);
    lemma_removed(o0, o, i);
}

/// Expanding the cell of a fresh entry taken before any of lower estimate
/// keeps the order.
proof fn lemma_monotone_taken(
    m: &Maze,
    g: &CellMap<usize>,
    o0: Seq<Node>,
    o: Seq<Node>,
    i: int,
    done: Seq<Position>,
)
    requires
        astar_monotone(m, g, o0, done),
        entries_scored(m, o0),
        0 <= i < o0.len(),
        o == o0.remove(i),
        o0[i].g_score == cost(g, o0[i].position),
        forall|j: int| 0 <= j < o0.len() ==> !precedes(#[trigger] o0[j], o0[i]),
    ensures
        astar_monotone(m, g, o, done.push(o0[i].position)),
{
    reveal(astar_monotone);
    lemma_removed(o0, o, i);
    let d2 = done.push(o0[i].position);
    assert(estimate(m, g, o0[i].position) == o0[i].f_score);
    assert forall|a: int, b: int| #![trigger d2[a], d2[b]] 0 <= a < b < d2.len() implies estimate(m, g, d2[a]) <= estimate(m, g, d2[b]) by {
        if b < done.len() {
            assert(d2[a] == done[a] && d2[b] == done[b]);
        } else {
            assert(d2[a] == done[a]);
            if a < done.len() - 1 {
                assert(estimate(m, g, done[a]) <= estimate(m, g, done[done.len() - 1]));
            }
        }
    }
    assert forall|k: int| 0 <= k < o.len() implies (#[trigger] o[k]).f_score >= estimate(m, g, d2.last()) by {
        let k0 = if k < i { k } else { k + 1 };
        assert(o[k] == o0[k0]);
        assert(!precedes(o0[k0], o0[i]));
    }
}

/// A new entry for a neighbour of the cell explored last keeps the order.
proof fn lemma_monotone_relaxed(
    m: &Maze,
    gb: &CellMap<usize>,
    g: &CellMap<usize>,
    ob: Seq<Node>,
    o: Seq<Node>,
    entry: Node,
    done: Seq<Position>,
)
    requires
        astar_monotone(m, gb, ob, done),
        done.len() > 0,
        !done.contains(entry.position),
        m.step(done.last(), entry.position),
        m.in_bounds(done.last()),
        entry.g_score == cost(gb, done.last()) + 1,
        entry.f_score == entry.g_score + manhattan(entry.position, m.exit()),
        forall|k: int| 0 <= k < done.len() ==> m.in_bounds(#[trigger] done[k]),
        forall|q: Position| q.0 < m.width && q.1 < m.height && q != entry.position ==> #[trigger] g.at(q) == gb.at(q),
        o == ob.push(entry),
    ensures
        astar_monotone(m, g, o, done),
{
    reveal(astar_monotone);
    lemma_step_in_bounds(m, done.last(), entry.position);
    assert forall|k: int| 0 <= k < done.len() implies estimate(m, g, #[trigger] done[k]) == estimate(m, gb, done[k]) by {
        assert(done[k] != entry.position);
        assert(g.at(done[k]) == gb.at(done[k]));
    }
    assert forall|a: int, b: int| #![trigger done[a], done[b]] 0 <= a < b < done.len() implies estimate(m, g, done[a]) <= estimate(m, g, done[b]) by {
        assert(estimate(m, g, done[a]) == estimate(m, gb, done[a]));
        assert(estimate(m, g, done[b]) == estimate(m, gb, done[b]));
    }
    assert(estimate(m, g, done[done.len() - 1]) == estimate(m, gb, done[done.len() - 1]));
    assert forall|k: int| 0 <= k < o.len() implies (#[trigger] o[k]).f_score >= estimate(m, g, done.last()) by {
        if k < ob.len() {
            assert(o[k] == ob[k]);
        }
    }
}

/// The order of estimates, read through the distances from the corner.
proof fn lemma_by_estimate(m: &Maze, g: &CellMap<usize>, o: Seq<Node>, done: Seq<Position>, e: Seq<Position>)
    requires
        astar_monotone(m, g, o, done),
        forall|k: int| 0 <= k < done.len() && done[k] != m.exit() ==> dist_is(m, #[trigger] done[k], cost(g, done[k])),
        !done.contains(m.exit()),
        e.len() >= done.len(),
        forall|k: int| 0 <= k < done.len() ==> e[k] == #[trigger] done[k],
        forall|k: int| done.len() <= k < e.len() ==> #[trigger] e[k] == m.exit(),
    ensures
        explored_by_estimate(m, e),
{
    reveal(astar_monotone);
    assert forall|i: int, j: int, di: int, dj: int|
        #![trigger dist_is(m, e[i], di), dist_is(m, e[j], dj)]
        0 <= i < j < e.len() && e[j] != m.exit() && dist_is(m, e[i], di) && dist_is(m, e[j], dj) implies di + manhattan(
            e[i],
            m.exit(),
        ) <= dj + manhattan(e[j], m.exit()) by {
        assert(j < done.len());
        assert(e[i] == done[i] && e[j] == done[j]);
        assert(estimate(m, g, done[i]) <= estimate(m, g, done[j]));
        assert(dist_is(m, done[j], cost(g, done[j])));
        assert(within(m, done[j], dj));
        assert(within(m, done[j], cost(g, done[j])));
        assert(done.contains(done[i]));
        assert(dist_is(m, done[i], cost(g, done[i])));
        assert(within(m, done[i], di));
        assert(within(m, done[i], cost(g, done[i])));
    }
}

/// What the state says of a reached cell and of the open set.
proof fn lemma_state_facts(
    m: &Maze,
    t: &ParentGrid,
    g: &CellMap<usize>,
    depth: Map<Position, int>,
    o: Seq<Node>,
    explored: int,
    except: Option<Position>,
    v: Position,
)
    requires
        astar_state(m, t, g, depth, o, explored, except),
        m.in_bounds(v),
        g.recorded(v),
    ensures
        t.recorded(v),
        depth[v] == cost(g, v),
        forall|i: int|
            0 <= i < o.len() ==> m.in_bounds((#[trigger] o[i]).position) && g.recorded(o[i].position) && o[i].g_score
                >= cost(g, o[i].position),
{
    reveal(astar_invariant);
    assert forall|i: int| 0 <= i < o.len() implies m.in_bounds((#[trigger] o[i]).position) && g.recorded(o[i].position)
        && o[i].g_score >= cost(g, o[i].position) by {
        assert(t.recorded(o[i].position));
    }
}

/// When the exit's entry is taken, the explored cells are still distinct
/// and the exit's depth is its distance from the corner.
proof fn lemma_goal_taken(
    m: &Maze,
    t: &ParentGrid,
    g: &CellMap<usize>,
    depth: Map<Position, int>,
    o: Seq<Node>,
    explored: int,
    done: Seq<Position>,
    node: Node,
)
    requires
        astar_state(m, t, g, depth, o, explored, None),
        astar_settled(m, t, g, depth, o, done),
        exists|i: int| 0 <= i < o.len() && node == o[i],
        node.position == m.exit(),
        dist_is(m, node.position, cost(g, node.position)),
    ensures
        done.push(node.position).no_duplicates(),
        dist_is(m, m.exit(), depth[m.exit()]),
        t.recorded(m.exit()),
        exact_depths(m, t, depth, Maze::start()),
{
    reveal(astar_invariant);
    reveal(astar_settled);
    let i = choose|i: int| 0 <= i < o.len() && node == o[i];
    assert(t.recorded(o[i].position));
    let d2 = done.push(node.position);
    assert forall|a: int, b: int| 0 <= a < b < d2.len() implies d2[a] != d2[b] by {
        if b == d2.len() - 1 {
            assert(done.contains(done[a]));
        } else {
            assert(done[a] != done[b]);
        }
    }
}

/// Ends a search that has just explored the exit: reports the path back
/// along the parents from the exit and flags its moves in the trace.
#[verifier::rlimit(40)]
#[verifier::spinoff_prover]
fn astar_found(
    maze: &Maze,
    came_from: &ParentGrid,
    mut trace: Vec<SearchStep>,
    nodes_explored: usize,
    start_time: Instant,
    Ghost(depth): Ghost<Map<Position, int>>,
    Ghost(done): Ghost<Seq<Position>>,
) -> (out: SolverOutput)
    requires
        maze.well_shaped(),
        tree_ok(maze, came_from, depth, Maze::start()),
        exact_depths(maze, came_from, depth, Maze::start()),
        came_from.recorded(maze.exit()),
        dist_is(maze, maze.exit(), depth[maze.exit()]),
        nodes_explored >= 1,
        trace_so_far(maze, trace@, nodes_explored as int),
        trace_follows(came_from, trace@, done),
        explored_in_order(trace@, done),
        done.no_duplicates(),
        done.len() > 0,
        done[0] == Maze::start(),
        done.last() == maze.exit(),
    ensures
        out.path is Some,
        solver_output_ok(maze, out, "A*"@),
        exploration_ok(maze, out),
        explored_cells(out.trace@) == done,
        forall|s: Seq<Position>| maze.is_walk_between(s, Maze::start(), maze.exit()) ==> out.path->0@.len() <= s.len(),
{
    let start: Position = (0, 0);
    let goal: Position = (maze.width - 1, maze.height - 1);
    let path = reconstruct_path(maze, came_from, start, goal, Ghost(depth));
    let ghost unmarked = trace@;
    mark_solution_path(&mut trace, path.as_slice());
    let path_length = path.len();
    proof {
        lemma_marked_trace(maze, unmarked, trace@, path@);
        lemma_explored_in_order(done, unmarked, trace@);
        assert forall|k: int| 0 < k < done.len() implies done.subrange(0, k).contains(came_from.at(#[trigger] done[k])->0) by {
            assert(unmarked[k - 1].from == came_from.at(done[k])->0);
        }
        assert(path@.last() == goal);
        assert(done[done.len() - 1] == goal);
        lemma_path_along_parents(came_from, done, unmarked, trace@, path@);
        assert(maze.is_walk_between(path@, start, goal));
        assert forall|s: Seq<Position>| maze.is_walk_between(s, Maze::start(), maze.exit()) implies path@.len() <= s.len() by {
            assert(within(maze, goal, s.len() - 1));
        }
    }
    SolverOutput {
        path: Some(path),
        trace,
        stats: SolutionStats {
            algorithm: "A*",
            solved: true,
            path_length,
            nodes_explored,
            duration: elapsed_since(&start_time),
        },
    }
}

/// Solves the maze by A* search with the Manhattan distance as estimate,
/// from the upper-left corner to the lower-right corner. Each cell is
/// explored at most once, in order of estimate, and the path found is a
/// shortest one.
pub fn solve(maze: &Maze) -> (output: SolverOutput)
    requires
        maze.well_shaped(),
        maze.cells_fit(),
    ensures
        solver_output_ok(maze, output, "A*"@),
        exploration_ok(maze, output),
        explored_by_estimate(maze, explored_cells(output.trace@)),
        shortest_solution(maze, output),
{
    let start_time = instant_now();
    let start: Position = (0, 0);
    let goal: Position = (maze.width - 1, maze.height - 1);
    let ghost w = maze.width as int;
    let ghost h = maze.height as int;
    let mut nodes_explored: usize = 0;
    let mut trace: Vec<SearchStep> = Vec::new();
    let mut open_set: Vec<Node> = Vec::new();
    let mut came_from = ParentGrid::new(maze.width, maze.height);
    let mut g_scores: CellMap<usize> = CellMap::new(maze.width, maze.height);
    let ghost mut depth: Map<Position, int> = Map::empty().insert(start, 0);
    proof {
        lemma_sizes(maze);
    }
    let start_estimate = heuristic(start, goal);
    open_set.push(Node { position: start, g_score: 0, f_score: start_estimate });
    let ghost fresh_t = came_from;
    let ghost fresh_g = g_scores;
    came_from.set(start, start, Ghost(w), Ghost(h));
    g_scores.set(start, 0, Ghost(w), Ghost(h));
    proof {
        lemma_astar_started(maze, &fresh_t, &came_from, &fresh_g, &g_scores, depth, open_set@);
        assert forall|v: Position| maze.in_bounds(v) && #[trigger] came_from.recorded(v) implies v == start by {
            assert(!fresh_t.recorded(v));
        }
        lemma_explored_started(maze, &came_from, &g_scores, open_set@);
        lemma_settled_started(maze, &came_from, &g_scores, depth, open_set@);
        lemma_monotone_started(maze, &g_scores, open_set@);
    }
    let ghost mut done: Seq<Position> = Seq::empty();
    while open_set.len() > 0
        invariant
            maze.well_shaped(),
            maze.cells_fit(),
            cells(maze) >= 1,
            w == maze.width,
            h == maze.height,
            h * w == cells(maze),
            w + h <= cells(maze) + 1,
            start == Maze::start(),
            goal == maze.exit(),
            astar_state(maze, &came_from, &g_scores, depth, open_set@, nodes_explored as int, None),
            trace_so_far(maze, trace@, nodes_explored as int),
            astar_explored(maze, &came_from, &g_scores, open_set@, done),
            explored_in_order(trace@, done),
            done.len() == nodes_explored,
            astar_settled(maze, &came_from, &g_scores, depth, open_set@, done),
            trace_follows(&came_from, trace@, done),
            astar_monotone(maze, &g_scores, open_set@, done),
        decreases potential(maze, &g_scores, open_set@),
    {
        let ghost o0 = open_set@;
        let current_node = pop_best(&mut open_set);
        let current = current_node.position;
        proof {
            lemma_astar_popped(maze, &came_from, &g_scores, depth, o0, open_set@, current_node, nodes_explored as int);
        }
        let ghost taken = choose|i: int| 0 <= i < o0.len() && current_node == o0[i] && open_set@ == o0.remove(i);
        let current_best_g = g_scores.get(current, Ghost(w), Ghost(h)).unwrap();
        if current_node.g_score > current_best_g && !same_position(current, goal) {
            proof {
                lemma_explored_skipped(maze, &came_from, &g_scores, o0, open_set@, taken, done);
                lemma_settled_skipped(maze, &came_from, &g_scores, depth, o0, open_set@, taken, done);
                lemma_monotone_skipped(maze, &g_scores, o0, open_set@, taken, done);
            }
            continue;
        }
        let ghost before = nodes_explored;
        let ghost trace_before = trace@;
        let ghost done_before = done;
        proof {
            lemma_next_explored_fits(maze, &came_from, &g_scores, depth, o0, open_set@, taken, done);
        }
        nodes_explored = nodes_explored + 1;
        proof {
            if current != start {
                assert(tree_link(maze, &came_from, depth, current));
            }
            lemma_explored_taken(maze, &came_from, &g_scores, o0, open_set@, taken, done);
            lemma_popped_optimal(maze, &came_from, &g_scores, depth, o0, before as int, done, current_node);
            lemma_settled_facts(maze, &came_from, &g_scores, depth, o0, done);
            if current != goal {
                lemma_settled_taken(maze, &came_from, &g_scores, depth, o0, open_set@, taken, done);
                lemma_monotone_taken(maze, &g_scores, o0, open_set@, taken, done);
            }
            done = done.push(current);
        }
        record_search_step(current, start, nodes_explored, &came_from, &mut trace, Ghost(w), Ghost(h));
        proof {
            lemma_step_recorded(maze, &came_from, depth, trace_before, trace@, current, nodes_explored as int);
            if done_before.len() > 0 {
                assert(trace@.drop_last() =~= trace_before);
            }
            lemma_in_order_push(trace_before, done_before, current, trace@);
            lemma_trace_follows_push(&came_from, trace_before, done_before, current, trace@);
        }
        if same_position(current, goal) {
            proof {
                lemma_goal_taken(maze, &came_from, &g_scores, depth, o0, before as int, done_before, current_node);
                lemma_by_estimate(maze, &g_scores, o0, done_before, done);
            }
            let out = astar_found(maze, &came_from, trace, nodes_explored, start_time, Ghost(depth), Ghost(done));
            return out;
        }
        let neighbors = maze.neighbors(current);
        proof {
            assert(maze.in_bounds(current));
            assert(forall|i: int| 0 <= i < neighbors@.len() ==> maze.step(current, #[trigger] neighbors@[i]));
            assert(forall|u: Position| maze.step(current, u) ==> neighbors@.contains(u));
        }
        let new_depth = relax_neighbors(
            maze,
            current,
            current_best_g,
            &neighbors,
            &mut open_set,
            &mut came_from,
            &mut g_scores,
            Ghost(depth),
            Ghost(nodes_explored as int),
            Ghost(done),
            Ghost(trace@),
        );
        proof {
            depth = new_depth@;
        }
    }
    proof {
        assert(open_set@ =~= Seq::<Node>::empty());
        lemma_astar_exhausted(maze, &came_from, &g_scores, depth, nodes_explored as int);
        lemma_astar_explored_all(maze, &came_from, &g_scores, depth, nodes_explored as int, done);
        lemma_explored_in_order(done, trace@, trace@);
        lemma_settled_facts(maze, &came_from, &g_scores, depth, open_set@, done);
        lemma_by_estimate(maze, &g_scores, open_set@, done, done);
    }
    SolverOutput {
        path: None,
        trace,
        stats: SolutionStats {
            algorithm: "A*",
            solved: false,
            path_length: 0,
            nodes_explored,
            duration: elapsed_since(&start_time),
        },
    }
}

/// The cells explored so far, and the one about to be, are distinct cells
/// of the grid: so many fit in a `usize`.
proof fn lemma_next_explored_fits(
    m: &Maze,
    t: &ParentGrid,
    g: &CellMap<usize>,
    depth: Map<Position, int>,
    o0: Seq<Node>,
    o: Seq<Node>,
    i: int,
    done: Seq<Position>,
)
    requires
        m.well_shaped(),
        m.cells_fit(),
        astar_explored(m, t, g, o0, done),
        astar_settled(m, t, g, depth, o0, done),
        0 <= i < o0.len(),
        o == o0.remove(i),
        m.in_bounds(o0[i].position),
        t.recorded(o0[i].position),
        done.len() == 0 ==> o0[i].position == Maze::start(),
        o0[i].position == m.exit() || o0[i].g_score == cost(g, o0[i].position),
    ensures
        done.len() + 1 <= cells(m),
        done.len() + 1 <= usize::MAX,
{
    let v = o0[i].position;
    lemma_explored_taken(m, t, g, o0, o, i, done);
    reveal(astar_settled);
    reveal(astar_explored);
    let d2 = done.push(v);
    if done.contains(v) {
        let k = choose|k: int| 0 <= k < done.len() && done[k] == v;
        assert(!has_fresh_entry(o0, g, done[k]));
        assert(v != m.exit());
        assert(has_fresh_entry(o0, g, v));
    }
    assert forall|a: int, b: int| 0 <= a < b < d2.len() implies d2[a] != d2[b] by {
        if b == d2.len() - 1 {
            assert(done.contains(done[a]));
        } else {
            assert(done[a] != done[b]);
        }
    }
    assert forall|k: int| 0 <= k < d2.len() implies m.in_bounds(#[trigger] d2[k]) by {}
    lemma_distinct_cells_bound(m, d2);
    lemma_sizes(m);
}

proof fn lemma_sizes(m: &Maze)
    requires
        m.well_shaped(),
        m.cells_fit(),
    ensures
        cells(m) >= 1,
        m.height * m.width == cells(m),
        m.width + m.height <= cells(m) + 1,
        2 * cells(m) <= usize::MAX,
{
    let w = m.width as int;
    let h = m.height as int;
    assert(w * h >= 1) by (nonlinear_arith)
        requires
            w >= 1,
            h >= 1,
    ;
    assert(h * w == w * h) by (nonlinear_arith);
    assert(2 * w * h == 2 * (w * h)) by (nonlinear_arith);
    assert(w + h <= w * h + 1) by (nonlinear_arith)
        requires
            w >= 1,
            h >= 1,
    ;
}


/// Relaxes every cell one step from `current`: a cell whose known cost is
/// worse than one more than `current`'s (or that has none) gets `current` as
/// its parent, that cost, and a new entry in the open set.
#[verifier::rlimit(50)]
#[verifier::spinoff_prover]
fn relax_neighbors(
    maze: &Maze,
    current: Position,
    current_g: usize,
    neighbors: &Vec<Position>,
    open_set: &mut Vec<Node>,
    came_from: &mut ParentGrid,
    g_scores: &mut CellMap<usize>,
    Ghost(depth): Ghost<Map<Position, int>>,
    Ghost(explored): Ghost<int>,
    Ghost(done): Ghost<Seq<Position>>,
    Ghost(trace): Ghost<Seq<SearchStep>>,
) -> (new_depth: Ghost<Map<Position, int>>)
    requires
        maze.well_shaped(),
        maze.cells_fit(),
        explored >= 1,
        astar_state(maze, old(came_from), old(g_scores), depth, old(open_set)@, explored, Some(current)),
        astar_explored(maze, old(came_from), old(g_scores), old(open_set)@, done),
        done.contains(current),
        astar_settled(maze, old(came_from), old(g_scores), depth, old(open_set)@, done),
        trace_follows(old(came_from), trace, done),
        dist_is(maze, current, current_g as int),
        astar_monotone(maze, old(g_scores), old(open_set)@, done),
        done.len() > 0,
        done.last() == current,
        maze.in_bounds(current),
        old(g_scores).at(current) == Some(current_g),
        forall|i: int| 0 <= i < neighbors@.len() ==> maze.step(current, #[trigger] neighbors@[i]),
        forall|u: Position| maze.step(current, u) ==> neighbors@.contains(u),
    ensures
        astar_state(maze, final(came_from), final(g_scores), new_depth@, final(open_set)@, explored, None),
        astar_explored(maze, final(came_from), final(g_scores), final(open_set)@, done),
        astar_settled(maze, final(came_from), final(g_scores), new_depth@, final(open_set)@, done),
        trace_follows(final(came_from), trace, done),
        astar_monotone(maze, final(g_scores), final(open_set)@, done),
        0 <= potential(maze, final(g_scores), final(open_set)@) <= potential(maze, old(g_scores), old(open_set)@),
{
    let ghost w = maze.width as int;
    let ghost h = maze.height as int;
    let ghost mut depth = depth;
    let ghost p0 = potential(maze, g_scores, open_set@);
    let goal: Position = (maze.width - 1, maze.height - 1);
    proof {
        lemma_sizes(maze);
        lemma_reached_count_bounds(came_from, w, h);
        assert(cost(g_scores, current) < came_from.reached_count(h)) by {
            reveal(astar_invariant);
            assert(g_scores.recorded(current));
            assert(came_from.recorded(current));
        }
    }
    let mut k: usize = 0;
    while k < neighbors.len()
        invariant
            maze.well_shaped(),
            cells(maze) >= 1,
            maze.height * maze.width == cells(maze),
            maze.width + maze.height <= cells(maze) + 1,
            2 * cells(maze) <= usize::MAX,
            w == maze.width,
            h == maze.height,
            goal == maze.exit(),
            explored >= 1,
            maze.in_bounds(current),
            g_scores.at(current) == Some(current_g),
            current_g < cells(maze),
            forall|i: int| 0 <= i < neighbors@.len() ==> maze.step(current, #[trigger] neighbors@[i]),
            forall|u: Position| maze.step(current, u) ==> neighbors@.contains(u),
            0 <= k <= neighbors@.len(),
            forall|i: int|
                0 <= i < k ==> came_from.recorded(#[trigger] neighbors@[i]) && cost(g_scores, neighbors@[i]) <= current_g + 1,
            astar_state(maze, came_from, g_scores, depth, open_set@, explored, Some(current)),
            astar_explored(maze, came_from, g_scores, open_set@, done),
            done.contains(current),
            astar_settled(maze, came_from, g_scores, depth, open_set@, done),
            trace_follows(came_from, trace, done),
            dist_is(maze, current, current_g as int),
            astar_monotone(maze, g_scores, open_set@, done),
            done.len() > 0,
            done.last() == current,
            potential(maze, g_scores, open_set@) <= p0,
        decreases neighbors@.len() - k,
    {
        let neighbor = neighbors[k];
        proof {
            lemma_step_in_bounds(maze, current, neighbor);
        }
        let tentative_g = current_g + 1;
        let improves = match g_scores.get(neighbor, Ghost(w), Ghost(h)) {
            Some(known) => tentative_g < known,
            None => true,
        };
        if improves {
            let ghost tb = *came_from;
            let ghost gb = *g_scores;
            let ghost ob = open_set@;
            let ghost db = depth;
            proof {
                lemma_state_facts(maze, came_from, g_scores, depth, open_set@, explored, Some(current), current);
                lemma_explored_in_bounds(maze, came_from, g_scores, open_set@, done);
            }
            came_from.set(neighbor, current, Ghost(w), Ghost(h));
            g_scores.set(neighbor, tentative_g, Ghost(w), Ghost(h));
            let estimate = heuristic(neighbor, goal);
            let entry = Node { position: neighbor, g_score: tentative_g, f_score: tentative_g + estimate };
            open_set.push(entry);
            proof {
                depth = depth.insert(neighbor, tentative_g as int);
                lemma_astar_relaxed(maze, &tb, came_from, &gb, g_scores, db, depth, ob, open_set@, entry, current, current_g, explored);
                lemma_explored_relaxed(maze, &tb, came_from, &gb, g_scores, ob, open_set@, entry, current, done);
                lemma_settled_relaxed(maze, &tb, came_from, &gb, g_scores, db, depth, ob, open_set@, entry, current, done, trace);
                lemma_monotone_relaxed(maze, &gb, g_scores, ob, open_set@, entry, done);
                assert forall|i: int|
                    0 <= i < k + 1 implies came_from.recorded(#[trigger] neighbors@[i]) && cost(g_scores, neighbors@[i]) <= current_g + 1 by {
                    lemma_step_in_bounds(maze, current, neighbors@[i]);
                    if neighbors@[i] != neighbor {
                        assert(g_scores.at(neighbors@[i]) == gb.at(neighbors@[i]));
                        assert(came_from.at(neighbors@[i]) == tb.at(neighbors@[i]));
                    }
                }
            }
        } else {
            assert(came_from.recorded(neighbor) && cost(g_scores, neighbor) <= current_g + 1) by {
                reveal(astar_invariant);
                assert(g_scores.recorded(neighbor));
            }
        }
        k = k + 1;
    }
    proof {
        reveal(astar_invariant);
        assert forall|u: Position| #[trigger] maze.step(current, u) implies came_from.recorded(u) && cost(g_scores, u) <= cost(g_scores, current) + 1 by {
            let i = choose|i: int| 0 <= i < neighbors@.len() && neighbors@[i] == u;
            assert(came_from.recorded(neighbors@[i]));
        }
        assert(closed(maze, came_from, g_scores, current));
        lemma_cost_total_bounds(maze, came_from, g_scores);
    }
    Ghost(depth)
}

/// When no cell is left unreached, every cell is reached.
proof fn lemma_reached_count_below<V: Copy>(t: &CellMap<V>, w: int, h: int, p: Position)
    requires
        t.shaped(w, h),
        0 <= p.0 < w,
        0 <= p.1 < h,
        !t.recorded(p),
    ensures
        t.reached_count(h) < h * w,
{
    let g = t.view_rows();
    assert forall|j: int| 0 <= j < h implies (#[trigger] g[j]).len() == w by {
        assert(g[j] == t.rows@[j]@);
    }
    assert forall|i: int, j: int| 0 <= j < h && 0 <= i < w implies 0 <= #[trigger] reached_indicator::<V>()(g[j][i], i, j) <= 1 by {}
    lemma_grid_total_bounds(g, reached_indicator::<V>(), h, w);
    assert(g[p.1 as int] == t.rows@[p.1 as int]@);
    assert(reached_indicator::<V>()(g[p.1 as int][p.0 as int], p.0 as int, p.1 as int) == 0);
}

/// The total of the known costs lies between 0 and the square of the number
/// of cells.
proof fn lemma_cost_total_bounds(m: &Maze, t: &ParentGrid, g: &CellMap<usize>)
    requires
        m.well_shaped(),
        t.shaped(m.width as int, m.height as int),
        g.shaped(m.width as int, m.height as int),
        forall|p: Position| m.in_bounds(p) ==> (#[trigger] g.recorded(p) <==> t.recorded(p)),
        forall|p: Position| m.in_bounds(p) && #[trigger] t.recorded(p) ==> cost(g, p) < t.reached_count(m.height as int),
    ensures
        0 <= grid_total(g.view_rows(), cost_or(cells(m)), m.height as int) <= cells(m) * cells(m),
        2 * cells(m) * cells(m) == 2 * (cells(m) * cells(m)),
{
    let w = m.width as int;
    let h = m.height as int;
    let c = cells(m);
    let rows = g.view_rows();
    lemma_reached_count_bounds(t, w, h);
    assert(h * w == c) by (nonlinear_arith)
        requires
            c == w * h,
    ;
    assert forall|j: int| 0 <= j < h implies (#[trigger] rows[j]).len() == w by {
        assert(rows[j] == g.rows@[j]@);
    }
    assert forall|i: int, j: int| 0 <= j < h && 0 <= i < w implies 0 <= #[trigger] cost_or(c)(rows[j][i], i, j) <= c by {
        let p: Position = (i as usize, j as usize);
        assert(rows[j] == g.rows@[j]@);
        assert(rows[j][i] == g.at(p));
        if g.recorded(p) {
            assert(t.recorded(p));
        }
    }
    lemma_grid_total_at_most(rows, cost_or(c), h, w, c);
    assert(c * h * w == c * c) by (nonlinear_arith)
        requires
            h * w == c,
    ;
    assert(2 * c * c == 2 * (c * c)) by (nonlinear_arith);
}

/// The search state right after the upper-left corner was given cost 0 and
/// put in the open set.
proof fn lemma_astar_started(
    m: &Maze,
    fresh_t: &ParentGrid,
    t: &ParentGrid,
    fresh_g: &CellMap<usize>,
    g: &CellMap<usize>,
    depth: Map<Position, int>,
    open: Seq<Node>,
)
    requires
        m.well_shaped(),
        m.cells_fit(),
        fresh_t.shaped(m.width as int, m.height as int),
        forall|p: Position| p.0 < m.width && p.1 < m.height ==> !#[trigger] fresh_t.recorded(p),
        fresh_t.reached_count(m.height as int) == 0,
        t.shaped(m.width as int, m.height as int),
        t.at(Maze::start()) == Some(Maze::start()),
        forall|q: Position| q.0 < m.width && q.1 < m.height && q != Maze::start() ==> #[trigger] t.at(q) == fresh_t.at(q),
        t.reached_count(m.height as int) == fresh_t.reached_count(m.height as int) + 1,
        fresh_g.shaped(m.width as int, m.height as int),
        forall|p: Position| p.0 < m.width && p.1 < m.height ==> !#[trigger] fresh_g.recorded(p),
        g.shaped(m.width as int, m.height as int),
        g.at(Maze::start()) == Some(0usize),
        forall|q: Position| q.0 < m.width && q.1 < m.height && q != Maze::start() ==> #[trigger] g.at(q) == fresh_g.at(q),
        depth == Map::<Position, int>::empty().insert(Maze::start(), 0),
        open.len() == 1,
        open[0].position == Maze::start(),
        open[0].g_score == 0,
    ensures
        astar_state(m, t, g, depth, open, 0, None),
{
    reveal(astar_invariant);
    let start = Maze::start();
    lemma_search_started(m, fresh_t, t, depth, seq![start]);
    assert forall|v: Position| m.in_bounds(v) && #[trigger] t.recorded(v) implies v == start by {
        assert(!fresh_t.recorded(v));
    }
    assert forall|p: Position| m.in_bounds(p) implies (#[trigger] g.recorded(p) <==> t.recorded(p)) by {
        if p != start {
            assert(!fresh_g.recorded(p));
            assert(!fresh_t.recorded(p));
        }
    }
    assert forall|v: Position| m.in_bounds(v) && #[trigger] t.recorded(v) implies has_fresh_entry(open, g, v) by {
        assert(open[0].position == v);
    }
    assert(t.recorded(start));
    assert(open[0].position == start);
    lemma_cost_total_bounds(m, t, g);
}

/// Where the entries of a sequence land when the one at `i` is removed.
proof fn lemma_removed(o0: Seq<Node>, o: Seq<Node>, i: int)
    requires
        0 <= i < o0.len(),
        o == o0.remove(i),
    ensures
        o.len() == o0.len() - 1,
        forall|k: int| 0 <= k < o.len() ==> #[trigger] o[k] == (if k < i { o0[k] } else { o0[k + 1] }),
        forall|j: int| 0 <= j < o0.len() && j != i ==> o[if j < i { j } else { j - 1 }] == #[trigger] o0[j],
{
    assert forall|j: int| 0 <= j < o0.len() && j != i implies o[if j < i { j } else { j - 1 }] == #[trigger] o0[j] by {
        if j < i {
            assert(o[j] == o0[j]);
        } else {
            assert(o[j - 1] == o0[j]);
        }
    }
}

/// Taking an entry out of the open set: what holds of its cell.
proof fn lemma_astar_popped(
    m: &Maze,
    t: &ParentGrid,
    g: &CellMap<usize>,
    depth: Map<Position, int>,
    o0: Seq<Node>,
    o: Seq<Node>,
    node: Node,
    explored: int,
)
    requires
        m.well_shaped(),
        astar_state(m, t, g, depth, o0, explored, None),
        exists|i: int| 0 <= i < o0.len() && node == o0[i] && o == o0.remove(i),
    ensures
        m.in_bounds(node.position),
        t.recorded(node.position),
        g.recorded(node.position),
        node.g_score >= cost(g, node.position),
        (node.position != Maze::start()) <==> explored > 0,
        node.position != Maze::start() ==> tree_link(m, t, depth, node.position),
        0 <= potential(m, g, o) < potential(m, g, o0),
        node.position != m.exit() && node.g_score > cost(g, node.position) ==> astar_state(m, t, g, depth, o, explored, None),
        node.position != m.exit() && node.g_score == cost(g, node.position) ==> astar_state(
            m,
            t,
            g,
            depth,
            o,
            explored + 1,
            Some(node.position),
        ),
{
    reveal(astar_invariant);
    let start = Maze::start();
    let current = node.position;
    let i = choose|i: int| 0 <= i < o0.len() && node == o0[i] && o == o0.remove(i);
    lemma_removed(o0, o, i);
    assert(o0[i].position == current);
    lemma_cost_total_bounds(m, t, g);
    if explored == 0 {
        assert(current == start);
    }
    if current != start {
        assert(tree_link(m, t, depth, current));
    }
    if current != m.exit() && node.g_score > cost(g, current) {
        lemma_astar_stale(m, t, g, depth, o0, o, i, explored);
    }
    if current != m.exit() && node.g_score == cost(g, current) {
        lemma_astar_taken(m, t, g, depth, o0, o, i, explored);
    }
}

/// Taking a stale entry (one whose cost is no longer the best known) keeps
/// the state.
proof fn lemma_astar_stale(
    m: &Maze,
    t: &ParentGrid,
    g: &CellMap<usize>,
    depth: Map<Position, int>,
    o0: Seq<Node>,
    o: Seq<Node>,
    i: int,
    explored: int,
)
    requires
        astar_state(m, t, g, depth, o0, explored, None),
        0 <= i < o0.len(),
        o == o0.remove(i),
        o0[i].position != m.exit(),
        o0[i].g_score > cost(g, o0[i].position),
    ensures
        astar_state(m, t, g, depth, o, explored, None),
{
    reveal(astar_invariant);
    let start = Maze::start();
    let goal = m.exit();
    lemma_removed(o0, o, i);
    assert(t.recorded(start));
    if explored == 0 {
        assert(o0[0].position == start);
    }
    assert forall|k: int| 0 <= k < o.len() implies {
        &&& m.in_bounds((#[trigger] o[k]).position)
        &&& t.recorded(o[k].position)
        &&& o[k].g_score >= cost(g, o[k].position)
    } by {
        assert(o[k] == (if k < i { o0[k] } else { o0[k + 1] }));
    }
    assert forall|v: Position|
        m.in_bounds(v) && #[trigger] t.recorded(v) implies has_fresh_entry(o, g, v) || closed(m, t, g, v) by {
        if has_fresh_entry(o0, g, v) {
            let j = choose|j: int| 0 <= j < o0.len() && (#[trigger] o0[j]).position == v && o0[j].g_score == cost(g, v);
            assert(j != i);
            assert(o[if j < i { j } else { j - 1 }] == o0[j]);
        }
    }
    if t.recorded(goal) {
        let j = choose|j: int| 0 <= j < o0.len() && (#[trigger] o0[j]).position == goal;
        assert(o[if j < i { j } else { j - 1 }] == o0[j]);
    }
    assert forall|k: int| 0 <= k < o.len() implies (#[trigger] o[k]).position != start by {
        assert(o[k] == (if k < i { o0[k] } else { o0[k + 1] }));
    }
}

/// Taking a fresh entry leaves its cell as the one being expanded.
proof fn lemma_astar_taken(
    m: &Maze,
    t: &ParentGrid,
    g: &CellMap<usize>,
    depth: Map<Position, int>,
    o0: Seq<Node>,
    o: Seq<Node>,
    i: int,
    explored: int,
)
    requires
        astar_state(m, t, g, depth, o0, explored, None),
        0 <= i < o0.len(),
        o == o0.remove(i),
        o0[i].position != m.exit(),
        o0[i].g_score == cost(g, o0[i].position),
    ensures
        astar_state(m, t, g, depth, o, explored + 1, Some(o0[i].position)),
{
    reveal(astar_invariant);
    let start = Maze::start();
    let goal = m.exit();
    let current = o0[i].position;
    lemma_removed(o0, o, i);
    assert forall|k: int| 0 <= k < o.len() implies {
        &&& m.in_bounds((#[trigger] o[k]).position)
        &&& t.recorded(o[k].position)
        &&& o[k].g_score >= cost(g, o[k].position)
    } by {
        assert(o[k] == (if k < i { o0[k] } else { o0[k + 1] }));
    }
    assert forall|v: Position|
        m.in_bounds(v) && #[trigger] t.recorded(v) implies has_fresh_entry(o, g, v) || closed(m, t, g, v) || Some(current)
        == Some(v) by {
        if has_fresh_entry(o0, g, v) && v != current {
            let j = choose|j: int| 0 <= j < o0.len() && (#[trigger] o0[j]).position == v && o0[j].g_score == cost(g, v);
            assert(j != i);
            assert(o[if j < i { j } else { j - 1 }] == o0[j]);
        }
    }
    if t.recorded(goal) {
        let j = choose|j: int| 0 <= j < o0.len() && (#[trigger] o0[j]).position == goal;
        assert(o[if j < i { j } else { j - 1 }] == o0[j]);
    }
    assert forall|k: int| 0 <= k < o.len() implies (#[trigger] o[k]).position != start by {
        assert(o[k] == (if k < i { o0[k] } else { o0[k + 1] }));
        if explored == 0 {
            assert(o0.len() == 1);
        }
    }
}

/// Relaxing one neighbour of the cell being expanded keeps the search state
/// and lowers the potential.
proof fn lemma_astar_relaxed(
    m: &Maze,
    tb: &ParentGrid,
    t: &ParentGrid,
    gb: &CellMap<usize>,
    g: &CellMap<usize>,
    db: Map<Position, int>,
    depth: Map<Position, int>,
    ob: Seq<Node>,
    o: Seq<Node>,
    entry: Node,
    current: Position,
    current_g: usize,
    explored: int,
)
    requires
        m.well_shaped(),
        explored >= 1,
        astar_state(m, tb, gb, db, ob, explored, Some(current)),
        m.in_bounds(current),
        gb.at(current) == Some(current_g),
        m.step(current, entry.position),
        entry.g_score == current_g + 1,
        gb.recorded(entry.position) ==> current_g + 1 < cost(gb, entry.position),
        t.shaped(m.width as int, m.height as int),
        t.at(entry.position) == Some(current),
        forall|q: Position|
            q.0 < m.width && q.1 < m.height && q != entry.position ==> #[trigger] t.at(q) == tb.at(q),
        t.reached_count(m.height as int) == tb.reached_count(m.height as int) + (if tb.recorded(entry.position) {
            0int
        } else {
            1int
        }),
        g.shaped(m.width as int, m.height as int),
        g.at(entry.position) == Some(entry.g_score),
        forall|q: Position|
            q.0 < m.width && q.1 < m.height && q != entry.position ==> #[trigger] g.at(q) == gb.at(q),
        g.view_rows() == grid_update(
            gb.view_rows(),
            entry.position.0 as int,
            entry.position.1 as int,
            Some(entry.g_score),
        ),
        depth == db.insert(entry.position, current_g + 1),
        o == ob.push(entry),
    ensures
        astar_state(m, t, g, depth, o, explored, Some(current)),
        potential(m, g, o) < potential(m, gb, ob),
        g.at(current) == Some(current_g),
{
    reveal(astar_invariant);
    let start = Maze::start();
    let goal = m.exit();
    let neighbor = entry.position;
    let w = m.width as int;
    let h = m.height as int;
    let c = cells(m);
    lemma_step_in_bounds(m, current, neighbor);
    assert(neighbor != current);
    assert(gb.recorded(current));
    assert(tb.recorded(current));
    assert(db[current] == current_g);
    assert(tb.recorded(start));
    assert(cost(gb, start) == 0);
    assert(neighbor != start);
    lemma_tree_relinked(m, tb, t, db, depth, current, neighbor);
    lemma_reached_count_bounds(tb, w, h);
    assert(h * w == c) by (nonlinear_arith)
        requires
            c == w * h,
    ;
    assert forall|p: Position| m.in_bounds(p) implies (#[trigger] g.recorded(p) <==> t.recorded(p)) by {
        if p != neighbor {
            assert(g.at(p) == gb.at(p));
            assert(t.at(p) == tb.at(p));
            assert(gb.recorded(p) <==> tb.recorded(p));
        }
    }
    assert forall|p: Position| m.in_bounds(p) && #[trigger] t.recorded(p) implies depth[p] == cost(g, p) && cost(g, p)
        < t.reached_count(h) by {
        if p != neighbor {
            assert(g.at(p) == gb.at(p));
            assert(t.at(p) == tb.at(p));
            assert(tb.recorded(p));
        }
    }
    assert forall|k: int| 0 <= k < o.len() implies {
        &&& m.in_bounds((#[trigger] o[k]).position)
        &&& t.recorded(o[k].position)
        &&& o[k].g_score >= cost(g, o[k].position)
    } by {
        if k < ob.len() {
            assert(o[k] == ob[k]);
            let q = ob[k].position;
            if q != neighbor {
                assert(g.at(q) == gb.at(q));
            }
        }
    }
    assert forall|v: Position|
        m.in_bounds(v) && #[trigger] t.recorded(v) implies has_fresh_entry(o, g, v) || closed(m, t, g, v) || Some(current)
        == Some(v) by {
        if v == neighbor {
            assert(o[ob.len() as int] == entry);
        } else if v != current {
            assert(t.at(v) == tb.at(v));
            assert(g.at(v) == gb.at(v));
            assert(tb.recorded(v));
            if has_fresh_entry(ob, gb, v) {
                let j = choose|j: int| 0 <= j < ob.len() && (#[trigger] ob[j]).position == v && ob[j].g_score == cost(gb, v);
                assert(o[j] == ob[j]);
            } else {
                assert(closed(m, tb, gb, v));
                assert forall|u: Position| #[trigger] m.step(v, u) implies t.recorded(u) && cost(g, u) <= cost(g, v) + 1 by {
                    lemma_step_in_bounds(m, v, u);
                    assert(tb.recorded(u));
                    if u != neighbor {
                        assert(t.at(u) == tb.at(u));
                        assert(g.at(u) == gb.at(u));
                    }
                }
            }
        }
    }
    if t.recorded(goal) {
        if goal == neighbor {
            assert(o[ob.len() as int] == entry);
        } else {
            assert(t.at(goal) == tb.at(goal));
            let j = choose|j: int| 0 <= j < ob.len() && (#[trigger] ob[j]).position == goal;
            assert(o[j] == ob[j]);
        }
    }
    assert forall|k: int| 0 <= k < o.len() implies (#[trigger] o[k]).position != start by {
        if k < ob.len() {
            assert(o[k] == ob[k]);
        }
    }
    let rows = gb.view_rows();
    assert(rows[neighbor.1 as int] == gb.rows@[neighbor.1 as int]@);
    lemma_grid_total_update(rows, cost_or(c), h, neighbor.0 as int, neighbor.1 as int, Some(entry.g_score));
    if !tb.recorded(neighbor) {
        lemma_reached_count_below(tb, w, h, neighbor);
        assert(!gb.recorded(neighbor));
    }
}

/// Giving `neighbor` the parent `current`, one level below it, keeps the
/// parent grid a tree, whether `neighbor` was unreached or lay deeper.
proof fn lemma_tree_relinked(
    m: &Maze,
    tb: &ParentGrid,
    t: &ParentGrid,
    db: Map<Position, int>,
    depth: Map<Position, int>,
    current: Position,
    neighbor: Position,
)
    requires
        tree_ok(m, tb, db, Maze::start()),
        m.in_bounds(current),
        tb.recorded(current),
        m.step(current, neighbor),
        neighbor != Maze::start(),
        tb.recorded(neighbor) ==> db[current] + 1 < db[neighbor],
        t.shaped(m.width as int, m.height as int),
        t.at(neighbor) == Some(current),
        forall|p: Position| p.0 < m.width && p.1 < m.height && p != neighbor ==> #[trigger] t.at(p) == tb.at(p),
        depth == db.insert(neighbor, db[current] + 1),
    ensures
        tree_ok(m, t, depth, Maze::start()),
        forall|v: Position| m.in_bounds(v) ==> (#[trigger] t.recorded(v) <==> (v == neighbor || tb.recorded(v))),
{
    let start = Maze::start();
    lemma_step_in_bounds(m, current, neighbor);
    assert(neighbor != current);
    assert(t.at(start) == tb.at(start));
    assert(t.at(current) == tb.at(current));
    lemma_tree_reachable(m, tb, db, start, current);
    assert forall|v: Position| m.in_bounds(v) implies (#[trigger] t.recorded(v) <==> (v == neighbor || tb.recorded(v))) by {
        if v != neighbor {
            assert(t.at(v) == tb.at(v));
        }
    }
    assert forall|v: Position| m.in_bounds(v) && #[trigger] t.recorded(v) && v != start implies tree_link(m, t, depth, v) by {
        if v != neighbor {
            assert(t.at(v) == tb.at(v));
            assert(tb.recorded(v));
            assert(tree_link(m, tb, db, v));
            let p = tb.at(v)->0;
            if p != neighbor {
                assert(t.at(p) == tb.at(p));
            }
        }
    }
}

/// When the open set ran empty, the explored cells are exactly the cells
/// that can be reached.
proof fn lemma_astar_explored_all(
    m: &Maze,
    t: &ParentGrid,
    g: &CellMap<usize>,
    depth: Map<Position, int>,
    explored: int,
    done: Seq<Position>,
)
    requires
        m.well_shaped(),
        astar_state(m, t, g, depth, Seq::empty(), explored, None),
        astar_explored(m, t, g, Seq::empty(), done),
    ensures
        forall|p: Position| m.reachable(Maze::start(), p) <==> #[trigger] done.contains(p),
        done.len() > 0 ==> done[0] == Maze::start(),
{
    reveal(astar_explored);
    reveal(astar_invariant);
    let start = Maze::start();
    assert forall|v: Position, u: Position| m.in_bounds(v) && t.recorded(v) && #[trigger] m.step(v, u) implies t.recorded(u) by {
        assert(!has_fresh_entry(Seq::<Node>::empty(), g, v));
        assert(closed(m, t, g, v));
    }
    assert forall|p: Position| m.reachable(start, p) <==> #[trigger] done.contains(p) by {
        if m.reachable(start, p) {
            lemma_closed_tree_holds_reachable(m, t, depth, start, p);
            assert(!has_fresh_entry(Seq::<Node>::empty(), g, p));
        }
        if done.contains(p) {
            let k = choose|k: int| 0 <= k < done.len() && done[k] == p;
            lemma_tree_reachable(m, t, depth, start, done[k]);
        }
    }
}

/// An open set that ran empty without meeting the exit proves that the exit
/// cannot be reached.
proof fn lemma_astar_exhausted(m: &Maze, t: &ParentGrid, g: &CellMap<usize>, depth: Map<Position, int>, explored: int)
    requires
        m.well_shaped(),
        astar_state(m, t, g, depth, Seq::empty(), explored, None),
    ensures
        !m.reachable(Maze::start(), m.exit()),
        explored >= 1,
{
    reveal(astar_invariant);
    let start = Maze::start();
    assert forall|v: Position, u: Position| m.in_bounds(v) && t.recorded(v) && #[trigger] m.step(v, u) implies t.recorded(u) by {
        assert(!has_fresh_entry(Seq::<Node>::empty(), g, v));
        assert(closed(m, t, g, v));
    }
    if m.reachable(start, m.exit()) {
        lemma_closed_tree_holds_reachable(m, t, depth, start, m.exit());
    }
}
} // verus!
