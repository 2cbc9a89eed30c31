use vstd::prelude::*;

use std::collections::VecDeque;

use crate::clock::{elapsed_since, instant_now};
use crate::maze::{lemma_step_in_bounds, Maze};
use crate::solver::explore::{
    exploration_ok, explored_by_distance, explored_cells, finish_found, lemma_explored_exhausted,
    lemma_split_discovered, lemma_split_done, lemma_split_started, lemma_split_take, lemma_trace_follows_push,
    search_split, trace_follows, within,
};
use crate::solver::learned::unreached_in;
use crate::solver::search::{
    shortest_solution,
    direction_of, exact_depths, lemma_closed_tree_holds_reachable, lemma_reached_count_bounds, lemma_tree_extended,
    record_search_step, same_position, solver_output_ok, trace_consistent, tree_link, tree_ok, ParentGrid, Position,
    SearchStep, SolutionStats, SolverOutput,
};
use crate::solver::search_order::{
    breadth_first_order, explored_first_reached, lemma_parents_expanded, lemma_parents_output, lemma_parents_push,
    lemma_parents_started, parents_first, reached_from_first, lemma_bfs_order_taken, lemma_order_expanded, lemma_reached_at_start,
    reached_exactly, stack_in_order,
};

verus! {

/// Discovers the unreached cells one step from `current`: each is given
/// `current` as its parent, the next depth, and a place at the back of the
/// queue.
#[verifier::rlimit(60)]
#[verifier::spinoff_prover]
fn discover_neighbors(
    maze: &Maze,
    current: Position,
    queue: &mut VecDeque<Position>,
    came_from: &mut ParentGrid,
    Ghost(depth): Ghost<Map<Position, int>>,
    Ghost(explored): Ghost<int>,
    Ghost(done): Ghost<Seq<Position>>,
    Ghost(trace): Ghost<Seq<SearchStep>>,
) -> (new_depth: Ghost<Map<Position, int>>)
    requires
        maze.well_shaped(),
        bfs_expanding(maze, old(came_from), depth, old(queue)@, current, explored),
        search_split(maze, old(came_from), old(queue)@, done),
        trace_follows(old(came_from), trace, done),
        done.contains(current),
    ensures
        bfs_state(maze, final(came_from), new_depth@, final(queue)@, explored),
        search_split(maze, final(came_from), final(queue)@, done),
        trace_follows(final(came_from), trace, done),
        forall|v: Position| maze.in_bounds(v) && #[trigger] old(came_from).recorded(v) ==> new_depth@[v] == depth[v],
        forall|i: int| 0 <= i < final(queue)@.len() ==> new_depth@[current] <= new_depth@[#[trigger] final(queue)@[i]],
        final(queue)@ == old(queue)@ + maze.neighbor_seq(current).filter(unreached_in(old(came_from))),
        forall|c: Position| maze.in_bounds(c) && #[trigger] old(came_from).recorded(c) ==> final(came_from).at(c) == old(came_from).at(c),
        forall|c: Position|
            maze.in_bounds(c) && #[trigger] final(came_from).recorded(c) && !old(came_from).recorded(c) ==> final(came_from).at(c)
                == Some(current) && maze.step(current, c),
{
    let ghost w = maze.width as int;
    let ghost h = maze.height as int;
    let ghost depth0 = depth;
    let ghost t0 = *came_from;
    let ghost q_start = queue@;
    let ghost mut depth = depth;
    let neighbors = maze.neighbors(current);
    let mut k: usize = 0;
    while k < neighbors.len()
        invariant
            maze.well_shaped(),
            w == maze.width,
            h == maze.height,
            forall|i: int| 0 <= i < neighbors@.len() ==> maze.step(current, #[trigger] neighbors@[i]),
            forall|u: Position| maze.step(current, u) <==> neighbors@.contains(u),
            0 <= k <= neighbors@.len(),
            forall|i: int| 0 <= i < k ==> came_from.recorded(#[trigger] neighbors@[i]),
            bfs_expanding(maze, came_from, depth, queue@, current, explored),
            search_split(maze, came_from, queue@, done),
            trace_follows(came_from, trace, done),
            done.contains(current),
            forall|v: Position| maze.in_bounds(v) && #[trigger] t0.recorded(v) ==> came_from.recorded(v) && depth[v] == depth0[v],
            neighbors@ == maze.neighbor_seq(current),
            neighbors@.no_duplicates(),
            queue@ == q_start + neighbors@.subrange(0, k as int).filter(unreached_in(&t0)),
            forall|i: int| k <= i < neighbors@.len() ==> came_from.recorded(#[trigger] neighbors@[i]) == t0.recorded(neighbors@[i]),
            forall|c: Position| maze.in_bounds(c) && #[trigger] t0.recorded(c) ==> came_from.at(c) == t0.at(c),
            forall|c: Position|
                maze.in_bounds(c) && #[trigger] came_from.recorded(c) && !t0.recorded(c) ==> came_from.at(c) == Some(current)
                    && maze.step(current, c),
        decreases neighbors@.len() - k,
    {
        let neighbor = neighbors[k];
        proof {
            lemma_step_in_bounds(maze, current, neighbor);
            let next = neighbors@.subrange(0, k + 1);
            assert(next.drop_last() =~= neighbors@.subrange(0, k as int));
            assert(next.last() == neighbor);
            reveal(Seq::filter);
        }
        if came_from.get(neighbor, Ghost(w), Ghost(h)).is_none() {
            let ghost qb = queue@;
            let ghost tb = *came_from;
            let ghost db = depth;
            queue.push_back(neighbor);
            came_from.set(neighbor, current, Ghost(w), Ghost(h));
            proof {
                depth = depth.insert(neighbor, depth[current] + 1);
                lemma_split_discovered(maze, &tb, came_from, qb, done, trace, current, neighbor);
                assert forall|v: Position| maze.in_bounds(v) && #[trigger] t0.recorded(v) implies came_from.recorded(v) && depth[v]
                    == depth0[v] by {
                    assert(tb.recorded(v));
                    assert(v != neighbor);
                }
                assert forall|c: Position| maze.in_bounds(c) && #[trigger] t0.recorded(c) implies came_from.at(c) == t0.at(c) by {
                    assert(tb.at(c) == t0.at(c));
                }
                assert forall|c: Position| maze.in_bounds(c) && #[trigger] came_from.recorded(c) && !t0.recorded(c) implies came_from.at(
                    c,
                ) == Some(current) && maze.step(current, c) by {
                    if c != neighbor {
                        assert(came_from.at(c) == tb.at(c));
                        assert(tb.recorded(c));
                    }
                }
                assert forall|i: int| k + 1 <= i < neighbors@.len() implies came_from.recorded(#[trigger] neighbors@[i])
                    == t0.recorded(neighbors@[i]) by {
                    lemma_step_in_bounds(maze, current, neighbors@[i]);
                    assert(neighbors@[i] != neighbors@[k as int]);
                    assert(came_from.at(neighbors@[i]) == tb.at(neighbors@[i]));
                }
                lemma_bfs_discovered(maze, &tb, came_from, db, depth, qb, queue@, current, neighbor, explored);
                assert forall|i: int| 0 <= i < k + 1 implies came_from.recorded(#[trigger] neighbors@[i]) by {
                    if i < k {
                        lemma_step_in_bounds(maze, current, neighbors@[i]);
                        assert(tb.recorded(neighbors@[i]));
                    }
                }
            }
        }
        k = k + 1;
    }
    proof {
        assert(expanded(maze, came_from, depth, current)) by {
            assert forall|u: Position| #[trigger] maze.step(current, u) implies came_from.recorded(u) && depth[u] <= depth[current] + 1 by {
                assert(neighbors@.contains(u));
                let i = choose|i: int| 0 <= i < neighbors@.len() && neighbors@[i] == u;
                assert(came_from.recorded(neighbors@[i]));
                lemma_step_in_bounds(maze, current, u);
            }
        }
        lemma_bfs_settled(maze, came_from, depth, queue@, current, explored);
        assert(neighbors@.subrange(0, neighbors@.len() as int) =~= neighbors@);
    }
    Ghost(depth)
}

/// The explored cells lie at non-decreasing depths, and no walk reaches one
/// of them in fewer moves than its depth.
pub open spec fn done_levels(m: &Maze, depth: Map<Position, int>, done: Seq<Position>) -> bool {
    &&& forall|k: int, n: int| 0 <= k < done.len() && #[trigger] within(m, done[k], n) ==> n >= depth[done[k]]
    &&& forall|k1: int, k2: int|
        #![trigger done[k1], done[k2]]
        0 <= k1 < k2 < done.len() ==> depth[done[k1]] <= depth[done[k2]]
}

/// No explored cell lies deeper than a waiting one.
pub open spec fn done_before_queue(depth: Map<Position, int>, done: Seq<Position>, q: Seq<Position>) -> bool {
    forall|k: int, i: int| #![trigger done[k], q[i]] 0 <= k < done.len() && 0 <= i < q.len() ==> depth[done[k]] <= depth[q[i]]
}

/// A reached cell can be reached in as many moves as its depth.
proof fn lemma_within_depth(m: &Maze, t: &ParentGrid, depth: Map<Position, int>, v: Position)
    requires
        tree_ok(m, t, depth, Maze::start()),
        exact_depths(m, t, depth, Maze::start()),
        m.in_bounds(v),
        t.recorded(v),
    ensures
        within(m, v, depth[v]),
    decreases depth[v],
{
    if v == Maze::start() {
        let s = seq![v];
        assert(m.is_walk_between(s, Maze::start(), v));
    } else {
        assert(tree_link(m, t, depth, v));
        let p = t.at(v)->0;
        lemma_within_depth(m, t, depth, p);
        let s = choose|s: Seq<Position>| #[trigger] m.is_walk_between(s, Maze::start(), p) && s.len() <= depth[p] + 1;
        let s2 = s.push(v);
        assert forall|i: int| 0 <= i < s2.len() - 1 implies #[trigger] m.linked(s2, i) by {
            if i < s.len() - 1 {
                assert(m.linked(s, i));
            }
        }
        assert(m.is_walk_between(s2, Maze::start(), v));
    }
}

/// The cell at the front of the queue cannot be reached in fewer moves
/// than its depth.
proof fn lemma_bfs_front_distance(m: &Maze, t: &ParentGrid, depth: Map<Position, int>, q0: Seq<Position>, explored: int)
    requires
        bfs_state(m, t, depth, q0, explored),
        q0.len() > 0,
    ensures
        forall|n: int| #[trigger] within(m, q0[0], n) ==> n >= depth[q0[0]],
{
    let g = depth[q0[0]];
    assert forall|v: Position| m.in_bounds(v) && #[trigger] t.recorded(v) && depth[v] < g implies expanded(m, t, depth, v) by {
        if q0.contains(v) {
            let i = choose|i: int| 0 <= i < q0.len() && q0[i] == v;
            assert(depth[q0[0]] <= depth[q0[i]]);
        }
    }
    assert forall|n: int| #[trigger] within(m, q0[0], n) implies n >= g by {
        let s = choose|s: Seq<Position>| #[trigger] m.is_walk_between(s, Maze::start(), q0[0]) && s.len() <= n + 1;
        if s.len() - 1 < g {
            lemma_bfs_walk_depth(m, t, depth, s, g, s.len() - 1);
        }
    }
}

/// Taking the front of the queue keeps the explored cells in order of depth.
proof fn lemma_levels_taken(m: &Maze, t: &ParentGrid, depth: Map<Position, int>, q0: Seq<Position>, done: Seq<Position>, explored: int)
    requires
        bfs_state(m, t, depth, q0, explored),
        q0.len() > 0,
        done_levels(m, depth, done),
        done_before_queue(depth, done, q0),
    ensures
        done_levels(m, depth, done.push(q0[0])),
        done_before_queue(depth, done.push(q0[0]), q0.subrange(1, q0.len() as int)),
{
    let done2 = done.push(q0[0]);
    let q = q0.subrange(1, q0.len() as int);
    lemma_bfs_front_distance(m, t, depth, q0, explored);
    assert forall|k: int, n: int| 0 <= k < done2.len() && #[trigger] within(m, done2[k], n) implies n >= depth[done2[k]] by {
        if k < done.len() {
            assert(done2[k] == done[k]);
        }
    }
    assert forall|k1: int, k2: int| #![trigger done2[k1], done2[k2]] 0 <= k1 < k2 < done2.len() implies depth[done2[k1]] <= depth[done2[k2]] by {
        assert(done2[k1] == done[k1]);
        if k2 < done.len() {
            assert(done2[k2] == done[k2]);
        } else {
            assert(depth[done[k1]] <= depth[q0[0]]);
        }
    }
    assert forall|k: int, i: int| #![trigger done2[k], q[i]] 0 <= k < done2.len() && 0 <= i < q.len() implies depth[done2[k]] <= depth[q[i]] by {
        assert(q[i] == q0[i + 1]);
        if k < done.len() {
            assert(done2[k] == done[k]);
            assert(depth[done[k]] <= depth[q0[i + 1]]);
        } else {
            assert(depth[q0[0]] <= depth[q0[i + 1]]);
        }
    }
}

/// Expanding the cell explored last keeps the explored cells in order of
/// depth and before the waiting ones.
proof fn lemma_levels_expanded(
    m: &Maze,
    d0: Map<Position, int>,
    d1: Map<Position, int>,
    done: Seq<Position>,
    q: Seq<Position>,
)
    requires
        done.len() > 0,
        done_levels(m, d0, done),
        forall|k: int| 0 <= k < done.len() ==> d1[#[trigger] done[k]] == d0[done[k]],
        forall|i: int| 0 <= i < q.len() ==> d1[done.last()] <= d1[#[trigger] q[i]],
    ensures
        done_levels(m, d1, done),
        done_before_queue(d1, done, q),
{
    let last = done.len() - 1;
    assert forall|k: int, n: int| 0 <= k < done.len() && #[trigger] within(m, done[k], n) implies n >= d1[done[k]] by {
        assert(d1[done[k]] == d0[done[k]]);
    }
    assert forall|k1: int, k2: int| #![trigger done[k1], done[k2]] 0 <= k1 < k2 < done.len() implies d1[done[k1]] <= d1[done[k2]] by {
        assert(d1[done[k1]] == d0[done[k1]]);
        assert(d1[done[k2]] == d0[done[k2]]);
    }
    assert forall|k: int, i: int| #![trigger done[k], q[i]] 0 <= k < done.len() && 0 <= i < q.len() implies d1[done[k]] <= d1[q[i]] by {
        assert(d1[done[k]] == d0[done[k]]);
        assert(d1[done[last]] == d0[done[last]]);
        if k < last {
            assert(d0[done[k]] <= d0[done[last]]);
        }
    }
}

/// The explored cells, kept in order of depth, are explored in order of
/// distance from the upper-left corner.
proof fn lemma_by_distance(m: &Maze, t: &ParentGrid, depth: Map<Position, int>, done: Seq<Position>)
    requires
        tree_ok(m, t, depth, Maze::start()),
        exact_depths(m, t, depth, Maze::start()),
        forall|k: int| 0 <= k < done.len() ==> m.in_bounds(#[trigger] done[k]) && t.recorded(done[k]),
        done_levels(m, depth, done),
    ensures
        forall|i: int, j: int, n: int|
            0 <= i < j < done.len() && #[trigger] within(m, done[j], n) ==> #[trigger] within(m, done[i], n),
{
    assert forall|i: int, j: int, n: int| 0 <= i < j < done.len() && #[trigger] within(m, done[j], n) implies #[trigger] within(
        m,
        done[i],
        n,
    ) by {
        assert(n >= depth[done[j]]);
        assert(depth[done[i]] <= depth[done[j]]);
        lemma_within_depth(m, t, depth, done[i]);
        let s = choose|s: Seq<Position>| #[trigger] m.is_walk_between(s, Maze::start(), done[i]) && s.len() <= depth[done[i]] + 1;
        assert(m.is_walk_between(s, Maze::start(), done[i]) && s.len() <= n + 1);
    }
}


/// Every cell one step from `v` has been reached, at most one level deeper.
pub open spec fn expanded(m: &Maze, t: &ParentGrid, depth: Map<Position, int>, v: Position) -> bool {
    forall|u: Position| #[trigger] m.step(v, u) ==> t.recorded(u) && depth[u] <= depth[v] + 1
}

/// The recorded moves so far, one per explored cell after the first.
pub open spec fn trace_so_far(m: &Maze, trace: Seq<SearchStep>, explored: int) -> bool {
    &&& trace.len() == (if explored == 0 { 0 } else { explored - 1 })
    &&& trace_consistent(m, trace, Seq::empty())
}

/// The queue of a breadth-first search: reached cells in order of
/// non-decreasing depth, spanning at most two consecutive depths.
pub open spec fn layered(depth: Map<Position, int>, q: Seq<Position>) -> bool {
    &&& forall|i: int, j: int| 0 <= i <= j < q.len() ==> depth[#[trigger] q[i]] <= depth[#[trigger] q[j]]
    &&& q.len() > 0 ==> depth[q.last()] <= depth[q[0]] + 1
}

/// The state while the neighbours of `current`, just taken from the front of
/// the queue, are being discovered.
pub open spec fn bfs_expanding(
    m: &Maze,
    t: &ParentGrid,
    depth: Map<Position, int>,
    q: Seq<Position>,
    current: Position,
    explored: int,
) -> bool {
    let start = Maze::start();
    let goal = m.exit();
    &&& tree_ok(m, t, depth, start)
    &&& exact_depths(m, t, depth, start)
    &&& m.in_bounds(current)
    &&& t.recorded(current)
    &&& current != goal
    &&& forall|u: Position| m.in_bounds(u) && #[trigger] t.recorded(u) ==> depth[u] <= depth[current] + 1
    &&& forall|i: int| 0 <= i < q.len() ==> m.in_bounds(#[trigger] q[i]) && t.recorded(q[i])
    &&& forall|v: Position|
        m.in_bounds(v) && #[trigger] t.recorded(v) ==> q.contains(v) || expanded(m, t, depth, v) || v == current
    &&& t.reached_count(m.height as int) == explored + q.len()
    &&& forall|i: int, j: int| 0 <= i <= j < q.len() ==> depth[#[trigger] q[i]] <= depth[#[trigger] q[j]]
    &&& forall|i: int| 0 <= i < q.len() ==> depth[current] <= depth[#[trigger] q[i]] <= depth[current] + 1
    &&& forall|v: Position| m.in_bounds(v) && #[trigger] t.recorded(v) && !q.contains(v) ==> depth[v] <= depth[current]
    &&& (m.in_bounds(goal) && t.recorded(goal)) ==> q.contains(goal)
    &&& !q.contains(start)
    &&& explored > 0
}

pub open spec fn bfs_state(
    m: &Maze,
    t: &ParentGrid,
    depth: Map<Position, int>,
    q: Seq<Position>,
    explored: int,
) -> bool {
    let start = Maze::start();
    let goal = m.exit();
    &&& tree_ok(m, t, depth, start)
    &&& exact_depths(m, t, depth, start)
    &&& forall|i: int| 0 <= i < q.len() ==> m.in_bounds(#[trigger] q[i]) && t.recorded(q[i])
    &&& forall|v: Position| m.in_bounds(v) && #[trigger] t.recorded(v) ==> q.contains(v) || expanded(m, t, depth, v)
    &&& t.reached_count(m.height as int) == explored + q.len()
    &&& layered(depth, q)
    &&& q.len() > 0 ==> forall|v: Position|
        m.in_bounds(v) && #[trigger] t.recorded(v) && !q.contains(v) ==> depth[v] <= depth[q[0]]
    &&& (m.in_bounds(goal) && t.recorded(goal)) ==> q.contains(goal)
    &&& explored == 0 ==> q == seq![start]
    &&& explored > 0 ==> !q.contains(start)
}

/// Solves the maze by breadth-first search from the upper-left corner to the
/// lower-right corner, reaching the neighbours of each cell in the order
/// north, east, south, west (the first one reached is explored first). The
/// path found is a shortest one.
pub fn solve(maze: &Maze) -> (output: SolverOutput)
    requires
        maze.well_shaped(),
        maze.cells_fit(),
    ensures
        solver_output_ok(maze, output, "BFS"@),
        exploration_ok(maze, output),
        explored_by_distance(maze, output),
        breadth_first_order(maze, explored_cells(output.trace@)),
        reached_from_first(maze, output.trace@),
        output.stats.nodes_explored <= maze.width * maze.height,
        shortest_solution(maze, output),
{
    let start_time = instant_now();
    let start: Position = (0, 0);
    let goal: Position = (maze.width - 1, maze.height - 1);
    let ghost w = maze.width as int;
    let ghost h = maze.height as int;
    let mut nodes_explored: usize = 0;
    let mut trace: Vec<SearchStep> = Vec::new();
    let mut queue: VecDeque<Position> = VecDeque::new();
    let mut came_from = ParentGrid::new(maze.width, maze.height);
    let ghost mut depth: Map<Position, int> = Map::empty().insert(start, 0);
    let ghost fresh = came_from;
    queue.push_back(start);
    came_from.set(start, start, Ghost(w), Ghost(h));
    proof {
        assert(queue@ =~= seq![start]);
        assert forall|v: Position| maze.in_bounds(v) && #[trigger] came_from.recorded(v) implies v == start by {
            assert(!fresh.recorded(v));
        }
        assert(w * h <= usize::MAX) by (nonlinear_arith)
            requires
                2 * w * h <= usize::MAX,
                w >= 1,
                h >= 1,
        ;
        assert(h * w == w * h) by (nonlinear_arith);
        lemma_reached_count_bounds(&came_from, w, h);
        assert(queue@.contains(start)) by {
            assert(queue@[0] == start);
        }
        lemma_split_started(maze, &came_from);
        lemma_reached_at_start(maze, &came_from);
        lemma_parents_started(maze, &came_from);
    }
    let ghost mut done: Seq<Position> = Seq::empty();
    while queue.len() > 0
        invariant
            maze.well_shaped(),
            maze.cells_fit(),
            w == maze.width,
            h == maze.height,
            h * w <= usize::MAX,
            h * w == w * h,
            start == Maze::start(),
            goal == maze.exit(),
            bfs_state(maze, &came_from, depth, queue@, nodes_explored as int),
            trace_so_far(maze, trace@, nodes_explored as int),
            search_split(maze, &came_from, queue@, done),
            trace_follows(&came_from, trace@, done),
            done.len() == nodes_explored,
            done_levels(maze, depth, done),
            done_before_queue(depth, done, queue@),
            reached_exactly(maze, &came_from, done),
            stack_in_order(maze, queue@, done),
            forall|j: int| 1 <= j < done.len() ==> #[trigger] explored_first_reached(maze, done, j),
            parents_first(maze, &came_from, done),
        decreases h * w - nodes_explored,
    {
        proof {
            lemma_reached_count_bounds(&came_from, w, h);
        }
        let ghost q0 = queue@;
        let current = queue.pop_front().unwrap();
        let ghost before = nodes_explored;
        nodes_explored = nodes_explored + 1;
        let ghost done_before = done;
        proof {
            assert(q0[0] == current);
            assert(queue@ == q0.subrange(1, q0.len() as int));
            lemma_bfs_order_taken(maze, &came_from, q0, done);
            lemma_split_take(maze, &came_from, q0, done, 0);
            lemma_levels_taken(maze, &came_from, depth, q0, done, before as int);
            assert(queue@ =~= q0.remove(0));
            done = done.push(current);
            assert(tree_ok(maze, &came_from, depth, start));
            if current != start {
                assert(came_from.recorded(current));
                assert(tree_link(maze, &came_from, depth, current));
            }
        }
        let ghost trace_before = trace@;
        record_search_step(current, start, nodes_explored, &came_from, &mut trace, Ghost(w), Ghost(h));
        proof {
            if before == 0 {
                assert(q0 == seq![start]);
                assert(current == start);
            } else {
                assert(q0.contains(current));
                assert(current != start);
                let parent = came_from.at(current)->0;
                let s = SearchStep {
                    from: parent,
                    to: current,
                    direction: direction_of(parent, current)->0,
                    visit_order: nodes_explored,
                    on_solution_path: false,
                };
                assert(trace@ == trace_before.push(s));
                assert(trace@.drop_last() =~= trace_before);
            }
            lemma_trace_follows_push(&came_from, trace_before, done_before, current, trace@);
            lemma_trace_extended(maze, trace_before, trace@, nodes_explored as int);
        }
        if same_position(current, goal) {
            let out = finish_found(
                maze,
                &came_from,
                trace,
                nodes_explored,
                start_time,
                "BFS",
                Ghost(depth),
                Ghost(queue@),
                Ghost(done),
            );
            proof {
                lemma_bfs_found(maze, &came_from, depth, q0, out.path->0@, before as int);
                lemma_split_done(maze, &came_from, queue@, done);
                lemma_by_distance(maze, &came_from, depth, done);
                assert(breadth_first_order(maze, done));
                lemma_parents_push(maze, &came_from, done_before, current);
                lemma_parents_output(maze, &came_from, queue@, done, out.trace@);
                lemma_reached_count_bounds(&came_from, w, h);
            }
            return out;
        }
        proof {
            lemma_bfs_popped(maze, &came_from, depth, q0, current, before as int);
        }
        let ghost depth_before = depth;
        proof {
            assert(done[done.len() - 1] == current);
            lemma_split_done(maze, &came_from, queue@, done);
        }
        let ghost t_before = came_from;
        let ghost q_mid = queue@;
        let new_depth = discover_neighbors(
            maze,
            current,
            &mut queue,
            &mut came_from,
            Ghost(depth),
            Ghost(nodes_explored as int),
            Ghost(done),
            Ghost(trace@),
        );
        proof {
            depth = new_depth@;
            lemma_reached_count_bounds(&came_from, w, h);
            assert forall|k: int| 0 <= k < done.len() implies depth[#[trigger] done[k]] == depth_before[done[k]] by {
                assert(t_before.recorded(done[k]));
            }
            lemma_levels_expanded(maze, depth_before, depth, done, queue@);
            lemma_order_expanded(maze, &t_before, &came_from, q_mid, queue@, done_before, current);
            lemma_parents_expanded(maze, &t_before, &came_from, done_before, current);
        }
    }
    proof {
        lemma_bfs_exhausted(maze, &came_from, depth, nodes_explored as int);
        lemma_reached_count_bounds(&came_from, w, h);
        assert forall|v: Position, u: Position| maze.in_bounds(v) && came_from.recorded(v) && #[trigger] maze.step(v, u) implies came_from.recorded(u) by {
            assert(!Seq::<Position>::empty().contains(v));
            assert(expanded(maze, &came_from, depth, v));
        }
        assert(queue@ =~= Seq::<Position>::empty());
        lemma_explored_exhausted(maze, &came_from, depth, done, trace@);
        lemma_split_done(maze, &came_from, queue@, done);
        lemma_by_distance(maze, &came_from, depth, done);
        lemma_parents_output(maze, &came_from, queue@, done, trace@);
    }
    SolverOutput {
        path: None,
        trace,
        stats: SolutionStats {
            algorithm: "BFS",
            solved: false,
            path_length: 0,
            nodes_explored,
            duration: elapsed_since(&start_time),
        },
    }
}

proof fn lemma_trace_extended(m: &Maze, before: Seq<SearchStep>, after: Seq<SearchStep>, explored: int)
    requires
        explored >= 1,
        trace_so_far(m, before, explored - 1),
        explored == 1 ==> after == before,
        explored > 1 ==> exists|s: SearchStep|
            after == before.push(s) && m.step(s.from, s.to) && direction_of(s.from, s.to) == Some(s.direction)
                && s.visit_order == explored && !s.on_solution_path,
    ensures
        trace_so_far(m, after, explored),
{
    if explored > 1 {
        let s = choose|s: SearchStep|
            after == before.push(s) && m.step(s.from, s.to) && direction_of(s.from, s.to) == Some(s.direction)
                && s.visit_order == explored && !s.on_solution_path;
        assert forall|i: int| 0 <= i < after.len() implies {
            &&& m.step((#[trigger] after[i]).from, after[i].to)
            &&& direction_of(after[i].from, after[i].to) == Some(after[i].direction)
            &&& after[i].visit_order == i + 2
            &&& after[i].on_solution_path == crate::solver::search::path_has_edge(Seq::empty(), after[i].from, after[i].to)
        } by {
            if i < before.len() {
                assert(after[i] == before[i]);
            }
        }
    }
}

#[verifier::rlimit(30)]
#[verifier::spinoff_prover]
proof fn lemma_bfs_popped(
    m: &Maze,
    t: &ParentGrid,
    depth: Map<Position, int>,
    q0: Seq<Position>,
    current: Position,
    explored: int,
)
    requires
        m.well_shaped(),
        explored >= 0,
        bfs_state(m, t, depth, q0, explored),
        q0.len() > 0,
        q0[0] == current,
        current != m.exit(),
    ensures
        bfs_expanding(m, t, depth, q0.subrange(1, q0.len() as int), current, explored + 1),
{
    let q = q0.subrange(1, q0.len() as int);
    let start = Maze::start();
    let goal = m.exit();
    assert forall|v: Position| m.in_bounds(v) && #[trigger] t.recorded(v) && !q.contains(v) implies depth[v] <= depth[current] by {
        if q0.contains(v) {
            let i = choose|i: int| 0 <= i < q0.len() && q0[i] == v;
            if i > 0 {
                assert(q[i - 1] == v);
            }
        }
    }
    assert forall|u: Position| m.in_bounds(u) && #[trigger] t.recorded(u) implies depth[u] <= depth[current] + 1 by {
        if q0.contains(u) {
            let i = choose|i: int| 0 <= i < q0.len() && q0[i] == u;
            assert(depth[q0[i]] <= depth[q0[q0.len() - 1]]);
        }
    }
    assert forall|v: Position|
        m.in_bounds(v) && #[trigger] t.recorded(v) implies q.contains(v) || expanded(m, t, depth, v) || v == current by {
        if q0.contains(v) && v != current {
            let i = choose|i: int| 0 <= i < q0.len() && q0[i] == v;
            assert(i != 0);
            assert(q[i - 1] == v);
        }
    }
    assert forall|i: int| 0 <= i < q.len() implies depth[current] <= depth[#[trigger] q[i]] <= depth[current] + 1 by {
        assert(q[i] == q0[i + 1]);
        assert(depth[q0[0]] <= depth[q0[i + 1]]);
        assert(depth[q0[i + 1]] <= depth[q0[q0.len() - 1]]);
    }
    assert forall|i: int, j: int| 0 <= i <= j < q.len() implies depth[#[trigger] q[i]] <= depth[#[trigger] q[j]] by {
        assert(q[i] == q0[i + 1]);
        assert(q[j] == q0[j + 1]);
    }
    assert forall|i: int| 0 <= i < q.len() implies m.in_bounds(#[trigger] q[i]) && t.recorded(q[i]) by {
        assert(q[i] == q0[i + 1]);
    }
    if m.in_bounds(goal) && t.recorded(goal) {
        let i = choose|i: int| 0 <= i < q0.len() && q0[i] == goal;
        assert(i != 0);
        assert(q[i - 1] == goal);
    }
    if explored == 0 {
        assert(q0 == seq![start]);
        assert(q.len() == 0);
    } else {
        assert(!q0.contains(start));
        if q.contains(start) {
            let i = choose|i: int| 0 <= i < q.len() && q[i] == start;
            assert(q0[i + 1] == start);
        }
    }
    assert(q0.len() == q.len() + 1);
}

proof fn lemma_bfs_discovered(
    m: &Maze,
    tb: &ParentGrid,
    t: &ParentGrid,
    db: Map<Position, int>,
    depth: Map<Position, int>,
    qb: Seq<Position>,
    q: Seq<Position>,
    current: Position,
    neighbor: Position,
    explored: int,
)
    requires
        m.well_shaped(),
        bfs_expanding(m, tb, db, qb, current, explored),
        m.step(current, neighbor),
        m.in_bounds(neighbor),
        !tb.recorded(neighbor),
        t.shaped(m.width as int, m.height as int),
        t.at(neighbor) == Some(current),
        forall|p: Position| p.0 < m.width && p.1 < m.height && p != neighbor ==> #[trigger] t.at(p) == tb.at(p),
        t.reached_count(m.height as int) == tb.reached_count(m.height as int) + 1,
        q == qb.push(neighbor),
        depth == db.insert(neighbor, db[current] + 1),
    ensures
        bfs_expanding(m, t, depth, q, current, explored),
        t.recorded(neighbor),
{
    let start = Maze::start();
    let goal = m.exit();
    assert(neighbor != current);
    assert(neighbor != start);
    assert(q[q.len() - 1] == neighbor);
    lemma_tree_extended(m, tb, t, db, depth, start, current, neighbor);
    assert forall|i: int| 0 <= i < q.len() implies m.in_bounds(#[trigger] q[i]) && t.recorded(q[i]) by {
        if i < qb.len() {
            assert(q[i] == qb[i]);
            assert(qb[i] != neighbor);
            assert(t.at(qb[i]) == tb.at(qb[i]));
        }
    }
    assert forall|v: Position|
        m.in_bounds(v) && #[trigger] t.recorded(v) implies q.contains(v) || expanded(m, t, depth, v) || v == current by {
        if v == neighbor {
            assert(q[q.len() - 1] == v);
        } else if qb.contains(v) {
            let i = choose|i: int| 0 <= i < qb.len() && qb[i] == v;
            assert(q[i] == v);
        } else if v != current {
            assert(expanded(m, tb, db, v));
            assert forall|u: Position| #[trigger] m.step(v, u) implies t.recorded(u) && depth[u] <= depth[v] + 1 by {
                lemma_step_in_bounds(m, v, u);
                assert(tb.recorded(u));
                assert(u != neighbor);
                assert(t.at(u) == tb.at(u));
            }
        }
    }
    assert forall|i: int, j: int| 0 <= i <= j < q.len() implies depth[#[trigger] q[i]] <= depth[#[trigger] q[j]] by {
        if j < qb.len() {
            assert(q[i] == qb[i]);
            assert(q[j] == qb[j]);
            assert(qb[i] != neighbor);
            assert(qb[j] != neighbor);
        } else if i < qb.len() {
            assert(q[i] == qb[i]);
            assert(qb[i] != neighbor);
            assert(db[qb[i]] <= db[current] + 1);
        }
    }
    assert forall|i: int| 0 <= i < q.len() implies depth[current] <= depth[#[trigger] q[i]] <= depth[current] + 1 by {
        if i < qb.len() {
            assert(q[i] == qb[i]);
            assert(qb[i] != neighbor);
        }
    }
    assert forall|v: Position| m.in_bounds(v) && #[trigger] t.recorded(v) && !q.contains(v) implies depth[v] <= depth[current] by {
        if v != neighbor {
            if qb.contains(v) {
                let i = choose|i: int| 0 <= i < qb.len() && qb[i] == v;
                assert(q[i] == v);
            }
        } else {
            assert(q[q.len() - 1] == v);
        }
    }
    assert forall|u: Position| m.in_bounds(u) && #[trigger] t.recorded(u) implies depth[u] <= depth[current] + 1 by {}
    if m.in_bounds(goal) && t.recorded(goal) {
        if goal == neighbor {
            assert(q[q.len() - 1] == goal);
        } else {
            assert(tb.recorded(goal));
            let i = choose|i: int| 0 <= i < qb.len() && qb[i] == goal;
            assert(q[i] == goal);
        }
    }
    if q.contains(start) {
        let i = choose|i: int| 0 <= i < q.len() && q[i] == start;
        if i < qb.len() {
            assert(qb[i] == start);
        }
    }
}

proof fn lemma_bfs_settled(
    m: &Maze,
    t: &ParentGrid,
    depth: Map<Position, int>,
    q: Seq<Position>,
    current: Position,
    explored: int,
)
    requires
        bfs_expanding(m, t, depth, q, current, explored),
        expanded(m, t, depth, current),
    ensures
        bfs_state(m, t, depth, q, explored),
{
    if q.len() > 0 {
        assert(depth[current] <= depth[q[0]]);
        assert(depth[q[q.len() - 1]] <= depth[current] + 1);
    }
}

/// Every cell within `i` steps of the root along a walk is reached at depth
/// at most `i`, as long as `i` does not pass `g` and every reached cell less
/// deep than `g` has been expanded.
#[verifier::spinoff_prover]
proof fn lemma_bfs_walk_depth(m: &Maze, t: &ParentGrid, depth: Map<Position, int>, s: Seq<Position>, g: int, i: int)
    requires
        tree_ok(m, t, depth, Maze::start()),
        m.is_walk(s),
        s[0] == Maze::start(),
        0 <= i < s.len(),
        i <= g,
        forall|v: Position| m.in_bounds(v) && #[trigger] t.recorded(v) && depth[v] < g ==> expanded(m, t, depth, v),
    ensures
        t.recorded(s[i]),
        depth[s[i]] <= i,
    decreases i,
{
    if i > 0 {
        lemma_bfs_walk_depth(m, t, depth, s, g, i - 1);
        assert(m.linked(s, i - 1));
        lemma_step_in_bounds(m, s[i - 1], s[i]);
        assert(expanded(m, t, depth, s[i - 1]));
    }
}

proof fn lemma_bfs_found(
    m: &Maze,
    t: &ParentGrid,
    depth: Map<Position, int>,
    q0: Seq<Position>,
    path: Seq<Position>,
    explored: int,
)
    requires
        m.well_shaped(),
        bfs_state(m, t, depth, q0, explored),
        q0.len() > 0,
        q0[0] == m.exit(),
        path.len() == depth[m.exit()] + 1,
    ensures
        forall|s: Seq<Position>| m.is_walk_between(s, Maze::start(), m.exit()) ==> path.len() <= s.len(),
{
    let goal = m.exit();
    let g = depth[goal];
    assert forall|v: Position| m.in_bounds(v) && #[trigger] t.recorded(v) && depth[v] < g implies expanded(m, t, depth, v) by {
        if q0.contains(v) {
            let i = choose|i: int| 0 <= i < q0.len() && q0[i] == v;
            assert(depth[q0[0]] <= depth[q0[i]]);
        }
    }
    assert forall|s: Seq<Position>| m.is_walk_between(s, Maze::start(), goal) implies path.len() <= s.len() by {
        if s.len() < path.len() {
            lemma_bfs_walk_depth(m, t, depth, s, g, s.len() - 1);
        }
    }
}

proof fn lemma_bfs_exhausted(m: &Maze, t: &ParentGrid, depth: Map<Position, int>, explored: int)
    requires
        m.well_shaped(),
        explored >= 0,
        bfs_state(m, t, depth, Seq::empty(), explored),
    ensures
        !m.reachable(Maze::start(), m.exit()),
        explored >= 1,
{
    let start = Maze::start();
    assert forall|v: Position, u: Position| m.in_bounds(v) && t.recorded(v) && #[trigger] m.step(v, u) implies t.recorded(u) by {
        assert(!Seq::<Position>::empty().contains(v));
        assert(expanded(m, t, depth, v));
    }
    if m.reachable(start, m.exit()) {
        lemma_closed_tree_holds_reachable(m, t, depth, start, m.exit());
        assert(Seq::<Position>::empty().contains(m.exit()));
    }
    if explored == 0 {
        assert(Seq::<Position>::empty() != seq![start]) by {
            assert(seq![start].len() == 1);
        }
    }
}

} // verus!
