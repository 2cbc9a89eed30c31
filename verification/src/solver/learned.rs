use vstd::prelude::*;

use std::time::Instant;

use crate::clock::{elapsed_since, instant_now};
use crate::maze::{lemma_neighbor_seq, lemma_step_in_bounds, Maze};
use crate::solver::dfs::{
    all_reached, dfs_state, lemma_dfs_discovered, lemma_dfs_exhausted, lemma_dfs_popped, lemma_search_started,
    lemma_step_recorded, trace_so_far,
};
use crate::solver::explore::{
    exploration_ok, finish_found, lemma_explored_exhausted, lemma_split_discovered, lemma_split_started,
    lemma_split_done, lemma_split_parents, lemma_split_take, lemma_trace_follows_push, search_split, trace_follows,
};
use crate::solver::distance::lemma_distinct_cells_bound;
use crate::solver::search::{
    lemma_reached_count_bounds, record_search_step, same_position, solver_output_ok, tree_link, Direction, ParentGrid,
    Position, SearchStep, SolutionStats, SolverOutput,
};

verus! {

/// The number of a direction among the four outputs of the model:
/// north 0, east 1, south 2, west 3.
pub open spec fn direction_number(direction: Direction) -> int {
    match direction {
        Direction::North => 0,
        Direction::East => 1,
        Direction::South => 2,
        Direction::West => 3,
    }
}

/// The index of the model output that scores a move in `direction`.
pub fn direction_index(direction: Direction) -> (index: usize)
    ensures
        index == direction_number(direction),
{
    match direction {
        Direction::North => 0,
        Direction::East => 1,
        Direction::South => 2,
        Direction::West => 3,
    }
}

/// Holds of the positions that the parent grid has not reached.
pub open spec fn unreached_in(t: &ParentGrid) -> spec_fn(Position) -> bool {
    |u: Position| !t.recorded(u)
}

/// The unreached cells one move from `p`, in the order north, east, south, west.
pub open spec fn unreached_neighbors(m: &Maze, t: &ParentGrid, p: Position) -> Seq<Position> {
    m.neighbor_seq(p).filter(unreached_in(t))
}

/// `j` occurs in `order`.
pub open spec fn lists_index(order: Seq<usize>, j: int) -> bool {
    exists|i: int| 0 <= i < order.len() && order[i] == j
}

/// `order` lists every index below `n` exactly once.
pub open spec fn is_arrangement(order: Seq<usize>, n: int) -> bool {
    &&& order.len() == n
    &&& forall|i: int| 0 <= i < n ==> #[trigger] order[i] < n
    &&& forall|i: int, j: int| 0 <= i < j < n ==> order[i] != order[j]
    &&& forall|j: int| 0 <= j < n ==> #[trigger] lists_index(order, j)
}

/// The candidates in the order that `order` gives by index, or as they are
/// when `order` does not list each index exactly once.
pub open spec fn arranged(candidates: Seq<Position>, order: Seq<usize>) -> Seq<Position> {
    if is_arrangement(order, candidates.len() as int) {
        Seq::new(candidates.len(), |i: int| candidates[order[i] as int])
    } else {
        candidates
    }
}

/// A depth-first search whose order of exploration is decided outside: at
/// each explored cell the unreached neighbours are handed out as candidates,
/// and the caller says in which order they go onto the stack (the last one
/// pushed is explored next).
pub struct LearnedSearch {
    stack: Vec<Position>,
    came_from: ParentGrid,
    trace: Vec<SearchStep>,
    nodes_explored: usize,
    start_time: Instant,
    depth: Ghost<Map<Position, int>>,
    current: Position,
    candidates: Vec<Position>,
    explored: Ghost<Seq<Position>>,
}

/// What happens next in a learned search: a cell waits for its candidates to
/// be ordered, or the search is over.
pub enum LearnedStep {
    Expand(LearnedSearch),
    Done(SolverOutput),
}

/// The output of a search that was given no cell to explore.
pub open spec fn empty_output(out: SolverOutput) -> bool {
    &&& out.stats.algorithm@ == "Theseus"@
    &&& !out.stats.solved
    &&& out.path is None
    &&& out.stats.path_length == 0
    &&& out.stats.nodes_explored == 0
    &&& out.trace@.len() == 0
}

/// `step` is what follows when the cells on the stack are `stack`, the last
/// one on top: the search ends without a path when the stack is empty, ends
/// with one when the top is the exit, and otherwise expands the top.
pub open spec fn step_ok(m: &Maze, step: LearnedStep, stack: Seq<Position>) -> bool {
    match step {
        LearnedStep::Done(out) => {
            &&& solver_output_ok(m, out, "Theseus"@)
            &&& exploration_ok(m, out)
            &&& stack.len() == 0 ==> out.path is None
            &&& stack.len() > 0 ==> stack.last() == m.exit() && out.path is Some
        },
        LearnedStep::Expand(s) => {
            &&& s.wf(m)
            &&& stack.len() > 0
            &&& s.current_cell() == stack.last()
            &&& s.pending() == stack.drop_last()
        },
    }
}

impl LearnedSearch {
    /// The search is consistent with `m` and waits at a cell other than the exit.
    pub closed spec fn wf(&self, m: &Maze) -> bool {
        &&& m.well_shaped()
        &&& m.cells_fit()
        &&& dfs_state(m, &self.came_from, self.depth@, self.stack@, self.nodes_explored as int, Some(self.current))
        &&& trace_so_far(m, self.trace@, self.nodes_explored as int)
        &&& self.nodes_explored >= 1
        &&& m.in_bounds(self.current)
        &&& self.came_from.recorded(self.current)
        &&& self.current != m.exit()
        &&& self.candidates@ == unreached_neighbors(m, &self.came_from, self.current)
        &&& search_split(m, &self.came_from, self.stack@, self.explored@)
        &&& trace_follows(&self.came_from, self.trace@, self.explored@)
        &&& self.explored@.len() == self.nodes_explored
        &&& self.explored@.contains(self.current)
    }

    /// The number of cells explored so far.
    pub closed spec fn explored_count(&self) -> nat {
        self.nodes_explored as nat
    }

    /// A search explores distinct cells of the grid, so it waits at most as
    /// many times as the maze has cells: with `advance` adding one explored
    /// cell at each step that waits again, every search ends.
    pub proof fn lemma_explored_bounded(&self, m: &Maze)
        requires
            self.wf(m),
        ensures
            1 <= self.explored_count() <= m.width * m.height,
    {
        lemma_split_parents(m, &self.came_from, self.stack@, self.explored@);
        lemma_split_done(m, &self.came_from, self.stack@, self.explored@);
        lemma_distinct_cells_bound(m, self.explored@);
    }

    /// The cell being explored.
    pub closed spec fn current_cell(&self) -> Position {
        self.current
    }

    /// The cells waiting on the stack, the top last.
    pub closed spec fn pending(&self) -> Seq<Position> {
        self.stack@
    }

    /// The unreached neighbours of the cell being explored, in the order
    /// north, east, south, west.
    pub closed spec fn candidate_cells(&self) -> Seq<Position> {
        self.candidates@
    }

    /// Whether the search has reached `p`.
    pub closed spec fn reached(&self, p: Position) -> bool {
        self.came_from.recorded(p)
    }

    /// The candidates are the unreached neighbours of the current cell.
    pub proof fn lemma_candidates(&self, m: &Maze)
        requires
            self.wf(m),
        ensures
            m.in_bounds(self.current_cell()),
            self.reached(self.current_cell()),
            self.current_cell() != m.exit(),
            self.candidate_cells() == m.neighbor_seq(self.current_cell()).filter(|u: Position| !self.reached(u)),
    {
        assert(unreached_in(&self.came_from) =~= (|u: Position| !self.reached(u)));
    }

    /// The cell being explored.
    pub fn current(&self) -> (position: Position)
        ensures
            position == self.current_cell(),
    {
        self.current
    }

    /// The unreached neighbours of the cell being explored, in the order
    /// north, east, south, west.
    pub fn candidates(&self) -> (candidates: &Vec<Position>)
        ensures
            candidates@ == self.candidate_cells(),
    {
        &self.candidates
    }

    /// For the cell being explored, whether the cell one move north, east,
    /// south and west lies on the grid and has been reached.
    pub fn visited_neighbors(&self, maze: &Maze) -> (visited: [bool; 4])
        requires
            self.wf(maze),
        ensures
            visited@ == seq![
                self.current_cell().1 > 0 && self.reached((self.current_cell().0, (self.current_cell().1 - 1) as usize)),
                self.current_cell().0 + 1 < maze.width && self.reached(((self.current_cell().0 + 1) as usize, self.current_cell().1)),
                self.current_cell().1 + 1 < maze.height && self.reached((self.current_cell().0, (self.current_cell().1 + 1) as usize)),
                self.current_cell().0 > 0 && self.reached(((self.current_cell().0 - 1) as usize, self.current_cell().1)),
            ],
    {
        let ghost w = maze.width as int;
        let ghost h = maze.height as int;
        let (x, y) = self.current;
        let north = y > 0 && self.came_from.get((x, y - 1), Ghost(w), Ghost(h)).is_some();
        let east = x + 1 < maze.width && self.came_from.get((x + 1, y), Ghost(w), Ghost(h)).is_some();
        let south = y + 1 < maze.height && self.came_from.get((x, y + 1), Ghost(w), Ghost(h)).is_some();
        let west = x > 0 && self.came_from.get((x - 1, y), Ghost(w), Ghost(h)).is_some();
        let visited = [north, east, south, west];
        proof {
            assert(visited@ =~= seq![north, east, south, west]);
        }
        visited
    }

    /// Starts a search at the upper-left corner and takes its first cell.
    pub fn begin(maze: &Maze) -> (step: LearnedStep)
        requires
            maze.has_shape(),
            maze.cells_fit(),
        ensures
            (maze.width == 0 || maze.height == 0) ==> (step matches LearnedStep::Done(out) && empty_output(out)),
            (maze.width > 0 && maze.height > 0) ==> step_ok(maze, step, seq![Maze::start()]),
    {
        let start_time = instant_now();
        if maze.width == 0 || maze.height == 0 {
            return LearnedStep::Done(
                SolverOutput {
                    path: None,
                    trace: Vec::new(),
                    stats: SolutionStats {
                        algorithm: "Theseus",
                        solved: false,
                        path_length: 0,
                        nodes_explored: 0,
                        duration: elapsed_since(&start_time),
                    },
                },
            );
        }
        let start: Position = (0, 0);
        let ghost w = maze.width as int;
        let ghost h = maze.height as int;
        let mut stack: Vec<Position> = Vec::new();
        let mut came_from = ParentGrid::new(maze.width, maze.height);
        let ghost depth: Map<Position, int> = Map::empty().insert(start, 0);
        let ghost fresh = came_from;
        stack.push(start);
        came_from.set(start, start, Ghost(w), Ghost(h));
        proof {
            lemma_search_started(maze, &fresh, &came_from, depth, stack@);
            assert(stack@ == seq![Maze::start()]);
            assert forall|v: Position| maze.in_bounds(v) && #[trigger] came_from.recorded(v) implies v == start by {
                assert(!fresh.recorded(v));
            }
            lemma_split_started(maze, &came_from);
        }
        take_next(maze, stack, came_from, Vec::new(), 0, start_time, Ghost(depth), Ghost(Seq::empty()))
    }

    /// Pushes the candidates in the order that `order` gives by index (the
    /// last one pushed is explored next; when `order` does not list every
    /// index exactly once, the candidates go in as they are) and takes the
    /// next cell.
    pub fn advance(self, maze: &Maze, order: &Vec<usize>) -> (step: LearnedStep)
        requires
            self.wf(maze),
        ensures
            step_ok(maze, step, self.pending() + arranged(self.candidate_cells(), order@)),
            step matches LearnedStep::Expand(next) ==> next.explored_count() == self.explored_count() + 1,
    {
        let ghost w = maze.width as int;
        let ghost h = maze.height as int;
        let ghost old_stack = self.stack@;
        let ghost t0 = self.came_from;
        let LearnedSearch {
            mut stack,
            mut came_from,
            trace,
            nodes_explored,
            start_time,
            depth,
            current,
            candidates,
            explored,
        } = self;
        let ghost mut depth = depth@;
        let pushing = arrange(&candidates, order);
        let ghost cands = candidates@;
        proof {
            lemma_pushing(maze, &came_from, current, cands, order@, pushing@);
        }
        let new_depth = push_all(
            maze,
            current,
            &pushing,
            &mut stack,
            &mut came_from,
            Ghost(depth),
            Ghost(nodes_explored as int),
            explored,
            Ghost(trace@),
        );
        proof {
            depth = new_depth@;
            lemma_all_pushed(maze, &t0, &came_from, depth, stack@, current, cands, order@, pushing@, nodes_explored as int);
        }
        take_next(maze, stack, came_from, trace, nodes_explored, start_time, Ghost(depth), explored)
    }
}

/// Pushes every cell of `pushing` (distinct unreached cells one move from
/// `current`) onto the stack, in order, with `current` as its parent.
fn push_all(
    maze: &Maze,
    current: Position,
    pushing: &Vec<Position>,
    stack: &mut Vec<Position>,
    came_from: &mut ParentGrid,
    Ghost(depth): Ghost<Map<Position, int>>,
    Ghost(explored): Ghost<int>,
    Ghost(done): Ghost<Seq<Position>>,
    Ghost(trace): Ghost<Seq<SearchStep>>,
) -> (new_depth: Ghost<Map<Position, int>>)
    requires
        maze.well_shaped(),
        maze.in_bounds(current),
        old(came_from).recorded(current),
        explored >= 1,
        dfs_state(maze, old(came_from), depth, old(stack)@, explored, Some(current)),
        search_split(maze, old(came_from), old(stack)@, done),
        trace_follows(old(came_from), trace, done),
        done.contains(current),
        pushing@.no_duplicates(),
        forall|i: int| 0 <= i < pushing@.len() ==> maze.step(current, #[trigger] pushing@[i]) && !old(came_from).recorded(pushing@[i]),
    ensures
        dfs_state(maze, final(came_from), new_depth@, final(stack)@, explored, Some(current)),
        final(stack)@ == old(stack)@ + pushing@,
        forall|i: int| 0 <= i < pushing@.len() ==> final(came_from).recorded(#[trigger] pushing@[i]),
        forall|p: Position| maze.in_bounds(p) && #[trigger] old(came_from).recorded(p) ==> final(came_from).recorded(p),
        search_split(maze, final(came_from), final(stack)@, done),
        trace_follows(final(came_from), trace, done),
{
    let ghost w = maze.width as int;
    let ghost h = maze.height as int;
    let ghost old_stack = stack@;
    let ghost t0 = *came_from;
    let ghost mut depth = depth;
    let mut k: usize = 0;
    while k < pushing.len()
        invariant
            maze.well_shaped(),
            w == maze.width,
            h == maze.height,
            maze.in_bounds(current),
            came_from.recorded(current),
            explored >= 1,
            dfs_state(maze, came_from, depth, stack@, explored, Some(current)),
            0 <= k <= pushing@.len(),
            stack@ == old_stack + pushing@.subrange(0, k as int),
            pushing@.no_duplicates(),
            forall|i: int| 0 <= i < pushing@.len() ==> maze.step(current, #[trigger] pushing@[i]),
            forall|i: int| k <= i < pushing@.len() ==> !came_from.recorded(#[trigger] pushing@[i]),
            forall|i: int| 0 <= i < k ==> came_from.recorded(#[trigger] pushing@[i]),
            forall|p: Position| maze.in_bounds(p) && #[trigger] t0.recorded(p) ==> came_from.recorded(p),
            search_split(maze, came_from, stack@, done),
            trace_follows(came_from, trace, done),
            done.contains(current),
        decreases pushing@.len() - k,
    {
        let neighbor = pushing[k];
        proof {
            lemma_step_in_bounds(maze, current, neighbor);
        }
        let ghost sb = stack@;
        let ghost tb = *came_from;
        let ghost db = depth;
        stack.push(neighbor);
        came_from.set(neighbor, current, Ghost(w), Ghost(h));
        proof {
            depth = depth.insert(neighbor, depth[current] + 1);
            lemma_dfs_discovered(maze, &tb, came_from, db, depth, sb, stack@, current, neighbor, explored);
            lemma_split_discovered(maze, &tb, came_from, sb, done, trace, current, neighbor);
            assert(stack@ =~= old_stack + pushing@.subrange(0, k + 1));
            assert forall|i: int| k + 1 <= i < pushing@.len() implies !came_from.recorded(#[trigger] pushing@[i]) by {
                lemma_step_in_bounds(maze, current, pushing@[i]);
                assert(pushing@[i] != pushing@[k as int]);
                assert(came_from.at(pushing@[i]) == tb.at(pushing@[i]));
            }
            assert forall|i: int| 0 <= i < k + 1 implies came_from.recorded(#[trigger] pushing@[i]) by {
                if i < k {
                    lemma_step_in_bounds(maze, current, pushing@[i]);
                    assert(tb.recorded(pushing@[i]));
                }
            }
            assert forall|p: Position| maze.in_bounds(p) && #[trigger] t0.recorded(p) implies came_from.recorded(p) by {
                assert(tb.recorded(p));
            }
        }
        k = k + 1;
    }
    proof {
        assert(pushing@.subrange(0, pushing@.len() as int) =~= pushing@);
    }
    Ghost(depth)
}

/// What the candidates to push are: distinct unreached cells one move from `current`.
proof fn lemma_pushing(
    m: &Maze,
    t: &ParentGrid,
    current: Position,
    candidates: Seq<Position>,
    order: Seq<usize>,
    pushing: Seq<Position>,
)
    requires
        m.in_bounds(current),
        candidates == unreached_neighbors(m, t, current),
        pushing == arranged(candidates, order),
    ensures
        pushing.no_duplicates(),
        forall|i: int| 0 <= i < pushing.len() ==> m.step(current, #[trigger] pushing[i]) && !t.recorded(pushing[i]),
{
    lemma_unreached_neighbors(m, t, current);
    lemma_arranged(candidates, order);
    assert forall|i: int| 0 <= i < pushing.len() implies m.step(current, #[trigger] pushing[i]) && !t.recorded(pushing[i]) by {
        assert(pushing.contains(pushing[i]));
        assert(candidates.contains(pushing[i]));
    }
}

/// Once every candidate is pushed, every neighbour of the explored cell is
/// reached and the search state no longer needs an exception.
proof fn lemma_all_pushed(
    m: &Maze,
    t0: &ParentGrid,
    t: &ParentGrid,
    depth: Map<Position, int>,
    stack: Seq<Position>,
    current: Position,
    candidates: Seq<Position>,
    order: Seq<usize>,
    pushing: Seq<Position>,
    explored: int,
)
    requires
        m.in_bounds(current),
        dfs_state(m, t, depth, stack, explored, Some(current)),
        candidates == unreached_neighbors(m, t0, current),
        pushing == arranged(candidates, order),
        forall|i: int| 0 <= i < pushing.len() ==> t.recorded(#[trigger] pushing[i]),
        forall|p: Position| m.in_bounds(p) && #[trigger] t0.recorded(p) ==> t.recorded(p),
    ensures
        dfs_state(m, t, depth, stack, explored, None),
{
    lemma_neighbor_seq(m, current);
    lemma_unreached_neighbors(m, t0, current);
    lemma_arranged(candidates, order);
    assert forall|u: Position| #[trigger] m.step(current, u) implies t.recorded(u) by {
        lemma_step_in_bounds(m, current, u);
        if !t0.recorded(u) {
            let ns = m.neighbor_seq(current);
            assert(ns.contains(u));
            let j = choose|j: int| 0 <= j < ns.len() && ns[j] == u;
            ns.lemma_filter_contains(unreached_in(t0), j);
            assert(candidates.contains(u));
            assert(pushing.contains(u));
            let i = choose|i: int| 0 <= i < pushing.len() && pushing[i] == u;
            assert(t.recorded(pushing[i]));
        }
    }
    assert(all_reached(m, t, current));
    assert forall|v: Position| m.in_bounds(v) && #[trigger] t.recorded(v) implies stack.contains(v) || all_reached(m, t, v)
        || None::<Position> == Some(v) by {
        assert(stack.contains(v) || all_reached(m, t, v) || Some(current) == Some(v));
    }
}

/// The candidates in the order `order` gives, checked to list every index
/// exactly once; otherwise the candidates as they are.
fn arrange(candidates: &Vec<Position>, order: &Vec<usize>) -> (result: Vec<Position>)
    ensures
        result@ == arranged(candidates@, order@),
{
    let n = candidates.len();
    let mut valid = order.len() == n;
    let mut seen: Vec<bool> = Vec::new();
    let mut j: usize = 0;
    while j < n
        invariant
            j <= n,
            n == candidates@.len(),
            seen@.len() == j,
            forall|i: int| 0 <= i < j ==> !(#[trigger] seen@[i]),
        decreases n - j,
    {
        seen.push(false);
        j = j + 1;
    }
    let mut i: usize = 0;
    while valid && i < n
        invariant
            n == candidates@.len(),
            valid ==> order@.len() == n,
            i <= n,
            seen@.len() == n,
            valid ==> forall|a: int| 0 <= a < i ==> #[trigger] order@[a] < n,
            valid ==> forall|a: int, b: int| 0 <= a < b < i ==> order@[a] != order@[b],
            valid ==> forall|v: int|
                0 <= v < n ==> (#[trigger] seen@[v] <==> exists|a: int| 0 <= a < i && #[trigger] order@[a] == v),
            !valid ==> !is_arrangement(order@, n as int),
        decreases n - i,
    {
        let index = order[i];
        if index >= n || seen[index] {
            valid = false;
            proof {
                if index < n {
                    let a = choose|a: int| 0 <= a < i && #[trigger] order@[a] == index;
                    assert(order@[a] == order@[i as int]);
                }
            }
        } else {
            seen.set(index, true);
            proof {
                assert forall|a: int, b: int| 0 <= a < b < i + 1 implies order@[a] != order@[b] by {
                    if b == i {
                        assert(!seen@[order@[a] as int] || order@[a] != index);
                    }
                }
                assert forall|v: int| 0 <= v < n implies (#[trigger] seen@[v] <==> exists|a: int| 0 <= a < i + 1 && #[trigger] order@[a] == v) by {
                    if v == index {
                        assert(order@[i as int] == v);
                    }
                    if exists|a: int| 0 <= a < i + 1 && #[trigger] order@[a] == v {
                        let a = choose|a: int| 0 <= a < i + 1 && #[trigger] order@[a] == v;
                        if a < i {
                            assert(exists|a: int| 0 <= a < i && #[trigger] order@[a] == v);
                        }
                    }
                }
            }
        }
        i = i + 1;
    }
    if valid {
        let mut all_seen = true;
        let mut v: usize = 0;
        while v < n
            invariant
                v <= n,
                n == candidates@.len(),
                seen@.len() == n,
                all_seen ==> forall|u: int| 0 <= u < v ==> #[trigger] seen@[u],
                !all_seen ==> exists|u: int| 0 <= u < v && !#[trigger] seen@[u],
            decreases n - v,
        {
            if !seen[v] {
                all_seen = false;
            }
            v = v + 1;
        }
        proof {
            if all_seen {
                assert forall|u: int| 0 <= u < n implies #[trigger] lists_index(order@, u) by {
                    assert(seen@[u]);
                    let a = choose|a: int| 0 <= a < i && #[trigger] order@[a] == u;
                }
                assert(is_arrangement(order@, n as int));
            }
        }
        if !all_seen {
            valid = false;
            proof {
                if is_arrangement(order@, n as int) {
                    let u = choose|u: int| 0 <= u < n && !#[trigger] seen@[u];
                    assert(lists_index(order@, u));
                    let a = choose|a: int| 0 <= a < order@.len() && order@[a] == u;
                    assert(order@[a] == u);
                }
            }
        }
    }
    let mut result: Vec<Position> = Vec::new();
    let mut k: usize = 0;
    while k < n
        invariant
            k <= n,
            n == candidates@.len(),
            valid ==> is_arrangement(order@, n as int),
            !valid ==> !is_arrangement(order@, n as int),
            result@.len() == k,
            forall|a: int| 0 <= a < k ==> #[trigger] result@[a] == arranged(candidates@, order@)[a],
        decreases n - k,
    {
        if valid {
            result.push(candidates[order[k]]);
        } else {
            result.push(candidates[k]);
        }
        k = k + 1;
    }
    proof {
        assert(result@ =~= arranged(candidates@, order@));
    }
    result
}

/// An arrangement of distinct candidates holds each of them exactly once.
proof fn lemma_arranged(candidates: Seq<Position>, order: Seq<usize>)
    requires
        candidates.no_duplicates(),
    ensures
        arranged(candidates, order).no_duplicates(),
        arranged(candidates, order).len() == candidates.len(),
        forall|u: Position| #[trigger] candidates.contains(u) ==> arranged(candidates, order).contains(u),
        forall|u: Position| #[trigger] arranged(candidates, order).contains(u) ==> candidates.contains(u),
{
    let s = arranged(candidates, order);
    let n = candidates.len() as int;
    if is_arrangement(order, n) {
        assert forall|i: int| 0 <= i < n implies #[trigger] s[i] == candidates[order[i] as int] && order[i] < n by {}
        assert forall|i: int, j: int| 0 <= i < s.len() && 0 <= j < s.len() && i != j implies s[i] != s[j] by {
            if i < j {
                assert(order[i] != order[j]);
            } else {
                assert(order[j] != order[i]);
            }
        }
        assert forall|u: Position| #[trigger] candidates.contains(u) implies s.contains(u) by {
            let j = choose|j: int| 0 <= j < n && candidates[j] == u;
            assert(lists_index(order, j));
            let i = choose|i: int| 0 <= i < order.len() && order[i] == j;
            assert(s[i] == u);
        }
        assert forall|u: Position| #[trigger] s.contains(u) implies candidates.contains(u) by {
            let i = choose|i: int| 0 <= i < n && s[i] == u;
            assert(candidates[order[i] as int] == u);
        }
    }
}

/// The unreached neighbours are distinct cells, each one move away and unreached.
proof fn lemma_unreached_neighbors(m: &Maze, t: &ParentGrid, p: Position)
    requires
        m.in_bounds(p),
    ensures
        unreached_neighbors(m, t, p).no_duplicates(),
        forall|u: Position| #[trigger] unreached_neighbors(m, t, p).contains(u) ==> m.step(p, u) && !t.recorded(u),
{
    lemma_neighbor_seq(m, p);
    lemma_filter_no_duplicates(m.neighbor_seq(p), unreached_in(t));
    assert forall|u: Position| #[trigger] unreached_neighbors(m, t, p).contains(u) implies m.step(p, u) && !t.recorded(u) by {
        m.neighbor_seq(p).lemma_filter_contains_rev(unreached_in(t), u);
        let s = unreached_neighbors(m, t, p);
        let i = choose|i: int| 0 <= i < s.len() && s[i] == u;
        m.neighbor_seq(p).lemma_filter_pred(unreached_in(t), i);
    }
}

/// Filtering keeps a sequence free of repeats.
proof fn lemma_filter_no_duplicates(s: Seq<Position>, pred: spec_fn(Position) -> bool)
    requires
        s.no_duplicates(),
    ensures
        s.filter(pred).no_duplicates(),
    decreases s.len(),
{
    reveal(Seq::filter);
    if s.len() > 0 {
        let rest = s.drop_last();
        assert forall|i: int, j: int| 0 <= i < rest.len() && 0 <= j < rest.len() && i != j implies rest[i] != rest[j] by {
            assert(rest[i] == s[i] && rest[j] == s[j]);
        }
        lemma_filter_no_duplicates(rest, pred);
        if pred(s.last()) {
            let f = rest.filter(pred);
            if f.contains(s.last()) {
                rest.lemma_filter_contains_rev(pred, s.last());
                let i = choose|i: int| 0 <= i < rest.len() && rest[i] == s.last();
                assert(s[i] == s[s.len() - 1]);
            }
            let g = f.push(s.last());
            assert forall|i: int, j: int| 0 <= i < g.len() && 0 <= j < g.len() && i != j implies g[i] != g[j] by {
                if i < f.len() && j < f.len() {
                } else if i == f.len() {
                    assert(f.contains(f[j]));
                } else {
                    assert(f.contains(f[i]));
                }
            }
        }
    }
}

/// The unreached cells among the neighbours, in the order they come.
fn unreached_among(maze: &Maze, current: Position, neighbors: &Vec<Position>, came_from: &ParentGrid) -> (result: Vec<
    Position,
>)
    requires
        maze.well_shaped(),
        maze.in_bounds(current),
        neighbors@ == maze.neighbor_seq(current),
        came_from.shaped(maze.width as int, maze.height as int),
    ensures
        result@ == unreached_neighbors(maze, came_from, current),
{
    let ghost w = maze.width as int;
    let ghost h = maze.height as int;
    let ghost pred = unreached_in(came_from);
    proof {
        lemma_neighbor_seq(maze, current);
    }
    let mut result: Vec<Position> = Vec::new();
    let mut k: usize = 0;
    while k < neighbors.len()
        invariant
            w == maze.width,
            h == maze.height,
            came_from.shaped(w, h),
            pred == unreached_in(came_from),
            forall|i: int| 0 <= i < neighbors@.len() ==> maze.step(current, #[trigger] neighbors@[i]),
            k <= neighbors@.len(),
            result@ == neighbors@.subrange(0, k as int).filter(pred),
        decreases neighbors@.len() - k,
    {
        let neighbor = neighbors[k];
        proof {
            lemma_step_in_bounds(maze, current, neighbor);
            let next = neighbors@.subrange(0, k + 1);
            assert(next.drop_last() =~= neighbors@.subrange(0, k as int));
            assert(next.last() == neighbor);
            reveal(Seq::filter);
        }
        if came_from.get(neighbor, Ghost(w), Ghost(h)).is_none() {
            result.push(neighbor);
        }
        k = k + 1;
    }
    proof {
        assert(neighbors@.subrange(0, neighbors@.len() as int) =~= neighbors@);
    }
    result
}

/// A search whose stack ran empty has explored exactly the reachable cells.
proof fn lemma_learned_exhausted(
    m: &Maze,
    t: &ParentGrid,
    depth: Map<Position, int>,
    explored: int,
    done: Seq<Position>,
    out: SolverOutput,
)
    requires
        m.well_shaped(),
        dfs_state(m, t, depth, Seq::empty(), explored, None),
        search_split(m, t, Seq::empty(), done),
        trace_follows(t, out.trace@, done),
        out.path is None,
    ensures
        exploration_ok(m, out),
{
    assert forall|v: Position, u: Position| m.in_bounds(v) && t.recorded(v) && #[trigger] m.step(v, u) implies t.recorded(u) by {
        assert(!Seq::<Position>::empty().contains(v));
        assert(all_reached(m, t, v));
    }
    lemma_explored_exhausted(m, t, depth, done, out.trace@);
}

/// Takes the top of the stack: the search ends there when the stack is empty
/// or the top is the exit, and otherwise waits at that cell.
fn take_next(
    maze: &Maze,
    mut stack: Vec<Position>,
    came_from: ParentGrid,
    mut trace: Vec<SearchStep>,
    nodes_explored: usize,
    start_time: Instant,
    Ghost(depth): Ghost<Map<Position, int>>,
    Ghost(done): Ghost<Seq<Position>>,
) -> (step: LearnedStep)
    requires
        maze.well_shaped(),
        maze.cells_fit(),
        dfs_state(maze, &came_from, depth, stack@, nodes_explored as int, None),
        trace_so_far(maze, trace@, nodes_explored as int),
        search_split(maze, &came_from, stack@, done),
        trace_follows(&came_from, trace@, done),
        done.len() == nodes_explored,
    ensures
        step_ok(maze, step, stack@),
        step matches LearnedStep::Expand(next) ==> next.explored_count() == nodes_explored + 1,
{
    let ghost w = maze.width as int;
    let ghost h = maze.height as int;
    let ghost s0 = stack@;
    let start: Position = (0, 0);
    let goal: Position = (maze.width - 1, maze.height - 1);
    proof {
        lemma_reached_count_bounds(&came_from, w, h);
        assert(h * w <= usize::MAX) by (nonlinear_arith)
            requires
                2 * w * h <= usize::MAX,
                w >= 1,
                h >= 1,
        ;
    }
    if stack.len() == 0 {
        proof {
            assert(stack@ =~= Seq::<Position>::empty());
            lemma_dfs_exhausted(maze, &came_from, depth, nodes_explored as int);
        }
        let out = SolverOutput {
            path: None,
            trace,
            stats: SolutionStats {
                algorithm: "Theseus",
                solved: false,
                path_length: 0,
                nodes_explored,
                duration: elapsed_since(&start_time),
            },
        };
        proof {
            lemma_learned_exhausted(maze, &came_from, depth, nodes_explored as int, done, out);
        }
        return LearnedStep::Done(out);
    }
    let current = stack.pop().unwrap();
    proof {
        lemma_dfs_popped(maze, &came_from, depth, s0, current, nodes_explored as int);
        assert(stack@ == s0.drop_last());
        assert(s0[s0.len() - 1] == current);
        lemma_split_take(maze, &came_from, s0, done, s0.len() - 1);
        assert(stack@ =~= s0.remove(s0.len() - 1));
    }
    let ghost done2 = done.push(current);
    let nodes_explored = nodes_explored + 1;
    let ghost trace_before = trace@;
    record_search_step(current, start, nodes_explored, &came_from, &mut trace, Ghost(w), Ghost(h));
    proof {
        lemma_step_recorded(maze, &came_from, depth, trace_before, trace@, current, nodes_explored as int);
        if done.len() > 0 {
            assert(tree_link(maze, &came_from, depth, current));
            assert(trace@.drop_last() =~= trace_before);
        }
        lemma_trace_follows_push(&came_from, trace_before, done, current, trace@);
    }
    if same_position(current, goal) {
        let out = finish_found(
            maze,
            &came_from,
            trace,
            nodes_explored,
            start_time,
            "Theseus",
            Ghost(depth),
            Ghost(stack@),
            Ghost(done2),
        );
        return LearnedStep::Done(out);
    }
    let neighbors = maze.neighbors(current);
    let candidates = unreached_among(maze, current, &neighbors, &came_from);
    proof {
        assert(done2[done.len() as int] == current);
    }
    LearnedStep::Expand(
        LearnedSearch {
            stack,
            came_from,
            trace,
            nodes_explored,
            start_time,
            depth: Ghost(depth),
            current,
            candidates,
            explored: Ghost(done2),
        },
    )
}

} // verus!
