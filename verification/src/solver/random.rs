use vstd::prelude::*;

use crate::clock::{duration_as_nanos, elapsed_since, instant_now, since_unix_epoch, system_time_now};
use crate::maze::Maze;
use crate::solver::dfs::{
    all_reached, dfs_state, lemma_dfs_exhausted, lemma_dfs_popped, lemma_search_started, lemma_step_recorded,
    push_unreached, trace_so_far,
};
use crate::solver::explore::{
    exploration_ok, explored_cells, finish_found, lemma_explored_exhausted, lemma_split_started, lemma_split_take,
    lemma_trace_follows_push, search_split, trace_follows,
};
use crate::solver::search_order::{
    explored_from_latest, latest_first_order, lemma_parents_expanded, lemma_parents_output, lemma_parents_push,
    lemma_parents_started, parents_first, reached_from_first, lemma_finder_expanded, lemma_finder_started, lemma_latest_taken,
    lemma_reached_at_start, reached_exactly, stack_by_finder,
};
use crate::solver::search::{
    lemma_reached_count_bounds, record_search_step, same_position, solver_output_ok, tree_link, ParentGrid, Position,
    SearchStep, SolutionStats, SolverOutput,
};

verus! {

broadcast use vstd::seq_lib::group_to_multiset_ensures;

/// The multiplier of the linear congruential generator.
pub const LCG_MULTIPLIER: u64 = 6364136223846793005;

/// The next state of the generator: `state * LCG_MULTIPLIER + 1`, wrapping.
pub open spec fn lcg_next(state: u64) -> u64 {
    vstd::wrapping::u64_specs::wrapping_add(vstd::wrapping::u64_specs::wrapping_mul(state, LCG_MULTIPLIER), 1)
}

/// A small linear congruential generator, seeded from the clock.
pub struct SimpleRng {
    pub state: u64,
}

impl SimpleRng {
    /// Seeds the generator with the nanoseconds since the Unix epoch, cut to
    /// 64 bits (0 when the clock reads earlier than the epoch).
    pub fn new() -> Self {
        let now = system_time_now();
        let nanos: u128 = match since_unix_epoch(&now) {
            Ok(duration) => duration_as_nanos(&duration),
            Err(_) => 0,
        };
        SimpleRng { state: nanos as u64 }
    }

    /// Advances the generator and returns its new state, cut to a `usize`,
    /// modulo `max`.
    pub fn next_usize(&mut self, max: usize) -> (value: usize)
        requires
            max > 0,
        ensures
            final(self).state == lcg_next(old(self).state),
            value == (final(self).state as usize) % max,
            value < max,
    {
        self.state = self.state.wrapping_mul(LCG_MULTIPLIER).wrapping_add(1);
        (self.state as usize) % max
    }
}

/// `s` with the entries at `i` and `j` exchanged.
pub open spec fn swapped(s: Seq<Position>, i: int, j: int) -> Seq<Position> {
    s.update(i, s[j]).update(j, s[i])
}

/// The entries and the generator state after the Fisher-Yates passes over
/// the first `i` entries, from the top down: the pass at `k` (from `i - 1`
/// down to 1) advances the generator, takes its state modulo `k + 1` as `j`,
/// and exchanges the entries at `k` and `j`.
pub open spec fn shuffle_passes(s: Seq<Position>, state: u64, i: nat) -> (Seq<Position>, u64)
    decreases i,
{
    if i <= 1 {
        (s, state)
    } else {
        let k = i - 1;
        let next = lcg_next(state);
        let j = ((next as usize) % (i as usize)) as int;
        shuffle_passes(swapped(s, k, j), next, (i - 1) as nat)
    }
}

/// The passes over the first `i` entries leave the entries from `i` on as
/// they were, and keep the length.
proof fn lemma_passes_keep_tail(s: Seq<Position>, state: u64, i: nat)
    requires
        i <= s.len() <= usize::MAX,
    ensures
        shuffle_passes(s, state, i).0.len() == s.len(),
        forall|k: int| i <= k < s.len() ==> shuffle_passes(s, state, i).0[k] == s[k],
    decreases i,
{
    if i > 1 {
        let next = lcg_next(state);
        let j = ((next as usize) % (i as usize)) as int;
        assert(0 <= j < i);
        let t = swapped(s, i - 1, j);
        assert(t.len() == s.len());
        assert(shuffle_passes(s, state, i) == shuffle_passes(t, next, (i - 1) as nat));
        lemma_passes_keep_tail(t, next, (i - 1) as nat);
        assert forall|k: int| i <= k < s.len() implies shuffle_passes(s, state, i).0[k] == s[k] by {
            assert(shuffle_passes(s, state, i).0[k] == t[k]);
        }
    }
}

/// The shuffle's first pass draws the entry that ends up last from all the
/// entries, the last one included: after shuffling `s` from `state`, the
/// last entry is `s[j]` with `j` the generator's next state modulo the
/// length. So a list of two is left as it is by a draw that is odd, and
/// reversed by one that is even.
pub proof fn law_shuffle_draws_the_last_entry(s: Seq<Position>, state: u64)
    requires
        1 <= s.len() <= usize::MAX,
    ensures
        shuffle_passes(s, state, s.len()).0.len() == s.len(),
        shuffle_passes(s, state, s.len()).0[s.len() - 1] == s[((lcg_next(state) as usize) % (s.len() as usize)) as int],
{
    let n = s.len();
    if n == 1 {
        assert(((lcg_next(state) as usize) % (1 as usize)) == 0);
    } else {
        let next = lcg_next(state);
        let j = ((next as usize) % (n as usize)) as int;
        assert(0 <= j < n);
        let t = swapped(s, n - 1, j);
        assert(shuffle_passes(s, state, n) == shuffle_passes(t, next, (n - 1) as nat));
        lemma_passes_keep_tail(t, next, (n - 1) as nat);
        assert(t[n - 1] == s[j]);
    }
}

/// Shuffles the items in place by the Fisher-Yates method, drawing from `rng`.
pub fn shuffle(items: &mut Vec<Position>, rng: &mut SimpleRng)
    ensures
        (final(items)@, final(rng).state) == shuffle_passes(old(items)@, old(rng).state, old(items)@.len()),
        final(items)@.len() == old(items)@.len(),
        final(items)@.to_multiset() == old(items)@.to_multiset(),
{
    let ghost initial = items@;
    let ghost state0 = rng.state;
    let mut i: usize = items.len();
    while i > 1
        invariant
            1 <= i <= items@.len() || items@.len() <= 1,
            i <= items@.len(),
            items@.len() == initial.len(),
            items@.to_multiset() == initial.to_multiset(),
            shuffle_passes(items@, rng.state, i as nat) == shuffle_passes(initial, state0, initial.len()),
        decreases i,
    {
        let ghost before_state = rng.state;
        i = i - 1;
        let j = rng.next_usize(i + 1);
        let ghost before = items@;
        let a = items[i];
        let b = items[j];
        items.set(i, b);
        items.set(j, a);
        proof {
            let s1 = before.update(i as int, b);
            vstd::seq_lib::to_multiset_update(before, i as int, b);
            vstd::seq_lib::to_multiset_update(s1, j as int, a);
            assert(items@ == s1.update(j as int, a));
            assert(items@ == swapped(before, i as int, j as int));
            if i == j {
                assert(items@ =~= before);
            } else {
                assert(s1[j as int] == b);
                assert(before.to_multiset().count(a) > 0);
                assert(items@.to_multiset() =~= before.to_multiset());
            }
            assert(shuffle_passes(before, before_state, (i + 1) as nat) == shuffle_passes(
                items@,
                rng.state,
                i as nat,
            ));
        }
    }
    proof {
        assert(shuffle_passes(items@, rng.state, i as nat) == (items@, rng.state));
    }
}

/// Solves the maze by a depth-first search that tries the neighbours of each
/// cell in a random order.
pub fn solve(maze: &Maze) -> (output: SolverOutput)
    requires
        maze.well_shaped(),
        maze.cells_fit(),
    ensures
        solver_output_ok(maze, output, "Random"@),
        exploration_ok(maze, output),
        latest_first_order(maze, explored_cells(output.trace@)),
        reached_from_first(maze, output.trace@),
        output.stats.nodes_explored <= maze.width * maze.height,
{
    let start_time = instant_now();
    let start: Position = (0, 0);
    let goal: Position = (maze.width - 1, maze.height - 1);
    let ghost w = maze.width as int;
    let ghost h = maze.height as int;
    let mut nodes_explored: usize = 0;
    let mut trace: Vec<SearchStep> = Vec::new();
    let mut rng = SimpleRng::new();
    let mut stack: Vec<Position> = Vec::new();
    let mut came_from = ParentGrid::new(maze.width, maze.height);
    let ghost mut depth: Map<Position, int> = Map::empty().insert(start, 0);
    let ghost fresh = came_from;
    stack.push(start);
    came_from.set(start, start, Ghost(w), Ghost(h));
    proof {
        lemma_search_started(maze, &fresh, &came_from, depth, stack@);
        assert forall|v: Position| maze.in_bounds(v) && #[trigger] came_from.recorded(v) implies v == start by {
            assert(!fresh.recorded(v));
        }
        lemma_split_started(maze, &came_from);
        lemma_reached_at_start(maze, &came_from);
        lemma_finder_started(maze);
        lemma_parents_started(maze, &came_from);
    }
    let ghost mut done: Seq<Position> = Seq::empty();
    while stack.len() > 0
        invariant
            maze.well_shaped(),
            w == maze.width,
            h == maze.height,
            h * w <= usize::MAX,
            h * w == w * h,
            start == Maze::start(),
            goal == maze.exit(),
            dfs_state(maze, &came_from, depth, stack@, nodes_explored as int, None),
            trace_so_far(maze, trace@, nodes_explored as int),
            search_split(maze, &came_from, stack@, done),
            trace_follows(&came_from, trace@, done),
            done.len() == nodes_explored,
            reached_exactly(maze, &came_from, done),
            stack_by_finder(maze, stack@, done),
            forall|j: int| 1 <= j < done.len() ==> #[trigger] explored_from_latest(maze, done, j),
            parents_first(maze, &came_from, done),
        decreases h * w - nodes_explored,
    {
        proof {
            lemma_reached_count_bounds(&came_from, w, h);
        }
        let ghost s0 = stack@;
        let current = stack.pop().unwrap();
        let ghost before = nodes_explored;
        nodes_explored = nodes_explored + 1;
        let ghost trace_before = trace@;
        let ghost done_before = done;
        proof {
            lemma_dfs_popped(maze, &came_from, depth, s0, current, before as int);
            assert(s0[s0.len() - 1] == current);
            assert(s0.last() == current);
            lemma_latest_taken(maze, &came_from, s0, done);
            lemma_split_take(maze, &came_from, s0, done, s0.len() - 1);
            assert(stack@ =~= s0.remove(s0.len() - 1));
            done = done.push(current);
        }
        record_search_step(current, start, nodes_explored, &came_from, &mut trace, Ghost(w), Ghost(h));
        proof {
            lemma_step_recorded(maze, &came_from, depth, trace_before, trace@, current, nodes_explored as int);
            if done_before.len() > 0 {
                assert(tree_link(maze, &came_from, depth, current));
                assert(trace@.drop_last() =~= trace_before);
            }
            lemma_trace_follows_push(&came_from, trace_before, done_before, current, trace@);
        }
        if same_position(current, goal) {
            let out = finish_found(
                maze,
                &came_from,
                trace,
                nodes_explored,
                start_time,
                "Random",
                Ghost(depth),
                Ghost(stack@),
                Ghost(done),
            );
            proof {
                lemma_reached_count_bounds(&came_from, w, h);
                assert(latest_first_order(maze, done));
                lemma_parents_push(maze, &came_from, done_before, current);
                lemma_parents_output(maze, &came_from, stack@, done, out.trace@);
            }
            return out;
        }
        let mut neighbors = maze.neighbors(current);
        let ghost ordered = neighbors@;
        shuffle(&mut neighbors, &mut rng);
        proof {
            assert forall|i: int| 0 <= i < neighbors@.len() implies maze.step(current, #[trigger] neighbors@[i]) by {
                assert(neighbors@.contains(neighbors@[i]));
                assert(neighbors@.to_multiset().count(neighbors@[i]) > 0);
                assert(ordered.contains(neighbors@[i]));
            }
            assert forall|u: Position| maze.step(current, u) implies neighbors@.contains(u) by {
                assert(ordered.contains(u));
                assert(ordered.to_multiset().count(u) > 0);
            }
            ordered.lemma_multiset_has_no_duplicates();
            assert forall|x: Position| neighbors@.to_multiset().contains(x) implies neighbors@.to_multiset().count(x) == 1 by {
                assert(ordered.to_multiset().contains(x));
            }
            neighbors@.lemma_multiset_has_no_duplicates_conv();
        }
        let ghost t0 = came_from;
        let ghost s_mid = stack@;
        proof {
            assert(s_mid =~= s0.drop_last());
        }
        let new_depth = push_unreached(
            maze,
            current,
            &neighbors,
            &mut stack,
            &mut came_from,
            Ghost(depth),
            Ghost(nodes_explored as int),
            Ghost(done),
            Ghost(trace@),
        );
        proof {
            depth = new_depth@;
            lemma_reached_count_bounds(&came_from, w, h);
            lemma_finder_expanded(maze, &t0, &came_from, s_mid, stack@, done_before, current, neighbors@);
            lemma_parents_expanded(maze, &t0, &came_from, done_before, current);
        }
    }
    proof {
        lemma_dfs_exhausted(maze, &came_from, depth, nodes_explored as int);
        lemma_reached_count_bounds(&came_from, w, h);
        assert forall|v: Position, u: Position| maze.in_bounds(v) && came_from.recorded(v) && #[trigger] maze.step(v, u) implies came_from.recorded(u) by {
            assert(!Seq::<Position>::empty().contains(v));
            assert(all_reached(maze, &came_from, v));
        }
        assert(stack@ =~= Seq::<Position>::empty());
        lemma_explored_exhausted(maze, &came_from, depth, done, trace@);
        lemma_parents_output(maze, &came_from, stack@, done, trace@);
    }
    SolverOutput {
        path: None,
        trace,
        stats: SolutionStats {
            algorithm: "Random",
            solved: false,
            path_length: 0,
            nodes_explored,
            duration: elapsed_since(&start_time),
        },
    }
}

} // verus!
