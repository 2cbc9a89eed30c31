use vstd::prelude::*;

use crate::maze::{lemma_neighbor_seq, moved, Maze};
use crate::solver::explore::{
    explored_cells, lemma_split_done, lemma_split_parents, lemma_split_pending, search_split, trace_follows,
};
use crate::solver::learned::{direction_number, unreached_in};
use crate::solver::search::{direction_of, Direction, ParentGrid, Position, SearchStep};

verus! {

/// The index of the first of the first `n` cells of `e` from which one move
/// reaches `c`, or -1 when there is none.
pub open spec fn first_adjacent(m: &Maze, e: Seq<Position>, c: Position, n: int) -> int
    decreases n,
{
    if n <= 0 {
        -1
    } else {
        let r = first_adjacent(m, e, c, n - 1);
        if r >= 0 {
            r
        } else if m.step(e[n - 1], c) {
            n - 1
        } else {
            -1
        }
    }
}

/// The number of the move from `a` to `b` in the order north, east, south, west.
pub open spec fn compass(a: Position, b: Position) -> int {
    direction_number(direction_of(a, b)->0)
}

/// Once the first `j` cells of `e` have been explored, `c` has been reached
/// (it is the upper-left corner or one move from an explored cell) and waits
/// to be explored.
pub open spec fn waiting(m: &Maze, e: Seq<Position>, j: int, c: Position) -> bool {
    &&& m.in_bounds(c)
    &&& (c == Maze::start() || first_adjacent(m, e, c, j) >= 0)
    &&& !e.subrange(0, j).contains(c)
}

/// `c` was reached before `d` while the first `j` cells of `e` were
/// explored: from an earlier explored cell, or from the same one by a move
/// earlier in the order north, east, south, west.
pub open spec fn reached_earlier(m: &Maze, e: Seq<Position>, j: int, c: Position, d: Position) -> bool {
    let a = first_adjacent(m, e, c, j);
    let b = first_adjacent(m, e, d, j);
    a < b || (a == b && compass(e[a], c) < compass(e[b], d))
}

/// The `j`-th explored cell is, of the cells waiting at that time, the one
/// reached last.
#[verifier::opaque]
pub open spec fn explored_last_reached(m: &Maze, e: Seq<Position>, j: int) -> bool {
    &&& waiting(m, e, j, e[j])
    &&& forall|c: Position| #[trigger] waiting(m, e, j, c) && c != e[j] ==> reached_earlier(m, e, j, c, e[j])
}

/// Depth-first order: after the first, each explored cell is the waiting
/// cell reached last, the neighbours of an explored cell being reached in
/// the order north, east, south, west.
pub open spec fn depth_first_order(m: &Maze, e: Seq<Position>) -> bool {
    forall|j: int| 1 <= j < e.len() ==> #[trigger] explored_last_reached(m, e, j)
}

/// The `j`-th explored cell is, of the cells waiting at that time, the one
/// reached first.
#[verifier::opaque]
pub open spec fn explored_first_reached(m: &Maze, e: Seq<Position>, j: int) -> bool {
    &&& waiting(m, e, j, e[j])
    &&& forall|c: Position| #[trigger] waiting(m, e, j, c) && c != e[j] ==> reached_earlier(m, e, j, e[j], c)
}

/// Breadth-first order: after the first, each explored cell is the waiting
/// cell reached first, the neighbours of an explored cell being reached in
/// the order north, east, south, west.
pub open spec fn breadth_first_order(m: &Maze, e: Seq<Position>) -> bool {
    forall|j: int| 1 <= j < e.len() ==> #[trigger] explored_first_reached(m, e, j)
}

/// The `j`-th explored cell was reached from the latest explored cell that
/// still had a waiting neighbour: no waiting cell was reached from a later
/// one.
#[verifier::opaque]
pub open spec fn explored_from_latest(m: &Maze, e: Seq<Position>, j: int) -> bool {
    &&& waiting(m, e, j, e[j])
    &&& forall|c: Position| #[trigger] waiting(m, e, j, c) ==> first_adjacent(m, e, c, j) <= first_adjacent(m, e, e[j], j)
}

/// Depth-first order whatever the order in which each cell's neighbours are
/// reached: after the first, each explored cell was reached from the latest
/// explored cell that still had a waiting neighbour.
pub open spec fn latest_first_order(m: &Maze, e: Seq<Position>) -> bool {
    forall|j: int| 1 <= j < e.len() ==> #[trigger] explored_from_latest(m, e, j)
}

/// The waiting cells lie on the stack in the order of the explored cells
/// they were reached from.
#[verifier::opaque]
pub open spec fn stack_by_finder(m: &Maze, stack: Seq<Position>, done: Seq<Position>) -> bool {
    forall|a: int, b: int|
        #![trigger stack[a], stack[b]]
        0 <= a < b < stack.len() ==> first_adjacent(m, done, stack[a], done.len() as int) <= first_adjacent(
            m,
            done,
            stack[b],
            done.len() as int,
        )
}

/// Each explored cell after the first was reached from the first explored
/// cell one move from it.
pub open spec fn reached_from_first(m: &Maze, trace: Seq<SearchStep>) -> bool {
    forall|j: int|
        1 <= j < explored_cells(trace).len() ==> (#[trigger] trace[j - 1]).from == explored_cells(trace)[first_adjacent(
            m,
            explored_cells(trace),
            explored_cells(trace)[j],
            j,
        )]
}

/// Every reached cell other than the corner has as parent the first
/// explored cell one move from it.
#[verifier::opaque]
pub open spec fn parents_first(m: &Maze, t: &ParentGrid, done: Seq<Position>) -> bool {
    forall|c: Position|
        m.in_bounds(c) && #[trigger] t.recorded(c) && c != Maze::start() ==> first_adjacent(m, done, c, done.len() as int)
            >= 0 && t.at(c) == Some(done[first_adjacent(m, done, c, done.len() as int)])
}

/// Every cell reached so far is the upper-left corner or one move from an
/// explored cell, and no other.
#[verifier::opaque]
pub open spec fn reached_exactly(m: &Maze, t: &ParentGrid, done: Seq<Position>) -> bool {
    forall|c: Position|
        m.in_bounds(c) ==> (#[trigger] t.recorded(c) <==> (c == Maze::start() || first_adjacent(m, done, c, done.len() as int) >= 0))
}

/// The waiting cells lie on the stack in the order they were reached.
#[verifier::opaque]
pub open spec fn stack_in_order(m: &Maze, stack: Seq<Position>, done: Seq<Position>) -> bool {
    forall|a: int, b: int|
        #![trigger stack[a], stack[b]]
        0 <= a < b < stack.len() ==> reached_earlier(m, done, done.len() as int, stack[a], stack[b])
}

/// Before any cell is explored, only the upper-left corner is reached.
pub proof fn lemma_reached_at_start(m: &Maze, t: &ParentGrid)
    requires
        forall|v: Position| m.in_bounds(v) && #[trigger] t.recorded(v) ==> v == Maze::start(),
        m.in_bounds(Maze::start()),
        t.recorded(Maze::start()),
    ensures
        reached_exactly(m, t, Seq::empty()),
        stack_in_order(m, seq![Maze::start()], Seq::empty()),
{
    reveal(reached_exactly);
    reveal(stack_in_order);
}

/// Taking the top of the stack keeps the rest in order.
pub proof fn lemma_stack_popped(m: &Maze, s0: Seq<Position>, done: Seq<Position>)
    requires
        s0.len() > 0,
        stack_in_order(m, s0, done),
    ensures
        stack_in_order(m, s0.drop_last(), done),
{
    reveal(stack_in_order);
    let s = s0.drop_last();
    assert forall|a: int, b: int| #![trigger s[a], s[b]] 0 <= a < b < s.len() implies reached_earlier(m, done, done.len() as int, s[a], s[b]) by {
        assert(s[a] == s0[a] && s[b] == s0[b]);
    }
}

/// Taking the top of the stack explores the waiting cell reached last.
pub proof fn lemma_dfs_took_last(m: &Maze, t: &ParentGrid, s0: Seq<Position>, done: Seq<Position>)
    requires
        s0.len() > 0,
        reached_exactly(m, t, done),
        stack_in_order(m, s0, done),
        forall|j: int| 1 <= j < done.len() ==> #[trigger] explored_last_reached(m, done, j),
        s0.no_duplicates(),
        forall|i: int| 0 <= i < s0.len() ==> m.in_bounds(#[trigger] s0[i]) && t.recorded(s0[i]),
        forall|v: Position| m.in_bounds(v) && #[trigger] t.recorded(v) ==> (done.contains(v) <==> !s0.contains(v)),
    ensures
        forall|j: int| 1 <= j < done.len() + 1 ==> #[trigger] explored_last_reached(m, done.push(s0.last()), j),
{
    reveal(explored_last_reached);
    reveal(reached_exactly);
    reveal(stack_in_order);
    let k = done.len() as int;
    let cur = s0.last();
    let e = done.push(cur);
    assert forall|l: int| 0 <= l < k implies done[l] == e[l] by {}
    assert(e.subrange(0, k) =~= done);
    assert forall|c: Position| first_adjacent(m, e, c, k) == first_adjacent(m, done, c, k) by {
        lemma_first_adjacent_prefix(m, done, e, c, k);
    }
    assert forall|j: int| 1 <= j < k + 1 implies #[trigger] explored_last_reached(m, e, j) by {
        if j < k {
            assert(explored_last_reached(m, done, j));
            lemma_order_prefix(m, done, e, j);
        } else {
            assert(e[k] == cur);
            assert(s0[s0.len() - 1] == cur);
            assert(t.recorded(cur));
            assert(waiting(m, e, k, cur));
            assert forall|c: Position| #[trigger] waiting(m, e, k, c) && c != e[k] implies reached_earlier(m, e, k, c, e[k]) by {
                assert(t.recorded(c));
                assert(s0.contains(c));
                let a = choose|a: int| 0 <= a < s0.len() && s0[a] == c;
                assert(a < s0.len() - 1);
                assert(reached_earlier(m, done, k, s0[a], s0[s0.len() - 1]));
                lemma_first_adjacent(m, done, c, k);
                lemma_first_adjacent(m, done, cur, k);
            }
        }
    }
}

/// Expanding the cell explored last pushes its unreached neighbours, in the
/// order north, east, south, west, above the cells already waiting.
pub proof fn lemma_pushed_in_order(
    m: &Maze,
    t0: &ParentGrid,
    t1: &ParentGrid,
    s_mid: Seq<Position>,
    s1: Seq<Position>,
    done: Seq<Position>,
    cur: Position,
)
    requires
        m.in_bounds(cur),
        t0.recorded(Maze::start()),
        reached_exactly(m, t0, done),
        stack_in_order(m, s_mid, done),
        forall|i: int|
            0 <= i < s_mid.len() ==> m.in_bounds(#[trigger] s_mid[i]) && t0.recorded(s_mid[i]) && s_mid[i] != Maze::start(),
        s1 == s_mid + m.neighbor_seq(cur).filter(unreached_in(t0)),
        forall|c: Position| m.in_bounds(c) && #[trigger] t0.recorded(c) ==> t1.recorded(c),
        forall|i: int| 0 <= i < s1.len() ==> m.in_bounds(#[trigger] s1[i]) && t1.recorded(s1[i]),
        forall|c: Position| m.in_bounds(c) && #[trigger] t1.recorded(c) ==> done.push(cur).contains(c) || s1.contains(c),
        forall|i: int| 0 <= i < done.len() + 1 ==> t0.recorded(#[trigger] done.push(cur)[i]),
    ensures
        reached_exactly(m, t1, done.push(cur)),
        stack_in_order(m, s1, done.push(cur)),
{
    reveal(reached_exactly);
    reveal(stack_in_order);
    let k = done.len() as int;
    let e = done.push(cur);
    let u = m.neighbor_seq(cur).filter(unreached_in(t0));
    lemma_neighbor_seq(m, cur);
    assert forall|c: Position| #[trigger] u.contains(c) <==> (m.step(cur, c) && !t0.recorded(c)) by {
        if u.contains(c) {
            m.neighbor_seq(cur).lemma_filter_contains_rev(unreached_in(t0), c);
            let i = choose|i: int| 0 <= i < u.len() && u[i] == c;
            m.neighbor_seq(cur).lemma_filter_pred(unreached_in(t0), i);
        }
        if m.step(cur, c) && !t0.recorded(c) {
            let ns = m.neighbor_seq(cur);
            let j = choose|j: int| 0 <= j < ns.len() && ns[j] == c;
            ns.lemma_filter_contains(unreached_in(t0), j);
        }
    }
    assert forall|c: Position| first_adjacent(m, e, c, k + 1) == (if first_adjacent(m, done, c, k) >= 0 {
        first_adjacent(m, done, c, k)
    } else if m.step(cur, c) {
        k
    } else {
        -1
    }) by {
        lemma_first_adjacent_push(m, done, cur, c);
    }
    assert forall|c: Position| m.in_bounds(c) implies (#[trigger] t1.recorded(c) <==> (c == Maze::start() || first_adjacent(
        m,
        e,
        c,
        k + 1,
    ) >= 0)) by {
        lemma_first_adjacent(m, done, c, k);
        assert(t0.recorded(c) <==> (c == Maze::start() || first_adjacent(m, done, c, k) >= 0));
        if t1.recorded(c) && !t0.recorded(c) {
            if e.contains(c) {
                let i = choose|i: int| 0 <= i < e.len() && e[i] == c;
                assert(t0.recorded(e[i]));
            }
            assert(s1.contains(c));
            let i = choose|i: int| 0 <= i < s1.len() && s1[i] == c;
            if i < s_mid.len() {
                assert(s1[i] == s_mid[i]);
                assert(t0.recorded(s_mid[i]));
            } else {
                assert(s1[i] == u[i - s_mid.len()]);
                assert(u.contains(c));
            }
        }
        if m.step(cur, c) && !t0.recorded(c) {
            assert(u.contains(c));
            let i = choose|i: int| 0 <= i < u.len() && u[i] == c;
            assert(s1[s_mid.len() + i] == c);
            assert(t1.recorded(s1[s_mid.len() + i]));
        }
        if t0.recorded(c) {
            assert(t1.recorded(c));
        }
    }
    lemma_neighbor_compass(m, cur);
    lemma_filter_keeps_order(m.neighbor_seq(cur), unreached_in(t0), cur);
    assert forall|i: int| 0 <= i < u.len() implies first_adjacent(m, e, #[trigger] u[i], k + 1) == k by {
        assert(u.contains(u[i]));
        lemma_first_adjacent(m, done, u[i], k);
        assert(u[i] != Maze::start());
    }
    assert forall|i: int| 0 <= i < s_mid.len() implies 0 <= first_adjacent(m, e, #[trigger] s_mid[i], k + 1) < k
        && first_adjacent(m, e, s_mid[i], k + 1) == first_adjacent(m, done, s_mid[i], k) by {
        assert(t0.recorded(s_mid[i]));
        assert(t0.recorded(s_mid[i]) <==> (s_mid[i] == Maze::start() || first_adjacent(m, done, s_mid[i], k) >= 0));
        lemma_first_adjacent(m, done, s_mid[i], k);
    }
    assert forall|a: int, b: int| #![trigger s1[a], s1[b]] 0 <= a < b < s1.len() implies reached_earlier(m, e, k + 1, s1[a], s1[b]) by {
        let n = s_mid.len() as int;
        if b < n {
            assert(s1[a] == s_mid[a] && s1[b] == s_mid[b]);
            assert(reached_earlier(m, done, k, s_mid[a], s_mid[b]));
            let fa = first_adjacent(m, done, s_mid[a], k);
            assert(e[fa] == done[fa]);
        } else if a < n {
            assert(s1[a] == s_mid[a]);
            assert(s1[b] == u[b - n]);
        } else {
            assert(s1[a] == u[a - n]);
            assert(s1[b] == u[b - n]);
            assert(e[k] == cur);
        }
    }
}


/// Taking the top of the stack of a depth-first search explores the waiting
/// cell reached last and keeps the rest of the stack in order.
pub proof fn lemma_dfs_order_taken(m: &Maze, t: &ParentGrid, s0: Seq<Position>, done: Seq<Position>)
    requires
        s0.len() > 0,
        search_split(m, t, s0, done),
        reached_exactly(m, t, done),
        stack_in_order(m, s0, done),
        forall|j: int| 1 <= j < done.len() ==> #[trigger] explored_last_reached(m, done, j),
    ensures
        forall|j: int| 1 <= j < done.len() + 1 ==> #[trigger] explored_last_reached(m, done.push(s0.last()), j),
        stack_in_order(m, s0.drop_last(), done),
{
    lemma_split_pending(m, t, s0, done);
    lemma_dfs_took_last(m, t, s0, done);
    lemma_stack_popped(m, s0, done);
}

/// Taking the front of the queue of a breadth-first search explores the
/// waiting cell reached first and keeps the rest of the queue in order.
pub proof fn lemma_bfs_order_taken(m: &Maze, t: &ParentGrid, q0: Seq<Position>, done: Seq<Position>)
    requires
        q0.len() > 0,
        search_split(m, t, q0, done),
        reached_exactly(m, t, done),
        stack_in_order(m, q0, done),
        forall|j: int| 1 <= j < done.len() ==> #[trigger] explored_first_reached(m, done, j),
    ensures
        forall|j: int| 1 <= j < done.len() + 1 ==> #[trigger] explored_first_reached(m, done.push(q0[0]), j),
        stack_in_order(m, q0.subrange(1, q0.len() as int), done),
{
    reveal(reached_exactly);
    reveal(stack_in_order);
    reveal(explored_first_reached);
    lemma_split_pending(m, t, q0, done);
    let k = done.len() as int;
    let cur = q0[0];
    let e = done.push(cur);
    assert forall|l: int| 0 <= l < k implies done[l] == e[l] by {}
    assert(e.subrange(0, k) =~= done);
    assert forall|c: Position| first_adjacent(m, e, c, k) == first_adjacent(m, done, c, k) by {
        lemma_first_adjacent_prefix(m, done, e, c, k);
    }
    assert forall|j: int| 1 <= j < k + 1 implies #[trigger] explored_first_reached(m, e, j) by {
        if j < k {
            assert(explored_first_reached(m, done, j));
            assert(e.subrange(0, j) =~= done.subrange(0, j));
            assert forall|c: Position| first_adjacent(m, e, c, j) == first_adjacent(m, done, c, j) by {
                lemma_first_adjacent_prefix(m, done, e, c, j);
            }
            assert forall|c: Position| #[trigger] waiting(m, e, j, c) && c != e[j] implies reached_earlier(m, e, j, e[j], c) by {
                assert(waiting(m, done, j, c));
                lemma_first_adjacent(m, done, c, j);
                lemma_first_adjacent(m, done, done[j], j);
            }
        } else {
            assert(e[k] == cur);
            assert(t.recorded(cur));
            assert(waiting(m, e, k, cur));
            assert forall|c: Position| #[trigger] waiting(m, e, k, c) && c != e[k] implies reached_earlier(m, e, k, e[k], c) by {
                assert(t.recorded(c));
                assert(q0.contains(c));
                let a = choose|a: int| 0 <= a < q0.len() && q0[a] == c;
                assert(a > 0);
                assert(reached_earlier(m, done, k, q0[0], q0[a]));
                lemma_first_adjacent(m, done, c, k);
                lemma_first_adjacent(m, done, cur, k);
            }
        }
    }
    let q = q0.subrange(1, q0.len() as int);
    assert forall|a: int, b: int| #![trigger q[a], q[b]] 0 <= a < b < q.len() implies reached_earlier(m, done, k, q[a], q[b]) by {
        assert(q[a] == q0[a + 1] && q[b] == q0[b + 1]);
    }
}

/// Expanding the cell explored last, by adding its unreached neighbours in
/// the order north, east, south, west after the waiting cells, keeps the
/// waiting cells in order.
pub proof fn lemma_order_expanded(
    m: &Maze,
    t0: &ParentGrid,
    t1: &ParentGrid,
    s_mid: Seq<Position>,
    s1: Seq<Position>,
    done: Seq<Position>,
    cur: Position,
)
    requires
        m.in_bounds(cur),
        search_split(m, t0, s_mid, done.push(cur)),
        search_split(m, t1, s1, done.push(cur)),
        reached_exactly(m, t0, done),
        stack_in_order(m, s_mid, done),
        s1 == s_mid + m.neighbor_seq(cur).filter(unreached_in(t0)),
        forall|c: Position| m.in_bounds(c) && #[trigger] t0.recorded(c) ==> t1.at(c) == t0.at(c),
    ensures
        reached_exactly(m, t1, done.push(cur)),
        stack_in_order(m, s1, done.push(cur)),
{
    let e = done.push(cur);
    lemma_split_pending(m, t0, s_mid, e);
    lemma_split_pending(m, t1, s1, e);
    lemma_split_done(m, t0, s_mid, e);
    assert(e[0] == Maze::start());
    assert(e.contains(Maze::start()));
    assert(t0.recorded(Maze::start()));
    assert forall|i: int| 0 <= i < s_mid.len() implies m.in_bounds(#[trigger] s_mid[i]) && t0.recorded(s_mid[i])
        && s_mid[i] != Maze::start() by {
        if s_mid[i] == Maze::start() {
            assert(s_mid.contains(s_mid[i]));
        }
    }
    assert forall|c: Position| m.in_bounds(c) && #[trigger] t0.recorded(c) implies t1.recorded(c) by {
        assert(t1.at(c) == t0.at(c));
    }
    assert forall|c: Position| m.in_bounds(c) && #[trigger] t1.recorded(c) implies e.contains(c) || s1.contains(c) by {}
    lemma_pushed_in_order(m, t0, t1, s_mid, s1, done, cur);
}

/// At the start the stack holds the corner alone.
pub proof fn lemma_finder_started(m: &Maze)
    ensures
        stack_by_finder(m, seq![Maze::start()], Seq::empty()),
{
    reveal(stack_by_finder);
}

/// Taking the top of a stack kept in order of the cells reached from
/// explores a cell reached from the latest explored cell with a waiting
/// neighbour, and keeps the rest of the stack in that order.
pub proof fn lemma_latest_taken(m: &Maze, t: &ParentGrid, s0: Seq<Position>, done: Seq<Position>)
    requires
        s0.len() > 0,
        search_split(m, t, s0, done),
        reached_exactly(m, t, done),
        stack_by_finder(m, s0, done),
        forall|j: int| 1 <= j < done.len() ==> #[trigger] explored_from_latest(m, done, j),
    ensures
        forall|j: int| 1 <= j < done.len() + 1 ==> #[trigger] explored_from_latest(m, done.push(s0.last()), j),
        stack_by_finder(m, s0.drop_last(), done),
{
    reveal(reached_exactly);
    reveal(stack_by_finder);
    reveal(explored_from_latest);
    lemma_split_pending(m, t, s0, done);
    let k = done.len() as int;
    let cur = s0.last();
    let e = done.push(cur);
    assert forall|l: int| 0 <= l < k implies done[l] == e[l] by {}
    assert(e.subrange(0, k) =~= done);
    assert forall|j: int| 1 <= j < k + 1 implies #[trigger] explored_from_latest(m, e, j) by {
        assert(e.subrange(0, j) =~= done.subrange(0, j) || j == k);
        assert forall|c: Position| first_adjacent(m, e, c, j) == first_adjacent(m, done, c, j) by {
            lemma_first_adjacent_prefix(m, done, e, c, j);
        }
        if j < k {
            assert(explored_from_latest(m, done, j));
            assert(e.subrange(0, j) =~= done.subrange(0, j));
            assert forall|c: Position| #[trigger] waiting(m, e, j, c) implies first_adjacent(m, e, c, j) <= first_adjacent(m, e, e[j], j) by {
                assert(waiting(m, done, j, c));
            }
        } else {
            assert(e[k] == cur);
            assert(s0[s0.len() - 1] == cur);
            assert(t.recorded(cur));
            assert(waiting(m, e, k, cur));
            assert forall|c: Position| #[trigger] waiting(m, e, k, c) implies first_adjacent(m, e, c, k) <= first_adjacent(m, e, e[k], k) by {
                assert(t.recorded(c));
                assert(s0.contains(c));
                let a = choose|a: int| 0 <= a < s0.len() && s0[a] == c;
                if a < s0.len() - 1 {
                    assert(first_adjacent(m, done, s0[a], k) <= first_adjacent(m, done, s0[s0.len() - 1], k));
                }
            }
        }
    }
    let s = s0.drop_last();
    assert forall|a: int, b: int| #![trigger s[a], s[b]] 0 <= a < b < s.len() implies first_adjacent(m, done, s[a], k)
        <= first_adjacent(m, done, s[b], k) by {
        assert(s[a] == s0[a] && s[b] == s0[b]);
    }
}

/// Expanding the cell explored last, by pushing its unreached neighbours in
/// any order, keeps the stack in order of the cells reached from.
pub proof fn lemma_finder_expanded(
    m: &Maze,
    t0: &ParentGrid,
    t1: &ParentGrid,
    s_mid: Seq<Position>,
    s1: Seq<Position>,
    done: Seq<Position>,
    cur: Position,
    ns: Seq<Position>,
)
    requires
        m.in_bounds(cur),
        search_split(m, t0, s_mid, done.push(cur)),
        search_split(m, t1, s1, done.push(cur)),
        reached_exactly(m, t0, done),
        stack_by_finder(m, s_mid, done),
        forall|i: int| 0 <= i < ns.len() ==> m.step(cur, #[trigger] ns[i]),
        forall|u: Position| m.step(cur, u) ==> ns.contains(u),
        s1 == s_mid + ns.filter(unreached_in(t0)),
        forall|c: Position| m.in_bounds(c) && #[trigger] t0.recorded(c) ==> t1.at(c) == t0.at(c),
    ensures
        reached_exactly(m, t1, done.push(cur)),
        stack_by_finder(m, s1, done.push(cur)),
{
    reveal(reached_exactly);
    reveal(stack_by_finder);
    let k = done.len() as int;
    let e = done.push(cur);
    let u = ns.filter(unreached_in(t0));
    lemma_split_pending(m, t0, s_mid, e);
    lemma_split_pending(m, t1, s1, e);
    lemma_split_done(m, t0, s_mid, e);
    assert(e[0] == Maze::start());
    assert(e.contains(Maze::start()));
    assert forall|c: Position| #[trigger] u.contains(c) <==> (m.step(cur, c) && !t0.recorded(c)) by {
        if u.contains(c) {
            ns.lemma_filter_contains_rev(unreached_in(t0), c);
            let i = choose|i: int| 0 <= i < u.len() && u[i] == c;
            ns.lemma_filter_pred(unreached_in(t0), i);
            let j = choose|j: int| 0 <= j < ns.len() && ns[j] == c;
            assert(m.step(cur, ns[j]));
        }
        if m.step(cur, c) && !t0.recorded(c) {
            assert(ns.contains(c));
            let j = choose|j: int| 0 <= j < ns.len() && ns[j] == c;
            ns.lemma_filter_contains(unreached_in(t0), j);
        }
    }
    assert forall|c: Position| first_adjacent(m, e, c, k + 1) == (if first_adjacent(m, done, c, k) >= 0 {
        first_adjacent(m, done, c, k)
    } else if m.step(cur, c) {
        k
    } else {
        -1
    }) by {
        lemma_first_adjacent_push(m, done, cur, c);
    }
    assert forall|c: Position| m.in_bounds(c) implies (#[trigger] t1.recorded(c) <==> (c == Maze::start() || first_adjacent(
        m,
        e,
        c,
        k + 1,
    ) >= 0)) by {
        lemma_first_adjacent(m, done, c, k);
        assert(t0.recorded(c) <==> (c == Maze::start() || first_adjacent(m, done, c, k) >= 0));
        if t0.recorded(c) {
            assert(t1.at(c) == t0.at(c));
        }
        if t1.recorded(c) && !t0.recorded(c) {
            if e.contains(c) {
                let i = choose|i: int| 0 <= i < e.len() && e[i] == c;
                assert(t0.recorded(e[i]));
            }
            assert(s1.contains(c));
            let i = choose|i: int| 0 <= i < s1.len() && s1[i] == c;
            if i < s_mid.len() {
                assert(s1[i] == s_mid[i]);
                assert(t0.recorded(s_mid[i]));
            } else {
                assert(s1[i] == u[i - s_mid.len()]);
                assert(u.contains(c));
            }
        }
        if m.step(cur, c) && !t0.recorded(c) {
            assert(u.contains(c));
            let i = choose|i: int| 0 <= i < u.len() && u[i] == c;
            assert(s1[s_mid.len() + i] == c);
            assert(t1.recorded(s1[s_mid.len() + i]));
        }
    }
    assert forall|i: int| 0 <= i < u.len() implies first_adjacent(m, e, #[trigger] u[i], k + 1) == k by {
        assert(u.contains(u[i]));
        lemma_first_adjacent(m, done, u[i], k);
        assert(t0.recorded(Maze::start()));
        assert(u[i] != Maze::start());
    }
    assert forall|i: int| 0 <= i < s_mid.len() implies 0 <= first_adjacent(m, e, #[trigger] s_mid[i], k + 1) < k
        && first_adjacent(m, e, s_mid[i], k + 1) == first_adjacent(m, done, s_mid[i], k) by {
        assert(m.in_bounds(s_mid[i]) && t0.recorded(s_mid[i]));
        if s_mid[i] == Maze::start() {
            assert(s_mid.contains(s_mid[i]));
        }
        assert(t0.recorded(s_mid[i]) <==> (s_mid[i] == Maze::start() || first_adjacent(m, done, s_mid[i], k) >= 0));
        lemma_first_adjacent(m, done, s_mid[i], k);
    }
    assert forall|a: int, b: int| #![trigger s1[a], s1[b]] 0 <= a < b < s1.len() implies first_adjacent(m, e, s1[a], k + 1)
        <= first_adjacent(m, e, s1[b], k + 1) by {
        let n = s_mid.len() as int;
        if b < n {
            assert(s1[a] == s_mid[a] && s1[b] == s_mid[b]);
        } else if a < n {
            assert(s1[a] == s_mid[a]);
            assert(s1[b] == u[b - n]);
        } else {
            assert(s1[a] == u[a - n]);
            assert(s1[b] == u[b - n]);
        }
    }
}

/// At the start only the corner is reached.
pub proof fn lemma_parents_started(m: &Maze, t: &ParentGrid)
    requires
        forall|v: Position| m.in_bounds(v) && #[trigger] t.recorded(v) ==> v == Maze::start(),
    ensures
        parents_first(m, t, Seq::empty()),
{
    reveal(parents_first);
}

/// Reaching the unreached neighbours of the cell explored last, with that
/// cell as parent, keeps every parent the first explored cell next to its
/// child.
pub proof fn lemma_parents_expanded(
    m: &Maze,
    t0: &ParentGrid,
    t1: &ParentGrid,
    done: Seq<Position>,
    cur: Position,
)
    requires
        reached_exactly(m, t0, done),
        parents_first(m, t0, done),
        forall|c: Position| m.in_bounds(c) && #[trigger] t0.recorded(c) ==> t1.at(c) == t0.at(c),
        forall|c: Position| m.in_bounds(c) && #[trigger] t1.recorded(c) && !t0.recorded(c) ==> t1.at(c) == Some(cur) && m.step(cur, c),
    ensures
        parents_first(m, t1, done.push(cur)),
{
    reveal(reached_exactly);
    reveal(parents_first);
    let k = done.len() as int;
    let e = done.push(cur);
    assert forall|c: Position| m.in_bounds(c) && #[trigger] t1.recorded(c) && c != Maze::start() implies first_adjacent(
        m,
        e,
        c,
        k + 1,
    ) >= 0 && t1.at(c) == Some(e[first_adjacent(m, e, c, k + 1)]) by {
        lemma_first_adjacent_push(m, done, cur, c);
        lemma_first_adjacent(m, done, c, k);
        if t0.recorded(c) {
            assert(t1.at(c) == t0.at(c));
            assert(first_adjacent(m, done, c, k) >= 0);
            assert(e[first_adjacent(m, done, c, k)] == done[first_adjacent(m, done, c, k)]);
        } else {
            assert(!(c == Maze::start() || first_adjacent(m, done, c, k) >= 0));
            assert(e[k] == cur);
        }
    }
}

/// Exploring one more cell keeps every parent the first explored cell next
/// to its child.
pub proof fn lemma_parents_push(m: &Maze, t: &ParentGrid, done: Seq<Position>, p: Position)
    requires
        parents_first(m, t, done),
    ensures
        parents_first(m, t, done.push(p)),
{
    reveal(parents_first);
    let k = done.len() as int;
    let e = done.push(p);
    assert forall|c: Position| m.in_bounds(c) && #[trigger] t.recorded(c) && c != Maze::start() implies first_adjacent(
        m,
        e,
        c,
        k + 1,
    ) >= 0 && t.at(c) == Some(e[first_adjacent(m, e, c, k + 1)]) by {
        lemma_first_adjacent_push(m, done, p, c);
        lemma_first_adjacent(m, done, c, k);
        assert(e[first_adjacent(m, done, c, k)] == done[first_adjacent(m, done, c, k)]);
    }
}

/// The parents read from the trace are the first explored cells next to
/// their children.
pub proof fn lemma_parents_output(
    m: &Maze,
    t: &ParentGrid,
    pending: Seq<Position>,
    done: Seq<Position>,
    trace: Seq<SearchStep>,
)
    requires
        search_split(m, t, pending, done),
        parents_first(m, t, done),
        trace_follows(t, trace, done),
        explored_cells(trace) == done,
    ensures
        reached_from_first(m, trace),
{
    reveal(parents_first);
    lemma_split_done(m, t, pending, done);
    lemma_split_parents(m, t, pending, done);
    let n = done.len() as int;
    assert forall|j: int| 1 <= j < done.len() implies (#[trigger] trace[j - 1]).from == done[first_adjacent(m, done, done[j], j)] by {
        let c = done[j];
        assert(m.in_bounds(c) && t.recorded(c));
        assert(c != Maze::start()) by {
            assert(done[0] == Maze::start());
        }
        let i0 = first_adjacent(m, done, c, n);
        lemma_first_adjacent(m, done, c, n);
        assert(0 <= i0 < n);
        assert(t.at(c) == Some(done[i0]));
        assert(trace[j - 1].from == t.at(done[j])->0);
        assert(done.subrange(0, j).contains(t.at(c)->0));
        let i1 = choose|i1: int| 0 <= i1 < j && done.subrange(0, j)[i1] == t.at(c)->0;
        assert(done[i1] == done[i0]);
        assert(i1 == i0);
        lemma_first_adjacent(m, done, c, n);
        lemma_first_adjacent(m, done, c, j);
    }
}

/// What `first_adjacent` finds.
pub proof fn lemma_first_adjacent(m: &Maze, e: Seq<Position>, c: Position, n: int)
    requires
        0 <= n,
    ensures
        -1 <= first_adjacent(m, e, c, n) < n,
        first_adjacent(m, e, c, n) >= 0 ==> m.step(e[first_adjacent(m, e, c, n)], c),
        forall|l: int| 0 <= l < n && m.step(e[l], c) ==> first_adjacent(m, e, c, n) >= 0 && first_adjacent(m, e, c, n) <= l,
    decreases n,
{
    if n > 0 {
        lemma_first_adjacent(m, e, c, n - 1);
    }
}

/// `first_adjacent` looks at the first `n` cells only.
pub proof fn lemma_first_adjacent_prefix(m: &Maze, e: Seq<Position>, e2: Seq<Position>, c: Position, n: int)
    requires
        0 <= n <= e.len(),
        n <= e2.len(),
        forall|l: int| 0 <= l < n ==> e[l] == e2[l],
    ensures
        first_adjacent(m, e, c, n) == first_adjacent(m, e2, c, n),
    decreases n,
{
    if n > 0 {
        lemma_first_adjacent_prefix(m, e, e2, c, n - 1);
    }
}

/// Exploring one more cell `p`: a cell reached before keeps its index, and
/// a cell one move from `p` and not reached before gets the index of `p`.
pub proof fn lemma_first_adjacent_push(m: &Maze, e: Seq<Position>, p: Position, c: Position)
    ensures
        first_adjacent(m, e.push(p), c, e.len() as int + 1) == (if first_adjacent(m, e, c, e.len() as int) >= 0 {
            first_adjacent(m, e, c, e.len() as int)
        } else if m.step(p, c) {
            e.len() as int
        } else {
            -1
        }),
{
    assert forall|l: int| 0 <= l < e.len() implies e[l] == e.push(p)[l] by {}
    lemma_first_adjacent_prefix(m, e, e.push(p), c, e.len() as int);
    assert(e.push(p)[e.len() as int] == p);
}

/// Whether the `j`-th cell was reached last depends on the first `j + 1`
/// cells only.
pub proof fn lemma_order_prefix(m: &Maze, e: Seq<Position>, e2: Seq<Position>, j: int)
    requires
        0 <= j < e.len(),
        j < e2.len(),
        forall|l: int| 0 <= l <= j ==> e[l] == e2[l],
        explored_last_reached(m, e, j),
    ensures
        explored_last_reached(m, e2, j),
{
    reveal(explored_last_reached);
    assert(e.subrange(0, j) =~= e2.subrange(0, j));
    assert forall|c: Position| first_adjacent(m, e, c, j) == first_adjacent(m, e2, c, j) by {
        lemma_first_adjacent_prefix(m, e, e2, c, j);
    }
    assert forall|c: Position| #[trigger] waiting(m, e2, j, c) && c != e2[j] implies reached_earlier(m, e2, j, c, e2[j]) by {
        assert(waiting(m, e, j, c));
        assert(reached_earlier(m, e, j, c, e[j]));
        lemma_first_adjacent(m, e, c, j);
        lemma_first_adjacent(m, e, e[j], j);
    }
}

/// The moves out of a cell come in the order north, east, south, west.
pub proof fn lemma_neighbor_compass(m: &Maze, p: Position)
    requires
        m.in_bounds(p),
    ensures
        forall|a: int, b: int|
            0 <= a < b < m.neighbor_seq(p).len() ==> compass(p, #[trigger] m.neighbor_seq(p)[a]) < compass(
                p,
                #[trigger] m.neighbor_seq(p)[b],
            ),
{
    let s = m.neighbor_seq(p);
    let n0: Seq<Position> = if m.open_toward(p, Direction::North) { seq![moved(p, Direction::North)] } else { seq![] };
    let n1: Seq<Position> = if m.open_toward(p, Direction::East) { seq![moved(p, Direction::East)] } else { seq![] };
    let n2: Seq<Position> = if m.open_toward(p, Direction::South) { seq![moved(p, Direction::South)] } else { seq![] };
    let n3: Seq<Position> = if m.open_toward(p, Direction::West) { seq![moved(p, Direction::West)] } else { seq![] };
    assert(s == n0 + n1 + n2 + n3);
    let c0 = n0.len() as int;
    let c1 = c0 + n1.len();
    let c2 = c1 + n2.len();
    assert forall|i: int| 0 <= i < s.len() implies compass(p, #[trigger] s[i]) == (if i < c0 {
        0int
    } else if i < c1 {
        1int
    } else if i < c2 {
        2int
    } else {
        3int
    }) by {
        if i < c0 {
            assert(s[i] == moved(p, Direction::North));
        } else if i < c1 {
            assert(s[i] == moved(p, Direction::East));
        } else if i < c2 {
            assert(s[i] == moved(p, Direction::South));
        } else {
            assert(s[i] == moved(p, Direction::West));
        }
    }
}

/// Keeping the elements that satisfy `pred` keeps a strictly increasing
/// order by `compass` from `p`.
pub proof fn lemma_filter_keeps_order(s: Seq<Position>, pred: spec_fn(Position) -> bool, p: Position)
    requires
        forall|a: int, b: int| 0 <= a < b < s.len() ==> compass(p, #[trigger] s[a]) < compass(p, #[trigger] s[b]),
    ensures
        forall|a: int, b: int|
            0 <= a < b < s.filter(pred).len() ==> compass(p, #[trigger] s.filter(pred)[a]) < compass(
                p,
                #[trigger] s.filter(pred)[b],
            ),
    decreases s.len(),
{
    reveal(Seq::filter);
    if s.len() > 0 {
        let rest = s.drop_last();
        assert forall|a: int, b: int| 0 <= a < b < rest.len() implies compass(p, #[trigger] rest[a]) < compass(
            p,
            #[trigger] rest[b],
        ) by {
            assert(rest[a] == s[a] && rest[b] == s[b]);
        }
        lemma_filter_keeps_order(rest, pred, p);
        let f = rest.filter(pred);
        if pred(s.last()) {
            let g = f.push(s.last());
            assert(s.filter(pred) == g);
            assert forall|a: int| 0 <= a < f.len() implies compass(p, #[trigger] f[a]) < compass(p, s.last()) by {
                rest.lemma_filter_contains_rev(pred, f[a]);
                assert(f.contains(f[a]));
                let i = choose|i: int| 0 <= i < rest.len() && rest[i] == f[a];
                assert(s[i] == f[a]);
            }
            assert forall|a: int, b: int| 0 <= a < b < g.len() implies compass(p, #[trigger] g[a]) < compass(p, #[trigger] g[b]) by {
                if b < f.len() {
                    assert(g[a] == f[a] && g[b] == f[b]);
                } else {
                    assert(g[a] == f[a]);
                }
            }
        } else {
            assert(s.filter(pred) == f);
        }
    }
}

} // verus!
