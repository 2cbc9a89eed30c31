use vstd::prelude::*;

use crate::grid::grid_total;
use crate::solver::search::{direction_of, Direction, Position};

verus! {

/// One square of the grid: a flag used while carving, and its four walls.
#[derive(Debug, Clone, Copy, PartialEq, Eq, Structural)]
pub struct Cell {
    pub visited: bool,
    pub north: bool,
    pub east: bool,
    pub south: bool,
    pub west: bool,
}

impl Cell {
    /// A fresh cell: not yet visited, with all four walls standing.
    pub open spec fn closed() -> Cell {
        Cell { visited: false, north: true, east: true, south: true, west: true }
    }

    pub fn new() -> (cell: Self)
        ensures
            cell == Cell::closed(),
    {
        Cell { visited: false, north: true, east: true, south: true, west: true }
    }
}

/// 1 for a cell whose `visited` flag is set.
pub open spec fn visited_indicator() -> spec_fn(Cell, int, int) -> int {
    |c: Cell, x: int, y: int| if c.visited { 1int } else { 0int }
}

/// The open passages that a cell owns: its east side and its south side,
/// each counted when it lies inside a grid of the given size.
pub open spec fn passage_indicator(width: int, height: int) -> spec_fn(Cell, int, int) -> int {
    |c: Cell, x: int, y: int|
        (if x + 1 < width && !c.east { 1int } else { 0int }) + (if y + 1 < height && !c.south {
            1int
        } else {
            0int
        })
}

/// The position reached from `p` by one move in direction `d`.
pub open spec fn moved(p: Position, d: Direction) -> Position {
    match d {
        Direction::North => (p.0, (p.1 - 1) as usize),
        Direction::East => ((p.0 + 1) as usize, p.1),
        Direction::South => (p.0, (p.1 + 1) as usize),
        Direction::West => ((p.0 - 1) as usize, p.1),
    }
}

/// A rectangular maze: `cells[y][x]` is the cell in column `x` of row `y`.
pub struct Maze {
    pub width: usize,
    pub height: usize,
    pub cells: Vec<Vec<Cell>>,
}

impl Maze {
    /// The cells as a sequence of rows.
    pub open spec fn grid(&self) -> Seq<Seq<Cell>> {
        self.cells@.map_values(|row: Vec<Cell>| row@)
    }

    pub open spec fn cell(&self, x: int, y: int) -> Cell {
        self.cells@[y]@[x]
    }

    /// Every row exists and holds `width` cells (the dimensions may be zero).
    pub open spec fn has_shape(&self) -> bool {
        &&& self.cells@.len() == self.height
        &&& forall|y: int| 0 <= y < self.height ==> (#[trigger] self.cells@[y]@.len()) == self.width
    }

    /// Non-empty and shaped as its dimensions say.
    pub open spec fn well_shaped(&self) -> bool {
        &&& self.width > 0
        &&& self.height > 0
        &&& self.has_shape()
    }

    /// Twice the number of cells fits in a `usize`: a machine limit, met by
    /// every maze whose cells are held in memory.
    pub open spec fn cells_fit(&self) -> bool {
        2 * self.width * self.height <= usize::MAX
    }

    pub open spec fn in_bounds(&self, p: Position) -> bool {
        p.0 < self.width && p.1 < self.height
    }

    /// The cell at `p` lets one move in direction `d` without leaving the grid.
    pub open spec fn open_toward(&self, p: Position, d: Direction) -> bool {
        let c = self.cell(p.0 as int, p.1 as int);
        match d {
            Direction::North => !c.north && p.1 > 0,
            Direction::East => !c.east && p.0 + 1 < self.width,
            Direction::South => !c.south && p.1 + 1 < self.height,
            Direction::West => !c.west && p.0 > 0,
        }
    }

    /// One move from `a` to the adjacent position `b` through an open side of `a`.
    pub open spec fn step(&self, a: Position, b: Position) -> bool {
        &&& self.in_bounds(a)
        &&& match direction_of(a, b) {
            Some(d) => self.open_toward(a, d),
            None => false,
        }
    }

    /// The positions reachable by one move from `p`, in the order
    /// north, east, south, west.
    pub open spec fn neighbor_seq(&self, p: Position) -> Seq<Position> {
        (if self.open_toward(p, Direction::North) { seq![moved(p, Direction::North)] } else { seq![] })
            + (if self.open_toward(p, Direction::East) { seq![moved(p, Direction::East)] } else { seq![] })
            + (if self.open_toward(p, Direction::South) { seq![moved(p, Direction::South)] } else { seq![] })
            + (if self.open_toward(p, Direction::West) { seq![moved(p, Direction::West)] } else { seq![] })
    }

    pub open spec fn linked(&self, s: Seq<Position>, i: int) -> bool {
        self.step(s[i], s[i + 1])
    }

    /// A non-empty sequence of positions, each one move from the one before.
    pub open spec fn is_walk(&self, s: Seq<Position>) -> bool {
        &&& s.len() > 0
        &&& self.in_bounds(s[0])
        &&& forall|i: int| 0 <= i < s.len() - 1 ==> #[trigger] self.linked(s, i)
    }

    pub open spec fn is_walk_between(&self, s: Seq<Position>, a: Position, b: Position) -> bool {
        &&& self.is_walk(s)
        &&& s[0] == a
        &&& s.last() == b
    }

    /// `b` can be reached from `a` by a walk.
    pub open spec fn reachable(&self, a: Position, b: Position) -> bool {
        exists|s: Seq<Position>| #[trigger] self.is_walk_between(s, a, b)
    }

    /// The number of cells whose `visited` flag is set.
    pub open spec fn visited_count(&self) -> int {
        grid_total(self.grid(), visited_indicator(), self.height as int)
    }

    /// The number of open passages between two cells of the grid.
    pub open spec fn passage_count(&self) -> int {
        grid_total(self.grid(), passage_indicator(self.width as int, self.height as int), self.height as int)
    }

    /// Each side shared by two cells is open from both of them or from neither.
    pub open spec fn walls_consistent(&self) -> bool {
        forall|x: int, y: int|
            0 <= x < self.width && 0 <= y < self.height ==> {
                &&& (x + 1 < self.width ==> (#[trigger] self.cell(x, y)).east == self.cell(x + 1, y).west)
                &&& (y + 1 < self.height ==> self.cell(x, y).south == self.cell(x, y + 1).north)
            }
    }

    pub open spec fn start() -> Position {
        (0, 0)
    }

    /// The lower-right corner.
    pub open spec fn exit(&self) -> Position {
        ((self.width - 1) as usize, (self.height - 1) as usize)
    }

    /// Every cell can be reached from the upper-left corner.
    pub open spec fn fully_connected(&self) -> bool {
        forall|p: Position| self.in_bounds(p) ==> #[trigger] self.reachable(Self::start(), p)
    }

    /// A perfect maze: well shaped, with consistent walls, every cell
    /// reachable from the upper-left corner, and exactly one passage fewer
    /// than cells.
    pub open spec fn is_perfect(&self) -> bool {
        &&& self.well_shaped()
        &&& self.walls_consistent()
        &&& self.fully_connected()
        &&& self.passage_count() == self.width * self.height - 1
    }

    /// Returns the positions that can be reached by one move from `position`,
    /// in the order north, east, south, west.
    pub fn neighbors(&self, position: Position) -> (result: Vec<Position>)
        requires
            position.1 < self.cells@.len(),
            position.0 < self.cells@[position.1 as int]@.len(),
        ensures
            result@ == self.neighbor_seq(position),
            result@.no_duplicates(),
            self.in_bounds(position) ==> forall|i: int|
                0 <= i < result.len() ==> self.step(position, #[trigger] result@[i]),
            self.in_bounds(position) ==> forall|q: Position| self.step(position, q) <==> result@.contains(q),
    {
        let (x, y) = position;
        let cell = &self.cells[y][x];
        let mut neighbors: Vec<Position> = Vec::new();
        if !cell.north && y > 0 {
            neighbors.push((x, y - 1));
        }
        if !cell.east && self.width > 0 && x < self.width - 1 {
            neighbors.push((x + 1, y));
        }
        if !cell.south && self.height > 0 && y < self.height - 1 {
            neighbors.push((x, y + 1));
        }
        if !cell.west && x > 0 {
            neighbors.push((x - 1, y));
        }
        proof {
            assert(neighbors@ =~= self.neighbor_seq(position));
            if self.in_bounds(position) {
                lemma_neighbor_seq(self, position);
            }
        }
        neighbors
    }

    pub fn new(width: usize, height: usize) -> (maze: Self)
        ensures
            maze.width == width,
            maze.height == height,
            maze.has_shape(),
            forall|x: int, y: int|
                0 <= x < width && 0 <= y < height ==> maze.cell(x, y) == Cell::closed(),
    {
        let mut cells: Vec<Vec<Cell>> = Vec::new();
        let mut y: usize = 0;
        while y < height
            invariant
                y <= height,
                cells@.len() == y,
                forall|j: int| 0 <= j < y ==> (#[trigger] cells@[j]@.len()) == width,
                forall|j: int, x: int|
                    0 <= j < y && 0 <= x < width ==> cells@[j]@[x] == Cell::closed(),
            decreases height - y,
        {
            let mut row: Vec<Cell> = Vec::new();
            let mut x: usize = 0;
            while x < width
                invariant
                    x <= width,
                    row@.len() == x,
                    forall|i: int| 0 <= i < x ==> row@[i] == Cell::closed(),
                decreases width - x,
            {
                row.push(Cell::new());
                x = x + 1;
            }
            cells.push(row);
            y = y + 1;
        }
        Maze { width, height, cells }
    }
}

/// The moves out of a cell are exactly the open sides listed by `neighbor_seq`.
pub proof fn lemma_neighbor_seq(maze: &Maze, p: Position)
    requires
        maze.in_bounds(p),
    ensures
        forall|i: int|
            0 <= i < maze.neighbor_seq(p).len() ==> maze.step(p, #[trigger] maze.neighbor_seq(p)[i]),
        forall|q: Position| maze.step(p, q) <==> maze.neighbor_seq(p).contains(q),
        maze.neighbor_seq(p).no_duplicates(),
{
    let s = maze.neighbor_seq(p);
    assert forall|q: Position| maze.step(p, q) implies s.contains(q) by {
        let d = direction_of(p, q)->0;
        assert(q == moved(p, d));
        let i: int = (if maze.open_toward(p, Direction::North) { 1int } else { 0int });
        let j: int = i + (if maze.open_toward(p, Direction::East) { 1int } else { 0int });
        let k: int = j + (if maze.open_toward(p, Direction::South) { 1int } else { 0int });
        match d {
            Direction::North => assert(s[0] == q),
            Direction::East => assert(s[i] == q),
            Direction::South => assert(s[j] == q),
            Direction::West => assert(s[k] == q),
        }
    }
}

/// A move in an open direction stays on the grid and is a step.
pub proof fn lemma_step_moved(maze: &Maze, p: Position, d: Direction)
    requires
        maze.in_bounds(p),
        maze.open_toward(p, d),
    ensures
        maze.step(p, moved(p, d)),
        maze.in_bounds(moved(p, d)),
        direction_of(p, moved(p, d)) == Some(d),
{
}

/// Both ends of a step lie on the grid.
pub proof fn lemma_step_in_bounds(maze: &Maze, a: Position, b: Position)
    requires
        maze.step(a, b),
    ensures
        maze.in_bounds(a),
        maze.in_bounds(b),
        b == moved(a, direction_of(a, b)->0),
{
}

/// Every position on a walk lies on the grid.
pub proof fn lemma_walk_in_bounds(maze: &Maze, s: Seq<Position>)
    requires
        maze.is_walk(s),
    ensures
        forall|i: int| 0 <= i < s.len() ==> maze.in_bounds(#[trigger] s[i]),
{
    assert forall|i: int| 0 <= i < s.len() implies maze.in_bounds(#[trigger] s[i]) by {
        if i > 0 {
            assert(maze.linked(s, i - 1));
        }
    }
}

/// Every position is reachable from itself.
pub proof fn lemma_reachable_refl(maze: &Maze, a: Position)
    requires
        maze.in_bounds(a),
    ensures
        maze.reachable(a, a),
{
    let s = seq![a];
    assert(maze.is_walk_between(s, a, a));
}

/// Reachability extends by one step.
pub proof fn lemma_reachable_step(maze: &Maze, a: Position, b: Position, c: Position)
    requires
        maze.reachable(a, b),
        maze.step(b, c),
    ensures
        maze.reachable(a, c),
{
    let s = choose|s: Seq<Position>| maze.is_walk_between(s, a, b);
    let t = s.push(c);
    assert forall|i: int| 0 <= i < t.len() - 1 implies #[trigger] maze.linked(t, i) by {
        if i < s.len() - 1 {
            assert(maze.linked(s, i));
        }
    }
    assert(maze.is_walk_between(t, a, c));
}

/// A set that holds `a` and is closed under steps holds every position
/// reachable from `a`.
pub proof fn lemma_closed_set_holds_reachable(
    maze: &Maze,
    a: Position,
    b: Position,
    member: spec_fn(Position) -> bool,
)
    requires
        member(a),
        forall|u: Position, v: Position| member(u) && #[trigger] maze.step(u, v) ==> member(v),
        maze.reachable(a, b),
    ensures
        member(b),
{
    let s = choose|s: Seq<Position>| maze.is_walk_between(s, a, b);
    lemma_closed_set_holds_walk(maze, s, member, s.len() - 1);
}

proof fn lemma_closed_set_holds_walk(maze: &Maze, s: Seq<Position>, member: spec_fn(Position) -> bool, i: int)
    requires
        maze.is_walk(s),
        0 <= i < s.len(),
        member(s[0]),
        forall|u: Position, v: Position| member(u) && #[trigger] maze.step(u, v) ==> member(v),
    ensures
        member(s[i]),
    decreases i,
{
    if i > 0 {
        lemma_closed_set_holds_walk(maze, s, member, i - 1);
        assert(maze.linked(s, i - 1));
    }
}

/// `m2` has the same shape as `m1` and every side open in `m1` is open in `m2`.
pub open spec fn opens_at_least(m1: &Maze, m2: &Maze) -> bool {
    &&& m1.width == m2.width
    &&& m1.height == m2.height
    &&& forall|x: int, y: int|
        0 <= x < m1.width && 0 <= y < m1.height ==> {
            &&& (!(#[trigger] m1.cell(x, y)).north ==> !m2.cell(x, y).north)
            &&& (!m1.cell(x, y).east ==> !m2.cell(x, y).east)
            &&& (!m1.cell(x, y).south ==> !m2.cell(x, y).south)
            &&& (!m1.cell(x, y).west ==> !m2.cell(x, y).west)
        }
}

/// Opening more sides keeps every reachable position reachable.
pub proof fn lemma_reachable_opens(m1: &Maze, m2: &Maze, a: Position, b: Position)
    requires
        opens_at_least(m1, m2),
        m1.reachable(a, b),
    ensures
        m2.reachable(a, b),
{
    let s = choose|s: Seq<Position>| m1.is_walk_between(s, a, b);
    assert forall|i: int| 0 <= i < s.len() - 1 implies #[trigger] m2.linked(s, i) by {
        assert(m1.linked(s, i));
        let p = s[i];
        assert(m1.cell(p.0 as int, p.1 as int) == m1.cell(p.0 as int, p.1 as int));
    }
    assert(m2.is_walk_between(s, a, b));
}

} // verus!
