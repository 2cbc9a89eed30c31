use vstd::prelude::*;

use crate::maze::Maze;
use crate::solver::learned::{direction_index, direction_number};
use crate::solver::search::{direction_between, direction_of, CellMap, Direction, Position};
use crate::text::{decimal, push_decimal};

verus! {

/// One supervised-learning example made from a step of a teacher's path:
/// the state in which the decision was made, and the direction taken.
///
/// The model reads the walls and visited neighbours as they are, and the
/// position and goal as fractions of the maze's dimensions.
#[derive(Debug, Clone, Copy)]
pub struct TrainingExample {
    /// Where the decision is made.
    pub position: Position,
    /// The lower-right corner of the maze (0 on a side of length 0).
    pub goal: Position,
    /// The width and height of the maze.
    pub dimensions: (usize, usize),
    /// Whether each side of the cell has a wall: north, east, south, west.
    pub walls: [bool; 4],
    /// Whether the neighbour on each side lies earlier on the teacher's
    /// path: north, east, south, west.
    pub visited_neighbors: [bool; 4],
    /// The direction the teacher took.
    pub target_direction: Direction,
}

impl TrainingExample {
    /// The class of the target direction: north 0, east 1, south 2, west 3.
    pub fn target_index(&self) -> (index: usize)
        ensures
            index == direction_number(self.target_direction),
    {
        direction_index(self.target_direction)
    }
}

/// Why a teacher path cannot be turned into examples.
#[derive(Debug, Clone, Copy)]
pub enum TrainingExampleError {
    PathTooShort,
    PositionOutsideMaze { position: Position },
    NonAdjacentPositions { from: Position, to: Position },
    TeacherMovedThroughWall { from: Position, to: Position, direction: Direction },
}

/// The name of a direction.
pub open spec fn direction_name(direction: Direction) -> Seq<char> {
    match direction {
        Direction::North => "North"@,
        Direction::East => "East"@,
        Direction::South => "South"@,
        Direction::West => "West"@,
    }
}

/// A position written `(x, y)`.
pub open spec fn position_text(p: Position) -> Seq<char> {
    "("@ + decimal(p.0 as nat) + ", "@ + decimal(p.1 as nat) + ")"@
}

/// The sentence that describes an error.
pub open spec fn error_text(e: TrainingExampleError) -> Seq<char> {
    match e {
        TrainingExampleError::PathTooShort => "teacher path must contain at least two positions"@,
        TrainingExampleError::PositionOutsideMaze { position } => "teacher path position "@ + position_text(position)
            + " is outside the maze"@,
        TrainingExampleError::NonAdjacentPositions { from, to } => "teacher path contains non-adjacent positions: "@
            + position_text(from) + " to "@ + position_text(to),
        TrainingExampleError::TeacherMovedThroughWall { from, to, direction } =>
            "teacher attempted to move through a wall from "@ + position_text(from) + " to "@ + position_text(to)
            + " heading "@ + direction_name(direction),
    }
}

fn push_position(text: &mut String, p: Position)
    ensures
        final(text)@ == old(text)@ + position_text(p),
{
    text.append("(");
    push_decimal(text, p.0 as u128);
    text.append(", ");
    push_decimal(text, p.1 as u128);
    text.append(")");
    proof {
        assert(final(text)@ =~= old(text)@ + position_text(p));
    }
}

impl TrainingExampleError {
    /// The sentence that describes the error.
    pub fn message(&self) -> (text: String)
        ensures
            text@ == error_text(*self),
    {
        let mut text = String::new();
        match *self {
            TrainingExampleError::PathTooShort => {
                text.append("teacher path must contain at least two positions");
            },
            TrainingExampleError::PositionOutsideMaze { position } => {
                text.append("teacher path position ");
                push_position(&mut text, position);
                text.append(" is outside the maze");
            },
            TrainingExampleError::NonAdjacentPositions { from, to } => {
                text.append("teacher path contains non-adjacent positions: ");
                push_position(&mut text, from);
                text.append(" to ");
                push_position(&mut text, to);
            },
            TrainingExampleError::TeacherMovedThroughWall { from, to, direction } => {
                text.append("teacher attempted to move through a wall from ");
                push_position(&mut text, from);
                text.append(" to ");
                push_position(&mut text, to);
                text.append(" heading ");
                let name = match direction {
                    Direction::North => "North",
                    Direction::East => "East",
                    Direction::South => "South",
                    Direction::West => "West",
                };
                text.append(name);
            },
        }
        proof {
            assert(text@ =~= error_text(*self));
        }
        text
    }
}

/// For the cell at `p`, whether the cell one move north, east, south and
/// west lies on the grid and is among `visited`.
pub open spec fn visited_states(m: &Maze, p: Position, visited: Seq<Position>) -> Seq<bool> {
    seq![
        p.1 > 0 && visited.contains((p.0, (p.1 - 1) as usize)),
        p.0 + 1 < m.width && visited.contains(((p.0 + 1) as usize, p.1)),
        p.1 + 1 < m.height && visited.contains((p.0, (p.1 + 1) as usize)),
        p.0 > 0 && visited.contains(((p.0 - 1) as usize, p.1)),
    ]
}

/// The lower-right corner, with 0 on a side of length 0.
pub open spec fn goal_of(m: &Maze) -> Position {
    (if m.width > 0 { (m.width - 1) as usize } else { 0 }, if m.height > 0 { (m.height - 1) as usize } else { 0 })
}

/// `e` is the example made from the step of `path` that leaves its `i`-th
/// position.
pub open spec fn example_at(m: &Maze, path: Seq<Position>, i: int, e: TrainingExample) -> bool {
    let p = path[i];
    let c = m.cell(p.0 as int, p.1 as int);
    &&& e.position == p
    &&& e.goal == goal_of(m)
    &&& e.dimensions == (m.width, m.height)
    &&& e.walls@ == seq![c.north, c.east, c.south, c.west]
    &&& e.visited_neighbors@ == visited_states(m, p, path.subrange(0, i))
    &&& Some(e.target_direction) == direction_of(p, path[i + 1])
}

/// The flags that `visited_neighbor_states` gives for `p` are, in order,
/// whether the cell north, east, south and west of `p` lies on the grid and
/// is among `visited`; the flag of a side whose cell is off the grid is
/// false.
pub proof fn law_neighbor_flags_by_side(m: &Maze, p: Position, visited: Seq<Position>, q: Position)
    requires
        m.in_bounds(p),
        visited.contains(q),
    ensures
        visited_states(m, p, visited).len() == 4,
        q == (p.0, (p.1 - 1) as usize) && p.1 > 0 ==> visited_states(m, p, visited)[0],
        q == ((p.0 + 1) as usize, p.1) && p.0 + 1 < m.width ==> visited_states(m, p, visited)[1],
        q == (p.0, (p.1 + 1) as usize) && p.1 + 1 < m.height ==> visited_states(m, p, visited)[2],
        q == ((p.0 - 1) as usize, p.1) && p.0 > 0 ==> visited_states(m, p, visited)[3],
        p.1 == 0 ==> !visited_states(m, p, visited)[0],
        p.0 + 1 >= m.width ==> !visited_states(m, p, visited)[1],
        p.1 + 1 >= m.height ==> !visited_states(m, p, visited)[2],
        p.0 == 0 ==> !visited_states(m, p, visited)[3],
        visited_states(m, p, visited)[0] ==> visited.contains((p.0, (p.1 - 1) as usize)),
        visited_states(m, p, visited)[1] ==> visited.contains(((p.0 + 1) as usize, p.1)),
        visited_states(m, p, visited)[2] ==> visited.contains((p.0, (p.1 + 1) as usize)),
        visited_states(m, p, visited)[3] ==> visited.contains(((p.0 - 1) as usize, p.1)),
{
}

/// `q` occurs on `path` before its `i`-th position.
pub open spec fn earlier_on(path: Seq<Position>, i: int, q: Position) -> bool {
    exists|j: int| 0 <= j < i && path[j] == q
}

/// The example made at the `i`-th position `(x, y)` of a teacher path marks
/// its visited neighbours in the order north, east, south, west: the first
/// flag is set exactly when `y > 0` and `(x, y - 1)` occurs earlier on the
/// path, the second when `x + 1 < width` and `(x + 1, y)` does, the third
/// when `y + 1 < height` and `(x, y + 1)` does, and the fourth when `x > 0`
/// and `(x - 1, y)` does.
pub proof fn law_visited_neighbors_in_compass_order(m: &Maze, path: Seq<Position>, i: int, e: TrainingExample)
    requires
        0 <= i < path.len() - 1,
        example_at(m, path, i, e),
    ensures
        e.visited_neighbors[0] == (path[i].1 > 0 && earlier_on(path, i, (path[i].0, (path[i].1 - 1) as usize))),
        e.visited_neighbors[1] == (path[i].0 + 1 < m.width && earlier_on(path, i, ((path[i].0 + 1) as usize, path[i].1))),
        e.visited_neighbors[2] == (path[i].1 + 1 < m.height && earlier_on(path, i, (path[i].0, (path[i].1 + 1) as usize))),
        e.visited_neighbors[3] == (path[i].0 > 0 && earlier_on(path, i, ((path[i].0 - 1) as usize, path[i].1))),
{
    let before = path.subrange(0, i);
    assert forall|q: Position| before.contains(q) <==> earlier_on(path, i, q) by {
        if before.contains(q) {
            let j = choose|j: int| 0 <= j < before.len() && before[j] == q;
            assert(path[j] == q);
        }
        if earlier_on(path, i, q) {
            let j = choose|j: int| 0 <= j < i && path[j] == q;
            assert(before[j] == q);
        }
    }
    assert(e.visited_neighbors@[0] == e.visited_neighbors[0]);
    assert(e.visited_neighbors@[1] == e.visited_neighbors[1]);
    assert(e.visited_neighbors@[2] == e.visited_neighbors[2]);
    assert(e.visited_neighbors@[3] == e.visited_neighbors[3]);
}

/// What is wrong with the step from the `i`-th position of `path`, checked
/// in this order: its start lies off the grid, its end lies off the grid,
/// the two are not adjacent, or a wall stands between them.
pub open spec fn step_error(m: &Maze, path: Seq<Position>, i: int) -> Option<TrainingExampleError> {
    let current = path[i];
    let next = path[i + 1];
    if !m.in_bounds(current) {
        Some(TrainingExampleError::PositionOutsideMaze { position: current })
    } else if !m.in_bounds(next) {
        Some(TrainingExampleError::PositionOutsideMaze { position: next })
    } else if direction_of(current, next) is None {
        Some(TrainingExampleError::NonAdjacentPositions { from: current, to: next })
    } else if !m.open_toward(current, direction_of(current, next)->0) {
        Some(
            TrainingExampleError::TeacherMovedThroughWall {
                from: current,
                to: next,
                direction: direction_of(current, next)->0,
            },
        )
    } else {
        None
    }
}

/// The first error among the first `k` steps of `path`.
pub open spec fn first_step_error(m: &Maze, path: Seq<Position>, k: int) -> Option<TrainingExampleError>
    decreases k,
{
    if k <= 0 {
        None
    } else {
        match first_step_error(m, path, k - 1) {
            Some(e) => Some(e),
            None => step_error(m, path, k - 1),
        }
    }
}

/// Why `path` cannot be turned into examples, if it cannot: it is too
/// short, its first position lies off the grid, or one of its steps is wrong.
pub open spec fn path_error(m: &Maze, path: Seq<Position>) -> Option<TrainingExampleError> {
    if path.len() < 2 {
        Some(TrainingExampleError::PathTooShort)
    } else if !m.in_bounds(path[0]) {
        Some(TrainingExampleError::PositionOutsideMaze { position: path[0] })
    } else {
        first_step_error(m, path, path.len() - 1)
    }
}

/// `Ok` for a position on the grid, and otherwise the error that names it.
pub fn validate_position(maze: &Maze, position: Position) -> (result: Result<(), TrainingExampleError>)
    ensures
        result is Ok <==> maze.in_bounds(position),
        result is Err ==> result == Err::<(), TrainingExampleError>(
            TrainingExampleError::PositionOutsideMaze { position },
        ),
{
    if position.0 >= maze.width || position.1 >= maze.height {
        return Err(TrainingExampleError::PositionOutsideMaze { position });
    }
    Ok(())
}

/// Whether one can move from `position` in `direction` without crossing a
/// wall or leaving the grid.
pub fn direction_is_open(maze: &Maze, position: Position, direction: Direction) -> (open: bool)
    requires
        maze.has_shape(),
        maze.in_bounds(position),
    ensures
        open == maze.open_toward(position, direction),
{
    let (x, y) = position;
    let cell = &maze.cells[y][x];
    match direction {
        Direction::North => !cell.north && y > 0,
        Direction::East => !cell.east && x + 1 < maze.width,
        Direction::South => !cell.south && y + 1 < maze.height,
        Direction::West => !cell.west && x > 0,
    }
}

/// For the cell at `position`, whether each neighbour lies on the grid and
/// is marked in `visited`.
pub fn visited_neighbor_states(maze: &Maze, position: Position, visited: &CellMap<bool>, Ghost(marked): Ghost<
    Seq<Position>,
>) -> (states: [bool; 4])
    requires
        maze.in_bounds(position),
        visited.shaped(maze.width as int, maze.height as int),
        forall|p: Position| maze.in_bounds(p) ==> (#[trigger] visited.recorded(p) <==> marked.contains(p)),
    ensures
        states@ == visited_states(maze, position, marked),
{
    let ghost w = maze.width as int;
    let ghost h = maze.height as int;
    let (x, y) = position;
    let north = y > 0 && visited.get((x, y - 1), Ghost(w), Ghost(h)).is_some();
    let east = x + 1 < maze.width && visited.get((x + 1, y), Ghost(w), Ghost(h)).is_some();
    let south = y + 1 < maze.height && visited.get((x, y + 1), Ghost(w), Ghost(h)).is_some();
    let west = x > 0 && visited.get((x - 1, y), Ghost(w), Ghost(h)).is_some();
    let states = [north, east, south, west];
    proof {
        if y > 0 {
            assert(visited.recorded((x, (y - 1) as usize)) == marked.contains((x, (y - 1) as usize)));
        }
        if x + 1 < maze.width {
            assert(visited.recorded(((x + 1) as usize, y)) == marked.contains(((x + 1) as usize, y)));
        }
        if y + 1 < maze.height {
            assert(visited.recorded((x, (y + 1) as usize)) == marked.contains((x, (y + 1) as usize)));
        }
        if x > 0 {
            assert(visited.recorded(((x - 1) as usize, y)) == marked.contains(((x - 1) as usize, y)));
        }
        assert(states@ =~= visited_states(maze, position, marked));
    }
    states
}

/// Turns a teacher path into one example per step: the state at the
/// step's start, with the cells that came before it on the path as the
/// visited ones, and the direction of the step.
pub fn create_training_examples(maze: &Maze, teacher_path: &[Position]) -> (result: Result<
    Vec<TrainingExample>,
    TrainingExampleError,
>)
    requires
        maze.has_shape(),
    ensures
        match result {
            Ok(examples) => {
                &&& path_error(maze, teacher_path@) is None
                &&& examples@.len() == teacher_path@.len() - 1
                &&& forall|i: int| 0 <= i < examples@.len() ==> example_at(maze, teacher_path@, i, #[trigger] examples@[i])
            },
            Err(e) => path_error(maze, teacher_path@) == Some(e),
        },
{
    let ghost path = teacher_path@;
    if teacher_path.len() < 2 {
        return Err(TrainingExampleError::PathTooShort);
    }
    match validate_position(maze, teacher_path[0]) {
        Ok(()) => {},
        Err(e) => {
            return Err(e);
        },
    }
    let goal: Position = (
        if maze.width > 0 { maze.width - 1 } else { 0 },
        if maze.height > 0 { maze.height - 1 } else { 0 },
    );
    let ghost w = maze.width as int;
    let ghost h = maze.height as int;
    let mut visited: CellMap<bool> = CellMap::new(maze.width, maze.height);
    let mut examples: Vec<TrainingExample> = Vec::new();
    let n = teacher_path.len() - 1;
    let mut i: usize = 0;
    while i < n
        invariant
            maze.has_shape(),
            w == maze.width,
            h == maze.height,
            path == teacher_path@,
            n == path.len() - 1,
            path.len() >= 2,
            maze.in_bounds(path[0]),
            goal == goal_of(maze),
            i <= n,
            first_step_error(maze, path, i as int) is None,
            visited.shaped(w, h),
            forall|p: Position| maze.in_bounds(p) ==> (#[trigger] visited.recorded(p) <==> path.subrange(0, i as int).contains(p)),
            examples@.len() == i,
            forall|j: int| 0 <= j < i ==> example_at(maze, path, j, #[trigger] examples@[j]),
        decreases n - i,
    {
        let current = teacher_path[i];
        let next = teacher_path[i + 1];
        proof {
            assert(first_step_error(maze, path, i + 1) == step_error(maze, path, i as int));
        }
        match validate_position(maze, current) {
            Ok(()) => {},
            Err(e) => {
                proof {
                    lemma_first_error_kept(maze, path, i + 1, n as int);
                }
                return Err(e);
            },
        }
        match validate_position(maze, next) {
            Ok(()) => {},
            Err(e) => {
                proof {
                    lemma_first_error_kept(maze, path, i + 1, n as int);
                }
                return Err(e);
            },
        }
        let target_direction = match direction_between(current, next) {
            Some(direction) => direction,
            None => {
                proof {
                    lemma_first_error_kept(maze, path, i + 1, n as int);
                }
                return Err(TrainingExampleError::NonAdjacentPositions { from: current, to: next });
            },
        };
        if !direction_is_open(maze, current, target_direction) {
            proof {
                lemma_first_error_kept(maze, path, i + 1, n as int);
            }
            return Err(TrainingExampleError::TeacherMovedThroughWall { from: current, to: next, direction: target_direction });
        }
        let cell = &maze.cells[current.1][current.0];
        let visited_neighbors = visited_neighbor_states(maze, current, &visited, Ghost(path.subrange(0, i as int)));
        let example = TrainingExample {
            position: current,
            goal,
            dimensions: (maze.width, maze.height),
            walls: [cell.north, cell.east, cell.south, cell.west],
            visited_neighbors,
            target_direction,
        };
        proof {
            assert(maze.cells@[current.1 as int]@[current.0 as int] == maze.cell(current.0 as int, current.1 as int));
            assert(example.walls@ =~= seq![cell.north, cell.east, cell.south, cell.west]);
            assert(example_at(maze, path, i as int, example));
        }
        examples.push(example);
        let ghost vb = visited;
        visited.set(current, true, Ghost(w), Ghost(h));
        proof {
            assert forall|p: Position| maze.in_bounds(p) implies (#[trigger] visited.recorded(p) <==> path.subrange(
                0,
                i + 1,
            ).contains(p)) by {
                let prefix = path.subrange(0, i as int);
                let longer = path.subrange(0, i + 1);
                assert(longer =~= prefix.push(current));
                if p != current {
                    assert(visited.at(p) == vb.at(p));
                    assert(vb.recorded(p) <==> prefix.contains(p));
                    if longer.contains(p) {
                        let j = choose|j: int| 0 <= j < longer.len() && longer[j] == p;
                        assert(prefix[j] == p);
                    }
                    if prefix.contains(p) {
                        let j = choose|j: int| 0 <= j < prefix.len() && prefix[j] == p;
                        assert(longer[j] == p);
                    }
                } else {
                    assert(longer[i as int] == p);
                }
            }
        }
        i = i + 1;
    }
    Ok(examples)
}

/// Once an error is found among the first `k` steps, it stays the first one.
proof fn lemma_first_error_kept(m: &Maze, path: Seq<Position>, k: int, n: int)
    requires
        0 <= k <= n,
        first_step_error(m, path, k) is Some,
    ensures
        first_step_error(m, path, n) == first_step_error(m, path, k),
    decreases n - k,
{
    if k < n {
        lemma_first_error_kept(m, path, k + 1, n);
    }
}

} // verus!
