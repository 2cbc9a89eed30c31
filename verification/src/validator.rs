use vstd::prelude::*;

use std::collections::VecDeque;

use crate::grid::{
    grid_total, grid_update, lemma_grid_total_agree, lemma_grid_total_at_most, lemma_grid_total_bounds,
    lemma_grid_total_update, lemma_row_total_at_most, row_total,
};
use crate::maze::{lemma_closed_set_holds_reachable, lemma_reachable_refl, lemma_reachable_step, lemma_step_in_bounds, passage_indicator, Maze};
use crate::solver::search::Position;
use crate::text::{decimal, push_decimal};

verus! {

/// Why a maze is not a perfect maze.
#[derive(Debug, Clone, Copy, PartialEq, Eq, Structural)]
pub enum ValidationError {
    /// The width or the height is zero.
    EmptyDimensions,
    /// The number of rows differs from the height.
    HeightMismatch { expected: usize, found: usize },
    /// A row holds a number of cells other than the width.
    WidthMismatch { row: usize, expected: usize, found: usize },
    /// The east side of `(x, y)` and the west side of `(x + 1, y)` disagree.
    EastWestMismatch { x: usize, y: usize },
    /// The south side of `(x, y)` and the north side of `(x, y + 1)` disagree.
    SouthNorthMismatch { x: usize, y: usize },
    /// Only `visited` of the `expected` cells can be reached from the corner.
    NotConnected { visited: usize, expected: usize },
    /// The lower-right corner cannot be reached from the upper-left one.
    ExitUnreachable,
    /// The maze has `found` open passages, where a perfect one has `expected`.
    NotPerfect { expected: usize, found: usize },
}

/// The sentence that describes a validation error.
pub open spec fn validation_text(e: ValidationError) -> Seq<char> {
    match e {
        ValidationError::EmptyDimensions => "Maze width and height must be greater than 0."@,
        ValidationError::HeightMismatch { expected, found } => "Maze height mismatch: expected "@ + decimal(
            expected as nat,
        ) + ", found "@ + decimal(found as nat) + " rows."@,
        ValidationError::WidthMismatch { row, expected, found } => "Maze width mismatch on row "@ + decimal(row as nat)
            + ": expected "@ + decimal(expected as nat) + ", found "@ + decimal(found as nat) + " cells."@,
        ValidationError::EastWestMismatch { x, y } => "Wall mismatch between ("@ + decimal(x as nat) + ", "@ + decimal(
            y as nat,
        ) + ") east and ("@ + decimal((x + 1) as nat) + ", "@ + decimal(y as nat) + ") west."@,
        ValidationError::SouthNorthMismatch { x, y } => "Wall mismatch between ("@ + decimal(x as nat) + ", "@
            + decimal(y as nat) + ") south and ("@ + decimal(x as nat) + ", "@ + decimal((y + 1) as nat) + ") north."@,
        ValidationError::NotConnected { visited, expected } => "Maze is not fully connected: visited "@ + decimal(
            visited as nat,
        ) + " of "@ + decimal(expected as nat) + " cells."@,
        ValidationError::ExitUnreachable => "Exit is not reachable from the start."@,
        ValidationError::NotPerfect { expected, found } => "Maze is not perfect: expected "@ + decimal(expected as nat)
            + " passages, found "@ + decimal(found as nat) + "."@,
    }
}

impl ValidationError {
    /// The sentence that describes the error.
    pub fn message(&self) -> (text: String)
        ensures
            text@ == validation_text(*self),
    {
        let mut text = String::new();
        match *self {
            ValidationError::EmptyDimensions => {
                text.append("Maze width and height must be greater than 0.");
            },
            ValidationError::HeightMismatch { expected, found } => {
                text.append("Maze height mismatch: expected ");
                push_decimal(&mut text, expected as u128);
                text.append(", found ");
                push_decimal(&mut text, found as u128);
                text.append(" rows.");
            },
            ValidationError::WidthMismatch { row, expected, found } => {
                text.append("Maze width mismatch on row ");
                push_decimal(&mut text, row as u128);
                text.append(": expected ");
                push_decimal(&mut text, expected as u128);
                text.append(", found ");
                push_decimal(&mut text, found as u128);
                text.append(" cells.");
            },
            ValidationError::EastWestMismatch { x, y } => {
                text.append("Wall mismatch between (");
                push_decimal(&mut text, x as u128);
                text.append(", ");
                push_decimal(&mut text, y as u128);
                text.append(") east and (");
                push_decimal(&mut text, x as u128 + 1);
                text.append(", ");
                push_decimal(&mut text, y as u128);
                text.append(") west.");
            },
            ValidationError::SouthNorthMismatch { x, y } => {
                text.append("Wall mismatch between (");
                push_decimal(&mut text, x as u128);
                text.append(", ");
                push_decimal(&mut text, y as u128);
                text.append(") south and (");
                push_decimal(&mut text, x as u128);
                text.append(", ");
                push_decimal(&mut text, y as u128 + 1);
                text.append(") north.");
            },
            ValidationError::NotConnected { visited, expected } => {
                text.append("Maze is not fully connected: visited ");
                push_decimal(&mut text, visited as u128);
                text.append(" of ");
                push_decimal(&mut text, expected as u128);
                text.append(" cells.");
            },
            ValidationError::ExitUnreachable => {
                text.append("Exit is not reachable from the start.");
            },
            ValidationError::NotPerfect { expected, found } => {
                text.append("Maze is not perfect: expected ");
                push_decimal(&mut text, expected as u128);
                text.append(" passages, found ");
                push_decimal(&mut text, found as u128);
                text.append(".");
            },
        }
        proof {
            assert(text@ =~= validation_text(*self));
        }
        text
    }
}

/// Both shared sides of cell `(x, y)` agree with its east and south neighbours.
pub open spec fn consistent_at(m: &Maze, x: int, y: int) -> bool {
    &&& (x + 1 < m.width ==> m.cell(x, y).east == m.cell(x + 1, y).west)
    &&& (y + 1 < m.height ==> m.cell(x, y).south == m.cell(x, y + 1).north)
}

/// Every cell before `(x, y)` in row-major order is consistent.
pub open spec fn consistent_before(m: &Maze, x: int, y: int) -> bool {
    forall|i: int, j: int|
        0 <= i < m.width && 0 <= j < m.height && (j < y || (j == y && i < x)) ==> #[trigger] consistent_at(m, i, j)
}

/// 1 for a cell that can be reached from the upper-left corner of `m`.
pub open spec fn reachable_indicator<T>(m: Maze) -> spec_fn(T, int, int) -> int {
    |c: T, x: int, y: int| if m.reachable(Maze::start(), (x as usize, y as usize)) { 1int } else { 0int }
}

/// The number of cells that can be reached from the upper-left corner.
pub open spec fn reachable_count(m: &Maze) -> int {
    grid_total(m.grid(), reachable_indicator::<crate::maze::Cell>(*m), m.height as int)
}

/// 1 for a set flag.
pub open spec fn flag_indicator() -> spec_fn(bool, int, int) -> int {
    |b: bool, x: int, y: int| if b { 1int } else { 0int }
}

pub open spec fn flags(v: &Vec<Vec<bool>>) -> Seq<Seq<bool>> {
    v@.map_values(|row: Vec<bool>| row@)
}

pub open spec fn flag_at(v: &Vec<Vec<bool>>, p: Position) -> bool {
    v@[p.1 as int]@[p.0 as int]
}

/// Checks that the maze is a perfect maze: non-empty and well shaped, with
/// consistent walls, every cell reachable from the upper-left corner, and
/// one passage fewer than cells. The checks run in that order and the first
/// failure is returned.
pub fn check_maze(maze: &Maze) -> (result: Result<(), ValidationError>)
    requires
        maze.has_shape() ==> maze.cells_fit(),
    ensures
        result is Ok <==> maze.is_perfect(),
        !maze.well_shaped() ==> result == dimension_result(maze),
        maze.well_shaped() && !maze.walls_consistent() ==> is_wall_mismatch(result),
        result matches Err(ValidationError::EastWestMismatch { x, y }) ==> east_west_mismatch_first(maze, x, y),
        result matches Err(ValidationError::SouthNorthMismatch { x, y }) ==> south_north_mismatch_first(maze, x, y),
        maze.well_shaped() && maze.walls_consistent() && !maze.fully_connected() ==> result == Err::<(), ValidationError>(
            ValidationError::NotConnected {
                visited: reachable_count(maze) as usize,
                expected: (maze.width * maze.height) as usize,
            },
        ),
        maze.well_shaped() && maze.walls_consistent() && maze.fully_connected() && !maze.is_perfect()
            ==> result == Err::<(), ValidationError>(
            ValidationError::NotPerfect {
                expected: (maze.width * maze.height - 1) as usize,
                found: maze.passage_count() as usize,
            },
        ),
{
    validate_dimensions(maze)?;
    validate_wall_consistency(maze)?;
    validate_reachability(maze)?;
    validate_perfect_maze(maze)?;
    Ok(())
}

/// What `check_maze` answers for `maze`: success exactly for a perfect
/// maze, and otherwise the first check that failed.
pub open spec fn check_answer(maze: &Maze, r: Result<(), ValidationError>) -> bool {
    &&& r is Ok <==> maze.is_perfect()
    &&& !maze.well_shaped() ==> r == dimension_result(maze)
    &&& maze.well_shaped() && !maze.walls_consistent() ==> is_wall_mismatch(r)
    &&& r matches Err(ValidationError::EastWestMismatch { x, y }) ==> east_west_mismatch_first(maze, x, y)
    &&& r matches Err(ValidationError::SouthNorthMismatch { x, y }) ==> south_north_mismatch_first(maze, x, y)
    &&& maze.well_shaped() && maze.walls_consistent() && !maze.fully_connected() ==> r == Err::<(), ValidationError>(
        ValidationError::NotConnected {
            visited: reachable_count(maze) as usize,
            expected: (maze.width * maze.height) as usize,
        },
    )
    &&& maze.well_shaped() && maze.walls_consistent() && maze.fully_connected() && !maze.is_perfect()
        ==> r == Err::<(), ValidationError>(
        ValidationError::NotPerfect {
            expected: (maze.width * maze.height - 1) as usize,
            found: maze.passage_count() as usize,
        },
    )
}

/// Checks that the maze is a perfect maze, as `check_maze` does, and gives
/// the sentence that describes the first failed check.
pub fn validate_maze(maze: &Maze) -> (result: Result<(), String>)
    requires
        maze.has_shape() ==> maze.cells_fit(),
    ensures
        result is Ok <==> maze.is_perfect(),
        result matches Err(message) ==> exists|e: ValidationError|
            #[trigger] check_answer(maze, Err(e)) && message@ == validation_text(e),
{
    match check_maze(maze) {
        Ok(()) => Ok(()),
        Err(error) => {
            proof {
                assert(check_answer(maze, Err(error)));
            }
            Err(error.message())
        },
    }
}

/// The result reports a wall mismatch.
pub open spec fn is_wall_mismatch(r: Result<(), ValidationError>) -> bool {
    ||| r matches Err(ValidationError::EastWestMismatch { .. })
    ||| r matches Err(ValidationError::SouthNorthMismatch { .. })
}

/// What the dimension check answers for a maze that is not well shaped.
pub open spec fn dimension_result(m: &Maze) -> Result<(), ValidationError> {
    if m.width == 0 || m.height == 0 {
        Err(ValidationError::EmptyDimensions)
    } else if m.cells@.len() != m.height {
        Err(ValidationError::HeightMismatch { expected: m.height, found: m.cells@.len() as usize })
    } else {
        let row = first_bad_row(m);
        Err(ValidationError::WidthMismatch { row: row as usize, expected: m.width, found: m.cells@[row]@.len() as usize })
    }
}

/// The first row whose length differs from the width.
pub open spec fn first_bad_row(m: &Maze) -> int {
    choose|r: int|
        0 <= r < m.height && m.cells@[r]@.len() != m.width && forall|j: int| 0 <= j < r ==> (#[trigger] m.cells@[j]@.len()) == m.width
}

/// `(x, y)` has a mismatched east side and every cell before it is consistent.
pub open spec fn east_west_mismatch_first(m: &Maze, x: usize, y: usize) -> bool {
    &&& x + 1 < m.width
    &&& y < m.height
    &&& m.cell(x as int, y as int).east != m.cell(x + 1, y as int).west
    &&& consistent_before(m, x as int, y as int)
}

/// `(x, y)` has a consistent east side, a mismatched south side, and every
/// cell before it is consistent.
pub open spec fn south_north_mismatch_first(m: &Maze, x: usize, y: usize) -> bool {
    &&& x < m.width
    &&& y + 1 < m.height
    &&& (x + 1 < m.width ==> m.cell(x as int, y as int).east == m.cell(x + 1, y as int).west)
    &&& m.cell(x as int, y as int).south != m.cell(x as int, y + 1).north
    &&& consistent_before(m, x as int, y as int)
}

fn validate_dimensions(maze: &Maze) -> (result: Result<(), ValidationError>)
    ensures
        result is Ok <==> maze.well_shaped(),
        result is Err ==> result == dimension_result(maze),
{
    if maze.width == 0 || maze.height == 0 {
        return Err(ValidationError::EmptyDimensions);
    }
    if maze.cells.len() != maze.height {
        return Err(ValidationError::HeightMismatch { expected: maze.height, found: maze.cells.len() });
    }
    let mut row_index: usize = 0;
    while row_index < maze.cells.len()
        invariant
            maze.width > 0,
            maze.height > 0,
            maze.cells@.len() == maze.height,
            0 <= row_index <= maze.cells@.len(),
            forall|j: int| 0 <= j < row_index ==> (#[trigger] maze.cells@[j]@.len()) == maze.width,
        decreases maze.cells@.len() - row_index,
    {
        let row = &maze.cells[row_index];
        if row.len() != maze.width {
            proof {
                let r = row_index as int;
                assert(0 <= r < maze.height && maze.cells@[r]@.len() != maze.width && forall|j: int|
                    0 <= j < r ==> (#[trigger] maze.cells@[j]@.len()) == maze.width);
                let c = first_bad_row(maze);
                if c < r {
                    assert(maze.cells@[c]@.len() == maze.width);
                } else if c > r {
                    assert(maze.cells@[r]@.len() == maze.width);
                }
            }
            return Err(ValidationError::WidthMismatch { row: row_index, expected: maze.width, found: row.len() });
        }
        row_index = row_index + 1;
    }
    Ok(())
}

fn validate_wall_consistency(maze: &Maze) -> (result: Result<(), ValidationError>)
    requires
        maze.well_shaped(),
    ensures
        result is Ok <==> maze.walls_consistent(),
        result is Err ==> is_wall_mismatch(result),
        result matches Err(ValidationError::EastWestMismatch { x, y }) ==> east_west_mismatch_first(maze, x, y),
        result matches Err(ValidationError::SouthNorthMismatch { x, y }) ==> south_north_mismatch_first(maze, x, y),
{
    let mut y: usize = 0;
    while y < maze.height
        invariant
            maze.well_shaped(),
            0 <= y <= maze.height,
            consistent_before(maze, 0, y as int),
        decreases maze.height - y,
    {
        let mut x: usize = 0;
        while x < maze.width
            invariant
                maze.well_shaped(),
                0 <= y < maze.height,
                0 <= x <= maze.width,
                consistent_before(maze, x as int, y as int),
            decreases maze.width - x,
        {
            let cell = &maze.cells[y][x];
            if x + 1 < maze.width {
                let east_neighbor = &maze.cells[y][x + 1];
                if cell.east != east_neighbor.west {
                    proof {
                        assert(maze.cell(x as int, y as int).east != maze.cell(x + 1, y as int).west);
                    }
                    return Err(ValidationError::EastWestMismatch { x, y });
                }
            }
            if y + 1 < maze.height {
                let south_neighbor = &maze.cells[y + 1][x];
                if cell.south != south_neighbor.north {
                    proof {
                        assert(maze.cell(x as int, y as int).south != maze.cell(x as int, y + 1).north);
                    }
                    return Err(ValidationError::SouthNorthMismatch { x, y });
                }
            }
            proof {
                assert(consistent_at(maze, x as int, y as int));
                assert forall|i: int, j: int|
                    0 <= i < maze.width && 0 <= j < maze.height && (j < y || (j == y && i < x + 1))
                    implies #[trigger] consistent_at(maze, i, j) by {
                    if !(j == y && i == x) {
                        assert(consistent_at(maze, i, j));
                    }
                }
            }
            x = x + 1;
        }
        proof {
            assert forall|i: int, j: int|
                0 <= i < maze.width && 0 <= j < maze.height && (j < y + 1 || (j == y + 1 && i < 0))
                implies #[trigger] consistent_at(maze, i, j) by {
                assert(consistent_before(maze, x as int, y as int));
            }
        }
        y = y + 1;
    }
    proof {
        assert forall|x: int, y: int| 0 <= x < maze.width && 0 <= y < maze.height implies {
            &&& (x + 1 < maze.width ==> (#[trigger] maze.cell(x, y)).east == maze.cell(x + 1, y).west)
            &&& (y + 1 < maze.height ==> maze.cell(x, y).south == maze.cell(x, y + 1).north)
        } by {
            assert(consistent_at(maze, x, y));
        }
    }
    Ok(())
}

/// Every cell one step away from `p` is flagged.
pub open spec fn closed_at(m: &Maze, visited: &Vec<Vec<bool>>, p: Position) -> bool {
    forall|q: Position| #[trigger] m.step(p, q) ==> flag_at(visited, q)
}

pub open spec fn flags_shaped(v: &Vec<Vec<bool>>, width: int, height: int) -> bool {
    &&& v@.len() == height
    &&& forall|j: int| 0 <= j < height ==> (#[trigger] v@[j]@.len()) == width
}

/// A `height` by `width` grid of cleared flags.
fn cleared_flags(width: usize, height: usize) -> (flags: Vec<Vec<bool>>)
    ensures
        flags_shaped(&flags, width as int, height as int),
        forall|i: int, j: int| 0 <= i < width && 0 <= j < height ==> !#[trigger] flags@[j]@[i],
{
    let mut rows: Vec<Vec<bool>> = Vec::new();
    let mut y: usize = 0;
    while y < height
        invariant
            y <= height,
            rows@.len() == y,
            forall|j: int| 0 <= j < y ==> (#[trigger] rows@[j]@.len()) == width,
            forall|i: int, j: int| 0 <= i < width && 0 <= j < y ==> !#[trigger] rows@[j]@[i],
        decreases height - y,
    {
        let mut row: Vec<bool> = Vec::new();
        let mut x: usize = 0;
        while x < width
            invariant
                x <= width,
                row@.len() == x,
                forall|i: int| 0 <= i < x ==> !#[trigger] row@[i],
            decreases width - x,
        {
            row.push(false);
            x = x + 1;
        }
        rows.push(row);
        y = y + 1;
    }
    rows
}

/// Setting one flag of a grid of flags.
proof fn lemma_flag_set(v0: &Vec<Vec<bool>>, v1: &Vec<Vec<bool>>, p: Position, width: int, height: int)
    requires
        flags_shaped(v0, width, height),
        p.0 < width,
        p.1 < height,
        v1@.len() == v0@.len(),
        flags(v1) == grid_update(flags(v0), p.0 as int, p.1 as int, true),
    ensures
        flags_shaped(v1, width, height),
        forall|q: Position| q.0 < width && q.1 < height ==> #[trigger] flag_at(v1, q) == (q == p || flag_at(v0, q)),
        grid_total(flags(v1), flag_indicator(), height) == grid_total(flags(v0), flag_indicator(), height) + (if flag_at(v0, p) {
            0int
        } else {
            1int
        }),
{
    assert forall|j: int| 0 <= j < height implies (#[trigger] v1@[j]@.len()) == width by {
        assert(flags(v1)[j] == v1@[j]@);
        assert(flags(v0)[j] == v0@[j]@);
    }
    assert forall|q: Position| q.0 < width && q.1 < height implies #[trigger] flag_at(v1, q) == (q == p || flag_at(v0, q)) by {
        assert(flags(v1)[q.1 as int] == v1@[q.1 as int]@);
        assert(flags(v0)[q.1 as int] == v0@[q.1 as int]@);
    }
    assert(flags(v0)[p.1 as int] == v0@[p.1 as int]@);
    lemma_grid_total_update(flags(v0), flag_indicator(), height, p.0 as int, p.1 as int, true);
}

proof fn lemma_flags_bounds(v: &Vec<Vec<bool>>, width: int, height: int)
    requires
        flags_shaped(v, width, height),
        0 <= width,
    ensures
        0 <= grid_total(flags(v), flag_indicator(), height) <= height * width,
        grid_total(flags(v), flag_indicator(), height) == height * width <==> forall|i: int, j: int|
            0 <= j < height && 0 <= i < width ==> #[trigger] v@[j]@[i],
{
    let g = flags(v);
    assert forall|j: int| 0 <= j < height implies (#[trigger] g[j]).len() == width by {
        assert(g[j] == v@[j]@);
    }
    assert forall|i: int, j: int| 0 <= j < height && 0 <= i < width implies #[trigger] flag_indicator()(g[j][i], i, j) == (if v@[j]@[i] {
        1int
    } else {
        0int
    }) by {
        assert(g[j] == v@[j]@);
    }
    lemma_grid_total_bounds(g, flag_indicator(), height, width);
    if forall|i: int, j: int| 0 <= j < height && 0 <= i < width ==> #[trigger] v@[j]@[i] {
        assert forall|i: int, j: int| 0 <= j < height && 0 <= i < width implies #[trigger] flag_indicator()(g[j][i], i, j) == 1 by {
            assert(g[j] == v@[j]@);
            assert(v@[j]@[i]);
        }
    }
    if grid_total(g, flag_indicator(), height) == height * width {
        assert forall|i: int, j: int| 0 <= j < height && 0 <= i < width implies #[trigger] v@[j]@[i] by {
            assert(g[j] == v@[j]@);
            assert(flag_indicator()(g[j][i], i, j) == 1);
        }
    }
}

fn validate_reachability(maze: &Maze) -> (result: Result<(), ValidationError>)
    requires
        maze.well_shaped(),
        maze.cells_fit(),
    ensures
        result is Ok <==> maze.fully_connected(),
        !maze.fully_connected() ==> result == Err::<(), ValidationError>(
            ValidationError::NotConnected {
                visited: reachable_count(maze) as usize,
                expected: (maze.width * maze.height) as usize,
            },
        ),
{
    let ghost w = maze.width as int;
    let ghost h = maze.height as int;
    proof {
        assert(w * h <= 2 * w * h) by (nonlinear_arith)
            requires
                w >= 0,
                h >= 0,
        ;
    }
    let mut visited = cleared_flags(maze.width, maze.height);
    let mut queue: VecDeque<Position> = VecDeque::new();
    let ghost v0 = visited;
    visited[0][0] = true;
    proof {
        assert(flags(&visited) =~= grid_update(flags(&v0), 0, 0, true));
        lemma_flag_set(&v0, &visited, (0, 0), w, h);
        lemma_grid_total_bounds(flags(&v0), flag_indicator(), h, w);
        assert forall|i: int, j: int| 0 <= j < h && 0 <= i < w implies #[trigger] flag_indicator()(flags(&v0)[j][i], i, j) == 0 by {
            assert(flags(&v0)[j] == v0@[j]@);
            assert(!v0@[j]@[i]);
        }
        assert forall|j: int| 0 <= j < h implies (#[trigger] flags(&v0)[j]).len() == w by {
            assert(flags(&v0)[j] == v0@[j]@);
        }
        assert forall|i: int, j: int| 0 <= j < h && 0 <= i < w implies 0 <= #[trigger] flag_indicator()(flags(&v0)[j][i], i, j) <= 1 by {}
        lemma_grid_total_bounds(flags(&v0), flag_indicator(), h, w);
        lemma_reachable_refl(maze, (0, 0));
    }
    queue.push_back((0usize, 0usize));
    proof {
        assert(queue@[0] == (0usize, 0usize));
        assert forall|p: Position| maze.in_bounds(p) && #[trigger] flag_at(&visited, p) implies queue@.contains(p) || closed_at(maze, &visited, p) by {
            assert(!v0@[p.1 as int]@[p.0 as int]);
            assert(p == (0usize, 0usize));
        }
        assert(h * w <= usize::MAX) by (nonlinear_arith)
            requires
                2 * w * h <= usize::MAX,
                w >= 0,
                h >= 0,
        ;
        lemma_flags_bounds(&visited, w, h);
    }
    let mut visited_count: usize = 0;
    while queue.len() > 0
        invariant
            maze.well_shaped(),
            maze.cells_fit(),
            w == maze.width,
            h == maze.height,
            w * h <= 2 * w * h,
            flags_shaped(&visited, w, h),
            flag_at(&visited, (0, 0)),
            forall|p: Position| maze.in_bounds(p) && #[trigger] flag_at(&visited, p) ==> maze.reachable(Maze::start(), p),
            forall|i: int| 0 <= i < queue@.len() ==> maze.in_bounds(#[trigger] queue@[i]) && flag_at(&visited, queue@[i]),
            forall|p: Position|
                maze.in_bounds(p) && #[trigger] flag_at(&visited, p) ==> queue@.contains(p) || closed_at(maze, &visited, p),
            grid_total(flags(&visited), flag_indicator(), h) == visited_count + queue@.len(),
            grid_total(flags(&visited), flag_indicator(), h) <= h * w,
            h * w <= usize::MAX,
        decreases 2 * (h * w) - grid_total(flags(&visited), flag_indicator(), h) - visited_count,
    {
        let ghost total_before = grid_total(flags(&visited), flag_indicator(), h);
        let ghost q0 = queue@;
        let (x, y) = queue.pop_front().unwrap();
        assert(q0[0] == (x, y));
        proof {
            assert forall|p: Position|
                maze.in_bounds(p) && #[trigger] flag_at(&visited, p)
                implies queue@.contains(p) || closed_at(maze, &visited, p) || p == (x, y) by {
                if q0.contains(p) && p != (x, y) {
                    let i = choose|i: int| 0 <= i < q0.len() && q0[i] == p;
                    assert(i != 0);
                    assert(queue@[i - 1] == p);
                }
            }
            assert forall|i: int| 0 <= i < queue@.len() implies maze.in_bounds(#[trigger] queue@[i]) && flag_at(&visited, queue@[i]) by {
                assert(queue@[i] == q0[i + 1]);
            }
        }
        visited_count = visited_count + 1;
        let neighbors = maze.neighbors((x, y));
        let mut k: usize = 0;
        while k < neighbors.len()
            invariant
                maze.well_shaped(),
                w == maze.width,
                h == maze.height,
                maze.in_bounds((x, y)),
                0 <= k <= neighbors@.len(),
                neighbors@ == maze.neighbor_seq((x, y)),
                forall|i: int| 0 <= i < neighbors@.len() ==> maze.step((x, y), #[trigger] neighbors@[i]),
                forall|q: Position| maze.step((x, y), q) <==> neighbors@.contains(q),
                flags_shaped(&visited, w, h),
                flag_at(&visited, (0, 0)),
                forall|p: Position| maze.in_bounds(p) && #[trigger] flag_at(&visited, p) ==> maze.reachable(Maze::start(), p),
                flag_at(&visited, (x, y)),
                forall|i: int| 0 <= i < queue@.len() ==> maze.in_bounds(#[trigger] queue@[i]) && flag_at(&visited, queue@[i]),
                forall|p: Position|
                    maze.in_bounds(p) && #[trigger] flag_at(&visited, p) ==> queue@.contains(p) || closed_at(maze, &visited, p) || p == (x, y),
                forall|i: int| 0 <= i < k ==> flag_at(&visited, #[trigger] neighbors@[i]),
                grid_total(flags(&visited), flag_indicator(), h) == visited_count + queue@.len(),
                total_before <= grid_total(flags(&visited), flag_indicator(), h),
            decreases neighbors@.len() - k,
        {
            let (nx, ny) = neighbors[k];
            proof {
                lemma_step_in_bounds(maze, (x, y), (nx, ny));
            }
            if !visited[ny][nx] {
                let ghost vb = visited;
                let ghost qb = queue@;
                visited[ny][nx] = true;
                proof {
                    assert(flags(&visited) =~= grid_update(flags(&vb), nx as int, ny as int, true));
                    lemma_flag_set(&vb, &visited, (nx, ny), w, h);
                    lemma_reachable_step(maze, Maze::start(), (x, y), (nx, ny));
                }
                queue.push_back((nx, ny));
                proof {
                    assert(queue@.last() == (nx, ny));
                    assert forall|p: Position|
                        maze.in_bounds(p) && #[trigger] flag_at(&visited, p)
                        implies queue@.contains(p) || closed_at(maze, &visited, p) || p == (x, y) by {
                        if p == (nx, ny) {
                            assert(queue@[queue@.len() - 1] == p);
                        } else {
                            assert(flag_at(&vb, p));
                            if qb.contains(p) {
                                let i = choose|i: int| 0 <= i < qb.len() && qb[i] == p;
                                assert(queue@[i] == p);
                            } else if closed_at(maze, &vb, p) {
                                assert forall|q: Position| #[trigger] maze.step(p, q) implies flag_at(&visited, q) by {
                                    lemma_step_in_bounds(maze, p, q);
                                    assert(flag_at(&vb, q));
                                }
                            }
                        }
                    }
                    assert forall|i: int| 0 <= i < queue@.len() implies maze.in_bounds(#[trigger] queue@[i]) && flag_at(&visited, queue@[i]) by {
                        if i < qb.len() {
                            assert(queue@[i] == qb[i]);
                        }
                    }
                }
            }
            k = k + 1;
        }
        proof {
            assert forall|q: Position| #[trigger] maze.step((x, y), q) implies flag_at(&visited, q) by {
                assert(neighbors@.contains(q));
                let i = choose|i: int| 0 <= i < neighbors@.len() && neighbors@[i] == q;
                assert(flag_at(&visited, neighbors@[i]));
            }
            assert(closed_at(maze, &visited, (x, y)));
            lemma_flags_bounds(&visited, w, h);
        }
    }
    proof {
        let member = |q: Position| maze.in_bounds(q) && flag_at(&visited, q);
        assert forall|u: Position, v: Position| member(u) && #[trigger] maze.step(u, v) implies member(v) by {
            assert(!queue@.contains(u));
            assert(closed_at(maze, &visited, u));
            lemma_step_in_bounds(maze, u, v);
        }
        assert forall|p: Position| maze.in_bounds(p) implies #[trigger] flag_at(&visited, p) == maze.reachable(Maze::start(), p) by {
            if maze.reachable(Maze::start(), p) {
                lemma_closed_set_holds_reachable(maze, Maze::start(), p, member);
            }
        }
        lemma_reachable_count(maze, &visited);
        lemma_flags_bounds(&visited, w, h);
        assert(h * w == w * h) by (nonlinear_arith);
    }
    let expected_count = maze.width * maze.height;
    if visited_count != expected_count {
        proof {
            if maze.fully_connected() {
                assert forall|i: int, j: int| 0 <= j < h && 0 <= i < w implies #[trigger] visited@[j]@[i] by {
                    let p: Position = (i as usize, j as usize);
                    assert(maze.reachable(Maze::start(), p));
                    assert(flag_at(&visited, p));
                }
            }
        }
        return Err(ValidationError::NotConnected { visited: visited_count, expected: expected_count });
    }
    proof {
        assert forall|p: Position| maze.in_bounds(p) implies #[trigger] maze.reachable(Maze::start(), p) by {
            assert(visited@[p.1 as int]@[p.0 as int]);
            assert(flag_at(&visited, p));
        }
        assert(flag_at(&visited, maze.exit()));
    }
    if !visited[maze.height - 1][maze.width - 1] {
        return Err(ValidationError::ExitUnreachable);
    }
    Ok(())
}

/// The flags mark exactly the reachable cells, so their number is the
/// number of reachable cells.
proof fn lemma_reachable_count(maze: &Maze, visited: &Vec<Vec<bool>>)
    requires
        maze.well_shaped(),
        flags_shaped(visited, maze.width as int, maze.height as int),
        forall|p: Position| maze.in_bounds(p) ==> #[trigger] flag_at(visited, p) == maze.reachable(Maze::start(), p),
    ensures
        grid_total(flags(visited), flag_indicator(), maze.height as int) == reachable_count(maze),
{
    let g = flags(visited);
    let mg = maze.grid();
    let h = maze.height as int;
    let w = maze.width as int;
    assert forall|j: int| 0 <= j < h implies (#[trigger] g[j]).len() == mg[j].len() by {
        assert(g[j] == visited@[j]@);
        assert(mg[j] == maze.cells@[j]@);
    }
    assert forall|i: int, j: int| 0 <= j < h && 0 <= i < g[j].len() implies #[trigger] flag_indicator()(g[j][i], i, j)
        == reachable_indicator::<crate::maze::Cell>(*maze)(mg[j][i], i, j) by {
        assert(g[j] == visited@[j]@);
        let p: Position = (i as usize, j as usize);
        assert(flag_at(visited, p) == maze.reachable(Maze::start(), p));
    }
    lemma_grid_total_agree(g, flag_indicator(), mg, reachable_indicator::<crate::maze::Cell>(*maze), h);
}

fn validate_perfect_maze(maze: &Maze) -> (result: Result<(), ValidationError>)
    requires
        maze.well_shaped(),
        maze.cells_fit(),
    ensures
        result is Ok <==> maze.passage_count() == maze.width * maze.height - 1,
        result is Err ==> result == Err::<(), ValidationError>(
            ValidationError::NotPerfect {
                expected: (maze.width * maze.height - 1) as usize,
                found: maze.passage_count() as usize,
            },
        ),
{
    let ghost w = maze.width as int;
    let ghost h = maze.height as int;
    let ghost f = passage_indicator(w, h);
    let ghost g = maze.grid();
    proof {
        assert forall|j: int| 0 <= j < h implies (#[trigger] g[j]).len() == w by {
            assert(g[j] == maze.cells@[j]@);
        }
        assert forall|i: int, j: int| 0 <= j < h && 0 <= i < w implies 0 <= #[trigger] f(g[j][i], i, j) <= 2 by {}
    }
    let mut passages: usize = 0;
    let mut y: usize = 0;
    while y < maze.height
        invariant
            maze.well_shaped(),
            maze.cells_fit(),
            w == maze.width,
            h == maze.height,
            f == passage_indicator(w, h),
            g == maze.grid(),
            forall|j: int| 0 <= j < h ==> (#[trigger] g[j]).len() == w,
            forall|i: int, j: int| 0 <= j < h && 0 <= i < w ==> 0 <= #[trigger] f(g[j][i], i, j) <= 2,
            0 <= y <= h,
            passages == grid_total(g, f, y as int),
        decreases h - y,
    {
        let mut x: usize = 0;
        proof {
            lemma_grid_total_at_most(g, f, y as int, w, 2);
            assert(2 * y * w <= 2 * w * h - 2 * w) by (nonlinear_arith)
                requires
                    0 <= y < h,
                    0 <= w,
            ;
        }
        while x < maze.width
            invariant
                maze.well_shaped(),
                maze.cells_fit(),
                w == maze.width,
                h == maze.height,
                f == passage_indicator(w, h),
                g == maze.grid(),
                forall|j: int| 0 <= j < h ==> (#[trigger] g[j]).len() == w,
                forall|i: int, j: int| 0 <= j < h && 0 <= i < w ==> 0 <= #[trigger] f(g[j][i], i, j) <= 2,
                0 <= y < h,
                0 <= x <= w,
                grid_total(g, f, y as int) <= 2 * y * w,
                2 * y * w <= 2 * w * h - 2 * w,
                passages == grid_total(g, f, y as int) + row_total(g[y as int], y as int, f, x as int),
            decreases w - x,
        {
            let cell = &maze.cells[y][x];
            proof {
                assert(g[y as int] == maze.cells@[y as int]@);
                lemma_row_total_at_most(g[y as int], y as int, f, x as int, 2);
                assert(f(g[y as int][x as int], x as int, y as int) <= 2);
            }
            if x + 1 < maze.width && !cell.east {
                passages = passages + 1;
            }
            if y + 1 < maze.height && !cell.south {
                passages = passages + 1;
            }
            x = x + 1;
        }
        y = y + 1;
    }
    proof {
        assert(1 <= w * h <= usize::MAX) by (nonlinear_arith)
            requires
                2 * w * h <= usize::MAX,
                w >= 1,
                h >= 1,
        ;
    }
    let expected_passages = maze.width * maze.height - 1;
    if passages != expected_passages {
        return Err(ValidationError::NotPerfect { expected: expected_passages, found: passages });
    }
    Ok(())
}

} // verus!
