use vstd::prelude::*;

use crate::chance::{shuffle_directions, thread_rng};
use crate::grid::{
    grid_total, grid_update, lemma_grid_total_bounds, lemma_grid_total_update,
};
use crate::maze::{
    lemma_reachable_opens, lemma_reachable_refl, lemma_reachable_step, lemma_step_moved, moved,
    opens_at_least, passage_indicator, visited_indicator, Cell, Maze,
};
use crate::solver::search::{Direction, Position};
use crate::tree::{
    carved_tree, lemma_door_steps, lemma_links_door, lemma_links_fresh,
    lemma_links_marked, lemma_links_opened, linked_below, tree_links,
};

verus! {

broadcast use vstd::seq_lib::group_to_multiset_ensures;

/// All four walls of the cell stand.
pub open spec fn sealed(c: Cell) -> bool {
    c.north && c.east && c.south && c.west
}

pub open spec fn cell_at(m: &Maze, p: Position) -> Cell {
    m.cell(p.0 as int, p.1 as int)
}

pub open spec fn visited_at(m: &Maze, p: Position) -> bool {
    cell_at(m, p).visited
}

/// 1 for a cell whose `visited` flag is not set.
pub open spec fn unvisited_indicator() -> spec_fn(Cell, int, int) -> int {
    |c: Cell, x: int, y: int| if c.visited { 0int } else { 1int }
}

/// The number of cells not yet visited.
pub open spec fn unvisited_count(m: &Maze) -> int {
    grid_total(m.grid(), unvisited_indicator(), m.height as int)
}

/// Moving from `p` in direction `d` stays inside a grid of the given size.
pub open spec fn inside_toward(width: int, height: int, p: Position, d: Direction) -> bool {
    match d {
        Direction::North => p.1 > 0,
        Direction::East => p.0 + 1 < width,
        Direction::South => p.1 + 1 < height,
        Direction::West => p.0 > 0,
    }
}

pub open spec fn side_visited(m: &Maze, p: Position, d: Direction) -> bool {
    inside_toward(m.width as int, m.height as int, p, d) ==> visited_at(m, moved(p, d))
}

/// Every cell beside `p` on the grid has been visited.
pub open spec fn surroundings_visited(m: &Maze, p: Position) -> bool {
    &&& side_visited(m, p, Direction::North)
    &&& side_visited(m, p, Direction::East)
    &&& side_visited(m, p, Direction::South)
    &&& side_visited(m, p, Direction::West)
}

/// Every unvisited cell other than `except` still has all four walls.
pub open spec fn unvisited_sealed(m: &Maze, except: Position) -> bool {
    forall|p: Position|
        m.in_bounds(p) && !#[trigger] visited_at(m, p) && p != except ==> sealed(cell_at(m, p))
}

/// Every visited cell can be reached from the upper-left corner.
pub open spec fn visited_reachable(m: &Maze) -> bool {
    forall|p: Position| m.in_bounds(p) && #[trigger] visited_at(m, p) ==> m.reachable(Maze::start(), p)
}

/// No visited cell of `m1` is unvisited in `m2`.
pub open spec fn visited_grows(m1: &Maze, m2: &Maze) -> bool {
    forall|p: Position| m1.in_bounds(p) && #[trigger] visited_at(m1, p) ==> visited_at(m2, p)
}

/// Every wall on the outer border of the grid stands.
#[verifier::opaque]
pub open spec fn border_closed(m: &Maze) -> bool {
    forall|x: int, y: int|
        0 <= x < m.width && 0 <= y < m.height ==> {
            let c = #[trigger] m.cell(x, y);
            &&& (y == 0 ==> c.north)
            &&& (y == m.height - 1 ==> c.south)
            &&& (x == 0 ==> c.west)
            &&& (x == m.width - 1 ==> c.east)
        }
}

/// The cell with its side `d` opened.
pub open spec fn open_side(c: Cell, d: Direction) -> Cell {
    match d {
        Direction::North => Cell { north: false, ..c },
        Direction::East => Cell { east: false, ..c },
        Direction::South => Cell { south: false, ..c },
        Direction::West => Cell { west: false, ..c },
    }
}

pub open spec fn opposite(d: Direction) -> Direction {
    match d {
        Direction::North => Direction::South,
        Direction::East => Direction::West,
        Direction::South => Direction::North,
        Direction::West => Direction::East,
    }
}

/// Generates a perfect maze of the given size by recursive backtracking from
/// the upper-left corner, then opens the entrance (west side of the
/// upper-left cell) and the exit (east side of the lower-right cell).
pub fn generate_maze(width: usize, height: usize) -> (maze: Maze)
    requires
        width > 0,
        height > 0,
        2 * width * height <= usize::MAX,
    ensures
        maze.width == width,
        maze.height == height,
        maze.is_perfect(),
        !maze.cell(0, 0).west,
        !maze.cell(width - 1, height - 1).east,
        forall|x: int, y: int| 0 <= x < width && 0 <= y < height ==> (#[trigger] maze.cell(x, y)).visited,
        forall|x: int, y: int|
            0 <= x < width && 0 <= y < height ==> {
                let c = #[trigger] maze.cell(x, y);
                &&& (y == 0 ==> c.north)
                &&& (y == height - 1 ==> c.south)
                &&& (x == 0 && y != 0 ==> c.west)
                &&& (x == width - 1 && y != height - 1 ==> c.east)
            },
        carved_tree(&maze),
        maze.cells_fit(),
{
    let mut maze = Maze::new(width, height);
    let links = carve_from(0, 0, &mut maze);
    proof {
        lemma_carving_done(&maze);
    }
    let ghost carved = maze;
    maze.cells[0][0].west = false;
    proof {
        let c = Cell { west: false, ..carved.cell(0, 0) };
        assert(maze.grid() =~= grid_update(carved.grid(), 0, 0, c));
        lemma_door_opened(&carved, &maze, 0, 0, c);
        lemma_door_steps(&carved, &maze, 0, 0, c);
        lemma_links_door(&carved, &maze, links@.0, links@.1);
    }
    let ghost entered = maze;
    maze.cells[height - 1][width - 1].east = false;
    proof {
        let c = Cell { east: false, ..entered.cell(width - 1, height - 1) };
        assert(maze.grid() =~= grid_update(entered.grid(), width - 1, height - 1, c));
        lemma_door_opened(&entered, &maze, width - 1, height - 1, c);
        lemma_door_steps(&entered, &maze, width - 1, height - 1, c);
        lemma_links_door(&entered, &maze, links@.0, links@.1);
        assert forall|p: Position| maze.in_bounds(p) implies #[trigger] visited_at(&maze, p) by {
            assert(maze.cell(p.0 as int, p.1 as int).visited);
        }
        assert(tree_links(&maze, links@.0, links@.1));
        reveal(border_closed);
        assert forall|x: int, y: int| 0 <= x < width && 0 <= y < height implies {
            let c = #[trigger] maze.cell(x, y);
            &&& (y == 0 ==> c.north)
            &&& (y == height - 1 ==> c.south)
            &&& (x == 0 && y != 0 ==> c.west)
            &&& (x == width - 1 && y != height - 1 ==> c.east)
        } by {
            assert(carved.cell(x, y) == carved.cell(x, y));
            assert(entered.cell(x, y) == entered.cell(x, y));
        }
    }
    maze
}

/// Marking a cell visited leaves its walls as they were.
proof fn lemma_border_marked(m0: &Maze, m1: &Maze, x: int, y: int, c: Cell)
    requires
        m0.has_shape(),
        0 <= x < m0.width,
        0 <= y < m0.height,
        m1.width == m0.width,
        m1.height == m0.height,
        m1.cells@.len() == m0.cells@.len(),
        m1.grid() == grid_update(m0.grid(), x, y, c),
        c == (Cell { visited: true, ..m0.cell(x, y) }),
        border_closed(m0),
    ensures
        border_closed(m1),
{
    reveal(border_closed);
    lemma_updated_cells(m0, m1, x, y, c);
    assert forall|i: int, j: int| 0 <= i < m1.width && 0 <= j < m1.height implies {
        let c = #[trigger] m1.cell(i, j);
        &&& (j == 0 ==> c.north)
        &&& (j == m1.height - 1 ==> c.south)
        &&& (i == 0 ==> c.west)
        &&& (i == m1.width - 1 ==> c.east)
    } by {
        assert(m0.cell(i, j) == m0.cell(i, j));
    }
}

/// Opening the wall between two cells of the grid leaves the border standing.
proof fn lemma_border_wall_removed(m0: &Maze, m1: &Maze, p: Position, n: Position, d: Direction)
    requires
        m0.well_shaped(),
        m0.in_bounds(p),
        inside_toward(m0.width as int, m0.height as int, p, d),
        n == moved(p, d),
        m1.width == m0.width,
        m1.height == m0.height,
        m1.cells@.len() == m0.cells@.len(),
        m1.grid() == grid_update(
            grid_update(m0.grid(), p.0 as int, p.1 as int, open_side(m0.cell(p.0 as int, p.1 as int), d)),
            n.0 as int,
            n.1 as int,
            open_side(m0.cell(n.0 as int, n.1 as int), opposite(d)),
        ),
        border_closed(m0),
    ensures
        border_closed(m1),
{
    reveal(border_closed);
    lemma_two_updates(m0, m1, p, n, d);
    assert forall|i: int, j: int| 0 <= i < m1.width && 0 <= j < m1.height implies {
        let c = #[trigger] m1.cell(i, j);
        &&& (j == 0 ==> c.north)
        &&& (j == m1.height - 1 ==> c.south)
        &&& (i == 0 ==> c.west)
        &&& (i == m1.width - 1 ==> c.east)
    } by {
        assert(m0.cell(i, j) == m0.cell(i, j));
    }
}

/// A cell whose sides are being tried, in a shuffled order, during the
/// carving: the sides before `next` have been tried.
#[derive(Clone, Copy)]
struct CarveFrame {
    cell: Position,
    directions: [Direction; 4],
    next: usize,
}

/// The four directions in compass order.
pub open spec fn compass_directions() -> Seq<Direction> {
    seq![Direction::North, Direction::East, Direction::South, Direction::West]
}

/// The sides still to be tried on the stack, plus one for each cell on it.
spec fn frames_weight(frames: Seq<CarveFrame>) -> int
    decreases frames.len(),
{
    if frames.len() == 0 {
        0
    } else {
        frames_weight(frames.drop_last()) + 5 - frames.last().next
    }
}

/// `p` is a cell on the stack.
spec fn on_stack(frames: Seq<CarveFrame>, p: Position) -> bool {
    exists|k: int| 0 <= k < frames.len() && (#[trigger] frames[k]).cell == p
}

/// A cell on the stack is visited, its directions are the four in some
/// order, and the cells beyond the sides tried so far are visited.
spec fn frame_ok(m: &Maze, f: CarveFrame) -> bool {
    &&& m.in_bounds(f.cell)
    &&& visited_at(m, f.cell)
    &&& f.next <= 4
    &&& f.directions@.to_multiset() == compass_directions().to_multiset()
    &&& forall|j: int| 0 <= j < f.next ==> side_visited(m, f.cell, #[trigger] f.directions@[j])
}

/// What the carving keeps between two steps.
#[verifier::opaque]
spec fn carving(m: &Maze, frames: Seq<CarveFrame>, par: Map<Position, Position>, depth: Map<Position, nat>) -> bool {
    &&& m.well_shaped()
    &&& m.walls_consistent()
    &&& border_closed(m)
    &&& visited_at(m, Maze::start())
    &&& unvisited_sealed(m, Maze::start())
    &&& visited_reachable(m)
    &&& m.passage_count() == m.visited_count() - 1
    &&& unvisited_count(m) >= 0
    &&& tree_links(m, par, depth)
    &&& forall|k: int| 0 <= k < frames.len() ==> frame_ok(m, #[trigger] frames[k])
    &&& forall|p: Position|
        m.in_bounds(p) && #[trigger] visited_at(m, p) && !on_stack(frames, p) ==> surroundings_visited(m, p)
}

/// Carves a perfect maze from the upper-left corner of a fresh grid by
/// recursive backtracking: from the cell on top of the stack, the next side
/// in its shuffled order leads to an unvisited cell, which is opened,
/// visited and put on the stack; a cell whose four sides have been tried
/// leaves the stack. The stack stands in for the call stack, so the depth of
/// the carving is bounded by memory alone.
#[verifier::rlimit(60)]
#[verifier::spinoff_prover]
fn carve_from(x: usize, y: usize, maze: &mut Maze) -> (links: Ghost<(Map<Position, Position>, Map<Position, nat>)>)
    requires
        (x, y) == Maze::start(),
        old(maze).well_shaped(),
        forall|i: int, j: int| 0 <= i < old(maze).width && 0 <= j < old(maze).height ==> old(maze).cell(i, j) == Cell::closed(),
    ensures
        final(maze).width == old(maze).width,
        final(maze).height == old(maze).height,
        final(maze).well_shaped(),
        final(maze).walls_consistent(),
        border_closed(final(maze)),
        visited_at(final(maze), Maze::start()),
        visited_reachable(final(maze)),
        final(maze).passage_count() == final(maze).visited_count() - 1,
        forall|p: Position| final(maze).in_bounds(p) && visited_at(final(maze), p) ==> #[trigger] surroundings_visited(final(maze), p),
        tree_links(final(maze), links@.0, links@.1),
{
    let ghost fresh = *maze;
    let ghost par0 = Map::<Position, Position>::empty().insert(Maze::start(), Maze::start());
    let ghost depth0 = Map::<Position, nat>::empty().insert(Maze::start(), 0);
    proof {
        lemma_fresh_maze(&fresh);
        lemma_links_fresh(&fresh);
        reveal(border_closed);
    }
    maze.cells[y][x].visited = true;
    let ghost c = Cell { visited: true, ..fresh.cell(x as int, y as int) };
    proof {
        assert(maze.grid() =~= grid_update(fresh.grid(), x as int, y as int, c));
        lemma_mark_visited(&fresh, maze, x, y, c);
        lemma_updated_cells(&fresh, maze, x as int, y as int, c);
        lemma_links_marked(&fresh, maze, (x, y), par0, depth0);
        lemma_border_marked(&fresh, maze, x as int, y as int, c);
        lemma_unvisited_nonneg(maze);
    }
    let mut directions = [Direction::North, Direction::East, Direction::South, Direction::West];
    let ghost all = directions@;
    let mut rng = thread_rng();
    shuffle_directions(&mut directions, &mut rng);
    let mut frames: Vec<CarveFrame> = Vec::new();
    frames.push(CarveFrame { cell: (x, y), directions, next: 0 });
    let ghost mut par = par0;
    let ghost mut depth = depth0;
    proof {
        assert(all =~= compass_directions());
        assert(frame_ok(maze, frames@[0]));
        assert forall|p: Position| maze.in_bounds(p) && #[trigger] visited_at(maze, p) && !on_stack(frames@, p) implies surroundings_visited(maze, p) by {
            assert(!visited_at(&fresh, p)) by {
                assert(fresh.cell(p.0 as int, p.1 as int) == Cell::closed());
            }
            assert(frames@[0].cell == p);
        }
        assert(frames_weight(frames@.drop_last()) == 0);
        reveal(carving);
    }
    let ghost w = maze.width;
    let ghost h = maze.height;
    while frames.len() > 0
        invariant
            maze.width == w,
            maze.height == h,
            w == fresh.width,
            h == fresh.height,
            carving(maze, frames@, par, depth),
            frames_weight(frames@) >= 0,
        decreases 6 * unvisited_count(maze) + frames_weight(frames@),
    {
        let top = frames.len() - 1;
        let frame = frames[top];
        let ghost old_frames = frames@;
        proof {
            lemma_carving_facts(maze, old_frames, par, depth);
        }
        if frame.next >= 4 {
            frames.pop();
            proof {
                lemma_frame_done(maze, old_frames, frames@, par, depth);
            }
        } else {
            let direction = frame.directions[frame.next];
            frames.set(top, CarveFrame { next: frame.next + 1, ..frame });
            let ghost tried = frames@;
            let (px, py) = frame.cell;
            let neighbor = get_neighbor(px, py, direction, maze.width, maze.height);
            if let Some((nx, ny)) = neighbor {
                if !maze.cells[ny][nx].visited {
                    let links = open_and_push(
                        maze,
                        &mut frames,
                        frame.cell,
                        (nx, ny),
                        direction,
                        Ghost(par),
                        Ghost(depth),
                        Ghost(old_frames),
                    );
                    proof {
                        par = links@.0;
                        depth = links@.1;
                            }
                } else {
                    proof {
                        lemma_side_tried(maze, old_frames, tried, par, depth, direction);
                            }
                }
            } else {
                proof {
                    lemma_side_tried(maze, old_frames, tried, par, depth, direction);
                    }
            }
        }
        proof {
            lemma_carving_facts(maze, frames@, par, depth);
            lemma_unvisited_nonneg(maze);
        }
    }
    proof {
        lemma_carving_facts(maze, frames@, par, depth);
    }
    Ghost((par, depth))
}

/// Opens the side of `p` toward the unvisited cell `n`, visits `n` and
/// puts it on the stack with its directions shuffled.
fn open_and_push(
    maze: &mut Maze,
    frames: &mut Vec<CarveFrame>,
    p: Position,
    n: Position,
    d: Direction,
    Ghost(par): Ghost<Map<Position, Position>>,
    Ghost(depth): Ghost<Map<Position, nat>>,
    Ghost(old_frames): Ghost<Seq<CarveFrame>>,
) -> (links: Ghost<(Map<Position, Position>, Map<Position, nat>)>)
    requires
        carving(old(maze), old_frames, par, depth),
        old_frames.len() > 0,
        old_frames.last().next < 4,
        p == old_frames.last().cell,
        d == old_frames.last().directions@[old_frames.last().next as int],
        old(frames)@ == old_frames.update(old_frames.len() - 1, CarveFrame { next: (old_frames.last().next + 1) as usize, ..old_frames.last() }),
        inside_toward(old(maze).width as int, old(maze).height as int, p, d),
        n == moved(p, d),
        !visited_at(old(maze), n),
    ensures
        final(maze).width == old(maze).width,
        final(maze).height == old(maze).height,
        carving(final(maze), final(frames)@, links@.0, links@.1),
        frames_weight(final(frames)@) >= 0,
        6 * unvisited_count(final(maze)) + frames_weight(final(frames)@) < 6 * unvisited_count(old(maze))
            + frames_weight(old_frames),
{
    let ghost mb = *maze;
    let ghost tried = frames@;
    proof {
        lemma_carving_facts(&mb, old_frames, par, depth);
    }
    remove_wall(p.0, p.1, n.0, n.1, d, maze);
    let ghost ma = *maze;
    proof {
        lemma_two_updates(&mb, &ma, p, n, d);
    }
    maze.cells[n.1][n.0].visited = true;
    let ghost mc = *maze;
    let ghost cn = Cell { visited: true, ..ma.cell(n.0 as int, n.1 as int) };
    let mut directions = [Direction::North, Direction::East, Direction::South, Direction::West];
    let ghost all = directions@;
    let mut rng = thread_rng();
    shuffle_directions(&mut directions, &mut rng);
    frames.push(CarveFrame { cell: n, directions, next: 0 });
    proof {
        assert(mc.grid() =~= grid_update(ma.grid(), n.0 as int, n.1 as int, cn));
        assert(all =~= compass_directions());
    }
    let ghost links = lemma_open_and_visit(&mb, &ma, &mc, p, n, d, cn, par, depth);
    proof {
        assert(frames@ =~= tried.push(frames@.last()));
        lemma_carved_step(&mb, &mc, n, par, depth, links.0, links.1, old_frames, tried, frames@);
    }
    Ghost(links)
}

/// What the carving state says of the maze and of the top frame.
proof fn lemma_carving_facts(m: &Maze, frames: Seq<CarveFrame>, par: Map<Position, Position>, depth: Map<Position, nat>)
    requires
        carving(m, frames, par, depth),
    ensures
        m.well_shaped(),
        frames.len() > 0 ==> frame_ok(m, frames[frames.len() - 1]),
        frames.len() == 0 ==> forall|p: Position| m.in_bounds(p) && visited_at(m, p) ==> #[trigger] surroundings_visited(m, p),
        m.walls_consistent(),
        border_closed(m),
        visited_at(m, Maze::start()),
        unvisited_sealed(m, Maze::start()),
        visited_reachable(m),
        m.passage_count() == m.visited_count() - 1,
        tree_links(m, par, depth),
{
    reveal(carving);
    if frames.len() == 0 {
        assert forall|p: Position| m.in_bounds(p) && visited_at(m, p) implies #[trigger] surroundings_visited(m, p) by {
            assert(!on_stack(frames, p));
        }
    }
}

/// The weight of a stack after its top frame changes or leaves, or a frame
/// is pushed.
proof fn lemma_weight_steps(frames: Seq<CarveFrame>, f: CarveFrame)
    requires
        frames.len() > 0,
    ensures
        frames_weight(frames) == frames_weight(frames.drop_last()) + 5 - frames.last().next,
        frames_weight(frames.update(frames.len() - 1, f)) == frames_weight(frames.drop_last()) + 5 - f.next,
        frames_weight(frames.push(f)) == frames_weight(frames) + 5 - f.next,
{
    assert(frames.update(frames.len() - 1, f).drop_last() =~= frames.drop_last());
    assert(frames.push(f).drop_last() =~= frames);
}

/// A cell whose four sides have been tried has all its surroundings
/// visited, so it leaves the stack and the carving goes on.
proof fn lemma_frame_done(
    m: &Maze,
    old_frames: Seq<CarveFrame>,
    frames: Seq<CarveFrame>,
    par: Map<Position, Position>,
    depth: Map<Position, nat>,
)
    requires
        carving(m, old_frames, par, depth),
        old_frames.len() > 0,
        old_frames.last().next >= 4,
        frames == old_frames.drop_last(),
        frames_weight(old_frames) >= 0,
    ensures
        carving(m, frames, par, depth),
        frames_weight(frames) >= 0,
        frames_weight(frames) < frames_weight(old_frames),
{
    reveal(carving);
    let f = old_frames.last();
    assert(frame_ok(m, old_frames[old_frames.len() - 1]));
    lemma_weight_steps(old_frames, f);
    assert forall|d: Direction| true implies #[trigger] side_visited(m, f.cell, d) by {
        let all = compass_directions();
        assert(all.contains(d)) by {
            match d {
                Direction::North => assert(all[0] == d),
                Direction::East => assert(all[1] == d),
                Direction::South => assert(all[2] == d),
                Direction::West => assert(all[3] == d),
            }
        }
        assert(f.directions@.to_multiset().count(d) > 0);
        assert(f.directions@.contains(d));
        let j = choose|j: int| 0 <= j < 4 && f.directions@[j] == d;
        assert(side_visited(m, f.cell, f.directions@[j]));
    }
    assert(side_visited(m, f.cell, Direction::North));
    assert(side_visited(m, f.cell, Direction::East));
    assert(side_visited(m, f.cell, Direction::South));
    assert(side_visited(m, f.cell, Direction::West));
    assert forall|k: int| 0 <= k < frames.len() implies frame_ok(m, #[trigger] frames[k]) by {
        assert(frames[k] == old_frames[k]);
    }
    assert forall|p: Position| m.in_bounds(p) && #[trigger] visited_at(m, p) && !on_stack(frames, p) implies surroundings_visited(m, p) by {
        if p != f.cell {
            if on_stack(old_frames, p) {
                let k = choose|k: int| 0 <= k < old_frames.len() && (#[trigger] old_frames[k]).cell == p;
                assert(k != old_frames.len() - 1);
                assert(frames[k].cell == p);
            }
        }
    }
    lemma_weight_nonneg(frames, m, par, depth);
}

/// A stack of frames each with at most four sides tried has a weight of at
/// least zero.
proof fn lemma_weight_nonneg(frames: Seq<CarveFrame>, m: &Maze, par: Map<Position, Position>, depth: Map<Position, nat>)
    requires
        forall|k: int| 0 <= k < frames.len() ==> frame_ok(m, #[trigger] frames[k]),
    ensures
        frames_weight(frames) >= 0,
    decreases frames.len(),
{
    if frames.len() > 0 {
        let rest = frames.drop_last();
        assert forall|k: int| 0 <= k < rest.len() implies frame_ok(m, #[trigger] rest[k]) by {
            assert(rest[k] == frames[k]);
        }
        lemma_weight_nonneg(rest, m, par, depth);
        assert(frame_ok(m, frames[frames.len() - 1]));
    }
}

/// Trying a side that leads off the grid or to a visited cell changes
/// nothing but the top frame.
proof fn lemma_side_tried(
    m: &Maze,
    old_frames: Seq<CarveFrame>,
    frames: Seq<CarveFrame>,
    par: Map<Position, Position>,
    depth: Map<Position, nat>,
    d: Direction,
)
    requires
        carving(m, old_frames, par, depth),
        old_frames.len() > 0,
        old_frames.last().next < 4,
        d == old_frames.last().directions@[old_frames.last().next as int],
        frames == old_frames.update(old_frames.len() - 1, CarveFrame { next: (old_frames.last().next + 1) as usize, ..old_frames.last() }),
        side_visited(m, old_frames.last().cell, d),
        frames_weight(old_frames) >= 0,
    ensures
        carving(m, frames, par, depth),
        frames_weight(frames) >= 0,
        frames_weight(frames) < frames_weight(old_frames),
{
    reveal(carving);
    let f = old_frames.last();
    let t = old_frames.len() - 1;
    assert(frame_ok(m, old_frames[t]));
    lemma_weight_steps(old_frames, frames[t]);
    assert forall|k: int| 0 <= k < frames.len() implies frame_ok(m, #[trigger] frames[k]) by {
        if k == t {
            assert forall|j: int| 0 <= j < frames[k].next implies side_visited(m, frames[k].cell, #[trigger] frames[k].directions@[j]) by {
                if j < f.next {
                    assert(side_visited(m, f.cell, f.directions@[j]));
                }
            }
        } else {
            assert(frames[k] == old_frames[k]);
        }
    }
    assert forall|p: Position| m.in_bounds(p) && #[trigger] visited_at(m, p) && !on_stack(frames, p) implies surroundings_visited(m, p) by {
        if on_stack(old_frames, p) {
            let k = choose|k: int| 0 <= k < old_frames.len() && (#[trigger] old_frames[k]).cell == p;
            assert(frames[k].cell == p);
        }
    }
    assert(frames_weight(frames) >= 0) by {
        lemma_weight_nonneg(frames, m, par, depth);
    }
}

/// Opening the side of `p` toward the unvisited cell `n` and visiting `n`
/// keeps the maze's part of the carving state.
#[verifier::rlimit(40)]
#[verifier::spinoff_prover]
proof fn lemma_open_and_visit(
    mb: &Maze,
    ma: &Maze,
    mc: &Maze,
    p: Position,
    n: Position,
    d: Direction,
    cn: Cell,
    par: Map<Position, Position>,
    depth: Map<Position, nat>,
) -> (links: (Map<Position, Position>, Map<Position, nat>))
    requires
        mb.well_shaped(),
        mb.walls_consistent(),
        border_closed(mb),
        visited_at(mb, Maze::start()),
        unvisited_sealed(mb, Maze::start()),
        visited_reachable(mb),
        mb.passage_count() == mb.visited_count() - 1,
        tree_links(mb, par, depth),
        mb.in_bounds(p),
        visited_at(mb, p),
        inside_toward(mb.width as int, mb.height as int, p, d),
        n == moved(p, d),
        !visited_at(mb, n),
        ma.width == mb.width,
        ma.height == mb.height,
        ma.cells@.len() == mb.cells@.len(),
        ma.grid() == grid_update(
            grid_update(mb.grid(), p.0 as int, p.1 as int, open_side(mb.cell(p.0 as int, p.1 as int), d)),
            n.0 as int,
            n.1 as int,
            open_side(mb.cell(n.0 as int, n.1 as int), opposite(d)),
        ),
        cn == (Cell { visited: true, ..ma.cell(n.0 as int, n.1 as int) }),
        mc.width == ma.width,
        mc.height == ma.height,
        mc.cells@.len() == ma.cells@.len(),
        mc.grid() == grid_update(ma.grid(), n.0 as int, n.1 as int, cn),
    ensures
        mc.well_shaped(),
        mc.walls_consistent(),
        border_closed(mc),
        visited_at(mc, Maze::start()),
        unvisited_sealed(mc, Maze::start()),
        visited_reachable(mc),
        mc.passage_count() == mc.visited_count() - 1,
        unvisited_count(mc) >= 0,
        unvisited_count(mc) == unvisited_count(mb) - 1,
        tree_links(mc, links.0, links.1),
        mc.in_bounds(n),
        visited_at(mc, n),
        visited_grows(mb, mc),
        forall|q: Position| mc.in_bounds(q) && #[trigger] visited_at(mc, q) && q != n ==> visited_at(mb, q),
{
    lemma_sealed_except(mb, Maze::start(), p);
    lemma_wall_removed(mb, ma, p, n, d);
    lemma_links_before_child(mb, ma, p, n, d, par, depth);
    lemma_border_wall_removed(mb, ma, p, n, d);
    let par2 = par.insert(n, p);
    let depth2 = depth.insert(n, depth[p] + 1);
    lemma_mark_visited(ma, mc, n.0, n.1, cn);
    lemma_updated_cells(ma, mc, n.0 as int, n.1 as int, cn);
    lemma_links_marked(ma, mc, n, par2, depth2);
    lemma_border_marked(ma, mc, n.0 as int, n.1 as int, cn);
    lemma_sealed_except(mc, n, Maze::start());
    lemma_unvisited_nonneg(mc);
    assert forall|q: Position| mb.in_bounds(q) && #[trigger] visited_at(mb, q) implies visited_at(mc, q) by {
        assert(visited_at(ma, q));
    }
    assert forall|q: Position| mc.in_bounds(q) && #[trigger] visited_at(mc, q) && q != n implies visited_at(mb, q) by {
        assert(visited_at(ma, q));
    }
    (par2, depth2)
}

/// After the cell `n` beyond the side just tried was opened and visited, it
/// goes on the stack and the carving state holds again.
#[verifier::rlimit(40)]
#[verifier::spinoff_prover]
proof fn lemma_carved_step(
    mb: &Maze,
    mc: &Maze,
    n: Position,
    par: Map<Position, Position>,
    depth: Map<Position, nat>,
    par2: Map<Position, Position>,
    depth2: Map<Position, nat>,
    old_frames: Seq<CarveFrame>,
    tried: Seq<CarveFrame>,
    frames: Seq<CarveFrame>,
)
    requires
        carving(mb, old_frames, par, depth),
        old_frames.len() > 0,
        old_frames.last().next < 4,
        n == moved(old_frames.last().cell, old_frames.last().directions@[old_frames.last().next as int]),
        tried == old_frames.update(old_frames.len() - 1, CarveFrame { next: (old_frames.last().next + 1) as usize, ..old_frames.last() }),
        mc.width == mb.width,
        mc.height == mb.height,
        mc.well_shaped(),
        mc.walls_consistent(),
        border_closed(mc),
        visited_at(mc, Maze::start()),
        unvisited_sealed(mc, Maze::start()),
        visited_reachable(mc),
        mc.passage_count() == mc.visited_count() - 1,
        unvisited_count(mc) >= 0,
        unvisited_count(mc) == unvisited_count(mb) - 1,
        tree_links(mc, par2, depth2),
        mc.in_bounds(n),
        visited_at(mc, n),
        visited_grows(mb, mc),
        forall|q: Position| mc.in_bounds(q) && #[trigger] visited_at(mc, q) && q != n ==> visited_at(mb, q),
        frames == tried.push(frames.last()),
        frames.last().cell == n,
        frames.last().next == 0,
        frames.last().directions@.to_multiset() == compass_directions().to_multiset(),
    ensures
        carving(mc, frames, par2, depth2),
        frames_weight(frames) >= 0,
        6 * unvisited_count(mc) + frames_weight(frames) < 6 * unvisited_count(mb) + frames_weight(old_frames),
{
    reveal(carving);
    let f = old_frames.last();
    let t = old_frames.len() - 1;
    assert(frame_ok(mb, old_frames[t]));
    lemma_weight_steps(old_frames, tried[t]);
    lemma_weight_steps(tried, frames.last());
    lemma_weight_nonneg(old_frames, mb, par, depth);
    assert forall|k: int| 0 <= k < frames.len() implies frame_ok(mc, #[trigger] frames[k]) by {
        if k == t + 1 {
            assert(frames[k] == frames.last());
        } else if k == t {
            assert(frames[k] == tried[t]);
            assert forall|j: int| 0 <= j < frames[k].next implies side_visited(mc, frames[k].cell, #[trigger] frames[k].directions@[j]) by {
                if j < f.next {
                    assert(side_visited(mb, f.cell, f.directions@[j]));
                    lemma_side_grows(mb, mc, f.cell, f.directions@[j]);
                }
            }
        } else {
            assert(frames[k] == old_frames[k]);
            assert(frame_ok(mb, old_frames[k]));
            assert forall|j: int| 0 <= j < frames[k].next implies side_visited(mc, frames[k].cell, #[trigger] frames[k].directions@[j]) by {
                assert(side_visited(mb, old_frames[k].cell, old_frames[k].directions@[j]));
                lemma_side_grows(mb, mc, old_frames[k].cell, old_frames[k].directions@[j]);
            }
        }
    }
    assert forall|q: Position| mc.in_bounds(q) && #[trigger] visited_at(mc, q) && !on_stack(frames, q) implies surroundings_visited(mc, q) by {
        assert(frames[t + 1].cell == n);
        assert(q != n);
        assert(visited_at(mb, q));
        if on_stack(old_frames, q) {
            let k = choose|k: int| 0 <= k < old_frames.len() && (#[trigger] old_frames[k]).cell == q;
            assert(frames[k].cell == q);
        }
        lemma_surroundings_grow(mb, mc, q);
    }
    lemma_weight_nonneg(frames, mc, par2, depth2);
}

/// Every unvisited cell but `a` is sealed, and `a` is visited: every
/// unvisited cell but `b` is sealed.
proof fn lemma_sealed_except(m: &Maze, a: Position, b: Position)
    requires
        unvisited_sealed(m, a),
        m.in_bounds(a),
        visited_at(m, a),
    ensures
        unvisited_sealed(m, b),
{
}

/// A side whose cell beyond was visited stays so as more cells are visited.
proof fn lemma_side_grows(m1: &Maze, m2: &Maze, p: Position, d: Direction)
    requires
        m1.width == m2.width,
        m1.height == m2.height,
        visited_grows(m1, m2),
        side_visited(m1, p, d),
        m1.in_bounds(p),
    ensures
        side_visited(m2, p, d),
{
    if inside_toward(m1.width as int, m1.height as int, p, d) {
        assert(visited_at(m1, moved(p, d)));
    }
}

fn get_neighbor(x: usize, y: usize, direction: Direction, width: usize, height: usize) -> (result: Option<Position>)
    requires
        x < width,
        y < height,
    ensures
        result == (if inside_toward(width as int, height as int, (x, y), direction) {
            Some(moved((x, y), direction))
        } else {
            None
        }),
{
    match direction {
        Direction::North => {
            if y > 0 {
                Some((x, y - 1))
            } else {
                None
            }
        },
        Direction::East => {
            if x + 1 < width {
                Some((x + 1, y))
            } else {
                None
            }
        },
        Direction::South => {
            if y + 1 < height {
                Some((x, y + 1))
            } else {
                None
            }
        },
        Direction::West => {
            if x > 0 {
                Some((x - 1, y))
            } else {
                None
            }
        },
    }
}

fn remove_wall(x: usize, y: usize, next_x: usize, next_y: usize, direction: Direction, maze: &mut Maze)
    requires
        old(maze).has_shape(),
        old(maze).in_bounds((x, y)),
        inside_toward(old(maze).width as int, old(maze).height as int, (x, y), direction),
        (next_x, next_y) == moved((x, y), direction),
    ensures
        final(maze).width == old(maze).width,
        final(maze).height == old(maze).height,
        final(maze).cells@.len() == old(maze).cells@.len(),
        final(maze).grid() == grid_update(
            grid_update(old(maze).grid(), x as int, y as int, open_side(old(maze).cell(x as int, y as int), direction)),
            next_x as int,
            next_y as int,
            open_side(old(maze).cell(next_x as int, next_y as int), opposite(direction)),
        ),
{
    let ghost m0 = *maze;
    match direction {
        Direction::North => {
            maze.cells[y][x].north = false;
            maze.cells[next_y][next_x].south = false;
        },
        Direction::East => {
            maze.cells[y][x].east = false;
            maze.cells[next_y][next_x].west = false;
        },
        Direction::South => {
            maze.cells[y][x].south = false;
            maze.cells[next_y][next_x].north = false;
        },
        Direction::West => {
            maze.cells[y][x].west = false;
            maze.cells[next_y][next_x].east = false;
        },
    }
    proof {
        let g1 = grid_update(m0.grid(), x as int, y as int, open_side(m0.cell(x as int, y as int), direction));
        let g2 = grid_update(g1, next_x as int, next_y as int, open_side(m0.cell(next_x as int, next_y as int), opposite(direction)));
        assert(maze.grid() =~= g2);
    }
}

proof fn lemma_unvisited_nonneg(m: &Maze)
    requires
        m.has_shape(),
    ensures
        unvisited_count(m) >= 0,
{
    lemma_grid_total_bounds(m.grid(), unvisited_indicator(), m.height as int, m.width as int);
}

proof fn lemma_surroundings_grow(m1: &Maze, m2: &Maze, p: Position)
    requires
        m1.width == m2.width,
        m1.height == m2.height,
        m1.in_bounds(p),
        visited_grows(m1, m2),
        surroundings_visited(m1, p),
    ensures
        surroundings_visited(m2, p),
{
    let w = m1.width as int;
    let h = m1.height as int;
    if inside_toward(w, h, p, Direction::North) {
        assert(visited_at(m1, moved(p, Direction::North)));
    }
    if inside_toward(w, h, p, Direction::East) {
        assert(visited_at(m1, moved(p, Direction::East)));
    }
    if inside_toward(w, h, p, Direction::South) {
        assert(visited_at(m1, moved(p, Direction::South)));
    }
    if inside_toward(w, h, p, Direction::West) {
        assert(visited_at(m1, moved(p, Direction::West)));
    }
}

/// The cells of a grid after one entry was replaced.
proof fn lemma_updated_cells(m0: &Maze, m1: &Maze, x: int, y: int, c: Cell)
    requires
        m0.has_shape(),
        0 <= x < m0.width,
        0 <= y < m0.height,
        m1.width == m0.width,
        m1.height == m0.height,
        m1.cells@.len() == m0.cells@.len(),
        m1.grid() == grid_update(m0.grid(), x, y, c),
    ensures
        m1.has_shape(),
        forall|i: int, j: int|
            0 <= i < m0.width && 0 <= j < m0.height ==> #[trigger] m1.cell(i, j) == (if i == x && j == y {
                c
            } else {
                m0.cell(i, j)
            }),
{
    assert forall|j: int| 0 <= j < m1.height implies (#[trigger] m1.cells@[j]@.len()) == m1.width by {
        assert(m1.grid()[j] == m1.cells@[j]@);
        assert(m0.grid()[j] == m0.cells@[j]@);
    }
    assert forall|i: int, j: int| 0 <= i < m0.width && 0 <= j < m0.height implies #[trigger] m1.cell(i, j) == (if i == x && j == y {
        c
    } else {
        m0.cell(i, j)
    }) by {
        assert(m1.grid()[j] == m1.cells@[j]@);
        assert(m0.grid()[j] == m0.cells@[j]@);
    }
}

proof fn lemma_mark_visited(m0: &Maze, m1: &Maze, x: usize, y: usize, c: Cell)
    requires
        m0.well_shaped(),
        m0.in_bounds((x, y)),
        !visited_at(m0, (x, y)),
        m0.walls_consistent(),
        unvisited_sealed(m0, (x, y)),
        visited_reachable(m0),
        m0.reachable(Maze::start(), (x, y)),
        m0.passage_count() == m0.visited_count(),
        c == (Cell { visited: true, ..m0.cell(x as int, y as int) }),
        m1.width == m0.width,
        m1.height == m0.height,
        m1.cells@.len() == m0.cells@.len(),
        m1.grid() == grid_update(m0.grid(), x as int, y as int, c),
    ensures
        m1.well_shaped(),
        m1.walls_consistent(),
        visited_at(m1, (x, y)),
        visited_grows(m0, m1),
        unvisited_sealed(m1, (x, y)),
        visited_reachable(m1),
        opens_at_least(m0, m1),
        m1.passage_count() == m1.visited_count() - 1,
        unvisited_count(m1) == unvisited_count(m0) - 1,
        forall|p: Position| m1.in_bounds(p) && #[trigger] visited_at(m1, p) && !visited_at(m0, p) ==> p == (x, y),
{
    lemma_updated_cells(m0, m1, x as int, y as int, c);
    let g = m0.grid();
    let h = m0.height as int;
    lemma_grid_total_update(g, visited_indicator(), h, x as int, y as int, c);
    lemma_grid_total_update(g, unvisited_indicator(), h, x as int, y as int, c);
    lemma_grid_total_update(g, passage_indicator(m0.width as int, h), h, x as int, y as int, c);
    assert(g[y as int][x as int] == m0.cell(x as int, y as int));
    assert(opens_at_least(m1, m0));
    assert forall|p: Position| m1.in_bounds(p) && !#[trigger] visited_at(m1, p) && p != (x, y) implies sealed(cell_at(m1, p)) by {
        assert(m1.cell(p.0 as int, p.1 as int) == m0.cell(p.0 as int, p.1 as int));
        assert(!visited_at(m0, p));
    }
    assert forall|p: Position| m1.in_bounds(p) && #[trigger] visited_at(m1, p) implies m1.reachable(Maze::start(), p) by {
        if p == (x, y) {
            lemma_reachable_opens(m0, m1, Maze::start(), p);
        } else {
            assert(visited_at(m0, p));
            lemma_reachable_opens(m0, m1, Maze::start(), p);
        }
    }
}

proof fn lemma_wall_removed(m0: &Maze, m1: &Maze, p: Position, n: Position, d: Direction)
    requires
        m0.well_shaped(),
        m0.in_bounds(p),
        inside_toward(m0.width as int, m0.height as int, p, d),
        n == moved(p, d),
        visited_at(m0, p),
        !visited_at(m0, n),
        m0.walls_consistent(),
        unvisited_sealed(m0, p),
        visited_reachable(m0),
        m0.passage_count() == m0.visited_count() - 1,
        m1.width == m0.width,
        m1.height == m0.height,
        m1.cells@.len() == m0.cells@.len(),
        m1.grid() == grid_update(
            grid_update(m0.grid(), p.0 as int, p.1 as int, open_side(m0.cell(p.0 as int, p.1 as int), d)),
            n.0 as int,
            n.1 as int,
            open_side(m0.cell(n.0 as int, n.1 as int), opposite(d)),
        ),
    ensures
        m1.well_shaped(),
        m1.walls_consistent(),
        m1.in_bounds(n),
        !visited_at(m1, n),
        forall|q: Position| m1.in_bounds(q) ==> #[trigger] visited_at(m1, q) == visited_at(m0, q),
        unvisited_sealed(m1, n),
        visited_reachable(m1),
        m1.reachable(Maze::start(), n),
        opens_at_least(m0, m1),
        m1.passage_count() == m1.visited_count(),
        unvisited_count(m1) == unvisited_count(m0),
        m1.step(p, n),
{
    assert(sealed(cell_at(m0, n)));
    lemma_two_updates(m0, m1, p, n, d);
    lemma_wall_removed_counts(m0, m1, p, n, d);
    lemma_wall_removed_consistent(m0, m1, p, n, d);
    assert(opens_at_least(m0, m1));
    assert forall|q: Position| m1.in_bounds(q) implies #[trigger] visited_at(m1, q) == visited_at(m0, q) by {
        assert(m1.cell(q.0 as int, q.1 as int).visited == m0.cell(q.0 as int, q.1 as int).visited);
    }
    assert forall|q: Position| m1.in_bounds(q) && !#[trigger] visited_at(m1, q) && q != n implies sealed(cell_at(m1, q)) by {
        assert(visited_at(m1, q) == visited_at(m0, q));
        assert(q != p);
        assert(m1.cell(q.0 as int, q.1 as int) == m0.cell(q.0 as int, q.1 as int));
    }
    lemma_step_moved(m1, p, d);
    assert forall|q: Position| m1.in_bounds(q) && #[trigger] visited_at(m1, q) implies m1.reachable(Maze::start(), q) by {
        assert(visited_at(m1, q) == visited_at(m0, q));
        lemma_reachable_opens(m0, m1, Maze::start(), q);
    }
    lemma_reachable_opens(m0, m1, Maze::start(), p);
    lemma_reachable_step(m1, Maze::start(), p, n);
}

/// The links once the wall between the visited cell `p` and the unvisited
/// cell `n` beyond its side `d` is opened and `p` is made the parent of `n`.
proof fn lemma_links_before_child(
    mb: &Maze,
    ma: &Maze,
    p: Position,
    n: Position,
    d: Direction,
    par: Map<Position, Position>,
    depth: Map<Position, nat>,
)
    requires
        mb.well_shaped(),
        mb.in_bounds(p),
        inside_toward(mb.width as int, mb.height as int, p, d),
        n == moved(p, d),
        visited_at(mb, p),
        !visited_at(mb, n),
        visited_at(mb, Maze::start()),
        mb.walls_consistent(),
        unvisited_sealed(mb, p),
        tree_links(mb, par, depth),
        ma.width == mb.width,
        ma.height == mb.height,
        ma.cells@.len() == mb.cells@.len(),
        ma.grid() == grid_update(
            grid_update(mb.grid(), p.0 as int, p.1 as int, open_side(mb.cell(p.0 as int, p.1 as int), d)),
            n.0 as int,
            n.1 as int,
            open_side(mb.cell(n.0 as int, n.1 as int), opposite(d)),
        ),
    ensures
        tree_links(ma, par.insert(n, p), depth.insert(n, depth[p] + 1)),
        linked_below(ma, par.insert(n, p), depth.insert(n, depth[p] + 1), n),
{
    lemma_two_updates(mb, ma, p, n, d);
    assert(sealed(cell_at(mb, n)));
    lemma_links_opened(mb, ma, p, n, d, par, depth);
}

/// The cells after the two entries `p` and `n` were replaced.
proof fn lemma_two_updates(m0: &Maze, m1: &Maze, p: Position, n: Position, d: Direction)
    requires
        m0.well_shaped(),
        m0.in_bounds(p),
        inside_toward(m0.width as int, m0.height as int, p, d),
        n == moved(p, d),
        m1.width == m0.width,
        m1.height == m0.height,
        m1.cells@.len() == m0.cells@.len(),
        m1.grid() == grid_update(
            grid_update(m0.grid(), p.0 as int, p.1 as int, open_side(m0.cell(p.0 as int, p.1 as int), d)),
            n.0 as int,
            n.1 as int,
            open_side(m0.cell(n.0 as int, n.1 as int), opposite(d)),
        ),
    ensures
        m1.well_shaped(),
        m1.in_bounds(n),
        n != p,
        forall|i: int, j: int|
            0 <= i < m0.width && 0 <= j < m0.height ==> #[trigger] m1.cell(i, j) == (if i == n.0 && j == n.1 {
                open_side(m0.cell(n.0 as int, n.1 as int), opposite(d))
            } else if i == p.0 && j == p.1 {
                open_side(m0.cell(p.0 as int, p.1 as int), d)
            } else {
                m0.cell(i, j)
            }),
{
    assert forall|j: int| 0 <= j < m1.height implies (#[trigger] m1.cells@[j]@.len()) == m1.width by {
        assert(m1.grid()[j] == m1.cells@[j]@);
        assert(m0.grid()[j] == m0.cells@[j]@);
    }
    assert forall|i: int, j: int| 0 <= i < m0.width && 0 <= j < m0.height implies #[trigger] m1.cell(i, j) == (if i == n.0 && j == n.1 {
        open_side(m0.cell(n.0 as int, n.1 as int), opposite(d))
    } else if i == p.0 && j == p.1 {
        open_side(m0.cell(p.0 as int, p.1 as int), d)
    } else {
        m0.cell(i, j)
    }) by {
        assert(m1.grid()[j] == m1.cells@[j]@);
        assert(m0.grid()[j] == m0.cells@[j]@);
    }
}

proof fn lemma_wall_removed_counts(m0: &Maze, m1: &Maze, p: Position, n: Position, d: Direction)
    requires
        m0.well_shaped(),
        m0.in_bounds(p),
        inside_toward(m0.width as int, m0.height as int, p, d),
        n == moved(p, d),
        sealed(cell_at(m0, n)),
        m0.walls_consistent(),
        m1.grid() == grid_update(
            grid_update(m0.grid(), p.0 as int, p.1 as int, open_side(m0.cell(p.0 as int, p.1 as int), d)),
            n.0 as int,
            n.1 as int,
            open_side(m0.cell(n.0 as int, n.1 as int), opposite(d)),
        ),
        m1.width == m0.width,
        m1.height == m0.height,
    ensures
        m1.passage_count() == m0.passage_count() + 1,
        m1.visited_count() == m0.visited_count(),
        unvisited_count(m1) == unvisited_count(m0),
{
    let w = m0.width as int;
    let h = m0.height as int;
    let (px, py) = (p.0 as int, p.1 as int);
    let (nx, ny) = (n.0 as int, n.1 as int);
    let cp = open_side(m0.cell(px, py), d);
    let cn = open_side(m0.cell(nx, ny), opposite(d));
    let g0 = m0.grid();
    let g1 = grid_update(g0, px, py, cp);
    assert(g0[py] == m0.cells@[py]@);
    assert(g0[ny] == m0.cells@[ny]@);
    assert(g0[py][px] == m0.cell(px, py));
    assert(g0[ny][nx] == m0.cell(nx, ny));
    assert(g1[ny][nx] == m0.cell(nx, ny));
    lemma_grid_total_update(g0, visited_indicator(), h, px, py, cp);
    lemma_grid_total_update(g0, unvisited_indicator(), h, px, py, cp);
    lemma_grid_total_update(g0, passage_indicator(w, h), h, px, py, cp);
    lemma_grid_total_update(g1, visited_indicator(), h, nx, ny, cn);
    lemma_grid_total_update(g1, unvisited_indicator(), h, nx, ny, cn);
    lemma_grid_total_update(g1, passage_indicator(w, h), h, nx, ny, cn);
    match d {
        Direction::North => {
            assert(m0.cell(nx, ny).south == m0.cell(px, py).north);
        },
        Direction::East => {
            assert(m0.cell(px, py).east == m0.cell(nx, ny).west);
        },
        Direction::South => {
            assert(m0.cell(px, py).south == m0.cell(nx, ny).north);
        },
        Direction::West => {
            assert(m0.cell(nx, ny).east == m0.cell(px, py).west);
        },
    }
}

proof fn lemma_wall_removed_consistent(m0: &Maze, m1: &Maze, p: Position, n: Position, d: Direction)
    requires
        m0.well_shaped(),
        m0.in_bounds(p),
        inside_toward(m0.width as int, m0.height as int, p, d),
        n == moved(p, d),
        n != p,
        m0.walls_consistent(),
        m1.width == m0.width,
        m1.height == m0.height,
        forall|i: int, j: int|
            0 <= i < m0.width && 0 <= j < m0.height ==> #[trigger] m1.cell(i, j) == (if i == n.0 && j == n.1 {
                open_side(m0.cell(n.0 as int, n.1 as int), opposite(d))
            } else if i == p.0 && j == p.1 {
                open_side(m0.cell(p.0 as int, p.1 as int), d)
            } else {
                m0.cell(i, j)
            }),
    ensures
        m1.walls_consistent(),
{
    assert forall|x: int, y: int| 0 <= x < m1.width && 0 <= y < m1.height implies {
        &&& (x + 1 < m1.width ==> (#[trigger] m1.cell(x, y)).east == m1.cell(x + 1, y).west)
        &&& (y + 1 < m1.height ==> m1.cell(x, y).south == m1.cell(x, y + 1).north)
    } by {
        assert(m0.cell(x, y) == m0.cell(x, y));
        if x + 1 < m1.width {
            assert(m0.cell(x + 1, y) == m0.cell(x + 1, y));
        }
        if y + 1 < m1.height {
            assert(m0.cell(x, y + 1) == m0.cell(x, y + 1));
        }
    }
}

/// A freshly built maze: nothing visited, every wall standing.
proof fn lemma_fresh_maze(m: &Maze)
    requires
        m.well_shaped(),
        forall|x: int, y: int| 0 <= x < m.width && 0 <= y < m.height ==> m.cell(x, y) == Cell::closed(),
    ensures
        !visited_at(m, (0, 0)),
        m.walls_consistent(),
        unvisited_sealed(m, (0, 0)),
        visited_reachable(m),
        m.reachable(Maze::start(), (0, 0)),
        m.passage_count() == m.visited_count(),
        m.passage_count() == 0,
{
    let g = m.grid();
    let h = m.height as int;
    let w = m.width as int;
    assert forall|j: int| 0 <= j < h implies (#[trigger] g[j]).len() == w by {
        assert(g[j] == m.cells@[j]@);
    }
    assert forall|i: int, j: int| 0 <= j < h && 0 <= i < w implies #[trigger] visited_indicator()(g[j][i], i, j) == 0 by {
        assert(g[j] == m.cells@[j]@);
        assert(g[j][i] == m.cell(i, j));
    }
    assert forall|i: int, j: int| 0 <= j < h && 0 <= i < w implies #[trigger] passage_indicator(w, h)(g[j][i], i, j) == 0 by {
        assert(g[j] == m.cells@[j]@);
        assert(g[j][i] == m.cell(i, j));
    }
    lemma_grid_total_bounds(g, visited_indicator(), h, w);
    lemma_grid_total_bounds(g, passage_indicator(w, h), h, w);
    lemma_reachable_refl(m, (0, 0));
}

/// Once carving from the corner has finished, every cell is visited and the
/// maze is perfect.
proof fn lemma_carving_done(m: &Maze)
    requires
        m.well_shaped(),
        m.walls_consistent(),
        visited_at(m, (0, 0)),
        visited_reachable(m),
        m.passage_count() == m.visited_count() - 1,
        forall|p: Position| m.in_bounds(p) && visited_at(m, p) ==> #[trigger] surroundings_visited(m, p),
    ensures
        m.is_perfect(),
        forall|x: int, y: int| 0 <= x < m.width && 0 <= y < m.height ==> (#[trigger] m.cell(x, y)).visited,
{
    let g = m.grid();
    let h = m.height as int;
    let w = m.width as int;
    assert forall|x: int, y: int| 0 <= x < w && 0 <= y < h implies (#[trigger] m.cell(x, y)).visited by {
        lemma_all_visited(m, x, y);
    }
    assert forall|j: int| 0 <= j < h implies (#[trigger] g[j]).len() == w by {
        assert(g[j] == m.cells@[j]@);
    }
    assert forall|i: int, j: int| 0 <= j < h && 0 <= i < w implies #[trigger] visited_indicator()(g[j][i], i, j) == 1 by {
        assert(g[j] == m.cells@[j]@);
        assert(g[j][i] == m.cell(i, j));
    }
    lemma_grid_total_bounds(g, visited_indicator(), h, w);
    assert(h * w == w * h) by (nonlinear_arith);
    assert forall|p: Position| m.in_bounds(p) implies #[trigger] m.reachable(Maze::start(), p) by {
        assert(m.cell(p.0 as int, p.1 as int).visited);
        assert(visited_at(m, p));
    }
}

proof fn lemma_all_visited(m: &Maze, x: int, y: int)
    requires
        m.well_shaped(),
        0 <= x < m.width,
        0 <= y < m.height,
        visited_at(m, (0, 0)),
        forall|p: Position| m.in_bounds(p) && visited_at(m, p) ==> #[trigger] surroundings_visited(m, p),
    ensures
        m.cell(x, y).visited,
    decreases x + y,
{
    if y > 0 {
        lemma_all_visited(m, x, y - 1);
        let q: Position = (x as usize, (y - 1) as usize);
        assert(visited_at(m, q));
        assert(surroundings_visited(m, q));
        assert(side_visited(m, q, Direction::South));
        assert(moved(q, Direction::South) == (x as usize, y as usize));
    } else if x > 0 {
        lemma_all_visited(m, x - 1, y);
        let q: Position = ((x - 1) as usize, y as usize);
        assert(visited_at(m, q));
        assert(surroundings_visited(m, q));
        assert(side_visited(m, q, Direction::East));
        assert(moved(q, Direction::East) == (x as usize, y as usize));
    } else {
        assert(visited_at(m, (0, 0)));
    }
}

/// Opening a side on the outer boundary keeps a perfect maze perfect.
proof fn lemma_door_opened(m0: &Maze, m1: &Maze, x: int, y: int, c: Cell)
    requires
        m0.is_perfect(),
        0 <= x < m0.width,
        0 <= y < m0.height,
        forall|i: int, j: int| 0 <= i < m0.width && 0 <= j < m0.height ==> (#[trigger] m0.cell(i, j)).visited,
        c.visited,
        c.north == m0.cell(x, y).north,
        c.south == m0.cell(x, y).south,
        (c.east != m0.cell(x, y).east) ==> x == m0.width - 1 && !c.east,
        (c.west != m0.cell(x, y).west) ==> x == 0 && !c.west,
        m1.width == m0.width,
        m1.height == m0.height,
        m1.cells@.len() == m0.cells@.len(),
        m1.grid() == grid_update(m0.grid(), x, y, c),
    ensures
        m1.is_perfect(),
        forall|i: int, j: int| 0 <= i < m1.width && 0 <= j < m1.height ==> #[trigger] m1.cell(i, j) == (if i == x && j == y {
            c
        } else {
            m0.cell(i, j)
        }),
        forall|i: int, j: int| 0 <= i < m1.width && 0 <= j < m1.height ==> (#[trigger] m1.cell(i, j)).visited,
{
    lemma_updated_cells(m0, m1, x, y, c);
    let g = m0.grid();
    let w = m0.width as int;
    let h = m0.height as int;
    lemma_grid_total_update(g, passage_indicator(w, h), h, x, y, c);
    assert(g[y][x] == m0.cell(x, y));
    assert(opens_at_least(m0, m1));
    assert forall|p: Position| m1.in_bounds(p) implies #[trigger] m1.reachable(Maze::start(), p) by {
        assert(m0.reachable(Maze::start(), p));
        lemma_reachable_opens(m0, m1, Maze::start(), p);
    }
}

} // verus!
