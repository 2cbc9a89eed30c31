use vstd::prelude::*;

use crate::maze::{Cell, Maze};
use crate::solver::search::{Position, SearchStep};
use crate::text::{decimal, push_decimal};

verus! {

/// The side of one cell in an SVG drawing.
pub const CELL_SIZE: usize = 20;

/// The decimal numeral of a non-negative number.
pub open spec fn num(n: int) -> Seq<char> {
    decimal(n as nat)
}

/// An SVG line between two points.
pub open spec fn line_text(x1: int, y1: int, x2: int, y2: int) -> Seq<char> {
    "<line x1=\""@ + num(x1) + "\" y1=\""@ + num(y1) + "\" x2=\""@ + num(x2) + "\" y2=\""@ + num(y2) + "\"/>"@
}

/// A wall segment from `(x1, y1)` to `(x2, y2)`.
pub open spec fn segment(x1: int, y1: int, x2: int, y2: int) -> (int, int, int, int) {
    (x1, y1, x2, y2)
}

/// The wall segments of the cell in column `x` of row `y`, each present
/// when its wall stands: north, east, south, west.
pub open spec fn cell_wall_segments(c: Cell, x: int, y: int) -> Seq<(int, int, int, int)> {
    let x1 = x * 20;
    let y1 = y * 20;
    let x2 = x1 + 20;
    let y2 = y1 + 20;
    (if c.north { seq![segment(x1, y1, x2, y1)] } else { Seq::empty() }) + (if c.east {
        seq![segment(x2, y1, x2, y2)]
    } else {
        Seq::empty()
    }) + (if c.south { seq![segment(x1, y2, x2, y2)] } else { Seq::empty() }) + (if c.west {
        seq![segment(x1, y1, x1, y2)]
    } else {
        Seq::empty()
    })
}

/// The SVG lines of a sequence of segments, in order.
pub open spec fn segments_text(segments: Seq<(int, int, int, int)>) -> Seq<char>
    decreases segments.len(),
{
    if segments.len() == 0 {
        Seq::empty()
    } else {
        let last = segments.last();
        segments_text(segments.drop_last()) + line_text(last.0, last.1, last.2, last.3)
    }
}

/// The lines of the walls of the cell in column `x` of row `y`.
pub open spec fn cell_walls_text(c: Cell, x: int, y: int) -> Seq<char> {
    segments_text(cell_wall_segments(c, x, y))
}

/// In a maze's drawing the cell in column `x` of row `y` contributes the
/// line from `(20x, 20y)` to `(20x + 20, 20y)` exactly when its north wall
/// stands, the line from `(20x, 20y + 20)` to `(20x + 20, 20y + 20)` exactly
/// when its south wall stands, the line from `(20x + 20, 20y)` to
/// `(20x + 20, 20y + 20)` exactly when its east wall stands, and the line
/// from `(20x, 20y)` to `(20x, 20y + 20)` exactly when its west wall
/// stands; it contributes no other line, and each at most once.
pub proof fn law_cell_lines_follow_walls(c: Cell, x: int, y: int)
    ensures
        cell_walls_text(c, x, y) == segments_text(cell_wall_segments(c, x, y)),
        cell_wall_segments(c, x, y).contains((20 * x, 20 * y, 20 * x + 20, 20 * y)) <==> c.north,
        cell_wall_segments(c, x, y).contains((20 * x, 20 * y + 20, 20 * x + 20, 20 * y + 20)) <==> c.south,
        cell_wall_segments(c, x, y).contains((20 * x + 20, 20 * y, 20 * x + 20, 20 * y + 20)) <==> c.east,
        cell_wall_segments(c, x, y).contains((20 * x, 20 * y, 20 * x, 20 * y + 20)) <==> c.west,
        forall|k: int|
            0 <= k < cell_wall_segments(c, x, y).len() ==> {
                let s = #[trigger] cell_wall_segments(c, x, y)[k];
                ||| s == (20 * x, 20 * y, 20 * x + 20, 20 * y)
                ||| s == (20 * x, 20 * y + 20, 20 * x + 20, 20 * y + 20)
                ||| s == (20 * x + 20, 20 * y, 20 * x + 20, 20 * y + 20)
                ||| s == (20 * x, 20 * y, 20 * x, 20 * y + 20)
            },
        cell_wall_segments(c, x, y).no_duplicates(),
{
    let segs = cell_wall_segments(c, x, y);
    let top = (20 * x, 20 * y, 20 * x + 20, 20 * y);
    let bottom = (20 * x, 20 * y + 20, 20 * x + 20, 20 * y + 20);
    let right = (20 * x + 20, 20 * y, 20 * x + 20, 20 * y + 20);
    let left = (20 * x, 20 * y, 20 * x, 20 * y + 20);
    let n = if c.north { seq![top] } else { Seq::<(int, int, int, int)>::empty() };
    let e = if c.east { seq![right] } else { Seq::<(int, int, int, int)>::empty() };
    let so = if c.south { seq![bottom] } else { Seq::<(int, int, int, int)>::empty() };
    let w = if c.west { seq![left] } else { Seq::<(int, int, int, int)>::empty() };
    assert(segs =~= n + e + so + w);
    assert forall|k: int| 0 <= k < segs.len() implies {
        let s = #[trigger] segs[k];
        ||| s == top
        ||| s == bottom
        ||| s == right
        ||| s == left
    } by {
        let a = n.len() as int;
        let b = a + e.len();
        let d = b + so.len();
        if k < a {
            assert(segs[k] == n[k]);
        } else if k < b {
            assert(segs[k] == e[k - a]);
        } else if k < d {
            assert(segs[k] == so[k - b]);
        } else {
            assert(segs[k] == w[k - d]);
        }
    }
    let a = n.len() as int;
    let b = a + e.len();
    let d = b + so.len();
    if c.north {
        assert(segs[0] == top);
    }
    if c.east {
        assert(segs[a] == right);
    }
    if c.south {
        assert(segs[b] == bottom);
    }
    if c.west {
        assert(segs[d] == left);
    }
    assert forall|k: int| 0 <= k < segs.len() implies {
        &&& (segs[k] == top ==> k < a)
        &&& (segs[k] == right ==> a <= k < b)
        &&& (segs[k] == bottom ==> b <= k < d)
        &&& (segs[k] == left ==> d <= k)
    } by {
        if k < a {
            assert(segs[k] == n[k]);
        } else if k < b {
            assert(segs[k] == e[k - a]);
        } else if k < d {
            assert(segs[k] == so[k - b]);
        } else {
            assert(segs[k] == w[k - d]);
        }
    }
    assert forall|i: int, j: int| 0 <= i < j < segs.len() implies segs[i] != segs[j] by {
        if segs[i] == segs[j] {
            assert(segs[i] == top || segs[i] == bottom || segs[i] == right || segs[i] == left);
        }
    }
}

/// The wall lines of the first `n` cells of row `y`.
pub open spec fn row_walls_text(m: &Maze, y: int, n: int) -> Seq<char>
    decreases n,
{
    if n <= 0 {
        Seq::empty()
    } else {
        row_walls_text(m, y, n - 1) + cell_walls_text(m.cell(n - 1, y), n - 1, y)
    }
}

/// The wall lines of the first `k` rows.
pub open spec fn walls_text(m: &Maze, k: int) -> Seq<char>
    decreases k,
{
    if k <= 0 {
        Seq::empty()
    } else {
        walls_text(m, k - 1) + row_walls_text(m, k - 1, m.width as int)
    }
}

/// The SVG drawing of a maze: a white background and every standing wall.
pub open spec fn maze_svg_text(m: &Maze) -> Seq<char> {
    let w = num(m.width * 20);
    let h = num(m.height * 20);
    "<svg xmlns=\"http://www.w3.org/2000/svg\" width=\""@ + w + "\" height=\""@ + h + "\" viewBox=\"0 0 "@ + w + " "@
        + h + "\">"@ + "<rect width=\"100%\" height=\"100%\" fill=\"white\"/>"@
        + "<g stroke=\"black\" stroke-width=\"2\" fill=\"none\" stroke-linecap=\"square\">"@ + walls_text(
        m,
        m.height as int,
    ) + "</g>"@ + "</svg>"@
}

/// The centre of cell coordinate `c` in an SVG drawing.
pub open spec fn center(c: int) -> int {
    c * 20 + 10
}

/// The opening of an SVG drawing `w` by `h` as the solvers draw it.
pub open spec fn svg_header_text(w: int, h: int) -> Seq<char> {
    "<svg xmlns=\"http://www.w3.org/2000/svg\"\n        width=\""@ + num(w) + "\"\n        height=\""@ + num(h)
        + "\"\n        viewBox=\"0 0 "@ + num(w) + " "@ + num(h) + "\">"@
}

/// The white background.
pub open spec fn background_text() -> Seq<char> {
    "<rect width=\"100%\" height=\"100%\" fill=\"white\"/>"@
}

/// The lines of the first `k` steps of a trace that are not on the solution path.
pub open spec fn false_lines(trace: Seq<SearchStep>, k: int) -> Seq<char>
    decreases k,
{
    if k <= 0 {
        Seq::empty()
    } else {
        let s = trace[k - 1];
        false_lines(trace, k - 1) + (if s.on_solution_path {
            Seq::empty()
        } else {
            line_text(center(s.from.0 as int), center(s.from.1 as int), center(s.to.0 as int), center(s.to.1 as int))
        })
    }
}

/// The group of the moves of a trace off the solution path, in `color`.
pub open spec fn false_paths_text(trace: Seq<SearchStep>, color: Seq<char>) -> Seq<char> {
    "<g stroke=\""@ + color
        + "\"\n        stroke-width=\"3\"\n        fill=\"none\"\n        stroke-linecap=\"round\"\n        stroke-linejoin=\"round\"\n        opacity=\"0.75\">"@
        + false_lines(trace, trace.len() as int) + "</g>"@
}

/// The centres of the first `k` positions of a path, each as `x,y ` .
pub open spec fn points_text(path: Seq<Position>, k: int) -> Seq<char>
    decreases k,
{
    if k <= 0 {
        Seq::empty()
    } else {
        points_text(path, k - 1) + num(center(path[k - 1].0 as int)) + ","@ + num(center(path[k - 1].1 as int)) + " "@
    }
}

/// The red line through the solution path; nothing for an empty path.
pub open spec fn solution_path_text(path: Seq<Position>) -> Seq<char> {
    if path.len() == 0 {
        Seq::empty()
    } else {
        "<polyline points=\""@ + points_text(path, path.len() as int)
            + "\" fill=\"none\"\n        stroke=\"red\"\n        stroke-width=\"4\"\n        stroke-linecap=\"round\"\n        stroke-linejoin=\"round\"/>"@
    }
}

/// The group of all standing walls as the solvers draw it.
pub open spec fn walls_group_text(m: &Maze) -> Seq<char> {
    "<g stroke=\"black\"\n        stroke-width=\"2\"\n        fill=\"none\"\n        stroke-linecap=\"square\">"@ + walls_text(
        m,
        m.height as int,
    ) + "</g>"@
}

/// The SVG drawing of one solver's run: its moves off the solution in
/// `color`, the solution above them, and the walls above all.
pub open spec fn solution_svg_text(m: &Maze, trace: Seq<SearchStep>, path: Seq<Position>, color: Seq<char>) -> Seq<
    char,
> {
    svg_header_text(m.width * 20, m.height * 20) + background_text() + false_paths_text(trace, color)
        + solution_path_text(path) + walls_group_text(m) + "</svg>"@
}

/// Appends an SVG line between two points.
fn push_line(svg: &mut String, x1: u128, y1: u128, x2: u128, y2: u128)
    ensures
        final(svg)@ == old(svg)@ + line_text(x1 as int, y1 as int, x2 as int, y2 as int),
{
    svg.append("<line x1=\"");
    push_decimal(svg, x1);
    svg.append("\" y1=\"");
    push_decimal(svg, y1);
    svg.append("\" x2=\"");
    push_decimal(svg, x2);
    svg.append("\" y2=\"");
    push_decimal(svg, y2);
    svg.append("\"/>");
    proof {
        assert(final(svg)@ =~= old(svg)@ + line_text(x1 as int, y1 as int, x2 as int, y2 as int));
    }
}

/// Appends the wall lines of one cell.
#[verifier::rlimit(60)]
#[verifier::spinoff_prover]
fn push_cell_walls(svg: &mut String, c: &Cell, x: usize, y: usize)
    ensures
        final(svg)@ == old(svg)@ + cell_walls_text(*c, x as int, y as int),
{
    let x1 = (x as u128) * 20;
    let y1 = (y as u128) * 20;
    let x2 = x1 + 20;
    let y2 = y1 + 20;
    let ghost s0 = svg@;
    let ghost mut segs = Seq::<(int, int, int, int)>::empty();
    proof {
        assert(svg@ =~= s0 + segments_text(segs));
    }
    if c.north {
        push_line(svg, x1, y1, x2, y1);
        proof {
            lemma_segments_text_push(segs, segment(x1 as int, y1 as int, x2 as int, y1 as int));
            segs = segs.push(segment(x1 as int, y1 as int, x2 as int, y1 as int));
            assert(svg@ =~= s0 + segments_text(segs));
        }
    }
    if c.east {
        push_line(svg, x2, y1, x2, y2);
        proof {
            lemma_segments_text_push(segs, segment(x2 as int, y1 as int, x2 as int, y2 as int));
            segs = segs.push(segment(x2 as int, y1 as int, x2 as int, y2 as int));
            assert(svg@ =~= s0 + segments_text(segs));
        }
    }
    if c.south {
        push_line(svg, x1, y2, x2, y2);
        proof {
            lemma_segments_text_push(segs, segment(x1 as int, y2 as int, x2 as int, y2 as int));
            segs = segs.push(segment(x1 as int, y2 as int, x2 as int, y2 as int));
            assert(svg@ =~= s0 + segments_text(segs));
        }
    }
    if c.west {
        push_line(svg, x1, y1, x1, y2);
        proof {
            lemma_segments_text_push(segs, segment(x1 as int, y1 as int, x1 as int, y2 as int));
            segs = segs.push(segment(x1 as int, y1 as int, x1 as int, y2 as int));
            assert(svg@ =~= s0 + segments_text(segs));
        }
    }
    proof {
        let xi = x as int;
        let yi = y as int;
        assert(x1 as int == xi * 20);
        assert(y1 as int == yi * 20);
        assert(segs =~= cell_wall_segments(*c, xi, yi));
    }
}

/// The lines of segments with one more at the end.
proof fn lemma_segments_text_push(a: Seq<(int, int, int, int)>, seg: (int, int, int, int))
    ensures
        segments_text(a.push(seg)) == segments_text(a) + line_text(seg.0, seg.1, seg.2, seg.3),
{
    assert(a.push(seg).drop_last() =~= a);
}

/// Appends the lines of every standing wall, row by row.
fn push_walls(svg: &mut String, maze: &Maze)
    requires
        maze.has_shape(),
    ensures
        final(svg)@ == old(svg)@ + walls_text(maze, maze.height as int),
{
    let ghost s0 = svg@;
    let mut y: usize = 0;
    while y < maze.height
        invariant
            maze.has_shape(),
            y <= maze.height,
            svg@ == s0 + walls_text(maze, y as int),
        decreases maze.height - y,
    {
        let ghost row_start = svg@;
        let mut x: usize = 0;
        while x < maze.width
            invariant
                maze.has_shape(),
                y < maze.height,
                x <= maze.width,
                svg@ == row_start + row_walls_text(maze, y as int, x as int),
            decreases maze.width - x,
        {
            let ghost before = svg@;
            push_cell_walls(svg, &maze.cells[y][x], x, y);
            proof {
                assert(maze.cells@[y as int]@[x as int] == maze.cell(x as int, y as int));
                assert(svg@ =~= row_start + row_walls_text(maze, y as int, x + 1));
            }
            x = x + 1;
        }
        proof {
            assert(svg@ =~= s0 + walls_text(maze, y + 1));
        }
        y = y + 1;
    }
}

/// The SVG drawing of a maze: a white background and every standing wall.
pub fn maze_svg(maze: &Maze) -> (svg: String)
    requires
        maze.has_shape(),
    ensures
        svg@ == maze_svg_text(maze),
{
    let w = (maze.width as u128) * 20;
    let h = (maze.height as u128) * 20;
    let mut svg = String::new();
    svg.append("<svg xmlns=\"http://www.w3.org/2000/svg\" width=\"");
    push_decimal(&mut svg, w);
    svg.append("\" height=\"");
    push_decimal(&mut svg, h);
    svg.append("\" viewBox=\"0 0 ");
    push_decimal(&mut svg, w);
    svg.append(" ");
    push_decimal(&mut svg, h);
    svg.append("\">");
    svg.append("<rect width=\"100%\" height=\"100%\" fill=\"white\"/>");
    svg.append("<g stroke=\"black\" stroke-width=\"2\" fill=\"none\" stroke-linecap=\"square\">");
    let ghost before_walls = svg@;
    push_walls(&mut svg, maze);
    svg.append("</g>");
    svg.append("</svg>");
    proof {
        assert(svg@ =~= maze_svg_text(maze));
    }
    svg
}

/// Appends the group of a trace's moves off the solution path.
pub fn draw_false_paths(svg: &mut String, trace: &[SearchStep], color: &str)
    ensures
        final(svg)@ == old(svg)@ + false_paths_text(trace@, color@),
{
    let ghost s0 = svg@;
    svg.append("<g stroke=\"");
    svg.append(color);
    svg.append(
        "\"\n        stroke-width=\"3\"\n        fill=\"none\"\n        stroke-linecap=\"round\"\n        stroke-linejoin=\"round\"\n        opacity=\"0.75\">",
    );
    let ghost opened = svg@;
    let mut k: usize = 0;
    while k < trace.len()
        invariant
            k <= trace@.len(),
            svg@ == opened + false_lines(trace@, k as int),
        decreases trace@.len() - k,
    {
        let step = trace[k];
        if !step.on_solution_path {
            let from_x = (step.from.0 as u128) * 20 + 10;
            let from_y = (step.from.1 as u128) * 20 + 10;
            let to_x = (step.to.0 as u128) * 20 + 10;
            let to_y = (step.to.1 as u128) * 20 + 10;
            push_line(svg, from_x, from_y, to_x, to_y);
        }
        proof {
            assert(svg@ =~= opened + false_lines(trace@, k + 1));
        }
        k = k + 1;
    }
    svg.append("</g>");
    proof {
        assert(svg@ =~= s0 + false_paths_text(trace@, color@));
    }
}

/// Appends the red line through the solution path, or nothing for an empty path.
pub fn draw_solution_path(svg: &mut String, path: &[Position])
    ensures
        final(svg)@ == old(svg)@ + solution_path_text(path@),
{
    if path.len() == 0 {
        proof {
            assert(svg@ =~= old(svg)@ + solution_path_text(path@));
        }
        return;
    }
    let ghost s0 = svg@;
    svg.append("<polyline points=\"");
    let ghost opened = svg@;
    let mut k: usize = 0;
    while k < path.len()
        invariant
            k <= path@.len(),
            svg@ == opened + points_text(path@, k as int),
        decreases path@.len() - k,
    {
        let (x, y) = path[k];
        let center_x = (x as u128) * 20 + 10;
        let center_y = (y as u128) * 20 + 10;
        push_decimal(svg, center_x);
        svg.append(",");
        push_decimal(svg, center_y);
        svg.append(" ");
        proof {
            assert(svg@ =~= opened + points_text(path@, k + 1));
        }
        k = k + 1;
    }
    svg.append(
        "\" fill=\"none\"\n        stroke=\"red\"\n        stroke-width=\"4\"\n        stroke-linecap=\"round\"\n        stroke-linejoin=\"round\"/>",
    );
    proof {
        assert(svg@ =~= s0 + solution_path_text(path@));
    }
}

/// Appends the group of all standing walls.
pub fn draw_maze_walls(svg: &mut String, maze: &Maze)
    requires
        maze.has_shape(),
    ensures
        final(svg)@ == old(svg)@ + walls_group_text(maze),
{
    let ghost s0 = svg@;
    svg.append("<g stroke=\"black\"\n        stroke-width=\"2\"\n        fill=\"none\"\n        stroke-linecap=\"square\">");
    push_walls(svg, maze);
    svg.append("</g>");
    proof {
        assert(svg@ =~= s0 + walls_group_text(maze));
    }
}

/// Appends the opening of a drawing of the maze and its white background.
fn open_svg(svg: &mut String, maze: &Maze)
    ensures
        final(svg)@ == old(svg)@ + svg_header_text(maze.width * 20, maze.height * 20) + background_text(),
{
    let ghost s0 = svg@;
    let w = (maze.width as u128) * 20;
    let h = (maze.height as u128) * 20;
    svg.append("<svg xmlns=\"http://www.w3.org/2000/svg\"\n        width=\"");
    push_decimal(svg, w);
    svg.append("\"\n        height=\"");
    push_decimal(svg, h);
    svg.append("\"\n        viewBox=\"0 0 ");
    push_decimal(svg, w);
    svg.append(" ");
    push_decimal(svg, h);
    svg.append("\">");
    svg.append("<rect width=\"100%\" height=\"100%\" fill=\"white\"/>");
    proof {
        assert(svg@ =~= s0 + svg_header_text(maze.width * 20, maze.height * 20) + background_text());
    }
}

/// The drawing of one solver's run.
pub fn solution_svg(maze: &Maze, trace: &[SearchStep], path: &[Position], false_path_color: &str) -> (svg: String)
    requires
        maze.has_shape(),
    ensures
        svg@ == solution_svg_text(maze, trace@, path@, false_path_color@),
{
    let mut svg = String::new();
    open_svg(&mut svg, maze);
    draw_false_paths(&mut svg, trace, false_path_color);
    draw_solution_path(&mut svg, path);
    draw_maze_walls(&mut svg, maze);
    svg.append("</svg>");
    proof {
        assert(svg@ =~= solution_svg_text(maze, trace@, path@, false_path_color@));
    }
    svg
}


/// A drawing and the path of the file it belongs in.
pub struct SvgFile {
    pub path: String,
    pub contents: String,
}

/// The drawing of one solver's run, for the file at `output_path`.
fn export_solution_svg(
    maze: &Maze,
    trace: &[SearchStep],
    path: &[Position],
    false_path_color: &str,
    output_path: &str,
) -> (file: SvgFile)
    requires
        maze.has_shape(),
    ensures
        file.path@ == output_path@,
        file.contents@ == solution_svg_text(maze, trace@, path@, false_path_color@),
{
    let contents = solution_svg(maze, trace, path, false_path_color);
    let mut file_path = String::new();
    file_path.append(output_path);
    SvgFile { path: file_path, contents }
}

/// The drawing of a breadth-first run, its moves off the solution in orange.
pub fn export_solution_svg_bfs(maze: &Maze, trace: &[SearchStep], path: &[Position]) -> (file: SvgFile)
    requires
        maze.has_shape(),
    ensures
        file.path@ == "output/solved_maze_bfs.svg"@,
        file.contents@ == solution_svg_text(maze, trace@, path@, "orange"@),
{
    export_solution_svg(maze, trace, path, "orange", "output/solved_maze_bfs.svg")
}

/// The drawing of a depth-first run, its moves off the solution in purple.
pub fn export_solution_svg_dfs(maze: &Maze, trace: &[SearchStep], path: &[Position]) -> (file: SvgFile)
    requires
        maze.has_shape(),
    ensures
        file.path@ == "output/solved_maze_dfs.svg"@,
        file.contents@ == solution_svg_text(maze, trace@, path@, "purple"@),
{
    export_solution_svg(maze, trace, path, "purple", "output/solved_maze_dfs.svg")
}

/// The drawing of an A* run, its moves off the solution in dark cyan.
pub fn export_solution_svg_astar(maze: &Maze, trace: &[SearchStep], path: &[Position]) -> (file: SvgFile)
    requires
        maze.has_shape(),
    ensures
        file.path@ == "output/solved_maze_astar.svg"@,
        file.contents@ == solution_svg_text(maze, trace@, path@, "darkcyan"@),
{
    export_solution_svg(maze, trace, path, "darkcyan", "output/solved_maze_astar.svg")
}

/// The drawing of a random run, its moves off the solution in green.
pub fn export_solution_svg_random(maze: &Maze, trace: &[SearchStep], path: &[Position]) -> (file: SvgFile)
    requires
        maze.has_shape(),
    ensures
        file.path@ == "output/solved_maze_random.svg"@,
        file.contents@ == solution_svg_text(maze, trace@, path@, "green"@),
{
    export_solution_svg(maze, trace, path, "green", "output/solved_maze_random.svg")
}

/// The drawing that compares the runs of Theseus and three classical
/// solvers, up to the legend: the random, depth-first, breadth-first and
/// Theseus moves off the solution in that order (each above the one
/// before), then the solution, then the walls.
pub open spec fn comparison_body_text(
    m: &Maze,
    theseus: Seq<SearchStep>,
    bfs: Seq<SearchStep>,
    dfs: Seq<SearchStep>,
    random: Seq<SearchStep>,
    solution: Seq<Position>,
) -> Seq<char> {
    svg_header_text(m.width * 20, m.height * 20) + background_text() + false_paths_text(random, "green"@)
        + false_paths_text(dfs, "purple"@) + false_paths_text(bfs, "orange"@) + false_paths_text(
        theseus,
        "royalblue"@,
    ) + solution_path_text(solution) + walls_group_text(m)
}

/// The comparison drawing up to its legend, which the caller adds before
/// closing the drawing.
pub fn comparison_svg_body(
    maze: &Maze,
    theseus_trace: &[SearchStep],
    bfs_trace: &[SearchStep],
    dfs_trace: &[SearchStep],
    random_trace: &[SearchStep],
    solution_path: &[Position],
) -> (svg: String)
    requires
        maze.has_shape(),
    ensures
        svg@ == comparison_body_text(maze, theseus_trace@, bfs_trace@, dfs_trace@, random_trace@, solution_path@),
{
    let mut svg = String::new();
    open_svg(&mut svg, maze);
    draw_false_paths(&mut svg, random_trace, "green");
    draw_false_paths(&mut svg, dfs_trace, "purple");
    draw_false_paths(&mut svg, bfs_trace, "orange");
    draw_false_paths(&mut svg, theseus_trace, "royalblue");
    draw_solution_path(&mut svg, solution_path);
    draw_maze_walls(&mut svg, maze);
    proof {
        assert(svg@ =~= comparison_body_text(maze, theseus_trace@, bfs_trace@, dfs_trace@, random_trace@, solution_path@));
    }
    svg
}

/// The top border of the first `n` cells of the top row.
pub open spec fn ascii_top(m: &Maze, n: int) -> Seq<char>
    decreases n,
{
    if n <= 0 {
        Seq::empty()
    } else {
        ascii_top(m, n - 1) + "+"@ + (if m.cell(n - 1, 0).north { "---"@ } else { "   "@ })
    }
}

/// The first `n` cells of row `y`: each its west wall and its inside.
pub open spec fn ascii_cells(m: &Maze, y: int, n: int) -> Seq<char>
    decreases n,
{
    if n <= 0 {
        Seq::empty()
    } else {
        ascii_cells(m, y, n - 1) + (if m.cell(n - 1, y).west { "|"@ } else { " "@ }) + "   "@
    }
}

/// The south border of the first `n` cells of row `y`.
pub open spec fn ascii_floor(m: &Maze, y: int, n: int) -> Seq<char>
    decreases n,
{
    if n <= 0 {
        Seq::empty()
    } else {
        ascii_floor(m, y, n - 1) + "+"@ + (if m.cell(n - 1, y).south { "---"@ } else { "   "@ })
    }
}

/// The first `k` rows: each a line of cells closed by the east wall of its
/// last cell, and a line of its south borders.
pub open spec fn ascii_rows(m: &Maze, k: int) -> Seq<char>
    decreases k,
{
    if k <= 0 {
        Seq::empty()
    } else {
        let y = k - 1;
        ascii_rows(m, k - 1) + ascii_cells(m, y, m.width as int) + (if m.cell(m.width - 1, y).east {
            "|\n"@
        } else {
            " \n"@
        }) + ascii_floor(m, y, m.width as int) + "+\n"@
    }
}

/// The maze drawn with `+`, `-`, `|` and spaces, one text line per border
/// and per row of cells.
pub open spec fn ascii_text(m: &Maze) -> Seq<char> {
    ascii_top(m, m.width as int) + "+\n"@ + ascii_rows(m, m.height as int)
}

/// The maze drawn as text.
pub fn ascii_art(maze: &Maze) -> (text: String)
    requires
        maze.has_shape(),
        (maze.width > 0) == (maze.height > 0),
    ensures
        text@ == ascii_text(maze),
{
    let mut text = String::new();
    let mut x: usize = 0;
    while x < maze.width
        invariant
            maze.has_shape(),
            (maze.width > 0) == (maze.height > 0),
            x <= maze.width,
            text@ == ascii_top(maze, x as int),
        decreases maze.width - x,
    {
        text.append("+");
        if maze.cells[0][x].north {
            text.append("---");
        } else {
            text.append("   ");
        }
        proof {
            assert(maze.cells@[0]@[x as int] == maze.cell(x as int, 0));
            assert(text@ =~= ascii_top(maze, x + 1));
        }
        x = x + 1;
    }
    text.append("+\n");
    let ghost top = text@;
    let mut y: usize = 0;
    while y < maze.height
        invariant
            maze.has_shape(),
            (maze.width > 0) == (maze.height > 0),
            y <= maze.height,
            text@ == top + ascii_rows(maze, y as int),
        decreases maze.height - y,
    {
        let ghost row_start = text@;
        let mut x: usize = 0;
        while x < maze.width
            invariant
                maze.has_shape(),
                maze.width > 0,
                y < maze.height,
                x <= maze.width,
                text@ == row_start + ascii_cells(maze, y as int, x as int),
            decreases maze.width - x,
        {
            if maze.cells[y][x].west {
                text.append("|");
            } else {
                text.append(" ");
            }
            text.append("   ");
            proof {
                assert(maze.cells@[y as int]@[x as int] == maze.cell(x as int, y as int));
                assert(text@ =~= row_start + ascii_cells(maze, y as int, x + 1));
            }
            x = x + 1;
        }
        if maze.cells[y][maze.width - 1].east {
            text.append("|\n");
        } else {
            text.append(" \n");
        }
        proof {
            assert(maze.cells@[y as int]@[maze.width - 1] == maze.cell(maze.width - 1, y as int));
        }
        let ghost floor_start = text@;
        let mut x: usize = 0;
        while x < maze.width
            invariant
                maze.has_shape(),
                y < maze.height,
                x <= maze.width,
                text@ == floor_start + ascii_floor(maze, y as int, x as int),
            decreases maze.width - x,
        {
            text.append("+");
            if maze.cells[y][x].south {
                text.append("---");
            } else {
                text.append("   ");
            }
            proof {
                assert(maze.cells@[y as int]@[x as int] == maze.cell(x as int, y as int));
                assert(text@ =~= floor_start + ascii_floor(maze, y as int, x + 1));
            }
            x = x + 1;
        }
        text.append("+\n");
        proof {
            assert(text@ =~= top + ascii_rows(maze, y + 1));
        }
        y = y + 1;
    }
    proof {
        assert(text@ =~= ascii_text(maze));
    }
    text
}

/// The first of the paths that was found, in the order given.
pub open spec fn first_found(paths: Seq<Option<Vec<Position>>>) -> Option<Vec<Position>>
    decreases paths.len(),
{
    if paths.len() == 0 {
        None
    } else if paths[0] is Some {
        paths[0]
    } else {
        first_found(paths.drop_first())
    }
}

/// The solution a comparison drawing shows: the first path found among
/// those of Theseus and the classical solvers, in the order given.
pub fn first_solution(paths: Vec<Option<Vec<Position>>>) -> (solution: Option<Vec<Position>>)
    ensures
        solution == first_found(paths@),
{
    let ghost all = paths@;
    let mut rest = paths;
    while rest.len() > 0
        invariant
            first_found(rest@) == first_found(all),
            all == paths@,
        decreases rest@.len(),
    {
        let ghost before = rest@;
        let path = rest.remove(0);
        proof {
            assert(rest@ =~= before.drop_first());
        }
        if path.is_some() {
            proof {
                assert(first_found(before) == path);
            }
            return path;
        }
    }
    None
}

} // verus!
