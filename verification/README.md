# labyrinth

Perfect-maze generation, validation, solving and solver training, with the
logic verified by Verus.

- `src/` is the verified library:
  - `maze`, `grid`: the maze, its cells, moves and walks, and totals over the grid;
  - `generator`, `tree`: recursive-backtracking generation (with its own stack, so that the
    largest mazes do not exhaust the call stack), and the parent links
    of the carving that make every generated maze a tree;
  - `validator`: the checks that tell a perfect maze from any other grid;
  - `spanning`: the passages of every perfect maze form a tree that spans the
    grid, so the walk without repeated cells from the upper-left corner to a
    cell is unique;
  - `solver`: breadth-first, depth-first, random and A* search, what each
    explores and in which order, and the learned depth-first search whose
    order of exploration a model decides;
  - `render`, `text`: the SVG and text drawings and the numerals they use;
  - `config`: the difficulties and their sizes;
  - `training`: teacher selection, training examples, and the decisions of a
    training session and of its checkpoints;
  - `command`, `monitor`: the command lines of Theseus and the decisions and
    messages of the Hermes bot;
  - `laws`: properties that relate several parts of the library.
- `app/` runs the three programs (`daedalus`, `theseus`, `hermes`): file and
  network I/O, the Discord bot, and the neural network, which computes in
  floating point.
- `tests/` exercise the library on concrete mazes.
