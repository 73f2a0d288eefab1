use vstd::prelude::*;

verus! {

/// A cell position, written `(row, column)`.
pub type Coord = (usize, usize);

/// A wall on the left or right side of a cell. `coord` is `(row, column)`: the left wall of
/// cell `(r, c)` is `(r, c)`, its right wall `(r, c + 1)`.
#[derive(Debug, Clone, Copy)]
pub struct HorizontalWall {
    pub coord: Coord,
}

/// A wall above or below a cell. `coord` is `(row, column)`: the top wall of cell `(r, c)`
/// is `(r, c)`, its bottom wall `(r + 1, c)`.
#[derive(Debug, Clone, Copy)]
pub struct VerticalWall {
    pub coord: Coord,
}

#[derive(Debug, Clone, Copy)]
pub enum Wall {
    VerticalWall(VerticalWall),
    HorizontalWall(HorizontalWall),
}

#[derive(Clone, Copy, PartialEq, Eq, Structural, Debug)]
pub enum Direction {
    North,
    South,
    East,
    West,
}

impl Default for Direction {
    fn default() -> (d: Self)
        ensures
            d == Direction::North,
    {
        Direction::North
    }
}

/// A cell of a maze together with its cost and its four walls.
#[derive(Debug, Clone, Copy)]
pub struct MazeCell {
    pub cost: Option<usize>,
    pub coord: Coord,
    pub top: VerticalWall,
    pub down: VerticalWall,
    pub left: HorizontalWall,
    pub right: HorizontalWall,
}

/// A rectangular maze of `height` rows and `width` columns.
///
/// `horizontal_walls[r][c]` is the wall left of cell `(r, c)` (and right of `(r, c - 1)`);
/// it has `height` rows of `width + 1` entries. `vertical_walls[c][r]` is the wall above
/// cell `(r, c)` (and below `(r - 1, c)`); it has `width` rows of `height + 1` entries.
/// `true` means that the wall stands. `cost[r][c]` is the distance of cell `(r, c)` from
/// `start` once it is known.
pub struct Maze {
    pub horizontal_walls: Vec<Vec<bool>>,
    pub vertical_walls: Vec<Vec<bool>>,
    pub start: Coord,
    pub end: Coord,
    pub cost: Vec<Vec<Option<usize>>>,
}

/// The mathematical value of a maze: its grids as sequences.
#[verifier::ext_equal]
pub struct MazeView {
    pub hwalls: Seq<Seq<bool>>,
    pub vwalls: Seq<Seq<bool>>,
    pub start: Coord,
    pub end: Coord,
    pub cost: Seq<Seq<Option<usize>>>,
}

impl View for Maze {
    type V = MazeView;

    open spec fn view(&self) -> MazeView {
        MazeView {
            hwalls: self.horizontal_walls@.map_values(|row: Vec<bool>| row@),
            vwalls: self.vertical_walls@.map_values(|col: Vec<bool>| col@),
            start: self.start,
            end: self.end,
            cost: self.cost@.map_values(|row: Vec<Option<usize>>| row@),
        }
    }
}

/// The wall that a step in direction `d` from `cell` goes through.
pub open spec fn wall_toward(cell: MazeCell, d: Direction) -> Wall {
    match d {
        Direction::North => Wall::VerticalWall(cell.top),
        Direction::South => Wall::VerticalWall(cell.down),
        Direction::East => Wall::HorizontalWall(cell.right),
        Direction::West => Wall::HorizontalWall(cell.left),
    }
}

/// The row and column offsets of a step in direction `d`.
pub open spec fn step_row(d: Direction) -> int {
    match d {
        Direction::North => -1,
        Direction::South => 1,
        _ => 0,
    }
}

pub open spec fn step_col(d: Direction) -> int {
    match d {
        Direction::East => 1,
        Direction::West => -1,
        _ => 0,
    }
}

impl MazeView {
    /// Number of rows of cells.
    pub open spec fn height(self) -> int {
        self.hwalls.len() as int
    }

    /// Number of columns of cells.
    pub open spec fn width(self) -> int {
        self.vwalls.len() as int
    }

    /// `cost` has an entry for every cell.
    pub open spec fn costs_cover(self) -> bool {
        &&& self.cost.len() >= self.height()
        &&& forall|r: int| 0 <= r < self.height() ==> #[trigger] self.cost[r].len() >= self.width()
    }

    /// The three grids have the sizes that `Maze::new` gives them.
    pub open spec fn shaped(self) -> bool {
        &&& self.hwalls.len() <= usize::MAX
        &&& self.vwalls.len() <= usize::MAX
        &&& forall|r: int| 0 <= r < self.height() ==> #[trigger] self.hwalls[r].len() == self.width() + 1
        &&& forall|c: int| 0 <= c < self.width() ==> #[trigger] self.vwalls[c].len() == self.height() + 1
        &&& self.cost.len() == self.height()
        &&& forall|r: int| 0 <= r < self.height() ==> #[trigger] self.cost[r].len() == self.width()
    }

    /// Whether `get_maze_cell(r, c)` finds a cell. The bounds are compared after conversion
    /// to `i32`, as the lookup does.
    pub open spec fn in_range(self, r: int, c: int) -> bool {
        &&& 0 <= r
        &&& 0 <= c
        &&& r < (self.hwalls.len() as i32) as int
        &&& c < (self.vwalls.len() as i32) as int
    }

    /// The cell at row `r` and column `c`.
    pub open spec fn cell(self, r: int, c: int) -> MazeCell {
        MazeCell {
            cost: self.cost[r][c],
            coord: (r as usize, c as usize),
            top: VerticalWall { coord: (r as usize, c as usize) },
            down: VerticalWall { coord: ((r + 1) as usize, c as usize) },
            left: HorizontalWall { coord: (r as usize, c as usize) },
            right: HorizontalWall { coord: (r as usize, (c + 1) as usize) },
        }
    }

    /// What `get_maze_cell(r, c)` returns.
    pub open spec fn lookup(self, r: int, c: int) -> Option<MazeCell> {
        if self.in_range(r, c) {
            Some(self.cell(r, c))
        } else {
            None
        }
    }

    /// Whether a wall can be passed: it is looked at and does not stand. A horizontal wall
    /// `(row, col)` is looked at when `row` is below the number of rows and `col` below the
    /// length of the first row; a vertical wall `(row, col)` when `row` is below the number of
    /// columns and `col` below the length of the first column.
    pub open spec fn traversable(self, wall: Wall) -> bool {
        match wall {
            Wall::HorizontalWall(w) => {
                if w.coord.0 >= self.hwalls.len() || w.coord.1 >= self.hwalls[0].len() {
                    false
                } else {
                    !self.hwalls[w.coord.0 as int][w.coord.1 as int]
                }
            },
            Wall::VerticalWall(w) => {
                if w.coord.0 >= self.vwalls.len() || w.coord.1 >= self.vwalls[0].len() {
                    false
                } else {
                    !self.vwalls[w.coord.1 as int][w.coord.0 as int]
                }
            },
        }
    }

    /// The lookup done by `traversable` stays inside the grids.
    pub open spec fn traversal_defined(self, wall: Wall) -> bool {
        match wall {
            Wall::HorizontalWall(w) => {
                (w.coord.0 < self.hwalls.len() && w.coord.1 < self.hwalls[0].len()) ==> w.coord.1
                    < self.hwalls[w.coord.0 as int].len()
            },
            Wall::VerticalWall(w) => {
                (w.coord.0 < self.vwalls.len() && w.coord.1 < self.vwalls[0].len()) ==> (w.coord.1
                    < self.vwalls.len() && w.coord.0 < self.vwalls[w.coord.1 as int].len())
            },
        }
    }

    /// The wall has an entry in its grid.
    pub open spec fn wall_in_grid(self, wall: Wall) -> bool {
        match wall {
            Wall::HorizontalWall(w) => w.coord.0 < self.hwalls.len() && w.coord.1
                < self.hwalls[w.coord.0 as int].len(),
            Wall::VerticalWall(w) => w.coord.1 < self.vwalls.len() && w.coord.0
                < self.vwalls[w.coord.1 as int].len(),
        }
    }

    /// The maze with `wall` set to `value` (`true`: the wall stands).
    pub open spec fn with_wall(self, wall: Wall, value: bool) -> MazeView {
        match wall {
            Wall::HorizontalWall(w) => MazeView {
                hwalls: self.hwalls.update(
                    w.coord.0 as int,
                    self.hwalls[w.coord.0 as int].update(w.coord.1 as int, value),
                ),
                ..self
            },
            Wall::VerticalWall(w) => MazeView {
                vwalls: self.vwalls.update(
                    w.coord.1 as int,
                    self.vwalls[w.coord.1 as int].update(w.coord.0 as int, value),
                ),
                ..self
            },
        }
    }

    /// What `set_wall_by_cell(r, c, direction, value)` turns the maze into.
    pub open spec fn with_cell_wall(
        self,
        r: usize,
        c: usize,
        direction: Option<Direction>,
        value: bool,
    ) -> MazeView {
        match self.lookup((r as i32) as int, (c as i32) as int) {
            Some(cell) => match direction {
                Some(d) => self.with_wall(wall_toward(cell, d), value),
                None => self,
            },
            None => self,
        }
    }

    /// The cell reached from `cell` by a step in direction `d`, if the wall between them can
    /// be passed and the step stays in the maze.
    pub open spec fn neighbor(self, cell: MazeCell, d: Direction) -> Option<MazeCell> {
        if self.traversable(wall_toward(cell, d)) {
            self.lookup(
                (cell.coord.0 as i32) as int + step_row(d),
                (cell.coord.1 as i32) as int + step_col(d),
            )
        } else {
            None
        }
    }

    /// `cell` lies in the maze and its walls are the walls of its position.
    pub open spec fn placed(self, cell: MazeCell) -> bool {
        &&& self.in_range(cell.coord.0 as int, cell.coord.1 as int)
        &&& cell.top.coord == cell.coord
        &&& cell.left.coord == cell.coord
        &&& cell.down.coord == ((cell.coord.0 + 1) as usize, cell.coord.1)
        &&& cell.right.coord == (cell.coord.0, (cell.coord.1 + 1) as usize)
    }
}

/// A value in `0..i32::MAX` compared against a length converted to `i32` is below the length.
pub proof fn lemma_below_converted_len(i: int, len: int)
    requires
        0 <= i,
        0 <= len <= usize::MAX,
        i < (len as i32) as int,
    ensures
        i < len,
        i < i32::MAX,
{
    let j: i32 = i as i32;
    let len: usize = len as usize;
    assert(0 <= j && j < (len as i32) ==> (j as usize) < len) by (bit_vector);
}

impl Maze {
    /// The cell at `(row_index, col_index)`, or `None` when the position lies outside the maze.
    pub fn get_maze_cell(&self, row_index: i32, col_index: i32) -> (res: Option<MazeCell>)
        requires
            self@.costs_cover(),
        ensures
            res == self@.lookup(row_index as int, col_index as int),
    {
        if row_index >= self.horizontal_walls.len() as i32 || col_index
            >= self.vertical_walls.len() as i32 || row_index < 0 || col_index < 0 {
            None
        } else {
            proof {
                lemma_below_converted_len(row_index as int, self.horizontal_walls.len() as int);
                lemma_below_converted_len(col_index as int, self.vertical_walls.len() as int);
            }
            let row_index = row_index as usize;
            let col_index = col_index as usize;
            Some(
                MazeCell {
                    coord: (row_index, col_index),
                    cost: self.cost[row_index][col_index],
                    top: VerticalWall { coord: (row_index, col_index) },
                    down: VerticalWall { coord: (row_index + 1, col_index) },
                    left: HorizontalWall { coord: (row_index, col_index) },
                    right: HorizontalWall { coord: (row_index, col_index + 1) },
                },
            )
        }
    }

    /// Whether `wall` can be passed: it lies in the maze and does not stand.
    pub fn is_traversable(&self, wall: &Wall) -> (res: bool)
        requires
            self@.traversal_defined(*wall),
        ensures
            res == self@.traversable(*wall),
    {
        match wall {
            Wall::HorizontalWall(HorizontalWall { coord: (row, col) }) => {
                if *row >= self.horizontal_walls.len() || *col >= self.horizontal_walls[0].len() {
                    false
                } else {
                    !self.horizontal_walls[*row][*col]
                }
            },
            Wall::VerticalWall(VerticalWall { coord: (row, col) }) => {
                if *row >= self.vertical_walls.len() || *col >= self.vertical_walls[0].len() {
                    false
                } else {
                    !self.vertical_walls[*col][*row]
                }
            },
        }
    }

    /// Sets `wall` to `value`; `true` puts the wall up.
    pub fn set_wall(&mut self, wall: &Wall, value: bool)
        requires
            old(self)@.wall_in_grid(*wall),
        ensures
            final(self)@ == old(self)@.with_wall(*wall, value),
    {
        match wall {
            Wall::HorizontalWall(HorizontalWall { coord: (row, col) }) => {
                self.horizontal_walls[*row][*col] = value;
            },
            Wall::VerticalWall(VerticalWall { coord: (row, col) }) => {
                self.vertical_walls[*col][*row] = value;
            },
        }
        assert(self@.hwalls =~= old(self)@.with_wall(*wall, value).hwalls);
        assert(self@.vwalls =~= old(self)@.with_wall(*wall, value).vwalls);
    }
}


/// The cells that `get_valid_adjascent_cells` keeps of one step: the reached cell, if there
/// is one and its cost is not known yet.
pub open spec fn unvisited_cell(o: Option<MazeCell>) -> Seq<MazeCell> {
    match o {
        Some(cell) => if cell.cost is None {
            seq![cell]
        } else {
            Seq::empty()
        },
        None => Seq::empty(),
    }
}

impl MazeView {
    /// The neighbours of cell `(r, c)` that can be reached in one step and have no cost yet,
    /// in the order south, west, north, east.
    pub open spec fn unvisited_neighbors(self, r: usize, c: usize) -> Seq<MazeCell> {
        match self.lookup((r as i32) as int, (c as i32) as int) {
            Some(cell) => unvisited_cell(self.neighbor(cell, Direction::South)) + unvisited_cell(
                self.neighbor(cell, Direction::West),
            ) + unvisited_cell(self.neighbor(cell, Direction::North)) + unvisited_cell(
                self.neighbor(cell, Direction::East),
            ),
            None => Seq::empty(),
        }
    }
}

impl MazeView {
    /// What `set_wall_by_cell` reads and writes lies in the grids: the costs can be looked up,
    /// and the wall in `direction` of the cell found at `(r, c)`, if any, has an entry.
    pub open spec fn cell_wall_settable(self, r: usize, c: usize, direction: Option<Direction>) -> bool {
        &&& self.costs_cover()
        &&& self.lookup((r as i32) as int, (c as i32) as int) matches Some(cell) ==> (direction matches Some(
            d,
        ) ==> self.wall_in_grid(wall_toward(cell, d)))
    }

    /// What `get_valid_adjascent_cells` reads lies in the grids.
    pub open spec fn neighbours_readable(self, r: usize, c: usize) -> bool {
        &&& self.costs_cover()
        &&& self.lookup((r as i32) as int, (c as i32) as int) matches Some(cell) ==> forall|d: Direction|
            #[trigger] self.traversal_defined(wall_toward(cell, d))
    }
}

/// In a shaped maze every cell's walls can be set and its neighbours read.
pub proof fn lemma_shaped_settable(m: MazeView, r: usize, c: usize, direction: Option<Direction>)
    requires
        m.shaped(),
    ensures
        m.cell_wall_settable(r, c, direction),
        m.neighbours_readable(r, c),
{
    if m.in_range((r as i32) as int, (c as i32) as int) {
        lemma_lookup_placed(m, (r as i32) as int, (c as i32) as int);
        let cell = m.cell((r as i32) as int, (c as i32) as int);
        assert forall|d: Direction| #[trigger] m.traversal_defined(wall_toward(cell, d)) && m.wall_in_grid(wall_toward(cell, d)) by {
            lemma_placed_walls(m, cell, d);
        }
    }
}

/// A cell found by a lookup lies inside the grids, and a shaped maze covers its costs.
pub proof fn lemma_lookup_placed(m: MazeView, r: int, c: int)
    requires
        m.shaped(),
        m.in_range(r, c),
    ensures
        m.costs_cover(),
        0 <= r < m.height(),
        0 <= c < m.width(),
        r < i32::MAX,
        c < i32::MAX,
        m.placed(m.cell(r, c)),
{
    lemma_below_converted_len(r, m.hwalls.len() as int);
    lemma_below_converted_len(c, m.vwalls.len() as int);
}

/// In a shaped maze every wall of a placed cell can be looked at and set.
pub proof fn lemma_placed_walls(m: MazeView, cell: MazeCell, d: Direction)
    requires
        m.shaped(),
        m.placed(cell),
    ensures
        m.traversal_defined(wall_toward(cell, d)),
        m.wall_in_grid(wall_toward(cell, d)),
        cell.coord.0 < m.height(),
        cell.coord.1 < m.width(),
        cell.coord.0 < i32::MAX,
        cell.coord.1 < i32::MAX,
{
    lemma_below_converted_len(cell.coord.0 as int, m.hwalls.len() as int);
    lemma_below_converted_len(cell.coord.1 as int, m.vwalls.len() as int);
    assert(m.hwalls[cell.coord.0 as int].len() == m.width() + 1);
    assert(m.hwalls[0].len() == m.width() + 1);
    assert(m.vwalls[cell.coord.1 as int].len() == m.height() + 1);
}

impl Maze {
    /// Sets the wall on side `direction` of cell `(row_cell_index, col_cell_index)` to
    /// `value`; does nothing when the cell lies outside the maze or `direction` is `None`.
    pub fn set_wall_by_cell(
        &mut self,
        row_cell_index: usize,
        col_cell_index: usize,
        direction: Option<Direction>,
        value: bool,
    )
        requires
            old(self)@.cell_wall_settable(row_cell_index, col_cell_index, direction),
        ensures
            final(self)@ == old(self)@.with_cell_wall(
                row_cell_index,
                col_cell_index,
                direction,
                value,
            ),
            old(self)@.shaped() ==> final(self)@.shaped(),
    {
        let maze_cell_value = self.get_maze_cell(row_cell_index as i32, col_cell_index as i32);
        match maze_cell_value {
            Some(maze_cell) => {
                match direction {
                    Some(d) => {
                        match d {
                            Direction::North => self.set_wall(&Wall::VerticalWall(maze_cell.top), value),
                            Direction::East => self.set_wall(&Wall::HorizontalWall(maze_cell.right), value),
                            Direction::South => self.set_wall(&Wall::VerticalWall(maze_cell.down), value),
                            Direction::West => self.set_wall(&Wall::HorizontalWall(maze_cell.left), value),
                        }
                        proof {
                            if old(self)@.shaped() {
                                lemma_with_wall_shaped(old(self)@, wall_toward(maze_cell, d), value);
                            }
                        }
                    },
                    None => {},
                }
            },
            None => {},
        }
    }

    /// The cell reached from `maze_cell` by one step in `direction`, or `None` when the wall
    /// on that side stands or the step leaves the maze.
    pub fn get_cell_by_direction(&self, maze_cell: &MazeCell, direction: &Direction) -> (res:
        Option<MazeCell>)
        requires
            self@.costs_cover(),
            self@.traversal_defined(wall_toward(*maze_cell, *direction)),
            i32::MIN <= (maze_cell.coord.0 as i32) + step_row(*direction) <= i32::MAX,
            i32::MIN <= (maze_cell.coord.1 as i32) + step_col(*direction) <= i32::MAX,
        ensures
            res == self@.neighbor(*maze_cell, *direction),
    {
        match direction {
            Direction::North => {
                if self.is_traversable(&Wall::VerticalWall(maze_cell.top)) {
                    self.get_maze_cell(maze_cell.coord.0 as i32 - 1, maze_cell.coord.1 as i32)
                } else {
                    None
                }
            },
            Direction::South => {
                if self.is_traversable(&Wall::VerticalWall(maze_cell.down)) {
                    self.get_maze_cell(maze_cell.coord.0 as i32 + 1, maze_cell.coord.1 as i32)
                } else {
                    None
                }
            },
            Direction::East => {
                if self.is_traversable(&Wall::HorizontalWall(maze_cell.right)) {
                    self.get_maze_cell(maze_cell.coord.0 as i32, maze_cell.coord.1 as i32 + 1)
                } else {
                    None
                }
            },
            Direction::West => {
                if self.is_traversable(&Wall::HorizontalWall(maze_cell.left)) {
                    self.get_maze_cell(maze_cell.coord.0 as i32, maze_cell.coord.1 as i32 - 1)
                } else {
                    None
                }
            },
        }
    }

    /// The neighbours of cell `(row, col)` that can be reached in one step and have no cost
    /// yet, in the order south, west, north, east.
    pub fn get_valid_adjascent_cells(&self, row: usize, col: usize) -> (res: Vec<MazeCell>)
        requires
            self@.neighbours_readable(row, col),
        ensures
            res@ == self@.unvisited_neighbors(row, col),
    {
        let mut maze_cells: Vec<MazeCell> = Vec::new();
        match self.get_maze_cell(row as i32, col as i32) {
            None => {},
            Some(maze_cell) => {
                proof {
                    lemma_below_converted_len((row as i32) as int, self.horizontal_walls.len() as int);
                    lemma_below_converted_len((col as i32) as int, self.vertical_walls.len() as int);
                    assert(self@.traversal_defined(wall_toward(maze_cell, Direction::South)));
                    assert(self@.traversal_defined(wall_toward(maze_cell, Direction::West)));
                    assert(self@.traversal_defined(wall_toward(maze_cell, Direction::North)));
                    assert(self@.traversal_defined(wall_toward(maze_cell, Direction::East)));
                }
                push_unvisited(&mut maze_cells, self.get_cell_by_direction(&maze_cell, &Direction::South));
                push_unvisited(&mut maze_cells, self.get_cell_by_direction(&maze_cell, &Direction::West));
                push_unvisited(&mut maze_cells, self.get_cell_by_direction(&maze_cell, &Direction::North));
                push_unvisited(&mut maze_cells, self.get_cell_by_direction(&maze_cell, &Direction::East));
            },
        }
        assert(maze_cells@ =~= self@.unvisited_neighbors(row, col));
        maze_cells
    }
}

/// Appends the cell of `step` when there is one and its cost is not known.
fn push_unvisited(out: &mut Vec<MazeCell>, step: Option<MazeCell>)
    ensures
        final(out)@ == old(out)@ + unvisited_cell(step),
{
    match step {
        Some(cell) => {
            if cell.cost.is_none() {
                out.push(cell);
            }
        },
        None => {},
    }
    assert(out@ =~= old(out)@ + unvisited_cell(step));
}

/// A shaped maze has a cost for every cell.
pub proof fn lemma_shaped_covers(m: MazeView)
    requires
        m.shaped(),
    ensures
        m.costs_cover(),
{
}

/// Setting a wall that lies in the grids keeps the sizes of the grids.
pub proof fn lemma_with_wall_shaped(m: MazeView, wall: Wall, value: bool)
    requires
        m.shaped(),
        m.wall_in_grid(wall),
    ensures
        m.with_wall(wall, value).shaped(),
        m.with_wall(wall, value).height() == m.height(),
        m.with_wall(wall, value).width() == m.width(),
        m.with_wall(wall, value).cost == m.cost,
        m.with_wall(wall, value).start == m.start,
        m.with_wall(wall, value).end == m.end,
{
    let n = m.with_wall(wall, value);
    assert forall|r: int| 0 <= r < n.height() implies #[trigger] n.hwalls[r].len() == n.width() + 1 by {
        assert(m.hwalls[r].len() == m.width() + 1);
    }
    assert forall|c: int| 0 <= c < n.width() implies #[trigger] n.vwalls[c].len() == n.height() + 1 by {
        assert(m.vwalls[c].len() == m.height() + 1);
    }
}


/// `best` is at least every known cost in the first `rows` rows of `cost` and in the first
/// `cols` entries of row `rows`.
pub open spec fn bounds_known(cost: Seq<Seq<Option<usize>>>, rows: int, cols: int, best: usize) -> bool {
    forall|r: int, c: int|
        0 <= r < cost.len() && 0 <= c < cost[r].len() && (r < rows || (r == rows && c < cols))
            ==> (#[trigger] cost[r][c] matches Some(k) ==> k <= best)
}

/// `best` is 0 or one of the known costs.
pub open spec fn known_or_zero(cost: Seq<Seq<Option<usize>>>, best: usize) -> bool {
    best == 0 || exists|r: int, c: int|
        0 <= r < cost.len() && 0 <= c < cost[r].len() && #[trigger] cost[r][c] == Some(best)
}

impl Maze {
    /// The greatest known cost, or 0 when no cost is known.
    pub fn max_cost(&self) -> (res: usize)
        ensures
            forall|r: int, c: int|
                0 <= r < self@.cost.len() && 0 <= c < self@.cost[r].len() ==> (#[trigger] self@.cost[r][c] matches Some(
                    k,
                ) ==> k <= res),
            res == 0 || exists|r: int, c: int|
                0 <= r < self@.cost.len() && 0 <= c < self@.cost[r].len() && #[trigger] self@.cost[r][c] == Some(
                    res,
                ),
    {
        let mut best: usize = 0;
        let mut r: usize = 0;
        while r < self.cost.len()
            invariant
                r <= self@.cost.len(),
                bounds_known(self@.cost, r as int, 0, best),
                known_or_zero(self@.cost, best),
            decreases self@.cost.len() - r,
        {
            let row = &self.cost[r];
            let mut c: usize = 0;
            while c < row.len()
                invariant
                    row@ == self@.cost[r as int],
                    r < self@.cost.len(),
                    c <= row@.len(),
                    bounds_known(self@.cost, r as int, c as int, best),
                    known_or_zero(self@.cost, best),
                decreases row@.len() - c,
            {
                match row[c] {
                    Some(v) => {
                        if v > best {
                            best = v;
                            assert(self@.cost[r as int][c as int] == Some(best));
                        }
                    },
                    None => {},
                }
                c = c + 1;
            }
            assert(bounds_known(self@.cost, r + 1, 0, best)) by {
                assert forall|i: int, j: int|
                    0 <= i < self@.cost.len() && 0 <= j < self@.cost[i].len() && (i < r + 1 || (i == r + 1
                        && j < 0)) implies (#[trigger] self@.cost[i][j] matches Some(k) ==> k <= best) by {
                    if i == r {
                        assert(j < row@.len());
                    }
                }
            }
            r = r + 1;
        }
        best
    }
}

impl MazeView {
    /// The bounds that `traversable` compares the wall against are met, so the answer is read
    /// from the wall's entry.
    pub open spec fn wall_checked(self, wall: Wall) -> bool {
        match wall {
            Wall::HorizontalWall(w) => w.coord.0 < self.hwalls.len() && w.coord.1 < self.hwalls[0].len(),
            Wall::VerticalWall(w) => w.coord.0 < self.vwalls.len() && w.coord.1 < self.vwalls[0].len(),
        }
    }
}

/// Read after write: once `wall` is set to `value`, asking whether it can be passed answers
/// `!value` (for a wall whose entry the check reads), and every other wall answers as before.
pub proof fn lemma_set_wall_read_back(m: MazeView, wall: Wall, other: Wall, value: bool)
    requires
        m.shaped(),
        m.wall_in_grid(wall),
        m.traversal_defined(other),
    ensures
        m.wall_checked(wall) ==> m.with_wall(wall, value).traversable(wall) == !value,
        !m.wall_checked(wall) ==> !m.with_wall(wall, value).traversable(wall),
        other != wall ==> m.with_wall(wall, value).traversable(other) == m.traversable(other),
{
    let n = m.with_wall(wall, value);
    lemma_with_wall_shaped(m, wall, value);
    assert(n.hwalls.len() == m.hwalls.len());
    assert(n.vwalls.len() == m.vwalls.len());
    if m.hwalls.len() > 0 {
        assert(n.hwalls[0].len() == m.hwalls[0].len());
    }
    if m.vwalls.len() > 0 {
        assert(n.vwalls[0].len() == m.vwalls[0].len());
    }
}

/// Writing a wall that has an entry puts `value` in exactly that entry: the horizontal wall
/// `(r, c)` is `horizontal_walls[r][c]`, the vertical wall `(r, c)` is `vertical_walls[c][r]`,
/// and every other entry keeps its value.
pub proof fn lemma_set_wall_writes_entry(m: MazeView, wall: Wall, value: bool)
    requires
        m.wall_in_grid(wall),
    ensures
        match wall {
            Wall::HorizontalWall(w) => {
                let (r, c) = (w.coord.0 as int, w.coord.1 as int);
                &&& m.with_wall(wall, value).hwalls[r][c] == value
                &&& m.with_wall(wall, value).vwalls == m.vwalls
                &&& m.with_wall(wall, value).hwalls.len() == m.hwalls.len()
                &&& forall|i: int, j: int|
                    0 <= i < m.hwalls.len() && 0 <= j < m.hwalls[i].len() && (i != r || j != c)
                        ==> #[trigger] m.with_wall(wall, value).hwalls[i][j] == m.hwalls[i][j]
            },
            Wall::VerticalWall(w) => {
                let (r, c) = (w.coord.0 as int, w.coord.1 as int);
                &&& m.with_wall(wall, value).vwalls[c][r] == value
                &&& m.with_wall(wall, value).hwalls == m.hwalls
                &&& m.with_wall(wall, value).vwalls.len() == m.vwalls.len()
                &&& forall|j: int, i: int|
                    0 <= j < m.vwalls.len() && 0 <= i < m.vwalls[j].len() && (i != r || j != c)
                        ==> #[trigger] m.with_wall(wall, value).vwalls[j][i] == m.vwalls[j][i]
            },
        },
        m.with_wall(wall, value).cost == m.cost,
        m.with_wall(wall, value).start == m.start,
        m.with_wall(wall, value).end == m.end,
{
}

/// Setting the wall on side `d` of the cell `(r, c)` of a maze puts `value` in that wall's
/// entry: north is `vertical_walls[c][r]`, south `vertical_walls[c][r + 1]`, west
/// `horizontal_walls[r][c]`, east `horizontal_walls[r][c + 1]`; no other entry changes. A wall
/// put up (`true`) can then not be passed, and one taken down can.
pub proof fn lemma_set_wall_by_cell_writes(m: MazeView, r: usize, c: usize, d: Direction, value: bool)
    requires
        m.shaped(),
        r < m.height(),
        c < m.width(),
        m.height() <= i32::MAX,
        m.width() <= i32::MAX,
    ensures
        ({
            let m2 = m.with_cell_wall(r, c, Some(d), value);
            let (ri, ci) = (r as int, c as int);
            &&& m2.cost == m.cost
            &&& m2.hwalls.len() == m.hwalls.len()
            &&& m2.vwalls.len() == m.vwalls.len()
            &&& match d {
                Direction::North => m2.vwalls[ci][ri] == value && m2.hwalls == m.hwalls && forall|j: int, i: int|
                    0 <= j < m.vwalls.len() && 0 <= i < m.vwalls[j].len() && (i != ri || j != ci)
                        ==> #[trigger] m2.vwalls[j][i] == m.vwalls[j][i],
                Direction::South => m2.vwalls[ci][ri + 1] == value && m2.hwalls == m.hwalls && forall|j: int, i: int|
                    0 <= j < m.vwalls.len() && 0 <= i < m.vwalls[j].len() && (i != ri + 1 || j != ci)
                        ==> #[trigger] m2.vwalls[j][i] == m.vwalls[j][i],
                Direction::West => m2.hwalls[ri][ci] == value && m2.vwalls == m.vwalls && forall|i: int, j: int|
                    0 <= i < m.hwalls.len() && 0 <= j < m.hwalls[i].len() && (i != ri || j != ci)
                        ==> #[trigger] m2.hwalls[i][j] == m.hwalls[i][j],
                Direction::East => m2.hwalls[ri][ci + 1] == value && m2.vwalls == m.vwalls && forall|i: int, j: int|
                    0 <= i < m.hwalls.len() && 0 <= j < m.hwalls[i].len() && (i != ri || j != ci + 1)
                        ==> #[trigger] m2.hwalls[i][j] == m.hwalls[i][j],
            }
            &&& m2.traversable(wall_toward(m.cell(ri, ci), d)) == (!value && m.wall_checked(
                wall_toward(m.cell(ri, ci), d),
            ))
        }),
{
    assert((r as i32) as int == r);
    assert((c as i32) as int == c);
    assert((m.hwalls.len() as i32) as int == m.height());
    assert((m.vwalls.len() as i32) as int == m.width());
    lemma_lookup_placed(m, r as int, c as int);
    let cell = m.cell(r as int, c as int);
    lemma_placed_walls(m, cell, d);
    let w = wall_toward(cell, d);
    assert(m.with_cell_wall(r, c, Some(d), value) == m.with_wall(w, value));
    lemma_set_wall_writes_entry(m, w, value);
    lemma_with_wall_shaped(m, w, value);
    let m2 = m.with_wall(w, value);
    assert(m2.hwalls[0].len() == m.hwalls[0].len()) by {
        assert(m.hwalls[0].len() == m.width() + 1);
        assert(m2.hwalls[0].len() == m2.width() + 1);
    }
    assert(m2.vwalls[0].len() == m.vwalls[0].len()) by {
        assert(m.vwalls[0].len() == m.height() + 1);
        assert(m2.vwalls[0].len() == m2.height() + 1);
    }
}

/// What a lookup finds is the cell of that position: it lies in the maze, its cost is the
/// position's cost, its top and left walls are at its own position, its bottom wall one row
/// down and its right wall one column right.
pub open spec fn cell_of_its_position(m: MazeView, x: MazeCell) -> bool {
    &&& x.coord.0 < m.height()
    &&& x.coord.1 < m.width()
    &&& x.cost == m.cost[x.coord.0 as int][x.coord.1 as int]
    &&& x.top.coord == x.coord
    &&& x.left.coord == x.coord
    &&& x.down.coord == ((x.coord.0 + 1) as usize, x.coord.1)
    &&& x.right.coord == (x.coord.0, (x.coord.1 + 1) as usize)
}

/// `get_maze_cell` finds the cell of the position asked for, and nothing outside the maze.
pub proof fn lemma_lookup_is_cell(m: MazeView, r: int, c: int)
    requires
        m.shaped(),
    ensures
        m.lookup(r, c) matches Some(x) ==> cell_of_its_position(m, x) && x.coord.0 == r && x.coord.1 == c,
        0 <= r < m.height() && 0 <= c < m.width() && m.height() <= i32::MAX && m.width() <= i32::MAX
            ==> m.lookup(r, c) is Some,
        !(0 <= r < m.height() && 0 <= c < m.width()) ==> m.lookup(r, c) is None,
{
    if m.in_range(r, c) {
        lemma_lookup_placed(m, r, c);
    }
    if 0 <= r < m.height() && 0 <= c < m.width() && m.height() <= i32::MAX && m.width() <= i32::MAX {
        assert((m.hwalls.len() as i32) as int == m.height());
        assert((m.vwalls.len() as i32) as int == m.width());
    }
}

/// A step from a cell through an open wall gives the cell of the next position in that
/// direction, with its own walls and cost; a step through a standing wall gives nothing.
pub proof fn lemma_neighbor_is_cell(m: MazeView, cell: MazeCell, d: Direction)
    requires
        m.shaped(),
    ensures
        m.neighbor(cell, d) matches Some(x) ==> {
            &&& cell_of_its_position(m, x)
            &&& x.coord.0 as int == (cell.coord.0 as i32) as int + step_row(d)
            &&& x.coord.1 as int == (cell.coord.1 as i32) as int + step_col(d)
            &&& m.traversable(wall_toward(cell, d))
        },
        !m.traversable(wall_toward(cell, d)) ==> m.neighbor(cell, d) is None,
{
    lemma_lookup_is_cell(
        m,
        (cell.coord.0 as i32) as int + step_row(d),
        (cell.coord.1 as i32) as int + step_col(d),
    );
}

/// Every cell that `get_valid_adjascent_cells` returns has no cost yet and is the cell of its
/// own position, one step from `(r, c)` through an open wall.
pub proof fn lemma_unvisited_neighbors_are_cells(m: MazeView, r: usize, c: usize)
    requires
        m.shaped(),
    ensures
        forall|k: int|
            0 <= k < m.unvisited_neighbors(r, c).len() ==> {
                let x = #[trigger] m.unvisited_neighbors(r, c)[k];
                &&& cell_of_its_position(m, x)
                &&& x.cost is None
                &&& m.lookup((r as i32) as int, (c as i32) as int) is Some
                &&& exists|d: Direction|
                    #[trigger] m.neighbor(m.lookup((r as i32) as int, (c as i32) as int).unwrap(), d) == Some(x)
            },
{
    match m.lookup((r as i32) as int, (c as i32) as int) {
        Some(home) => {
            let s = m.neighbor(home, Direction::South);
            let w = m.neighbor(home, Direction::West);
            let n = m.neighbor(home, Direction::North);
            let e = m.neighbor(home, Direction::East);
            lemma_neighbor_is_cell(m, home, Direction::South);
            lemma_neighbor_is_cell(m, home, Direction::West);
            lemma_neighbor_is_cell(m, home, Direction::North);
            lemma_neighbor_is_cell(m, home, Direction::East);
            let a = unvisited_cell(s);
            let b = unvisited_cell(w);
            let cc = unvisited_cell(n);
            let dd = unvisited_cell(e);
            let all = m.unvisited_neighbors(r, c);
            assert(all == a + b + cc + dd);
            assert forall|k: int| 0 <= k < all.len() implies {
                let x = #[trigger] all[k];
                &&& cell_of_its_position(m, x)
                &&& x.cost is None
                &&& m.lookup((r as i32) as int, (c as i32) as int) is Some
                &&& exists|d: Direction|
                    #[trigger] m.neighbor(m.lookup((r as i32) as int, (c as i32) as int).unwrap(), d) == Some(x)
            } by {
                let x = all[k];
                if k < a.len() {
                    assert(x == a[k]);
                    assert(m.neighbor(home, Direction::South) == Some(x));
                } else if k < a.len() + b.len() {
                    assert(x == b[k - a.len()]);
                    assert(m.neighbor(home, Direction::West) == Some(x));
                } else if k < a.len() + b.len() + cc.len() {
                    assert(x == cc[k - a.len() - b.len()]);
                    assert(m.neighbor(home, Direction::North) == Some(x));
                } else {
                    assert(x == dd[k - a.len() - b.len() - cc.len()]);
                    assert(m.neighbor(home, Direction::East) == Some(x));
                }
            }
        },
        None => {},
    }
}

} // verus!
