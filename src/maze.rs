use vstd::prelude::*;
use crate::direction::{Direction, opposite_of, step, all_directions, directions};
use crate::random::RandomSource;

verus! {

/// The bit of a cell's mask that records an open passage on side `d`.
pub open spec fn side_bit(d: Direction) -> u8 {
    match d {
        Direction::North => 1,
        Direction::East => 2,
        Direction::South => 4,
        Direction::West => 8,
    }
}

/// The cell where carving starts and where walkers usually begin.
pub open spec fn origin() -> (int, int) {
    (0, 0)
}

/// Passages recorded by a mask on its east and south sides; counting only
/// these two sides counts every passage of a symmetric maze once.
pub open spec fn east_south(m: u8) -> int {
    (if m & side_bit(Direction::East) != 0 { 1int } else { 0int }) + (if m & side_bit(
        Direction::South,
    ) != 0 {
        1int
    } else {
        0int
    })
}

/// Weight of a cell in the passage count.
pub open spec fn passage_weight() -> spec_fn(u8, (int, int)) -> int {
    |m: u8, cell: (int, int)| east_south(m)
}

/// Weight of a cell in the count of visited cells.
pub open spec fn visited_weight() -> spec_fn(u8, (int, int)) -> int {
    |m: u8, cell: (int, int)| if m != 0 || cell == origin() { 1int } else { 0int }
}

/// Weight of a cell in the count of cells not yet visited.
pub open spec fn unvisited_weight() -> spec_fn(u8, (int, int)) -> int {
    |m: u8, cell: (int, int)| if m != 0 || cell == origin() { 0int } else { 1int }
}

/// Sum of `f` over the first `n` cells of row `r`.
pub open spec fn row_sum(row: Seq<u8>, r: int, n: int, f: spec_fn(u8, (int, int)) -> int) -> int
    decreases n,
{
    if n <= 0 {
        0
    } else {
        row_sum(row, r, n - 1, f) + f(row[n - 1], (r, n - 1))
    }
}

/// Sum of `f` over every cell of the first `n` rows.
pub open spec fn grid_sum(rows: Seq<Seq<u8>>, n: int, f: spec_fn(u8, (int, int)) -> int) -> int
    decreases n,
{
    if n <= 0 {
        0
    } else {
        grid_sum(rows, n - 1, f) + row_sum(rows[n - 1], n - 1, rows[n - 1].len() as int, f)
    }
}

/// Error of maze generation.
#[derive(PartialEq, Eq, Structural, Debug, Clone, Copy)]
pub enum MazeError {
    /// The width or the height is below 2.
    InvalidSize,
}

/// A rectangular maze of `height` rows and `width` columns.
///
/// `grid[i][j]` is the mask of the cell in row `i`, column `j`: bit
/// `side_bit(d)` is set when the passage from that cell towards `d` is open
/// and clear when a wall stands there. Only the `(height - 1) x (width - 1)`
/// cells at the top left are carved; the last row and the last column stay
/// walled and only bound the maze.
#[derive(Debug)]
pub struct Maze {
    pub grid: Vec<Vec<u8>>,
    pub width: usize,
    pub height: usize,
}

impl Maze {
    /// The masks, row by row.
    pub open spec fn cells(&self) -> Seq<Seq<u8>> {
        self.grid@.map_values(|row: Vec<u8>| row@)
    }

    /// The mask of `cell`, meaningful when `cell` is in bounds.
    pub open spec fn mask(&self, cell: (int, int)) -> u8 {
        self.grid@[cell.0]@[cell.1]
    }

    pub open spec fn in_bounds(&self, cell: (int, int)) -> bool {
        0 <= cell.0 < self.height && 0 <= cell.1 < self.width
    }

    /// The region that generation carves.
    pub open spec fn in_carved(&self, cell: (int, int)) -> bool {
        0 <= cell.0 < self.height - 1 && 0 <= cell.1 < self.width - 1
    }

    /// `cell` has been reached by carving: it has an open side, or it is
    /// the origin.
    pub open spec fn visited(&self, cell: (int, int)) -> bool {
        self.in_bounds(cell) && (self.mask(cell) != 0 || cell == origin())
    }

    /// The grid has `height` rows of `width` masks.
    pub open spec fn shaped(&self) -> bool {
        &&& self.grid@.len() == self.height
        &&& forall|i: int| 0 <= i < self.height ==> (#[trigger] self.grid@[i])@.len() == self.width
    }

    /// The passage from `cell` towards `d` is open.
    pub open spec fn is_open(&self, cell: (int, int), d: Direction) -> bool {
        self.in_bounds(cell) && self.mask(cell) & side_bit(d) != 0
    }

    /// Every open side leads to a carved cell whose facing side is open too.
    #[verifier::opaque]
    pub open spec fn symmetric(&self) -> bool {
        forall|cell: (int, int), d: Direction|
            #[trigger] self.is_open(cell, d) ==> {
                &&& self.in_carved(cell)
                &&& self.in_carved(step(cell, d))
                &&& self.is_open(step(cell, d), opposite_of(d))
            }
    }

    /// Every cell outside the carved region is closed on all sides.
    pub open spec fn border_walled(&self) -> bool {
        forall|cell: (int, int)|
            self.in_bounds(cell) && !self.in_carved(cell) ==> #[trigger] self.mask(cell) == 0
    }

    /// What every maze that walkers roam satisfies.
    pub open spec fn wf(&self) -> bool {
        &&& self.width >= 2
        &&& self.height >= 2
        &&& self.shaped()
        &&& self.symmetric()
        &&& self.border_walled()
    }

    /// An open passage joins `a` to its neighbour `b`.
    pub open spec fn linked(&self, a: (int, int), b: (int, int)) -> bool {
        ||| self.is_open(a, Direction::North) && b == step(a, Direction::North)
        ||| self.is_open(a, Direction::East) && b == step(a, Direction::East)
        ||| self.is_open(a, Direction::South) && b == step(a, Direction::South)
        ||| self.is_open(a, Direction::West) && b == step(a, Direction::West)
    }

    /// `p` is a walk along open passages.
    pub open spec fn is_path(&self, p: Seq<(int, int)>) -> bool {
        &&& p.len() >= 1
        &&& forall|k: int| 0 <= k < p.len() - 1 ==> #[trigger] self.linked(p[k], p[k + 1])
    }

    /// `cell` can be reached from the origin along open passages.
    pub open spec fn reachable(&self, cell: (int, int)) -> bool {
        exists|p: Seq<(int, int)>| #[trigger] self.is_path(p) && p[0] == origin() && p.last() == cell
    }

    /// Every carved cell can be reached from the origin.
    pub open spec fn connected(&self) -> bool {
        forall|cell: (int, int)| self.in_carved(cell) ==> #[trigger] self.reachable(cell)
    }

    /// `p` is a cycle: a closed walk along open passages, of at least one
    /// step, that never turns straight back, not even where it closes.
    pub open spec fn is_cycle(&self, p: Seq<(int, int)>) -> bool {
        &&& p.len() >= 2
        &&& self.is_path(p)
        &&& p[0] == p.last()
        &&& forall|k: int| 0 <= k < p.len() - 2 ==> #[trigger] p[k + 2] != p[k]
        &&& p[1] != p[p.len() - 2]
    }

    /// No sequence of open passages forms a cycle.
    pub open spec fn acyclic(&self) -> bool {
        forall|p: Seq<(int, int)>| !#[trigger] self.is_cycle(p)
    }

    /// The number of open passages, each counted once.
    pub open spec fn passage_count(&self) -> int {
        grid_sum(self.cells(), self.height as int, passage_weight())
    }

    /// The carved region is a spanning tree of open passages: every carved
    /// cell is reached from the origin, no passages form a cycle, and there
    /// is one passage fewer than there are carved cells.
    pub open spec fn is_perfect(&self) -> bool {
        &&& self.wf()
        &&& self.connected()
        &&& self.acyclic()
        &&& self.passage_count() == (self.width - 1) * (self.height - 1) - 1
    }

    /// What symmetry gives for one open side.
    pub proof fn lemma_open_side(&self, cell: (int, int), d: Direction)
        requires
            self.symmetric(),
            self.is_open(cell, d),
        ensures
            self.in_carved(cell),
            self.in_carved(step(cell, d)),
            self.is_open(step(cell, d), opposite_of(d)),
    {
        reveal(Maze::symmetric);
    }

    /// A wall stands on the north side of cell `(i, j)`.
    pub fn north(&self, i: usize, j: usize) -> (r: bool)
        requires
            self.shaped(),
            i < self.height,
            j < self.width,
        ensures
            r == !self.is_open((i as int, j as int), Direction::North),
    {
        self.grid[i][j] & 1 == 0
    }

    /// A wall stands on the east side of cell `(i, j)`.
    pub fn east(&self, i: usize, j: usize) -> (r: bool)
        requires
            self.shaped(),
            i < self.height,
            j < self.width,
        ensures
            r == !self.is_open((i as int, j as int), Direction::East),
    {
        self.grid[i][j] & 2 == 0
    }

    /// A wall stands on the south side of cell `(i, j)`.
    pub fn south(&self, i: usize, j: usize) -> (r: bool)
        requires
            self.shaped(),
            i < self.height,
            j < self.width,
        ensures
            r == !self.is_open((i as int, j as int), Direction::South),
    {
        self.grid[i][j] & 4 == 0
    }

    /// A wall stands on the west side of cell `(i, j)`.
    pub fn west(&self, i: usize, j: usize) -> (r: bool)
        requires
            self.shaped(),
            i < self.height,
            j < self.width,
        ensures
            r == !self.is_open((i as int, j as int), Direction::West),
    {
        self.grid[i][j] & 8 == 0
    }
}

} // verus!
