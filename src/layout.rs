use vstd::prelude::*;
use crate::direction::Direction;
use crate::maze::Maze;
use crate::random::RandomSource;

verus! {

/// Which surface of a tile a wall panel covers.
#[derive(PartialEq, Eq, Structural, Debug, Clone, Copy)]
pub enum Side {
    North,
    West,
    South,
    East,
    Ceiling,
    Floor,
}

/// A wall panel: a surface of the tile in row `row`, column `col`.
#[derive(PartialEq, Eq, Structural, Debug, Clone, Copy)]
pub struct WallSlot {
    pub row: usize,
    pub col: usize,
    pub side: Side,
}

/// The outer north wall: one panel above each column of the first row.
pub open spec fn north_border(width: nat) -> Seq<WallSlot> {
    Seq::new(width, |j: int| WallSlot { row: 0, col: j as usize, side: Side::North })
}

/// The outer west wall: one panel left of each row's first tile.
pub open spec fn west_border(height: nat) -> Seq<WallSlot> {
    Seq::new(height, |i: int| WallSlot { row: i as usize, col: 0, side: Side::West })
}

/// The panels of tile `(i, j)`: its south wall and its east wall where they
/// stand, then its ceiling and its floor.
pub open spec fn tile_slots(m: Maze, i: int, j: int) -> Seq<WallSlot> {
    let here = |side: Side| WallSlot { row: i as usize, col: j as usize, side: side };
    (if m.is_open((i, j), Direction::South) {
        Seq::empty()
    } else {
        seq![here(Side::South)]
    }) + (if m.is_open((i, j), Direction::East) {
        Seq::empty()
    } else {
        seq![here(Side::East)]
    }) + seq![here(Side::Ceiling), here(Side::Floor)]
}

/// The panels of the first `n` tiles of row `i`.
pub open spec fn row_slots(m: Maze, i: int, n: int) -> Seq<WallSlot>
    decreases n,
{
    if n <= 0 {
        Seq::empty()
    } else {
        row_slots(m, i, n - 1) + tile_slots(m, i, n - 1)
    }
}

/// The panels of the tiles of the first `n` rows.
pub open spec fn rows_slots(m: Maze, n: int) -> Seq<WallSlot>
    decreases n,
{
    if n <= 0 {
        Seq::empty()
    } else {
        rows_slots(m, n - 1) + row_slots(m, n - 1, m.width as int)
    }
}

/// Every wall panel of maze `m`: the outer north wall, the outer west
/// wall, then tile by tile, row after row, the panels of each tile.
pub open spec fn all_slots(m: Maze) -> Seq<WallSlot> {
    north_border(m.width as nat) + west_border(m.height as nat) + rows_slots(m, m.height as int)
}

/// Lists the wall panels of `maze` in the order of `all_slots`.
pub fn wall_slots(maze: &Maze) -> (r: Vec<WallSlot>)
    requires
        maze.shaped(),
    ensures
        r@ == all_slots(*maze),
{
    let mut out: Vec<WallSlot> = Vec::new();
    let mut j: usize = 0;
    while j < maze.width
        invariant
            j <= maze.width,
            out@ == north_border(j as nat),
        decreases maze.width - j,
    {
        out.push(WallSlot { row: 0, col: j, side: Side::North });
        j = j + 1;
        assert(out@ =~= north_border(j as nat));
    }
    let mut i: usize = 0;
    while i < maze.height
        invariant
            i <= maze.height,
            out@ == north_border(maze.width as nat) + west_border(i as nat),
        decreases maze.height - i,
    {
        out.push(WallSlot { row: i, col: 0, side: Side::West });
        i = i + 1;
        assert(out@ =~= north_border(maze.width as nat) + west_border(i as nat));
    }
    let ghost borders = out@;
    let mut i: usize = 0;
    while i < maze.height
        invariant
            maze.shaped(),
            borders == north_border(maze.width as nat) + west_border(maze.height as nat),
            i <= maze.height,
            out@ == borders + rows_slots(*maze, i as int),
        decreases maze.height - i,
    {
        let mut j: usize = 0;
        while j < maze.width
            invariant
                maze.shaped(),
                i < maze.height,
                j <= maze.width,
                out@ == borders + rows_slots(*maze, i as int) + row_slots(*maze, i as int, j as int),
            decreases maze.width - j,
        {
            let ghost before = out@;
            if maze.south(i, j) {
                out.push(WallSlot { row: i, col: j, side: Side::South });
            }
            if maze.east(i, j) {
                out.push(WallSlot { row: i, col: j, side: Side::East });
            }
            out.push(WallSlot { row: i, col: j, side: Side::Ceiling });
            out.push(WallSlot { row: i, col: j, side: Side::Floor });
            proof {
                assert(out@ =~= before + tile_slots(*maze, i as int, j as int));
            }
            j = j + 1;
        }
        i = i + 1;
    }
    out
}

/// How many tiles get a decoration when `percent` out of a hundred should:
/// that share of `total`, rounded down, but at least two.
pub open spec fn share_count(total: int, percent: int) -> int {
    let n = percent * total / 100;
    if n < 2 {
        2
    } else {
        n
    }
}

/// The tiles of a `width`-column grid numbered row by row: index `e` is
/// the tile in row `e / width`, column `e % width`.
pub fn tiles_of_indices(indices: &Vec<usize>, width: usize) -> (r: Vec<(usize, usize)>)
    requires
        width > 0,
    ensures
        r@.len() == indices@.len(),
        forall|k: int|
            0 <= k < r@.len() ==> #[trigger] r@[k] == (indices@[k] / width, indices@[k] % width),
{
    let mut out: Vec<(usize, usize)> = Vec::new();
    let mut k: usize = 0;
    while k < indices.len()
        invariant
            width > 0,
            k <= indices@.len(),
            out@.len() == k,
            forall|t: int| 0 <= t < k ==> #[trigger] out@[t] == (indices@[t] / width, indices@[t] % width),
        decreases indices@.len() - k,
    {
        let e = indices[k];
        out.push((e / width, e % width));
        k = k + 1;
    }
    out
}

/// Picks `share_count(width * height, percent)` distinct tiles of a
/// `height x width` grid at random.
pub fn scatter(width: usize, height: usize, percent: usize, rng: &mut RandomSource) -> (r: Vec<(usize, usize)>)
    requires
        2 <= width * height <= usize::MAX,
        percent <= 100,
        percent * (width * height) <= usize::MAX,
    ensures
        r@.len() == share_count(width * height, percent as int),
        r@.no_duplicates(),
        forall|k: int| 0 <= k < r@.len() ==> (#[trigger] r@[k]).0 < height && r@[k].1 < width,
{
    let total = width * height;
    let share = percent * total / 100;
    let count = if share < 2 {
        2
    } else {
        share
    };
    proof {
        assert(percent * total <= 100 * total) by (nonlinear_arith)
            requires
                percent <= 100,
        ;
    }
    let indices = rng.sample(total, count);
    let tiles = tiles_of_indices(&indices, width);
    proof {
        let w = width as int;
        let h = height as int;
        assert forall|k: int| 0 <= k < tiles@.len() implies (#[trigger] tiles@[k]).0 < height && tiles@[k].1
            < width by {
            let e = indices@[k] as int;
            assert(e < w * h);
            assert(e / w < h) by (nonlinear_arith)
                requires
                    0 <= e < w * h,
                    w > 0,
            ;
            assert(e % w < w) by (nonlinear_arith)
                requires
                    0 <= e,
                    w > 0,
            ;
        }
        assert forall|a: int, b: int| 0 <= a < tiles@.len() && 0 <= b < tiles@.len() && a != b implies tiles@[a]
            != tiles@[b] by {
            let ea = indices@[a] as int;
            let eb = indices@[b] as int;
            assert(indices@[a] != indices@[b]);
            if tiles@[a] == tiles@[b] {
                assert(ea == w * (ea / w) + ea % w) by (nonlinear_arith)
                    requires
                        w > 0,
                ;
                assert(eb == w * (eb / w) + eb % w) by (nonlinear_arith)
                    requires
                        w > 0,
                ;
            }
        }
    }
    tiles
}

} // verus!
