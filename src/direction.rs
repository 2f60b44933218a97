use vstd::prelude::*;

verus! {

/// One of the four compass directions of the maze grid.
///
/// Rows grow towards the south and columns towards the east, so North
/// decreases the row and West decreases the column.
#[derive(PartialEq, Eq, Structural, Debug, Clone, Copy)]
pub enum Direction {
    North,
    East,
    South,
    West,
}

/// The direction pointing the other way.
pub open spec fn opposite_of(d: Direction) -> Direction {
    match d {
        Direction::North => Direction::South,
        Direction::East => Direction::West,
        Direction::South => Direction::North,
        Direction::West => Direction::East,
    }
}

/// Row offset of one step in direction `d`.
pub open spec fn row_delta(d: Direction) -> int {
    match d {
        Direction::North => -1,
        Direction::South => 1,
        _ => 0,
    }
}

/// Column offset of one step in direction `d`.
pub open spec fn col_delta(d: Direction) -> int {
    match d {
        Direction::East => 1,
        Direction::West => -1,
        _ => 0,
    }
}

/// The cell reached from `(r, c)` by one step in direction `d`.
pub open spec fn step(cell: (int, int), d: Direction) -> (int, int) {
    (cell.0 + row_delta(d), cell.1 + col_delta(d))
}

/// The four directions in their fixed order North, East, South, West.
pub open spec fn all_directions() -> Seq<Direction> {
    seq![Direction::North, Direction::East, Direction::South, Direction::West]
}

impl Direction {
    pub fn opposite(&self) -> (r: Direction)
        ensures
            r == opposite_of(*self),
    {
        match *self {
            Direction::North => Direction::South,
            Direction::East => Direction::West,
            Direction::South => Direction::North,
            Direction::West => Direction::East,
        }
    }
}

/// The four directions, in the order North, East, South, West.
pub fn directions() -> (r: Vec<Direction>)
    ensures
        r@ == all_directions(),
{
    vec![Direction::North, Direction::East, Direction::South, Direction::West]
}

} // verus!
