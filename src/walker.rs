use vstd::prelude::*;
use crate::direction::{Direction, opposite_of, step};
use crate::maze::Maze;
use crate::random::RandomSource;

verus! {

/// The number of open sides of `cell`.
pub open spec fn open_count(m: Maze, cell: (int, int)) -> int {
    (if m.is_open(cell, Direction::North) { 1int } else { 0int }) + (if m.is_open(cell, Direction::East) {
        1int
    } else {
        0int
    }) + (if m.is_open(cell, Direction::South) { 1int } else { 0int }) + (if m.is_open(
        cell,
        Direction::West,
    ) {
        1int
    } else {
        0int
    })
}

/// One move of a walker that stands on `cell` facing `facing` and ends on
/// `cell2` facing `facing2`.
///
/// A walker with no open side stays put. Otherwise it goes through an open
/// side and faces the way it went, and it turns back only where that is
/// the one open side: at a dead end.
pub open spec fn walk_step(
    m: Maze,
    cell: (int, int),
    facing: Direction,
    cell2: (int, int),
    facing2: Direction,
) -> bool {
    if open_count(m, cell) == 0 {
        cell2 == cell && facing2 == facing
    } else {
        &&& m.is_open(cell, facing2)
        &&& cell2 == step(cell, facing2)
        &&& open_count(m, cell) == 1 || facing2 != opposite_of(facing)
    }
}

/// A walker wandering through a maze one cell at a time.
pub struct Walker<'a> {
    pub maze: &'a Maze,
    pub direction: Direction,
    pub i: usize,
    pub j: usize,
}

impl<'a> Walker<'a> {
    /// The cell the walker stands on, as (row, column).
    pub open spec fn cell(&self) -> (int, int) {
        (self.i as int, self.j as int)
    }

    pub open spec fn wf(&self) -> bool {
        self.maze.wf() && self.maze.in_bounds(self.cell())
    }

    /// A walker on cell `(i, j)`, facing south when that side is open and
    /// east otherwise.
    pub fn new(maze: &'a Maze, i: usize, j: usize) -> (r: Walker<'a>)
        requires
            maze.wf(),
            i < maze.height,
            j < maze.width,
        ensures
            r.wf(),
            r.maze == maze,
            r.i == i,
            r.j == j,
            r.direction == if maze.is_open((i as int, j as int), Direction::South) {
                Direction::South
            } else {
                Direction::East
            },
    {
        let direction = if maze.south(i, j) {
            Direction::East
        } else {
            Direction::South
        };
        Walker { maze, direction, i, j }
    }

    /// The side of the current cell towards `direction` is open.
    pub fn open(&self, direction: &Direction) -> (r: bool)
        requires
            self.wf(),
        ensures
            r == self.maze.is_open(self.cell(), *direction),
    {
        !match *direction {
            Direction::North => self.maze.north(self.i, self.j),
            Direction::East => self.maze.east(self.i, self.j),
            Direction::South => self.maze.south(self.i, self.j),
            Direction::West => self.maze.west(self.i, self.j),
        }
    }

    /// The current cell as (row, column).
    pub fn pos(&self) -> (r: (usize, usize))
        ensures
            r == (self.i, self.j),
    {
        (self.i, self.j)
    }

    /// The open sides of the current cell, in the order North, East,
    /// South, West.
    fn open_directions(&self) -> (r: Vec<Direction>)
        requires
            self.wf(),
        ensures
            r@.len() == open_count(*self.maze, self.cell()),
            forall|d: Direction| r@.contains(d) <==> self.maze.is_open(self.cell(), d),
    {
        let ghost c = self.cell();
        let ghost mz = *self.maze;
        let mut opens: Vec<Direction> = Vec::new();
        if self.open(&Direction::North) {
            opens.push(Direction::North);
        }
        let ghost at_n = 0int;
        let ghost len_n = opens@.len() as int;
        if self.open(&Direction::East) {
            opens.push(Direction::East);
        }
        let ghost at_e = len_n;
        let ghost len_e = opens@.len() as int;
        if self.open(&Direction::South) {
            opens.push(Direction::South);
        }
        let ghost at_s = len_e;
        let ghost len_s = opens@.len() as int;
        if self.open(&Direction::West) {
            opens.push(Direction::West);
        }
        let ghost at_w = len_s;
        proof {
            assert(mz.is_open(c, Direction::North) ==> opens@[at_n] == Direction::North);
            assert(mz.is_open(c, Direction::East) ==> opens@[at_e] == Direction::East);
            assert(mz.is_open(c, Direction::South) ==> opens@[at_s] == Direction::South);
            assert(mz.is_open(c, Direction::West) ==> opens@[at_w] == Direction::West);
            assert forall|k: int| 0 <= k < opens@.len() implies mz.is_open(c, #[trigger] opens@[k]) by {}
            assert forall|d: Direction| opens@.contains(d) <==> mz.is_open(c, d) by {
                if mz.is_open(c, d) {
                    match d {
                        Direction::North => assert(opens@[at_n] == d),
                        Direction::East => assert(opens@[at_e] == d),
                        Direction::South => assert(opens@[at_s] == d),
                        Direction::West => assert(opens@[at_w] == d),
                    }
                }
            }
        }
        opens
    }

    /// Steps through the open side towards `d` and faces `d`.
    fn go(&mut self, d: Direction)
        requires
            old(self).wf(),
            old(self).maze.is_open(old(self).cell(), d),
        ensures
            final(self).wf(),
            final(self).maze == old(self).maze,
            final(self).cell() == step(old(self).cell(), d),
            final(self).direction == d,
    {
        proof {
            self.maze.lemma_open_side(self.cell(), d);
        }
        match d {
            Direction::North => self.i = self.i - 1,
            Direction::East => self.j = self.j + 1,
            Direction::South => self.i = self.i + 1,
            Direction::West => self.j = self.j - 1,
        }
        self.direction = d;
    }

    /// Moves to a neighbouring cell through an open side picked at random,
    /// never straight back where it came from unless it stands in a dead
    /// end.
    pub fn next(&mut self, rng: &mut RandomSource)
        requires
            old(self).wf(),
        ensures
            final(self).wf(),
            final(self).maze == old(self).maze,
            walk_step(
                *old(self).maze,
                old(self).cell(),
                old(self).direction,
                final(self).cell(),
                final(self).direction,
            ),
    {
        let ghost cell = self.cell();
        let ghost m = *self.maze;
        let mut opens = self.open_directions();
        rng.shuffle(&mut opens);
        let n = opens.len();
        let mut k: usize = 0;
        while k < n
            invariant
                self.wf(),
                *self == *old(self),
                cell == self.cell(),
                m == *self.maze,
                opens@.len() == n,
                n == open_count(m, cell),
                forall|d: Direction| opens@.contains(d) <==> m.is_open(cell, d),
                k <= n,
                forall|t: int| 0 <= t < k ==> #[trigger] opens@[t] == opposite_of(self.direction) && n != 1,
            decreases n - k,
        {
            let d = opens[k];
            if self.open(&d) && (self.direction != d.opposite() || n == 1) {
                self.go(d);
                return;
            }
            proof {
                assert(opens@.contains(d));
            }
            k = k + 1;
        }
        proof {
            if n >= 1 {
                assert(opens@[0] == opposite_of(self.direction) && n != 1);
                assert forall|d: Direction| m.is_open(cell, d) implies d == opposite_of(self.direction) by {
                    assert(opens@.contains(d));
                    let t = choose|t: int| 0 <= t < opens@.len() && opens@[t] == d;
                    assert(opens@[t] == opposite_of(self.direction));
                }
            }
        }
    }
}

} // verus!
