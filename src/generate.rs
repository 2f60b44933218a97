use vstd::prelude::*;
use crate::direction::{Direction, opposite_of, step, all_directions, directions};
use crate::maze::{Maze, MazeError, side_bit, origin, grid_sum, visited_weight, unvisited_weight};
use crate::maze::{passage_weight, east_south};
use crate::maze_lemmas::{carve_step, lemma_carve_shape, lemma_carve_reach, lemma_carve_counts,
    lemma_grid_sum_nonneg, lemma_grid_sum_region, lemma_grid_sum_single, lemma_set_bit,
    lemma_side_bit_injective, depth_ok, lemma_carve_depth, lemma_no_cycle};
use crate::random::RandomSource;

verus! {

/// The mask bit of side `d`.
pub fn side_bit_of(d: Direction) -> (r: u8)
    ensures
        r == side_bit(d),
{
    match d {
        Direction::North => 1,
        Direction::East => 2,
        Direction::South => 4,
        Direction::West => 8,
    }
}

/// The four directions in a random order.
fn shuffled_directions(rng: &mut RandomSource) -> (r: Vec<Direction>)
    ensures
        r@.len() == 4,
        forall|d: Direction| r@.contains(d),
{
    let mut dirs = directions();
    rng.shuffle(&mut dirs);
    proof {
        assert forall|d: Direction| dirs@.contains(d) by {
            let k: int = match d {
                Direction::North => 0,
                Direction::East => 1,
                Direction::South => 2,
                Direction::West => 3,
            };
            assert(all_directions()[k] == d);
            assert(all_directions().contains(d));
        }
    }
    dirs
}

/// The neighbour of carved cell `(row, col)` towards `d`, when it lies in
/// the region `rows x cols` that is carved.
fn carved_neighbour(row: usize, col: usize, d: Direction, rows: usize, cols: usize) -> (r: Option<
    (usize, usize),
>)
    requires
        row < rows,
        col < cols,
    ensures
        match r {
            Some(n) => (n.0 as int, n.1 as int) == step((row as int, col as int), d) && n.0 < rows && n.1
                < cols,
            None => {
                let s = step((row as int, col as int), d);
                !(0 <= s.0 < rows && 0 <= s.1 < cols)
            },
        },
{
    match d {
        Direction::North => if row > 0 {
            Some((row - 1, col))
        } else {
            None
        },
        Direction::East => if col + 1 < cols {
            Some((row, col + 1))
        } else {
            None
        },
        Direction::South => if row + 1 < rows {
            Some((row + 1, col))
        } else {
            None
        },
        Direction::West => if col > 0 {
            Some((row, col - 1))
        } else {
            None
        },
    }
}

/// A `height x width` grid with every mask 0.
fn blank(width: usize, height: usize) -> (m: Maze)
    ensures
        m.width == width,
        m.height == height,
        m.shaped(),
        forall|cell: (int, int)| m.in_bounds(cell) ==> #[trigger] m.mask(cell) == 0,
{
    let mut grid: Vec<Vec<u8>> = Vec::new();
    let mut i: usize = 0;
    while i < height
        invariant
            i <= height,
            grid@.len() == i,
            forall|k: int| 0 <= k < i ==> (#[trigger] grid@[k])@ == Seq::new(width as nat, |j: int| 0u8),
        decreases height - i,
    {
        let mut row: Vec<u8> = Vec::new();
        let mut j: usize = 0;
        while j < width
            invariant
                j <= width,
                row@ == Seq::new(j as nat, |k: int| 0u8),
            decreases width - j,
        {
            row.push(0);
            j = j + 1;
            assert(row@ =~= Seq::new(j as nat, |k: int| 0u8));
        }
        grid.push(row);
        i = i + 1;
    }
    Maze { grid, width, height }
}

/// One cell being carved: the cell, its directions in the order they are
/// tried, and how many have been tried.
struct Frame {
    row: usize,
    col: usize,
    dirs: Vec<Direction>,
    next: usize,
}

/// The neighbour of `cell` towards `d` is outside the carved region or
/// already visited.
spec fn settled(m: Maze, cell: (int, int), d: Direction) -> bool {
    let n = step(cell, d);
    !m.in_carved(n) || (m.mask(n) != 0 || n == origin())
}

/// Every neighbour of `cell` is settled.
spec fn finished(m: Maze, cell: (int, int)) -> bool {
    forall|d: Direction| #[trigger] settled(m, cell, d)
}

spec fn frame_ok(m: Maze, f: Frame) -> bool {
    &&& m.in_carved((f.row as int, f.col as int))
    &&& m.mask((f.row as int, f.col as int)) != 0 || (f.row as int, f.col as int) == origin()
    &&& f.dirs@.len() == 4
    &&& f.next <= 4
    &&& forall|d: Direction| f.dirs@.contains(d)
    &&& forall|i: int| 0 <= i < f.next ==> #[trigger] settled(m, (f.row as int, f.col as int), f.dirs@[i])
}

spec fn on_stack(s: Seq<Frame>, cell: (int, int)) -> bool {
    exists|k: int| 0 <= k < s.len() && (s[k].row as int, s[k].col as int) == cell
}

/// Work left on the stack: each frame counts its untried directions and
/// one more for being popped.
spec fn pending(s: Seq<Frame>) -> int
    decreases s.len(),
{
    if s.len() == 0 {
        0
    } else {
        pending(s.drop_last()) + 5 - s.last().next
    }
}

proof fn lemma_pending_nonneg(s: Seq<Frame>)
    requires
        forall|k: int| 0 <= k < s.len() ==> (#[trigger] s[k]).next <= 4,
    ensures
        pending(s) >= 0,
    decreases s.len(),
{
    if s.len() > 0 {
        let t = s.drop_last();
        assert forall|k: int| 0 <= k < t.len() implies (#[trigger] t[k]).next <= 4 by {
            assert(t[k] == s[k]);
        }
        lemma_pending_nonneg(t);
        assert(s[s.len() - 1].next <= 4);
    }
}

/// Visited cells that all have finished fill the carved region.
proof fn lemma_all_visited(m: Maze, cell: (int, int))
    requires
        m.shaped(),
        m.width >= 2,
        m.height >= 2,
        forall|c: (int, int)| #[trigger] m.visited(c) ==> finished(m, c),
        m.in_carved(cell),
    ensures
        m.mask(cell) != 0 || cell == origin(),
    decreases cell.0 + cell.1,
{
    if cell != origin() {
        if cell.1 > 0 {
            let w = (cell.0, cell.1 - 1);
            lemma_all_visited(m, w);
            assert(m.visited(w));
            assert(settled(m, w, Direction::East));
            assert(step(w, Direction::East) == cell);
        } else {
            let n = (cell.0 - 1, cell.1);
            lemma_all_visited(m, n);
            assert(m.visited(n));
            assert(settled(m, n, Direction::South));
            assert(step(n, Direction::South) == cell);
        }
    }
}

impl Maze {
    /// Generates a perfect maze of `height` rows and `width` columns by
    /// randomised depth-first carving from the origin over the
    /// `(height - 1) x (width - 1)` region at the top left.
    pub fn new(width: usize, height: usize, rng: &mut RandomSource) -> (r: Result<Maze, MazeError>)
        ensures
            match r {
                Ok(m) => width >= 2 && height >= 2 && m.width == width && m.height == height
                    && m.is_perfect(),
                Err(e) => (width < 2 || height < 2) && e == MazeError::InvalidSize,
            },
    {
        if width < 2 || height < 2 {
            return Err(MazeError::InvalidSize);
        }
        let mut maze = blank(width, height);
        carve(&mut maze, rng);
        Ok(maze)
    }
}

/// Settled directions stay settled while cells only become visited.
proof fn lemma_settled_grows(m1: Maze, m2: Maze)
    requires
        m1.width == m2.width,
        m1.height == m2.height,
        forall|cell: (int, int)| #[trigger] m1.visited(cell) ==> m2.visited(cell),
    ensures
        forall|cell: (int, int), d: Direction| #[trigger] settled(m1, cell, d) ==> settled(m2, cell, d),
        forall|f: Frame| #[trigger] frame_ok(m1, f) ==> frame_ok(m2, f),
        forall|cell: (int, int)| #[trigger] finished(m1, cell) ==> finished(m2, cell),
{
    assert forall|cell: (int, int), d: Direction| #[trigger] settled(m1, cell, d) implies settled(m2, cell, d) by {
        let n = step(cell, d);
        if m1.in_carved(n) {
            assert(m1.visited(n));
        }
    }
    assert forall|f: Frame| #[trigger] frame_ok(m1, f) implies frame_ok(m2, f) by {
        let x = (f.row as int, f.col as int);
        assert(m1.visited(x));
        assert forall|i: int| 0 <= i < f.next implies #[trigger] settled(m2, x, f.dirs@[i]) by {
            assert(settled(m1, x, f.dirs@[i]));
        }
    }
    assert forall|cell: (int, int)| #[trigger] finished(m1, cell) implies finished(m2, cell) by {
        assert forall|d: Direction| #[trigger] settled(m2, cell, d) by {
            assert(settled(m1, cell, d));
        }
    }
}

/// Advancing the top frame past a settled direction keeps the frame and
/// stack invariants.
proof fn lemma_frame_advanced(m: Maze, s0: Seq<Frame>, s1: Seq<Frame>)
    requires
        s0.len() > 0,
        s1.len() == s0.len(),
        forall|k: int| 0 <= k < s0.len() - 1 ==> #[trigger] s1[k] == s0[k],
        s1.last().row == s0.last().row,
        s1.last().col == s0.last().col,
        s1.last().dirs == s0.last().dirs,
        s1.last().next == s0.last().next + 1,
        s0.last().next < 4,
        forall|k: int| 0 <= k < s0.len() ==> frame_ok(m, #[trigger] s0[k]),
        settled(m, (s0.last().row as int, s0.last().col as int), s0.last().dirs@[s0.last().next as int]),
        forall|cell: (int, int)| #[trigger] m.visited(cell) ==> on_stack(s0, cell) || finished(m, cell),
    ensures
        forall|k: int| 0 <= k < s1.len() ==> frame_ok(m, #[trigger] s1[k]),
        forall|cell: (int, int)| #[trigger] m.visited(cell) ==> on_stack(s1, cell) || finished(m, cell),
        (forall|k: int| 0 <= k < s0.len() ==> ((#[trigger] s0[k]).row as int, s0[k].col as int) == origin()) ==> (
        forall|k: int| 0 <= k < s1.len() ==> ((#[trigger] s1[k]).row as int, s1[k].col as int) == origin()),
{
    let t = s0.len() - 1;
    assert(frame_ok(m, s0[t]));
    assert forall|k: int| 0 <= k < s1.len() implies frame_ok(m, #[trigger] s1[k]) by {
        if k < t {
            assert(frame_ok(m, s0[k]));
        } else {
            let x = (s0[t].row as int, s0[t].col as int);
            assert forall|i: int| 0 <= i < s1[t].next implies #[trigger] settled(m, x, s1[t].dirs@[i]) by {
                if i < s0[t].next {
                    assert(settled(m, x, s0[t].dirs@[i]));
                }
            }
        }
    }
    assert forall|cell: (int, int)| #[trigger] m.visited(cell) implies on_stack(s1, cell) || finished(m, cell) by {
        if on_stack(s0, cell) {
            let k = choose|k: int| 0 <= k < s0.len() && (s0[k].row as int, s0[k].col as int) == cell;
            assert((s1[k].row as int, s1[k].col as int) == cell);
        }
    }
}

/// Carves a spanning tree into a blank grid, starting at the origin.
fn carve(maze: &mut Maze, rng: &mut RandomSource)
    requires
        old(maze).width >= 2,
        old(maze).height >= 2,
        old(maze).shaped(),
        forall|cell: (int, int)| old(maze).in_bounds(cell) ==> #[trigger] old(maze).mask(cell) == 0,
    ensures
        final(maze).width == old(maze).width,
        final(maze).height == old(maze).height,
        final(maze).is_perfect(),
{
    let rows = maze.height - 1;
    let cols = maze.width - 1;
    let mut stack: Vec<Frame> = Vec::new();
    stack.push(Frame { row: 0, col: 0, dirs: shuffled_directions(rng), next: 0 });
    // each visited cell's distance from the origin along the carved passages
    let ghost mut depth: spec_fn((int, int)) -> int = |c: (int, int)| 0int;
    proof {
        let m = *maze;
        reveal(Maze::symmetric);
        assert(m.is_path(seq![origin()]));
        assert(m.reachable(origin()));
        assert forall|cell: (int, int), d: Direction| #[trigger] m.is_open(cell, d) implies {
            &&& m.in_carved(cell)
            &&& m.in_carved(step(cell, d))
            &&& m.is_open(step(cell, d), opposite_of(d))
        } by {
            assert(m.mask(cell) == 0);
            let b = side_bit(d);
            assert(0u8 & b == 0) by (bit_vector);
        }
        assert(depth_ok(m, depth)) by {
            assert forall|a: (int, int), d: Direction| !#[trigger] m.is_open(a, d) by {
                if m.in_bounds(a) {
                    assert(m.mask(a) == 0);
                    let b = side_bit(d);
                    assert(0u8 & b == 0) by (bit_vector);
                }
            }
        }
        assert forall|cell: (int, int)| m.visited(cell) implies cell == origin() by {
            assert(m.mask(cell) == 0);
        }
        assert(on_stack(stack@, origin())) by {
            assert(stack@[0].row == 0 && stack@[0].col == 0);
        }
        let g = m.cells();
        assert forall|i: int, j: int| 0 <= i < g.len() && 0 <= j < g[i].len() implies #[trigger] g[i][j] == 0 by {
            assert(g[i] == m.grid@[i]@);
            assert(m.in_bounds((i, j)));
            assert(m.mask((i, j)) == 0);
        }
        lemma_set_bit(0, 1, side_bit(Direction::East));
        lemma_set_bit(0, 1, side_bit(Direction::South));
        assert(east_south(0) == 0);
        lemma_grid_sum_single(g, m.height as int, (-1, -1), passage_weight());
        lemma_grid_sum_single(g, m.height as int, origin(), visited_weight());
        assert(g[0] == m.grid@[0]@);
    }
    while stack.len() > 0
        invariant
            maze.width == old(maze).width,
            maze.height == old(maze).height,
            rows == maze.height - 1,
            cols == maze.width - 1,
            maze.width >= 2,
            maze.height >= 2,
            maze.shaped(),
            maze.symmetric(),
            maze.border_walled(),
            forall|k: int| 0 <= k < stack@.len() ==> frame_ok(*maze, #[trigger] stack@[k]),
            forall|cell: (int, int)| #[trigger] maze.visited(cell) ==> maze.reachable(cell),
            forall|cell: (int, int)| #[trigger] maze.visited(cell) ==> on_stack(stack@, cell) || finished(*maze, cell),
            maze.mask(origin()) == 0 ==> forall|k: int|
                0 <= k < stack@.len() ==> ((#[trigger] stack@[k]).row as int, stack@[k].col as int) == origin(),
            maze.passage_count() + 1 == grid_sum(maze.cells(), maze.height as int, visited_weight()),
            depth_ok(*maze, depth),
        decreases 5 * grid_sum(maze.cells(), maze.height as int, unvisited_weight()) + pending(stack@),
    {
        let ghost m0 = *maze;
        let ghost s0 = stack@;
        proof {
            lemma_grid_sum_nonneg(maze.cells(), maze.height as int, unvisited_weight());
            lemma_pending_nonneg(stack@);
        }
        let mut frame = stack.pop().unwrap();
        proof {
            assert(frame == s0.last());
            assert(stack@ =~= s0.drop_last());
            assert(frame_ok(m0, frame));
        }
        if frame.next < 4 {
            let d = frame.dirs[frame.next];
            let ghost old_next = frame.next as int;
            frame.next = frame.next + 1;
            let r = frame.row;
            let c = frame.col;
            let ghost x = (r as int, c as int);
            stack.push(frame);
            let ghost s1 = stack@;
            proof {
                assert(s1.drop_last() =~= s0.drop_last());
                assert(pending(s1) == pending(s0) - 1);
                assert forall|k: int| 0 <= k < s1.len() - 1 implies #[trigger] s1[k] == s0[k] by {}
            }
            match carved_neighbour(r, c, d, rows, cols) {
                Some(n) => {
                    let (nr, nc) = n;
                    let ghost y = (nr as int, nc as int);
                    if maze.grid[nr][nc] == 0 {
                        maze.grid[r][c] = maze.grid[r][c] | side_bit_of(d);
                        maze.grid[nr][nc] = side_bit_of(d.opposite());
                        proof {
                            let m2 = *maze;
                            assert(y != origin()) by {
                                if m0.mask(origin()) == 0 {
                                    assert((s0[s0.len() - 1].row as int, s0[s0.len() - 1].col as int) == origin());
                                }
                            }
                            assert(m2.mask(x) == m0.mask(x) | side_bit(d));
                            assert(m2.mask(y) == side_bit(opposite_of(d)));
                            assert forall|cell: (int, int)| m0.in_bounds(cell) && cell != x && cell != y implies #[trigger] m2.mask(cell) == m0.mask(cell) by {}
                            assert(carve_step(m0, m2, x, d));
                            lemma_carve_shape(m0, m2, x, d);
                            lemma_carve_reach(m0, m2, x, d);
                            lemma_carve_counts(m0, m2, x, d);
                            depth = lemma_carve_depth(m0, m2, x, d, depth);
                            lemma_settled_grows(m0, m2);
                            lemma_side_bit_injective(d, d);
                            lemma_set_bit(m0.mask(x), side_bit(d), side_bit(d));
                            assert(m2.mask(origin()) != 0) by {
                                if x != origin() && m0.mask(origin()) == 0 {
                                    assert((s0[s0.len() - 1].row as int, s0[s0.len() - 1].col as int) == origin());
                                }
                            }
                            assert(5 * grid_sum(m2.cells(), m2.height as int, unvisited_weight()) + pending(s1) + 5 < 5
                                * grid_sum(m0.cells(), m0.height as int, unvisited_weight()) + pending(s0));
                        }
                        let dirs = shuffled_directions(rng);
                        stack.push(Frame { row: nr, col: nc, dirs, next: 0 });
                        proof {
                            let m2 = *maze;
                            let s2 = stack@;
                            assert(s2.drop_last() =~= s1);
                            assert(pending(s2) == pending(s1) + 5);
                            assert(frame_ok(m2, s2[s2.len() - 1]));
                            assert(settled(m2, x, d));
                            assert forall|k: int| 0 <= k < s2.len() implies frame_ok(m2, #[trigger] s2[k]) by {
                                if k < s2.len() - 2 {
                                    assert(s2[k] == s0[k]);
                                    assert(frame_ok(m0, s0[k]));
                                } else if k == s2.len() - 2 {
                                    assert(s2[k] == frame);
                                    assert forall|i: int| 0 <= i < frame.next implies #[trigger] settled(m2, x, frame.dirs@[i]) by {
                                        if i < old_next {
                                            assert(settled(m0, x, frame.dirs@[i]));
                                        }
                                    }
                                }
                            }
                            assert forall|cell: (int, int)| #[trigger] m2.visited(cell) implies on_stack(s2, cell) || finished(m2, cell) by {
                                if cell == y {
                                    assert((s2[s2.len() - 1].row as int, s2[s2.len() - 1].col as int) == cell);
                                } else {
                                    assert(m0.visited(cell));
                                    if on_stack(s0, cell) {
                                        let k = choose|k: int| 0 <= k < s0.len() && (s0[k].row as int, s0[k].col as int) == cell;
                                        assert((s2[k].row as int, s2[k].col as int) == cell);
                                    }
                                }
                            }
                        }
                    } else {
                        proof {
                            assert(m0.visited(y));
                            lemma_frame_advanced(m0, s0, s1);
                            assert(*maze == m0);
                        }
                    }
                },
                None => {
                    proof {
                        lemma_frame_advanced(m0, s0, s1);
                        assert(*maze == m0);
                    }
                },
            }
        } else {
            proof {
                assert(pending(s0) == pending(s0.drop_last()) + 5 - s0.last().next);
                let x = (frame.row as int, frame.col as int);
                assert forall|e: Direction| #[trigger] settled(m0, x, e) by {
                    assert(frame.dirs@.contains(e));
                    let i = choose|i: int| 0 <= i < frame.dirs@.len() && frame.dirs@[i] == e;
                    assert(settled(m0, x, frame.dirs@[i]));
                }
                assert(finished(m0, x));
                assert forall|cell: (int, int)| #[trigger] m0.visited(cell) implies on_stack(stack@, cell) || finished(m0, cell) by {
                    if cell != x && on_stack(s0, cell) {
                        let k = choose|k: int| 0 <= k < s0.len() && (s0[k].row as int, s0[k].col as int) == cell;
                        assert(stack@[k] == s0[k]);
                    }
                }
                assert forall|k: int| 0 <= k < stack@.len() implies frame_ok(m0, #[trigger] stack@[k]) by {
                    assert(stack@[k] == s0[k]);
                }
                if m0.mask(origin()) == 0 {
                    assert forall|k: int| 0 <= k < stack@.len() implies ((#[trigger] stack@[k]).row as int, stack@[k].col as int) == origin() by {
                        assert(stack@[k] == s0[k]);
                    }
                }
            }
        }
        proof {
            lemma_grid_sum_nonneg(maze.cells(), maze.height as int, unvisited_weight());
            lemma_pending_nonneg(stack@);
        }
    }
    proof {
        let m = *maze;
        assert forall|cell: (int, int)| m.in_carved(cell) implies #[trigger] m.reachable(cell) by {
            lemma_all_visited(m, cell);
            assert(m.visited(cell));
        }
        assert forall|cell: (int, int)| m.in_bounds(cell) implies visited_weight()(m.mask(cell), cell) == if m.in_carved(cell) { 1int } else { 0int } by {
            if m.in_carved(cell) {
                lemma_all_visited(m, cell);
            }
        }
        lemma_grid_sum_region(m, m.height as int, visited_weight());
        lemma_no_cycle(m, depth);
    }
}

} // verus!
