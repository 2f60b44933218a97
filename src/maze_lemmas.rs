use vstd::prelude::*;
use crate::direction::{Direction, opposite_of, step};
use crate::maze::{Maze, side_bit, origin, row_sum, grid_sum, east_south, passage_weight,
    visited_weight, unvisited_weight};

verus! {

/// Setting one side bit of a mask: the facts about single bits that
/// carving relies on.
pub proof fn lemma_set_bit(m: u8, a: u8, b: u8)
    by (bit_vector)
    requires
        a == 1 || a == 2 || a == 4 || a == 8,
        b == 1 || b == 2 || b == 4 || b == 8,
    ensures
        ((m | a) & b != 0) == ((m & b != 0) || a == b),
        (0u8 & b) == 0,
        (0u8 | a) == a,
        (m | a) != 0,
{
}

pub proof fn lemma_side_bit_injective(d: Direction, e: Direction)
    ensures
        (side_bit(d) == side_bit(e)) == (d == e),
        side_bit(d) == 1 || side_bit(d) == 2 || side_bit(d) == 4 || side_bit(d) == 8,
{
}

/// Changing one entry of a row changes its sum by the change of that
/// entry's weight.
pub proof fn lemma_row_sum_point(
    row1: Seq<u8>,
    row2: Seq<u8>,
    r: int,
    n: int,
    c: int,
    f: spec_fn(u8, (int, int)) -> int,
)
    requires
        forall|j: int| 0 <= j < n && j != c ==> row1[j] == row2[j],
    ensures
        row_sum(row2, r, n, f) == row_sum(row1, r, n, f) + (if 0 <= c < n {
            f(row2[c], (r, c)) - f(row1[c], (r, c))
        } else {
            0
        }),
    decreases n,
{
    if n > 0 {
        lemma_row_sum_point(row1, row2, r, n - 1, c, f);
    }
}

/// Changing one mask changes a grid sum by the change of that cell's
/// weight.
pub proof fn lemma_grid_sum_point(
    g1: Seq<Seq<u8>>,
    g2: Seq<Seq<u8>>,
    n: int,
    x: (int, int),
    f: spec_fn(u8, (int, int)) -> int,
)
    requires
        g1.len() == g2.len(),
        0 <= n <= g1.len(),
        0 <= x.0 < g1.len(),
        0 <= x.1 < g1[x.0].len(),
        forall|i: int| 0 <= i < g1.len() ==> #[trigger] g2[i].len() == g1[i].len(),
        forall|i: int, j: int|
            0 <= i < g1.len() && 0 <= j < g1[i].len() && (i, j) != x ==> #[trigger] g2[i][j] == g1[i][j],
    ensures
        grid_sum(g2, n, f) == grid_sum(g1, n, f) + (if x.0 < n {
            f(g2[x.0][x.1], x) - f(g1[x.0][x.1], x)
        } else {
            0
        }),
    decreases n,
{
    if n > 0 {
        lemma_grid_sum_point(g1, g2, n - 1, x, f);
        let i = n - 1;
        let c = if i == x.0 { x.1 } else { -1 };
        assert forall|j: int| 0 <= j < g1[i].len() && j != c implies g1[i][j] == g2[i][j] by {
            assert((i, j) != x);
        }
        lemma_row_sum_point(g1[i], g2[i], i, g1[i].len() as int, c, f);
    }
}

/// A grid sum after two cells changed.
pub proof fn lemma_grid_sum_two_points(
    g1: Seq<Seq<u8>>,
    g2: Seq<Seq<u8>>,
    x: (int, int),
    y: (int, int),
    f: spec_fn(u8, (int, int)) -> int,
)
    requires
        g1.len() == g2.len(),
        0 <= x.0 < g1.len(),
        0 <= x.1 < g1[x.0].len(),
        0 <= y.0 < g1.len(),
        0 <= y.1 < g1[y.0].len(),
        x != y,
        forall|i: int| 0 <= i < g1.len() ==> #[trigger] g2[i].len() == g1[i].len(),
        forall|i: int, j: int|
            0 <= i < g1.len() && 0 <= j < g1[i].len() && (i, j) != x && (i, j) != y ==> #[trigger] g2[i][j]
                == g1[i][j],
    ensures
        grid_sum(g2, g1.len() as int, f) == grid_sum(g1, g1.len() as int, f) + f(g2[x.0][x.1], x) - f(
            g1[x.0][x.1],
            x,
        ) + f(g2[y.0][y.1], y) - f(g1[y.0][y.1], y),
{
    let mid = g1.update(x.0, g1[x.0].update(x.1, g2[x.0][x.1]));
    assert forall|i: int| 0 <= i < g1.len() implies #[trigger] mid[i].len() == g1[i].len() by {}
    assert forall|i: int, j: int|
        0 <= i < g1.len() && 0 <= j < g1[i].len() && (i, j) != x implies #[trigger] mid[i][j] == g1[i][j] by {
    }
    lemma_grid_sum_point(g1, mid, g1.len() as int, x, f);
    assert forall|i: int| 0 <= i < g1.len() implies #[trigger] g2[i].len() == mid[i].len() by {}
    assert forall|i: int, j: int|
        0 <= i < g1.len() && 0 <= j < mid[i].len() && (i, j) != y implies #[trigger] g2[i][j] == mid[i][j] by {
        assert(g2[i].len() == g1[i].len());
    }
    lemma_grid_sum_point(mid, g2, g1.len() as int, y, f);
}

pub proof fn lemma_row_sum_nonneg(row: Seq<u8>, r: int, n: int, f: spec_fn(u8, (int, int)) -> int)
    requires
        forall|m: u8, cell: (int, int)| #[trigger] f(m, cell) >= 0,
    ensures
        row_sum(row, r, n, f) >= 0,
    decreases n,
{
    if n > 0 {
        lemma_row_sum_nonneg(row, r, n - 1, f);
        assert(f(row[n - 1], (r, n - 1)) >= 0);
    }
}

pub proof fn lemma_grid_sum_nonneg(rows: Seq<Seq<u8>>, n: int, f: spec_fn(u8, (int, int)) -> int)
    requires
        forall|m: u8, cell: (int, int)| #[trigger] f(m, cell) >= 0,
    ensures
        grid_sum(rows, n, f) >= 0,
    decreases n,
{
    if n > 0 {
        lemma_grid_sum_nonneg(rows, n - 1, f);
        lemma_row_sum_nonneg(rows[n - 1], n - 1, rows[n - 1].len() as int, f);
    }
}

/// A row whose weights are 1 on its first `k` cells and 0 elsewhere.
pub proof fn lemma_row_sum_prefix(row: Seq<u8>, r: int, n: int, k: int, f: spec_fn(u8, (int, int)) -> int)
    requires
        0 <= k,
        forall|j: int| 0 <= j < n ==> f(row[j], (r, j)) == if j < k { 1int } else { 0int },
    ensures
        row_sum(row, r, n, f) == if n <= 0 { 0 } else if n < k { n } else { k },
    decreases n,
{
    if n > 0 {
        lemma_row_sum_prefix(row, r, n - 1, k, f);
    }
}

/// A grid whose weights are 1 on the carved region and 0 elsewhere.
pub proof fn lemma_grid_sum_region(m: Maze, n: int, f: spec_fn(u8, (int, int)) -> int)
    requires
        m.shaped(),
        m.width >= 1,
        m.height >= 1,
        0 <= n <= m.height,
        forall|cell: (int, int)|
            m.in_bounds(cell) ==> f(m.mask(cell), cell) == if m.in_carved(cell) { 1int } else { 0int },
    ensures
        grid_sum(m.cells(), n, f) == if n < m.height {
            n * (m.width - 1)
        } else {
            (m.height - 1) * (m.width - 1)
        },
    decreases n,
{
    if n > 0 {
        let i = n - 1;
        lemma_grid_sum_region(m, n - 1, f);
        let k = if i < m.height - 1 { m.width - 1 } else { 0 };
        assert(m.cells()[i] == m.grid@[i]@);
        assert forall|j: int| 0 <= j < m.width implies f(m.cells()[i][j], (i, j)) == if j < k { 1int } else { 0int } by {
            assert(m.in_bounds((i, j)));
        }
        assert(m.grid@[i]@.len() == m.width);
        lemma_row_sum_prefix(m.cells()[i], i, m.width as int, k, f);
        assert(row_sum(m.cells()[i], i, m.width as int, f) == k);
        assert(grid_sum(m.cells(), n, f) == grid_sum(m.cells(), n - 1, f) + k);
        let w = m.width - 1;
        if n < m.height {
            assert((n - 1) * w + w == n * w) by (nonlinear_arith);
        } else {
            assert(grid_sum(m.cells(), n - 1, f) == (m.height - 1) * w);
        }
    } else {
        assert(0 * (m.width - 1) == 0);
    }
}

/// A grid sum whose weights vanish everywhere but at `x`.
pub proof fn lemma_grid_sum_single(g: Seq<Seq<u8>>, n: int, x: (int, int), f: spec_fn(u8, (int, int)) -> int)
    requires
        0 <= n <= g.len(),
        forall|i: int, j: int|
            0 <= i < g.len() && 0 <= j < g[i].len() && (i, j) != x ==> f(#[trigger] g[i][j], (i, j)) == 0,
    ensures
        grid_sum(g, n, f) == if 0 <= x.0 < n && 0 <= x.1 < g[x.0].len() {
            f(g[x.0][x.1], x)
        } else {
            0
        },
    decreases n,
{
    if n > 0 {
        lemma_grid_sum_single(g, n - 1, x, f);
        lemma_row_sum_single(g[n - 1], n - 1, g[n - 1].len() as int, x, f);
    }
}

proof fn lemma_row_sum_single(row: Seq<u8>, r: int, n: int, x: (int, int), f: spec_fn(u8, (int, int)) -> int)
    requires
        n <= row.len(),
        forall|j: int| 0 <= j < row.len() && (r, j) != x ==> f(#[trigger] row[j], (r, j)) == 0,
    ensures
        row_sum(row, r, n, f) == if r == x.0 && 0 <= x.1 < n {
            f(row[x.1], x)
        } else {
            0
        },
    decreases n,
{
    if n > 0 {
        lemma_row_sum_single(row, r, n - 1, x, f);
    }
}

/// A walk along open passages stays one when passages are only added.
pub proof fn lemma_path_grows(m1: Maze, m2: Maze, p: Seq<(int, int)>)
    requires
        m1.is_path(p),
        forall|cell: (int, int), d: Direction| m1.is_open(cell, d) ==> m2.is_open(cell, d),
    ensures
        m2.is_path(p),
{
    assert forall|k: int| 0 <= k < p.len() - 1 implies #[trigger] m2.linked(p[k], p[k + 1]) by {
        assert(m1.linked(p[k], p[k + 1]));
    }
}

/// An open side links a cell to its neighbour.
pub proof fn lemma_open_links(m: Maze, a: (int, int), d: Direction)
    requires
        m.is_open(a, d),
    ensures
        m.linked(a, step(a, d)),
{
    match d {
        Direction::North => {},
        Direction::East => {},
        Direction::South => {},
        Direction::West => {},
    }
}

/// `m2` is `m1` after carving the passage from the visited cell `x`
/// towards its unvisited neighbour in direction `d`.
pub open spec fn carve_step(m1: Maze, m2: Maze, x: (int, int), d: Direction) -> bool {
    &&& m1.shaped()
    &&& m2.shaped()
    &&& m1.width == m2.width
    &&& m1.height == m2.height
    &&& m1.width >= 2
    &&& m1.height >= 2
    &&& m1.symmetric()
    &&& m1.border_walled()
    &&& m1.in_carved(x)
    &&& m1.mask(x) != 0 || x == origin()
    &&& m1.in_carved(step(x, d))
    &&& m1.mask(step(x, d)) == 0
    &&& step(x, d) != origin()
    &&& m2.mask(x) == m1.mask(x) | side_bit(d)
    &&& m2.mask(step(x, d)) == side_bit(opposite_of(d))
    &&& forall|cell: (int, int)|
        m1.in_bounds(cell) && cell != x && cell != step(x, d) ==> #[trigger] m2.mask(cell) == m1.mask(cell)
}

/// The open sides after carving: those before, and the two of the new
/// passage.
pub proof fn lemma_carve_open(m1: Maze, m2: Maze, x: (int, int), d: Direction)
    requires
        carve_step(m1, m2, x, d),
    ensures
        !m1.is_open(x, d),
        forall|cell: (int, int), e: Direction|
            #[trigger] m2.is_open(cell, e) == (m1.is_open(cell, e) || (cell == x && e == d) || (cell
                == step(x, d) && e == opposite_of(d))),
{
    reveal(Maze::symmetric);
    let y = step(x, d);
    let od = opposite_of(d);
    lemma_side_bit_injective(d, od);
    assert(!m1.is_open(x, d)) by {
        if m1.is_open(x, d) {
            assert(m1.is_open(y, od));
            lemma_set_bit(0, side_bit(d), side_bit(od));
        }
    }
    assert forall|cell: (int, int), e: Direction| #[trigger] m2.is_open(cell, e) == (m1.is_open(cell, e) || (
    cell == x && e == d) || (cell == y && e == od)) by {
        lemma_side_bit_injective(d, e);
        lemma_side_bit_injective(od, e);
        if cell == x {
            lemma_set_bit(m1.mask(x), side_bit(d), side_bit(e));
        } else if cell == y {
            lemma_set_bit(0, side_bit(od), side_bit(e));
        } else if m1.in_bounds(cell) {
            assert(m2.mask(cell) == m1.mask(cell));
        }
    }
}

/// Carving keeps the maze symmetric and its border walled, only adds open
/// sides, and visits exactly one more cell.
pub proof fn lemma_carve_shape(m1: Maze, m2: Maze, x: (int, int), d: Direction)
    requires
        carve_step(m1, m2, x, d),
    ensures
        forall|cell: (int, int), e: Direction| m1.is_open(cell, e) ==> m2.is_open(cell, e),
        m2.symmetric(),
        m2.border_walled(),
        forall|cell: (int, int)| #[trigger] m2.visited(cell) == (m1.visited(cell) || cell == step(x, d)),
{
    reveal(Maze::symmetric);
    let y = step(x, d);
    let od = opposite_of(d);
    lemma_carve_open(m1, m2, x, d);
    assert forall|cell: (int, int), e: Direction| #[trigger] m2.is_open(cell, e) implies {
        &&& m2.in_carved(cell)
        &&& m2.in_carved(step(cell, e))
        &&& m2.is_open(step(cell, e), opposite_of(e))
    } by {
        if m1.is_open(cell, e) {
            assert(m2.is_open(step(cell, e), opposite_of(e)) == (m1.is_open(step(cell, e), opposite_of(e)) || (
            step(cell, e) == x && opposite_of(e) == d) || (step(cell, e) == y && opposite_of(e) == od)));
        } else if cell == x && e == d {
            assert(m2.is_open(y, od) == (m1.is_open(y, od) || (y == x && od == d) || (y == y && od == od)));
        } else {
            assert(step(y, od) == x);
            assert(m2.is_open(x, d) == (m1.is_open(x, d) || (x == x && d == d) || (x == y && d == od)));
        }
    }
    assert forall|cell: (int, int)| m2.in_bounds(cell) && !m2.in_carved(cell) implies #[trigger] m2.mask(cell)
        == 0 by {
        assert(m1.mask(cell) == 0);
    }
    assert forall|cell: (int, int)| #[trigger] m2.visited(cell) == (m1.visited(cell) || cell == step(x, d)) by {
        if !m1.in_bounds(cell) {
        } else if cell == x {
            lemma_side_bit_injective(d, d);
            lemma_set_bit(m1.mask(x), side_bit(d), side_bit(d));
        } else if cell == y {
            lemma_side_bit_injective(od, od);
            lemma_set_bit(0, side_bit(od), side_bit(od));
        } else {
            assert(m2.mask(cell) == m1.mask(cell));
        }
    }
}

/// After carving, every visited cell can still be reached from the origin.
pub proof fn lemma_carve_reach(m1: Maze, m2: Maze, x: (int, int), d: Direction)
    requires
        carve_step(m1, m2, x, d),
        forall|cell: (int, int)| #[trigger] m1.visited(cell) ==> m1.reachable(cell),
    ensures
        forall|cell: (int, int)| #[trigger] m2.visited(cell) ==> m2.reachable(cell),
{
    let y = step(x, d);
    let od = opposite_of(d);
    lemma_carve_shape(m1, m2, x, d);
    lemma_carve_open(m1, m2, x, d);
    assert(m1.visited(x));
    assert(m1.reachable(x));
    let px = choose|p: Seq<(int, int)>| #[trigger] m1.is_path(p) && p[0] == origin() && p.last() == x;
    lemma_path_grows(m1, m2, px);
    let py = px.push(y);
    assert(m2.is_open(x, d) == (m1.is_open(x, d) || (x == x && d == d) || (x == y && d == od)));
    lemma_open_links(m2, x, d);
    assert forall|k: int| 0 <= k < py.len() - 1 implies #[trigger] m2.linked(py[k], py[k + 1]) by {
        if k < py.len() - 2 {
            assert(py[k] == px[k]);
            assert(py[k + 1] == px[k + 1]);
            assert(m2.linked(px[k], px[k + 1]));
        }
    }
    assert(m2.is_path(py));
    assert forall|cell: (int, int)| #[trigger] m2.visited(cell) implies m2.reachable(cell) by {
        if cell == y {
            assert(py[0] == origin() && py.last() == y);
        } else {
            assert(m1.visited(cell));
            assert(m1.reachable(cell));
            let p = choose|p: Seq<(int, int)>| #[trigger] m1.is_path(p) && p[0] == origin() && p.last() == cell;
            lemma_path_grows(m1, m2, p);
            assert(m2.is_path(p) && p[0] == origin() && p.last() == cell);
        }
    }
}

/// Carving adds one passage and one visited cell.
pub proof fn lemma_carve_counts(m1: Maze, m2: Maze, x: (int, int), d: Direction)
    requires
        carve_step(m1, m2, x, d),
    ensures
        m2.passage_count() == m1.passage_count() + 1,
        grid_sum(m2.cells(), m2.height as int, visited_weight()) == grid_sum(
            m1.cells(),
            m1.height as int,
            visited_weight(),
        ) + 1,
        grid_sum(m2.cells(), m2.height as int, unvisited_weight()) == grid_sum(
            m1.cells(),
            m1.height as int,
            unvisited_weight(),
        ) - 1,
{
    let y = step(x, d);
    let od = opposite_of(d);
    lemma_carve_open(m1, m2, x, d);
    lemma_set_bit(m1.mask(x), side_bit(d), side_bit(Direction::East));
    lemma_set_bit(m1.mask(x), side_bit(d), side_bit(Direction::South));
    lemma_set_bit(0, side_bit(od), side_bit(Direction::East));
    lemma_set_bit(0, side_bit(od), side_bit(Direction::South));
    lemma_set_bit(0, side_bit(od), side_bit(od));
    lemma_side_bit_injective(d, Direction::East);
    lemma_side_bit_injective(d, Direction::South);
    lemma_side_bit_injective(od, Direction::East);
    lemma_side_bit_injective(od, Direction::South);
    lemma_side_bit_injective(d, od);
    assert(!(m1.mask(x) & side_bit(d) != 0));
    assert(east_south(m2.mask(x)) + east_south(m2.mask(y)) == east_south(m1.mask(x)) + east_south(m1.mask(y)) + 1);
    assert(m2.mask(y) != 0);
    let g1 = m1.cells();
    let g2 = m2.cells();
    assert forall|i: int| 0 <= i < g1.len() implies #[trigger] g2[i].len() == g1[i].len() by {
        assert(g1[i] == m1.grid@[i]@);
        assert(g2[i] == m2.grid@[i]@);
    }
    assert forall|i: int, j: int|
        0 <= i < g1.len() && 0 <= j < g1[i].len() && (i, j) != x && (i, j) != y implies #[trigger] g2[i][j]
            == g1[i][j] by {
        assert(g1[i] == m1.grid@[i]@);
        assert(g2[i] == m2.grid@[i]@);
        assert(m1.in_bounds((i, j)));
        assert(m2.mask((i, j)) == m1.mask((i, j)));
    }
    assert(g1[x.0] == m1.grid@[x.0]@);
    assert(g2[x.0] == m2.grid@[x.0]@);
    assert(g1[y.0] == m1.grid@[y.0]@);
    assert(g2[y.0] == m2.grid@[y.0]@);
    lemma_grid_sum_two_points(g1, g2, x, y, passage_weight());
    lemma_grid_sum_two_points(g1, g2, x, y, visited_weight());
    lemma_grid_sum_two_points(g1, g2, x, y, unvisited_weight());
}

/// `depth` labels the cells so that every passage joins cells one level
/// apart and every cell has at most one neighbour a level up: the labels of
/// a tree rooted at the origin.
pub open spec fn depth_ok(m: Maze, depth: spec_fn((int, int)) -> int) -> bool {
    &&& forall|a: (int, int), d: Direction|
        #[trigger] m.is_open(a, d) ==> depth(step(a, d)) == depth(a) + 1 || depth(step(a, d)) == depth(a) - 1
    &&& forall|a: (int, int), d1: Direction, d2: Direction|
        #[trigger] m.is_open(a, d1) && #[trigger] m.is_open(a, d2) && depth(step(a, d1)) == depth(a) - 1 && depth(
            step(a, d2),
        ) == depth(a) - 1 ==> d1 == d2
}

/// Carving extends a tree labelling: the new cell lies one level below the
/// cell it was carved from.
pub proof fn lemma_carve_depth(
    m1: Maze,
    m2: Maze,
    x: (int, int),
    d: Direction,
    depth: spec_fn((int, int)) -> int,
) -> (depth2: spec_fn((int, int)) -> int)
    requires
        carve_step(m1, m2, x, d),
        depth_ok(m1, depth),
    ensures
        depth_ok(m2, depth2),
{
    reveal(Maze::symmetric);
    let y = step(x, d);
    let od = opposite_of(d);
    let depth2 = |c: (int, int)| if c == y { depth(x) + 1 } else { depth(c) };
    lemma_carve_open(m1, m2, x, d);
    lemma_set_bit(0, side_bit(od), side_bit(od));
    lemma_side_bit_injective(od, od);
    // no passage of the old maze touches y
    assert forall|a: (int, int), e: Direction| m1.is_open(a, e) implies a != y && step(a, e) != y by {
        lemma_side_bit_injective(e, e);
        lemma_side_bit_injective(opposite_of(e), opposite_of(e));
        lemma_set_bit(0, side_bit(e), side_bit(e));
        lemma_set_bit(0, side_bit(opposite_of(e)), side_bit(opposite_of(e)));
        assert(m1.is_open(step(a, e), opposite_of(e)));
    }
    assert(step(y, od) == x);
    assert forall|a: (int, int), e: Direction| #[trigger] m2.is_open(a, e) implies depth2(step(a, e)) == depth2(a)
        + 1 || depth2(step(a, e)) == depth2(a) - 1 by {
        if m1.is_open(a, e) {
            assert(m1.is_open(a, e) ==> depth(step(a, e)) == depth(a) + 1 || depth(step(a, e)) == depth(a) - 1);
        }
    }
    assert forall|a: (int, int), d1: Direction, d2: Direction|
        #[trigger] m2.is_open(a, d1) && #[trigger] m2.is_open(a, d2) && depth2(step(a, d1)) == depth2(a) - 1
            && depth2(step(a, d2)) == depth2(a) - 1 implies d1 == d2 by {
        if a == y {
            assert(!m1.is_open(y, d1));
            assert(!m1.is_open(y, d2));
        } else if m1.is_open(a, d1) && m1.is_open(a, d2) {
            assert(m1.is_open(a, d1) && m1.is_open(a, d2) && depth(step(a, d1)) == depth(a) - 1 && depth(
                step(a, d2),
            ) == depth(a) - 1 ==> d1 == d2);
        }
    }
    depth2
}

/// Among the first `n` cells of `p`, one of greatest depth.
proof fn lemma_deepest(p: Seq<(int, int)>, n: int, depth: spec_fn((int, int)) -> int) -> (k: int)
    requires
        1 <= n <= p.len(),
    ensures
        0 <= k < n,
        forall|j: int| 0 <= j < n ==> depth(#[trigger] p[j]) <= depth(p[k]),
    decreases n,
{
    if n == 1 {
        0
    } else {
        let k = lemma_deepest(p, n - 1, depth);
        if depth(p[n - 1]) > depth(p[k]) {
            n - 1
        } else {
            k
        }
    }
}

/// A symmetric maze with a tree labelling has no cycle: on a cycle, both
/// neighbours of a deepest cell would be its one neighbour a level up.
pub proof fn lemma_no_cycle(m: Maze, depth: spec_fn((int, int)) -> int)
    requires
        m.symmetric(),
        depth_ok(m, depth),
    ensures
        m.acyclic(),
{
    assert forall|p: Seq<(int, int)>| !#[trigger] m.is_cycle(p) by {
        if m.is_cycle(p) {
            let n = p.len() - 1;
            let k = lemma_deepest(p, n, depth);
            let prev = if k == 0 { p[n - 1] } else { p[k - 1] };
            let next = p[k + 1];
            assert(m.linked(p[k], next));
            assert(m.linked(prev, p[k])) by {
                if k == 0 {
                    assert(m.linked(p[n - 1], p[n - 1 + 1]));
                } else {
                    assert(m.linked(p[k - 1], p[k - 1 + 1]));
                }
            }
            let d1 = choose_link(m, p[k], next);
            let e = choose_link(m, prev, p[k]);
            m.lemma_open_side(prev, e);
            let d2 = opposite_of(e);
            assert(step(p[k], d2) == prev);
            assert(depth(next) <= depth(p[k])) by {
                if k + 1 < n {
                } else {
                    assert(p[k + 1] == p[0]);
                }
            }
            assert(depth(prev) <= depth(p[k]));
            assert(d1 == d2);
            if k == 0 {
                assert(p[1] != p[p.len() - 2]);
            } else {
                assert(p[k - 1 + 2] != p[k - 1]);
            }
        }
    }
}

/// The direction of the open side that links `a` to `b`.
proof fn choose_link(m: Maze, a: (int, int), b: (int, int)) -> (d: Direction)
    requires
        m.linked(a, b),
    ensures
        m.is_open(a, d),
        b == step(a, d),
{
    if m.is_open(a, Direction::North) && b == step(a, Direction::North) {
        Direction::North
    } else if m.is_open(a, Direction::East) && b == step(a, Direction::East) {
        Direction::East
    } else if m.is_open(a, Direction::South) && b == step(a, Direction::South) {
        Direction::South
    } else {
        Direction::West
    }
}

} // verus!
