use vstd::prelude::*;
use crate::direction::Direction;
use crate::maze::Maze;

verus! {

/// The top line of a maze's text picture: a blank, then an underscore for
/// each character of the rows below but the last.
pub open spec fn top_line(width: int) -> Seq<char> {
    seq![' '] + Seq::new((2 * width - 3) as nat, |k: int| '_')
}

/// The two characters that draw cell `(r, c)`: its south side, then its
/// east side. An open east side shows as a blank when either cell it joins
/// is open to the south, else as an underscore.
pub open spec fn cell_picture(m: Maze, r: int, c: int) -> Seq<char> {
    let south = if m.is_open((r, c), Direction::South) {
        ' '
    } else {
        '_'
    };
    let east = if m.is_open((r, c), Direction::East) {
        if m.is_open((r, c), Direction::South) || m.is_open((r, c + 1), Direction::South) {
            ' '
        } else {
            '_'
        }
    } else {
        '|'
    };
    seq![south, east]
}

/// The left wall of row `r`, then its first `n` cells.
pub open spec fn row_picture(m: Maze, r: int, n: int) -> Seq<char>
    decreases n,
{
    if n <= 0 {
        seq!['|']
    } else {
        row_picture(m, r, n - 1) + cell_picture(m, r, n - 1)
    }
}

impl Maze {
    /// The carved region as text, one line per entry: the top line, then
    /// one line for each carved row.
    pub fn text_lines(&self) -> (r: Vec<Vec<char>>)
        requires
            self.wf(),
        ensures
            r@.len() == self.height,
            r@[0]@ == top_line(self.width as int),
            forall|k: int|
                1 <= k < self.height ==> (#[trigger] r@[k])@ == row_picture(
                    *self,
                    k - 1,
                    self.width - 1,
                ),
    {
        let mut lines: Vec<Vec<char>> = Vec::new();
        let mut top: Vec<char> = Vec::new();
        top.push(' ');
        top.push('_');
        let mut k: usize = 0;
        while k < self.width - 2
            invariant
                k <= self.width - 2,
                top@ == seq![' '] + Seq::new((2 * k + 1) as nat, |t: int| '_'),
            decreases self.width - 2 - k,
        {
            top.push('_');
            top.push('_');
            k = k + 1;
            assert(top@ =~= seq![' '] + Seq::new((2 * k + 1) as nat, |t: int| '_'));
        }
        lines.push(top);
        let mut i: usize = 0;
        while i < self.height - 1
            invariant
                self.wf(),
                i <= self.height - 1,
                lines@.len() == i + 1,
                lines@[0]@ == top_line(self.width as int),
                forall|t: int| 1 <= t <= i ==> (#[trigger] lines@[t])@ == row_picture(*self, t - 1, self.width - 1),
            decreases self.height - 1 - i,
        {
            let mut line: Vec<char> = Vec::new();
            line.push('|');
            let mut j: usize = 0;
            while j < self.width - 1
                invariant
                    self.wf(),
                    i < self.height - 1,
                    j <= self.width - 1,
                    line@ == row_picture(*self, i as int, j as int),
                decreases self.width - 1 - j,
            {
                let south_open = !self.south(i, j);
                line.push(if south_open {
                    ' '
                } else {
                    '_'
                });
                line.push(if !self.east(i, j) {
                    if south_open || !self.south(i, j + 1) {
                        ' '
                    } else {
                        '_'
                    }
                } else {
                    '|'
                });
                proof {
                    assert(line@ =~= row_picture(*self, i as int, j as int) + cell_picture(*self, i as int, j as int));
                }
                j = j + 1;
            }
            lines.push(line);
            i = i + 1;
        }
        lines
    }
}

} // verus!
