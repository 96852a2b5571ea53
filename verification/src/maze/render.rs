//! The text rendering of a grid: a fixed-width box diagram.

use vstd::prelude::*;
use vstd::string::StringExecFns;

use crate::maze::coordinate::Coordinate;
use crate::maze::grid::{Border, Grid, GridView};

verus! {

/// The text made of `lines`, each followed by a line feed.
pub open spec fn joined(lines: Seq<Seq<char>>) -> Seq<char>
    decreases lines.len(),
{
    if lines.len() == 0 {
        Seq::empty()
    } else {
        joined(lines.drop_last()) + lines.last().push('\n')
    }
}

/// Adding one line to the lines adds it, and its line feed, to the text.
pub proof fn lemma_joined_take(lines: Seq<Seq<char>>, n: int)
    requires
        0 <= n < lines.len(),
    ensures
        joined(lines.take(n + 1)) == joined(lines.take(n)) + lines[n].push('\n'),
{
    assert(lines.take(n + 1).drop_last() =~= lines.take(n));
}

/// The length of a text of `lines.len()` lines that are each `width` long.
pub proof fn lemma_joined_len(lines: Seq<Seq<char>>, width: int)
    requires
        forall|r: int| 0 <= r < lines.len() ==> (#[trigger] lines[r]).len() == width,
    ensures
        joined(lines).len() == lines.len() * (width + 1),
    decreases lines.len(),
{
    if lines.len() > 0 {
        lemma_joined_len(lines.drop_last(), width);
        assert(lines.len() * (width + 1) == (lines.len() - 1) * (width + 1) + (width + 1))
            by (nonlinear_arith);
    } else {
        assert(lines.len() * (width + 1) == 0) by (nonlinear_arith)
            requires
                lines.len() == 0,
        ;
    }
}

impl GridView {
    /// Whether the border on the east side of cell `(x, y)` is a passage.
    pub open spec fn east_open(self, x: int, y: int) -> bool {
        self.vertical.contains(Coordinate((x + 1) as usize, y as usize))
    }

    /// Whether the border on the south side of cell `(x, y)` is a passage.
    pub open spec fn south_open(self, x: int, y: int) -> bool {
        self.horizontal.contains(Coordinate(x as usize, (y + 1) as usize))
    }

    /// The line above the first row: a corner, then a full wall and a corner
    /// for every cell.
    pub open spec fn top_line(self) -> Seq<char> {
        Seq::new(
            4 * self.width + 1,
            |i: int|
                if i % 4 == 0 {
                    '+'
                } else {
                    '-'
                },
        )
    }

    /// The line that shows the cells of row `y`: the west wall of the grid,
    /// then for every cell a body of three spaces and its east border, `|` for
    /// a wall and a space for a passage.
    pub open spec fn cell_line(self, y: int) -> Seq<char> {
        Seq::new(
            4 * self.width + 1,
            |i: int|
                if i == 0 {
                    '|'
                } else if i % 4 == 0 && !self.east_open(i / 4 - 1, y) {
                    '|'
                } else {
                    ' '
                },
        )
    }

    /// The line below row `y`: a corner, then for every cell its south border,
    /// `---` for a wall and three spaces for a passage, and a corner.
    pub open spec fn wall_line(self, y: int) -> Seq<char> {
        Seq::new(
            4 * self.width + 1,
            |i: int|
                if i % 4 == 0 {
                    '+'
                } else if self.south_open(i / 4, y) {
                    ' '
                } else {
                    '-'
                },
        )
    }

    /// The lines of the rendering: the top line, then for every row its cell
    /// line and the line below it.
    pub open spec fn lines(self) -> Seq<Seq<char>> {
        Seq::new(
            2 * self.height + 1,
            |r: int|
                if r == 0 {
                    self.top_line()
                } else if r % 2 == 1 {
                    self.cell_line(r / 2)
                } else {
                    self.wall_line(r / 2 - 1)
                },
        )
    }

    /// The rendering: every line, each followed by a line feed.
    pub open spec fn text(self) -> Seq<char> {
        joined(self.lines())
    }

    /// The rendering has `2 * height + 1` lines of `4 * width + 1` characters
    /// each, none of which holds a line feed, and nothing else but the line
    /// feed that ends each line.
    pub proof fn lemma_text_shape(self)
        ensures
            self.text() == joined(self.lines()),
            self.lines().len() == 2 * self.height + 1,
            forall|r: int|
                0 <= r < self.lines().len() ==> (#[trigger] self.lines()[r]).len() == 4
                    * self.width + 1,
            forall|r: int, i: int|
                0 <= r < self.lines().len() && 0 <= i < 4 * self.width + 1
                    ==> #[trigger] self.lines()[r][i] != '\n',
            self.text().len() == (2 * self.height + 1) * (4 * self.width + 2),
    {
        lemma_joined_len(self.lines(), (4 * self.width + 1) as int);
    }

    /// In a valid grid the east border of the last column and the south border
    /// of the last row are never passages: they render as walls.
    pub proof fn lemma_outer_walls(self, x: int, y: int)
        requires
            self.valid(),
            0 <= x < self.width,
            0 <= y < self.height,
        ensures
            x == self.width - 1 ==> !self.east_open(x, y),
            y == self.height - 1 ==> !self.south_open(x, y),
    {
        self.lemma_dimensions_fit();
    }
}

/// Two grids in the same state have the same rendering: the text depends on
/// nothing but the dimensions and the borders.
pub proof fn lemma_text_deterministic(a: &Grid, b: &Grid)
    requires
        a@.width == b@.width,
        a@.height == b@.height,
        a@.horizontal == b@.horizontal,
        a@.vertical == b@.vertical,
    ensures
        a@.text() == b@.text(),
{
    assert forall|y: int| a@.cell_line(y) =~= b@.cell_line(y) by {}
    assert forall|y: int| a@.wall_line(y) =~= b@.wall_line(y) by {}
    assert(a@.lines() =~= b@.lines());
}

impl Grid {
    /// Renders the grid as a box diagram: a top wall line, then per row a line
    /// of cell bodies with their east borders and a line of south borders.
    /// Every line ends with a line feed. The grid is left as it is, so the
    /// same grid always renders to the same text.
    pub fn to_text(&self) -> (text: String)
        requires
            self.wf(),
        ensures
            text@ == self@.text(),
    {
        let width: usize = self.width();
        let height: usize = self.height();
        let ghost lines = self@.lines();
        let mut output: String = String::new();
        let mut top: String = String::from_str("+");
        proof {
            reveal_strlit("+");
        }
        let mut x: usize = 0;
        while x < width
            invariant
                x <= width,
                width == self@.width,
                top@ == self@.top_line().take(4 * x + 1),
            decreases width - x,
        {
            top.append("---+");
            proof {
                reveal_strlit("---+");
            }
            x = x + 1;
        }
        output.append(top.as_str());
        output.append("\n");
        proof {
            reveal_strlit("\n");
            lemma_joined_take(lines, 0);
        }
        let mut y: usize = 0;
        while y < height
            invariant
                self.wf(),
                y <= height,
                width == self@.width,
                height == self@.height,
                lines == self@.lines(),
                output@ == joined(lines.take(2 * y + 1)),
            decreases height - y,
        {
            let mut top: String = String::from_str("|");
            let mut bottom: String = String::from_str("+");
            proof {
                reveal_strlit("|");
                reveal_strlit("+");
            }
            let mut x: usize = 0;
            while x < width
                invariant
                    self.wf(),
                    x <= width,
                    y < height,
                    width == self@.width,
                    height == self@.height,
                    top@ == self@.cell_line(y as int).take(4 * x + 1),
                    bottom@ == self@.wall_line(y as int).take(4 * x + 1),
                decreases width - x,
            {
                let east_boundary: &str = match self.vertical_border(Coordinate(x + 1, y)) {
                    Border::Passage => " ",
                    Border::Wall => "|",
                };
                top.append("   ");
                top.append(east_boundary);
                let south_boundary: &str = match self.horizontal_border(Coordinate(x, y + 1)) {
                    Border::Passage => "   ",
                    Border::Wall => "---",
                };
                bottom.append(south_boundary);
                bottom.append("+");
                proof {
                    reveal_strlit("|");
                    reveal_strlit("+");
                    reveal_strlit(" ");
                    reveal_strlit("   ");
                    reveal_strlit("---");
                }
                x = x + 1;
            }
            output.append(top.as_str());
            output.append("\n");
            output.append(bottom.as_str());
            output.append("\n");
            proof {
                reveal_strlit("\n");
                lemma_joined_take(lines, 2 * y + 1);
                lemma_joined_take(lines, 2 * y + 2);
            }
            y = y + 1;
        }
        proof {
            assert(lines.take(2 * height + 1) =~= lines);
        }
        output
    }
}

} // verus!
