//! The grid: lattice geometry and the wall or passage state of every border.

use vstd::prelude::*;

use crate::maze::coordinate::Coordinate;

verus! {

/// The state of the border between two adjacent cells.
#[derive(Clone, Copy, Debug, PartialEq, Eq, Structural)]
pub enum Border {
    Wall,
    Passage,
}

/// The validity state of a grid. A grid stays `Uninitialized`; the other
/// states are kept for a later validation step.
#[derive(Clone, Copy, Debug, PartialEq, Eq, Structural)]
pub enum State {
    Valid,
    Uninitialized,
    InvalidWidthHeight,
    NoPaths,
}

/// The direction in which the border between two adjacent cells runs:
/// `Horizontal` between two cells of one column, `Vertical` between two cells
/// of one row.
#[derive(Clone, Copy, Debug, PartialEq, Eq, Structural)]
pub enum HorizontalVertical {
    Horizontal,
    Vertical,
}

/// Why a grid could not be built.
#[derive(Clone, Copy, Debug, PartialEq, Eq, Structural)]
pub enum GridError {
    /// The width or the height asked for was zero.
    InvalidDimensions,
}

/// A cell of the grid, identified by its coordinate.
#[derive(Debug, PartialEq, Eq, Structural)]
pub struct Cell {
    coordinate: Coordinate,
}

impl View for Cell {
    type V = Coordinate;

    closed spec fn view(&self) -> Coordinate {
        self.coordinate
    }
}

impl Cell {
    /// The cell at `coordinate`.
    pub fn new(coordinate: Coordinate) -> (cell: Cell)
        ensures
            cell@ == coordinate,
    {
        Cell { coordinate }
    }

    /// A cell is identified by its coordinate: two cells of one coordinate are
    /// the same cell.
    pub proof fn lemma_identified_by_coordinate(a: Cell, b: Cell)
        requires
            a@ == b@,
        ensures
            a == b,
    {
    }

    /// The coordinate that identifies this cell.
    pub fn coordinate(&self) -> (coordinate: Coordinate)
        ensures
            coordinate == self@,
    {
        self.coordinate
    }
}

/// The direction of the border between `current` and `last`, if the two are
/// one lattice step apart along a single axis.
pub open spec fn orientation(current: Coordinate, last: Coordinate) -> Option<HorizontalVertical> {
    if current.0 == last.0 && (current.1 + 1 == last.1 || last.1 + 1 == current.1) {
        Some(HorizontalVertical::Horizontal)
    } else if current.1 == last.1 && (current.0 + 1 == last.0 || last.0 + 1 == current.0) {
        Some(HorizontalVertical::Vertical)
    } else {
        None
    }
}

/// The larger of two numbers.
pub open spec fn larger(a: usize, b: usize) -> usize {
    if a >= b {
        a
    } else {
        b
    }
}

/// What a grid is: its dimensions, its validity state, and the keys of the
/// borders that are passages. Every other border is a wall.
///
/// A horizontal border is keyed by the cell below it: key `(x, y)` stands for
/// the border between `(x, y - 1)` and `(x, y)`. A vertical border is keyed by
/// the cell to its right: key `(x, y)` stands for the border between
/// `(x - 1, y)` and `(x, y)`.
pub struct GridView {
    pub width: nat,
    pub height: nat,
    pub horizontal: Set<Coordinate>,
    pub vertical: Set<Coordinate>,
    pub state: State,
}

impl GridView {
    /// Whether `c` names a cell of the grid.
    pub open spec fn on_grid(self, c: Coordinate) -> bool {
        c.0 < self.width && c.1 < self.height
    }

    /// Whether `key` names a horizontal border inside the grid.
    pub open spec fn horizontal_key(self, key: Coordinate) -> bool {
        self.on_grid(key) && key.1 >= 1
    }

    /// Whether `key` names a vertical border inside the grid.
    pub open spec fn vertical_key(self, key: Coordinate) -> bool {
        self.on_grid(key) && key.0 >= 1
    }

    /// The dimensions are positive, the cells can be counted in a machine
    /// word, and no border outside the grid is marked.
    pub open spec fn valid(self) -> bool {
        &&& self.width >= 1
        &&& self.height >= 1
        &&& self.width * self.height <= usize::MAX
        &&& self.horizontal.finite()
        &&& self.vertical.finite()
        &&& forall|key: Coordinate| #[trigger]
            self.horizontal.contains(key) ==> self.horizontal_key(key)
        &&& forall|key: Coordinate| #[trigger] self.vertical.contains(key) ==> self.vertical_key(key)
    }

    /// In a valid grid each dimension fits a machine word.
    pub proof fn lemma_dimensions_fit(self)
        requires
            self.valid(),
        ensures
            self.width <= usize::MAX,
            self.height <= usize::MAX,
    {
        assert(self.width <= self.width * self.height) by (nonlinear_arith)
            requires
                self.height >= 1,
        ;
        assert(self.height <= self.width * self.height) by (nonlinear_arith)
            requires
                self.width >= 1,
        ;
    }

    /// The state of the horizontal border at `key`; a wall unless marked.
    pub open spec fn horizontal_border(self, key: Coordinate) -> Border {
        if self.horizontal.contains(key) {
            Border::Passage
        } else {
            Border::Wall
        }
    }

    /// The state of the vertical border at `key`; a wall unless marked.
    pub open spec fn vertical_border(self, key: Coordinate) -> Border {
        if self.vertical.contains(key) {
            Border::Passage
        } else {
            Border::Wall
        }
    }

    /// Whether every border is a wall.
    pub open spec fn all_walls(self) -> bool {
        self.horizontal == Set::<Coordinate>::empty() && self.vertical == Set::<Coordinate>::empty()
    }

    /// The number of borders that are passages.
    pub open spec fn passage_count(self) -> nat {
        self.horizontal.len() + self.vertical.len()
    }

    /// The grid after the border between `current` and `last` has been opened.
    /// Two cells of one column share the horizontal border keyed by the lower
    /// of them, two cells of one row the vertical border keyed by the right
    /// one. Any other pair, and any pair with a coordinate off the grid,
    /// leaves the grid as it is.
    pub open spec fn open(self, current: Coordinate, last: Coordinate) -> GridView {
        if !self.on_grid(current) || !self.on_grid(last) {
            self
        } else {
            match orientation(current, last) {
                Some(HorizontalVertical::Horizontal) => GridView {
                    horizontal: self.horizontal.insert(
                        Coordinate(last.0, larger(current.1, last.1)),
                    ),
                    ..self
                },
                Some(HorizontalVertical::Vertical) => GridView {
                    vertical: self.vertical.insert(Coordinate(larger(current.0, last.0), last.1)),
                    ..self
                },
                None => self,
            }
        }
    }

    /// The neighbours of `c` that lie on the grid: west, north, east, south.
    pub open spec fn neighbors_of(self, c: Coordinate) -> Seq<Coordinate> {
        c.spec_neighbors().filter(|n: Coordinate| self.on_grid(n))
    }

    /// The neighbours of a cell on the grid are the cells of the grid that are
    /// adjacent to it.
    pub proof fn lemma_neighbors_of(self, c: Coordinate, n: Coordinate)
        ensures
            self.neighbors_of(c).contains(n) <==> self.on_grid(n) && c.adjacent(n),
    {
        let around = c.spec_neighbors();
        let inside = |n: Coordinate| self.on_grid(n);
        c.lemma_neighbors_adjacent(n);
        if around.filter(inside).contains(n) {
            around.lemma_filter_contains_rev(inside, n);
            let i = choose|i: int| 0 <= i < around.filter(inside).len() && around.filter(inside)[i] == n;
            around.lemma_filter_pred(inside, i);
        }
        if self.on_grid(n) && around.contains(n) {
            let i = choose|i: int| 0 <= i < around.len() && around[i] == n;
            around.lemma_filter_contains(inside, i);
        }
    }
}

/// The place of cell `(x, y)` in a row-major table of rows `width` wide.
pub open spec fn slot(width: int, x: int, y: int) -> int {
    y * width + x
}

/// Every cell of a `width` by `height` grid has a place in a table of
/// `width * height` entries.
pub proof fn lemma_slot_bound(width: int, height: int, x: int, y: int)
    requires
        0 <= x < width,
        0 <= y < height,
    ensures
        0 <= y * width <= slot(width, x, y) < width * height,
        width * height == height * width,
{
    assert(0 <= y * width) by (nonlinear_arith)
        requires
            0 <= y,
            0 <= width,
    ;
    assert((y + 1) * width <= height * width) by (nonlinear_arith)
        requires
            y + 1 <= height,
            0 <= width,
    ;
    assert((y + 1) * width == y * width + width) by (nonlinear_arith);
}

/// Two cells with the same place in the table are the same cell.
pub proof fn lemma_slot_injective(width: int, x1: int, y1: int, x2: int, y2: int)
    requires
        0 <= x1 < width,
        0 <= x2 < width,
        0 <= y1,
        0 <= y2,
        slot(width, x1, y1) == slot(width, x2, y2),
    ensures
        x1 == x2,
        y1 == y2,
{
    if y1 < y2 {
        assert((y1 + 1) * width <= y2 * width) by (nonlinear_arith)
            requires
                y1 + 1 <= y2,
                0 <= width,
        ;
        assert((y1 + 1) * width == y1 * width + width) by (nonlinear_arith);
    } else if y2 < y1 {
        assert((y2 + 1) * width <= y1 * width) by (nonlinear_arith)
            requires
                y2 + 1 <= y1,
                0 <= width,
        ;
        assert((y2 + 1) * width == y2 * width + width) by (nonlinear_arith);
    }
}

/// A rectangular grid of cells and the state of the borders between them.
#[derive(Debug)]
pub struct Grid {
    width: usize,
    height: usize,
    cells: Vec<Cell>,
    borders_h: Vec<Border>,
    borders_v: Vec<Border>,
    state: State,
}

impl View for Grid {
    type V = GridView;

    closed spec fn view(&self) -> GridView {
        GridView {
            width: self.width as nat,
            height: self.height as nat,
            horizontal: Set::new(
                |key: Coordinate|
                    key.0 < self.width && key.1 < self.height && self.borders_h@[slot(
                        self.width as int,
                        key.0 as int,
                        key.1 as int,
                    )] == Border::Passage,
            ),
            vertical: Set::new(
                |key: Coordinate|
                    key.0 < self.width && key.1 < self.height && self.borders_v@[slot(
                        self.width as int,
                        key.0 as int,
                        key.1 as int,
                    )] == Border::Passage,
            ),
            state: self.state,
        }
    }
}

impl Grid {
    /// The tables have one entry for each cell, and each cell sits at its own
    /// coordinate.
    pub closed spec fn stored(&self) -> bool {
        &&& self.cells@.len() == self.width * self.height
        &&& self.borders_h@.len() == self.width * self.height
        &&& self.borders_v@.len() == self.width * self.height
        &&& forall|x: int, y: int|
            0 <= x < self.width && 0 <= y < self.height ==> (#[trigger] self.cells@[slot(
                self.width as int,
                x,
                y,
            )])@ == Coordinate(x as usize, y as usize)
    }

    /// The grid is well formed: its tables are consistent and its state is a
    /// valid one.
    pub open spec fn wf(&self) -> bool {
        self.stored() && self@.valid()
    }

    /// The cell that the grid holds for `c`.
    pub closed spec fn cell_at(&self, c: Coordinate) -> Cell {
        self.cells@[slot(self.width as int, c.0 as int, c.1 as int)]
    }

    /// A well-formed grid holds, for each of its coordinates, the cell of that
    /// coordinate.
    pub proof fn lemma_cells(&self, c: Coordinate)
        requires
            self.wf(),
            self@.on_grid(c),
        ensures
            self.cell_at(c)@ == c,
    {
        assert(self.cells@[slot(self.width as int, c.0 as int, c.1 as int)]@ == Coordinate(
            c.0 as int as usize,
            c.1 as int as usize,
        ));
    }

    /// A grid of `width` by `height` cells in which every border is a wall.
    /// A width or height of zero is refused.
    pub fn new(width: usize, height: usize) -> (made: Result<Grid, GridError>)
        ensures
            made is Err <==> width == 0 || height == 0,
            made matches Err(e) ==> e == GridError::InvalidDimensions,
            made matches Ok(grid) ==> {
                &&& grid.wf()
                &&& grid@.width == width
                &&& grid@.height == height
                &&& grid@.all_walls()
                &&& grid@.state == State::Uninitialized
            },
    {
        if width == 0 || height == 0 {
            return Err(GridError::InvalidDimensions);
        }
        let mut cells: Vec<Cell> = Vec::new();
        let mut borders_h: Vec<Border> = Vec::new();
        let mut borders_v: Vec<Border> = Vec::new();
        let mut y: usize = 0;
        while y < height
            invariant
                0 < width,
                y <= height,
                cells@.len() == y * width,
                borders_h@.len() == y * width,
                borders_v@.len() == y * width,
                forall|i: int| 0 <= i < borders_h@.len() ==> borders_h@[i] == Border::Wall,
                forall|i: int| 0 <= i < borders_v@.len() ==> borders_v@[i] == Border::Wall,
                forall|cx: int, cy: int|
                    0 <= cx < width && 0 <= cy < y ==> (#[trigger] cells@[slot(
                        width as int,
                        cx,
                        cy,
                    )])@ == Coordinate(cx as usize, cy as usize),
            decreases height - y,
        {
            let mut x: usize = 0;
            while x < width
                invariant
                    0 < width,
                    y < height,
                    x <= width,
                    cells@.len() == y * width + x,
                    borders_h@.len() == y * width + x,
                    borders_v@.len() == y * width + x,
                    forall|i: int| 0 <= i < borders_h@.len() ==> borders_h@[i] == Border::Wall,
                    forall|i: int| 0 <= i < borders_v@.len() ==> borders_v@[i] == Border::Wall,
                    forall|cx: int, cy: int|
                        0 <= cx < width && 0 <= cy < y ==> (#[trigger] cells@[slot(
                            width as int,
                            cx,
                            cy,
                        )])@ == Coordinate(cx as usize, cy as usize),
                    forall|cx: int|
                        0 <= cx < x ==> (#[trigger] cells@[slot(width as int, cx, y as int)])@
                            == Coordinate(cx as usize, y),
                decreases width - x,
            {
                proof {
                    assert forall|cx: int, cy: int| 0 <= cx < width && 0 <= cy < y implies slot(
                        width as int,
                        cx,
                        cy,
                    ) < cells@.len() by {
                        lemma_slot_bound(width as int, y as int, cx, cy);
                    }
                }
                cells.push(Cell::new(Coordinate(x, y)));
                borders_h.push(Border::Wall);
                borders_v.push(Border::Wall);
                x = x + 1;
            }
            proof {
                assert((y + 1) * width == y * width + width) by (nonlinear_arith);
                assert forall|cx: int, cy: int| 0 <= cx < width && 0 <= cy < y + 1 implies (
                #[trigger] cells@[slot(width as int, cx, cy)])@ == Coordinate(
                    cx as usize,
                    cy as usize,
                ) by {
                    if cy == y {
                    }
                }
            }
            y = y + 1;
        }
        let total: usize = cells.len();
        let grid = Grid { width, height, cells, borders_h, borders_v, state: State::Uninitialized };
        proof {
            assert forall|key: Coordinate| !grid@.horizontal.contains(key) by {
                if key.0 < width && key.1 < height {
                    lemma_slot_bound(width as int, height as int, key.0 as int, key.1 as int);
                }
            }
            assert forall|key: Coordinate| !grid@.vertical.contains(key) by {
                if key.0 < width && key.1 < height {
                    lemma_slot_bound(width as int, height as int, key.0 as int, key.1 as int);
                }
            }
            assert(grid@.horizontal =~= Set::<Coordinate>::empty());
            assert(grid@.vertical =~= Set::<Coordinate>::empty());
        }
        Ok(grid)
    }

    /// The number of columns.
    pub fn width(&self) -> (width: usize)
        ensures
            width == self@.width,
    {
        self.width
    }

    /// The number of rows.
    pub fn height(&self) -> (height: usize)
        ensures
            height == self@.height,
    {
        self.height
    }

    /// The cell that the grid holds for `coordinate`, if that is a cell of the
    /// grid.
    pub fn cell(&self, coordinate: Coordinate) -> (found: Option<&Cell>)
        requires
            self.wf(),
        ensures
            found is Some <==> self@.on_grid(coordinate),
            found matches Some(cell) ==> *cell == self.cell_at(coordinate) && cell@ == coordinate,
    {
        if self.is_on_grid(coordinate) {
            proof {
                lemma_slot_bound(
                    self.width as int,
                    self.height as int,
                    coordinate.0 as int,
                    coordinate.1 as int,
                );
                self.lemma_cells(coordinate);
            }
            Some(&self.cells[coordinate.1 * self.width + coordinate.0])
        } else {
            None
        }
    }

    /// The validity state.
    pub fn state(&self) -> (state: State)
        ensures
            state == self@.state,
    {
        self.state
    }

    /// Whether `coordinate` names a cell of the grid.
    pub fn is_on_grid(&self, coordinate: Coordinate) -> (inside: bool)
        ensures
            inside == self@.on_grid(coordinate),
    {
        let Coordinate(x, y) = coordinate;
        x < self.width && y < self.height
    }

    /// The direction of the border between `current` and `last`, or `None`
    /// where the two are not one lattice step apart along a single axis.
    pub fn maybe_horizontal_or_vertical(&self, current: Coordinate, last: Coordinate) -> (found:
        Option<HorizontalVertical>)
        ensures
            found == orientation(current, last),
    {
        let one_row_apart: bool = (current.1 > last.1 && current.1 - last.1 == 1) || (last.1
            > current.1 && last.1 - current.1 == 1);
        let one_column_apart: bool = (current.0 > last.0 && current.0 - last.0 == 1) || (last.0
            > current.0 && last.0 - current.0 == 1);
        if current.0 == last.0 && one_row_apart {
            Some(HorizontalVertical::Horizontal)
        } else if current.1 == last.1 && one_column_apart {
            Some(HorizontalVertical::Vertical)
        } else {
            None
        }
    }

    /// The neighbours of `coordinate` that lie on the grid, in the order west,
    /// north, east, south.
    pub fn neighbors(&self, coordinate: &Coordinate) -> (found: Vec<Coordinate>)
        ensures
            found@ == self@.neighbors_of(*coordinate),
    {
        let around: Vec<Coordinate> = coordinate.neighbors();
        let mut found: Vec<Coordinate> = Vec::new();
        let ghost inside = |n: Coordinate| self@.on_grid(n);
        let mut i: usize = 0;
        proof {
            reveal(Seq::filter);
        }
        while i < around.len()
            invariant
                i <= around.len(),
                around@ == coordinate.spec_neighbors(),
                inside == |n: Coordinate| self@.on_grid(n),
                found@ == around@.take(i as int).filter(inside),
            decreases around.len() - i,
        {
            let candidate: Coordinate = around[i];
            proof {
                reveal(Seq::filter);
                assert(around@.take(i + 1).drop_last() =~= around@.take(i as int));
            }
            if self.is_on_grid(candidate) {
                found.push(candidate);
            }
            i = i + 1;
        }
        proof {
            assert(around@.take(i as int) =~= around@);
        }
        found
    }

    /// The state of the horizontal border keyed by `key`: the border between
    /// the cell `key` and the cell above it. A key that names no border inside
    /// the grid gives a wall.
    pub fn horizontal_border(&self, key: Coordinate) -> (border: Border)
        requires
            self.wf(),
        ensures
            border == self@.horizontal_border(key),
    {
        if self.is_on_grid(key) {
            proof {
                lemma_slot_bound(
                    self.width as int,
                    self.height as int,
                    key.0 as int,
                    key.1 as int,
                );
            }
            self.borders_h[key.1 * self.width + key.0]
        } else {
            Border::Wall
        }
    }

    /// The state of the vertical border keyed by `key`: the border between the
    /// cell `key` and the cell to its left. A key that names no border inside
    /// the grid gives a wall.
    pub fn vertical_border(&self, key: Coordinate) -> (border: Border)
        requires
            self.wf(),
        ensures
            border == self@.vertical_border(key),
    {
        if self.is_on_grid(key) {
            proof {
                lemma_slot_bound(
                    self.width as int,
                    self.height as int,
                    key.0 as int,
                    key.1 as int,
                );
            }
            self.borders_v[key.1 * self.width + key.0]
        } else {
            Border::Wall
        }
    }

    /// Opens the border between `current` and `last`. The two must be cells of
    /// the grid one lattice step apart along a single axis; for any other pair
    /// nothing changes.
    pub fn open_passage(&mut self, current: Coordinate, last: Coordinate)
        requires
            old(self).wf(),
        ensures
            final(self).wf(),
            final(self)@ == old(self)@.open(current, last),
            forall|c: Coordinate| final(self).cell_at(c) == old(self).cell_at(c),
            current == last ==> *final(self) == *old(self),
            current.0 != last.0 && current.1 != last.1 ==> *final(self) == *old(self),
            current.0 + 1 < last.0 || last.0 + 1 < current.0 ==> *final(self) == *old(self),
            current.1 + 1 < last.1 || last.1 + 1 < current.1 ==> *final(self) == *old(self),
            !current.adjacent(last) ==> *final(self) == *old(self),
            !old(self)@.on_grid(current) ==> *final(self) == *old(self),
            !old(self)@.on_grid(last) ==> *final(self) == *old(self),
    {
        if !self.is_on_grid(current) || !self.is_on_grid(last) {
            return;
        }
        match self.maybe_horizontal_or_vertical(current, last) {
            Some(HorizontalVertical::Horizontal) => {
                let row: usize = if current.1 >= last.1 {
                    current.1
                } else {
                    last.1
                };
                let key = Coordinate(last.0, row);
                proof {
                    lemma_slot_bound(
                        self.width as int,
                        self.height as int,
                        key.0 as int,
                        key.1 as int,
                    );
                }
                let at: usize = row * self.width + last.0;
                self.borders_h.set(at, Border::Passage);
                proof {
                    let w = self.width as int;
                    assert forall|k: Coordinate| #[trigger]
                        self@.horizontal.contains(k) <==> old(self)@.horizontal.insert(
                            key,
                        ).contains(k) by {
                        if k.0 < self.width && k.1 < self.height {
                            lemma_slot_bound(w, self.height as int, k.0 as int, k.1 as int);
                            if slot(w, k.0 as int, k.1 as int) == at {
                                lemma_slot_injective(
                                    w,
                                    k.0 as int,
                                    k.1 as int,
                                    key.0 as int,
                                    key.1 as int,
                                );
                            }
                        }
                    }
                    assert(self@.horizontal =~= old(self)@.horizontal.insert(key));
                }
            },
            Some(HorizontalVertical::Vertical) => {
                let column: usize = if current.0 >= last.0 {
                    current.0
                } else {
                    last.0
                };
                let key = Coordinate(column, last.1);
                proof {
                    lemma_slot_bound(
                        self.width as int,
                        self.height as int,
                        key.0 as int,
                        key.1 as int,
                    );
                }
                let at: usize = last.1 * self.width + column;
                self.borders_v.set(at, Border::Passage);
                proof {
                    let w = self.width as int;
                    assert forall|k: Coordinate| #[trigger]
                        self@.vertical.contains(k) <==> old(self)@.vertical.insert(key).contains(
                            k,
                        ) by {
                        if k.0 < self.width && k.1 < self.height {
                            lemma_slot_bound(w, self.height as int, k.0 as int, k.1 as int);
                            if slot(w, k.0 as int, k.1 as int) == at {
                                lemma_slot_injective(
                                    w,
                                    k.0 as int,
                                    k.1 as int,
                                    key.0 as int,
                                    key.1 as int,
                                );
                            }
                        }
                    }
                    assert(self@.vertical =~= old(self)@.vertical.insert(key));
                }
            },
            None => (),
        }
    }
}

} // verus!
