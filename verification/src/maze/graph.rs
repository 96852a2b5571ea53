//! The passages of a grid as a graph on its cells: links, walks, connectedness
//! and the absence of cycles.

use vstd::prelude::*;

use crate::maze::coordinate::Coordinate;
use crate::maze::grid::{larger, orientation, GridView, HorizontalVertical};

verus! {

/// The cells of a `width` by `height` grid that come before cell `(x, y)` in
/// row-major order.
pub open spec fn cells_before(width: nat, x: nat, y: nat) -> Set<Coordinate> {
    Set::new(|c: Coordinate| c.0 < width && (c.1 < y || (c.1 == y && c.0 < x)))
}

/// There are `y * width + x` cells before cell `(x, y)`.
pub proof fn lemma_cells_before(width: nat, x: nat, y: nat)
    requires
        x <= width <= usize::MAX,
        y <= usize::MAX,
    ensures
        cells_before(width, x, y).finite(),
        cells_before(width, x, y).len() == y * width + x,
    decreases y, x,
{
    if x == 0 {
        if y == 0 {
            assert(cells_before(width, x, y) =~= Set::<Coordinate>::empty());
            assert(y * width + x == 0) by (nonlinear_arith)
                requires
                    y == 0,
                    x == 0,
            ;
        } else {
            let above: nat = (y - 1) as nat;
            lemma_cells_before(width, width, above);
            assert(cells_before(width, x, y) =~= cells_before(width, width, above));
            assert(y * width + x == above * width + width) by (nonlinear_arith)
                requires
                    x == 0,
                    above == y - 1,
            ;
        }
    } else {
        let left: nat = (x - 1) as nat;
        lemma_cells_before(width, left, y);
        let c = Coordinate(left as usize, y as usize);
        assert(cells_before(width, x, y) =~= cells_before(width, left, y).insert(c));
    }
}

impl GridView {
    /// The set of all cells of the grid.
    pub open spec fn cells(self) -> Set<Coordinate> {
        Set::new(|c: Coordinate| self.on_grid(c))
    }

    /// A valid grid has `width * height` cells.
    pub proof fn lemma_cell_count(self)
        requires
            self.valid(),
        ensures
            self.cells().finite(),
            self.cells().len() == self.width * self.height,
    {
        self.lemma_dimensions_fit();
        lemma_cells_before(self.width, 0, self.height);
        assert(self.cells() =~= cells_before(self.width, 0, self.height));
    }

    /// Whether the border between the cells `a` and `b` is a passage.
    pub open spec fn linked(self, a: Coordinate, b: Coordinate) -> bool {
        &&& self.on_grid(a)
        &&& self.on_grid(b)
        &&& match orientation(a, b) {
            Some(HorizontalVertical::Horizontal) => self.horizontal.contains(
                Coordinate(b.0, larger(a.1, b.1)),
            ),
            Some(HorizontalVertical::Vertical) => self.vertical.contains(
                Coordinate(larger(a.0, b.0), b.1),
            ),
            None => false,
        }
    }

    /// Whether the step of `path` that leaves its cell number `i` goes through
    /// a passage.
    pub open spec fn step(self, path: Seq<Coordinate>, i: int) -> bool {
        self.linked(path[i], path[i + 1])
    }

    /// Whether `path` walks through the grid from cell to cell, each step
    /// through a passage.
    pub open spec fn is_walk(self, path: Seq<Coordinate>) -> bool {
        &&& path.len() >= 1
        &&& self.on_grid(path[0])
        &&& forall|i: int| 0 <= i < path.len() - 1 ==> #[trigger] self.step(path, i)
    }

    /// Whether a walk leads from `a` to `b`.
    pub open spec fn reaches(self, a: Coordinate, b: Coordinate) -> bool {
        exists|path: Seq<Coordinate>| #[trigger]
            self.is_walk(path) && path[0] == a && path.last() == b
    }

    /// Whether every cell can be reached from every other.
    pub open spec fn connected(self) -> bool {
        forall|a: Coordinate, b: Coordinate|
            self.on_grid(a) && self.on_grid(b) ==> #[trigger] self.reaches(a, b)
    }

    /// Whether `path` is a cycle: at least three different cells, each linked
    /// to the next and the last to the first.
    pub open spec fn is_cycle(self, path: Seq<Coordinate>) -> bool {
        &&& path.len() >= 3
        &&& path.no_duplicates()
        &&& self.is_walk(path)
        &&& self.linked(path.last(), path[0])
    }

    /// Whether the passages close no cycle.
    pub open spec fn acyclic(self) -> bool {
        forall|path: Seq<Coordinate>| !#[trigger] self.is_cycle(path)
    }

    /// Whether the passages form a perfect maze: a spanning tree of the cells.
    pub open spec fn perfect(self) -> bool {
        &&& self.connected()
        &&& self.acyclic()
        &&& self.passage_count() == self.width * self.height - 1
    }

    /// Whether every passage of `self` is a passage of `other`, a grid of the
    /// same dimensions.
    pub open spec fn within(self, other: GridView) -> bool {
        &&& self.width == other.width
        &&& self.height == other.height
        &&& self.horizontal.subset_of(other.horizontal)
        &&& self.vertical.subset_of(other.vertical)
    }

    /// A link does not depend on the order of its two cells.
    pub proof fn lemma_linked_symmetric(self, a: Coordinate, b: Coordinate)
        ensures
            self.linked(a, b) == self.linked(b, a),
    {
    }

    /// Opening the border between two adjacent cells of the grid links exactly
    /// these two, and leaves every other link as it was.
    pub proof fn lemma_open_links(self, current: Coordinate, last: Coordinate, a: Coordinate, b: Coordinate)
        requires
            self.on_grid(current),
            self.on_grid(last),
            current.adjacent(last),
        ensures
            self.open(current, last).linked(a, b) <==> self.linked(a, b) || (a == current && b
                == last) || (a == last && b == current),
    {
    }

    /// Opening a border between two cells that are not adjacent, or not both
    /// on the grid, changes nothing; in particular opening the border between
    /// a cell and itself.
    pub proof fn lemma_open_nothing(self, current: Coordinate, last: Coordinate)
        requires
            current == last || !current.adjacent(last) || !self.on_grid(current) || !self.on_grid(
                last,
            ),
        ensures
            self.open(current, last) == self,
    {
    }

    /// Opening a border keeps the grid valid, keeps every passage, and adds at
    /// most one.
    pub proof fn lemma_open_valid(self, current: Coordinate, last: Coordinate)
        requires
            self.valid(),
        ensures
            self.open(current, last).valid(),
            self.within(self.open(current, last)),
            self.open(current, last).passage_count() == self.passage_count() + (if self.on_grid(
                current,
            ) && self.on_grid(last) && current.adjacent(last) && !self.linked(current, last) {
                1nat
            } else {
                0nat
            }),
    {
    }

    /// A walk stays a walk when passages are added.
    pub proof fn lemma_walk_within(self, other: GridView, path: Seq<Coordinate>)
        requires
            self.within(other),
            self.is_walk(path),
        ensures
            other.is_walk(path),
    {
        assert forall|i: int| 0 <= i < path.len() - 1 implies #[trigger] other.step(path, i) by {
            assert(self.step(path, i));
        }
    }

    /// What was reachable stays reachable when passages are added.
    pub proof fn lemma_reaches_within(self, other: GridView, a: Coordinate, b: Coordinate)
        requires
            self.within(other),
            self.reaches(a, b),
        ensures
            other.reaches(a, b),
    {
        let path = choose|path: Seq<Coordinate>| #[trigger]
            self.is_walk(path) && path[0] == a && path.last() == b;
        self.lemma_walk_within(other, path);
    }

    /// Every cell reaches itself.
    pub proof fn lemma_reaches_itself(self, a: Coordinate)
        requires
            self.on_grid(a),
        ensures
            self.reaches(a, a),
    {
        let path = seq![a];
        assert(self.is_walk(path));
    }

    /// A walk can be extended by one link.
    pub proof fn lemma_reaches_step(self, a: Coordinate, b: Coordinate, c: Coordinate)
        requires
            self.reaches(a, b),
            self.linked(b, c),
        ensures
            self.reaches(a, c),
    {
        let path = choose|path: Seq<Coordinate>| #[trigger]
            self.is_walk(path) && path[0] == a && path.last() == b;
        let longer = path.push(c);
        assert forall|i: int| 0 <= i < longer.len() - 1 implies #[trigger] self.step(longer, i) by {
            if i < path.len() - 1 {
                assert(self.step(path, i));
            }
        }
        assert(self.is_walk(longer));
    }

    /// A walk can be walked backwards.
    pub proof fn lemma_reaches_symmetric(self, a: Coordinate, b: Coordinate)
        requires
            self.reaches(a, b),
        ensures
            self.reaches(b, a),
    {
        let path = choose|path: Seq<Coordinate>| #[trigger]
            self.is_walk(path) && path[0] == a && path.last() == b;
        let back = path.reverse();
        let n = path.len() as int;
        assert forall|i: int| 0 <= i < back.len() - 1 implies #[trigger] self.step(back, i) by {
            assert(self.step(path, n - 2 - i));
            self.lemma_linked_symmetric(path[n - 2 - i], path[n - 1 - i]);
        }
        if n >= 2 {
            assert(self.step(path, n - 2));
        }
        assert(self.is_walk(back));
    }

    /// Two walks that meet make one walk.
    pub proof fn lemma_reaches_transitive(self, a: Coordinate, b: Coordinate, c: Coordinate)
        requires
            self.reaches(a, b),
            self.reaches(b, c),
        ensures
            self.reaches(a, c),
    {
        let first = choose|path: Seq<Coordinate>| #[trigger]
            self.is_walk(path) && path[0] == a && path.last() == b;
        let second = choose|path: Seq<Coordinate>| #[trigger]
            self.is_walk(path) && path[0] == b && path.last() == c;
        let whole = first + second.drop_first();
        let n = first.len() as int;
        assert forall|i: int| 0 <= i < whole.len() - 1 implies #[trigger] self.step(whole, i) by {
            if i < n - 1 {
                assert(self.step(first, i));
            } else {
                let j = i - n + 1;
                assert(self.step(second, j));
            }
        }
        assert(self.is_walk(whole));
    }

    /// If every cell can be reached from one cell, the grid is connected.
    pub proof fn lemma_connected_from(self, start: Coordinate)
        requires
            forall|c: Coordinate| self.on_grid(c) ==> #[trigger] self.reaches(start, c),
        ensures
            self.connected(),
    {
        assert forall|a: Coordinate, b: Coordinate|
            self.on_grid(a) && self.on_grid(b) implies #[trigger] self.reaches(a, b) by {
            self.lemma_reaches_symmetric(start, a);
            self.lemma_reaches_transitive(a, start, b);
        }
    }

    /// A set of cells that holds `start` and, with each cell, its neighbours
    /// on the grid holds every cell of the grid.
    pub proof fn lemma_closed_holds_all(self, cells: Set<Coordinate>, start: Coordinate, target: Coordinate)
        requires
            self.on_grid(start),
            self.on_grid(target),
            cells.contains(start),
            forall|v: Coordinate, n: Coordinate|
                cells.contains(v) && self.on_grid(n) && #[trigger] v.adjacent(n)
                    ==> cells.contains(n),
        ensures
            cells.contains(target),
        decreases
            (if target.0 >= start.0 { target.0 - start.0 } else { start.0 - target.0 })
            + (if target.1 >= start.1 { target.1 - start.1 } else { start.1 - target.1 }),
    {
        if target != start {
            let nearer = if target.0 > start.0 {
                Coordinate((target.0 - 1) as usize, target.1)
            } else if target.0 < start.0 {
                Coordinate((target.0 + 1) as usize, target.1)
            } else if target.1 > start.1 {
                Coordinate(target.0, (target.1 - 1) as usize)
            } else {
                Coordinate(target.0, (target.1 + 1) as usize)
            };
            self.lemma_closed_holds_all(cells, start, nearer);
            assert(nearer.adjacent(target));
        }
    }
}

/// Whether every cell of `order` is linked to at most one cell that comes
/// before it in `order`.
pub open spec fn one_link_back(grid: GridView, order: Seq<Coordinate>) -> bool {
    forall|i: int, j: int, k: int|
        0 <= i < k && 0 <= j < k && k < order.len() && #[trigger] grid.linked(order[i], order[k])
            && #[trigger] grid.linked(order[j], order[k]) ==> i == j
}

/// Whether both cells of every link occur in `order`.
pub open spec fn links_inside(grid: GridView, order: Seq<Coordinate>) -> bool {
    forall|a: Coordinate, b: Coordinate| #[trigger] grid.linked(a, b) ==> order.contains(a)
}

/// Among the first `n` cells of `path`, one that comes last in `order`.
pub proof fn lemma_latest(order: Seq<Coordinate>, path: Seq<Coordinate>, n: int) -> (m: int)
    requires
        1 <= n <= path.len(),
    ensures
        0 <= m < n,
        forall|i: int| 0 <= i < n ==> order.index_of(#[trigger] path[i]) <= order.index_of(path[m]),
    decreases n,
{
    if n == 1 {
        0
    } else {
        let before = lemma_latest(order, path, n - 1);
        if order.index_of(path[n - 1]) > order.index_of(path[before]) {
            n - 1
        } else {
            before
        }
    }
}

/// Two cells that come before a third in `order` and are both linked to it
/// are one cell.
pub proof fn lemma_one_parent(
    grid: GridView,
    order: Seq<Coordinate>,
    a: Coordinate,
    b: Coordinate,
    c: Coordinate,
)
    requires
        one_link_back(grid, order),
        order.contains(a),
        order.contains(b),
        order.contains(c),
        grid.linked(a, c),
        grid.linked(b, c),
        order.index_of(a) < order.index_of(c),
        order.index_of(b) < order.index_of(c),
    ensures
        a == b,
{
    let i = order.index_of(a);
    let j = order.index_of(b);
    let k = order.index_of(c);
}

/// A grid whose cells can be listed so that all links lie inside the list and
/// each cell is linked to at most one earlier cell has no cycle.
pub proof fn lemma_ordered_acyclic(grid: GridView, order: Seq<Coordinate>)
    requires
        order.no_duplicates(),
        links_inside(grid, order),
        one_link_back(grid, order),
    ensures
        grid.acyclic(),
{
    assert forall|path: Seq<Coordinate>| !#[trigger] grid.is_cycle(path) by {
        if grid.is_cycle(path) {
            let n = path.len() as int;
            let m = lemma_latest(order, path, n);
            let before: int = if m == 0 {
                n - 1
            } else {
                m - 1
            };
            let after: int = if m == n - 1 {
                0
            } else {
                m + 1
            };
            let a = path[before];
            let b = path[after];
            let c = path[m];
            assert(grid.linked(a, c)) by {
                if m > 0 {
                    assert(grid.step(path, m - 1));
                }
            }
            assert(grid.linked(b, c)) by {
                if m < n - 1 {
                    assert(grid.step(path, m));
                }
                grid.lemma_linked_symmetric(c, b);
            }
            assert(order.contains(a) && order.contains(b) && order.contains(c)) by {
                grid.lemma_linked_symmetric(a, c);
            }
            assert(order.index_of(a) < order.index_of(c)) by {
            }
            assert(order.index_of(b) < order.index_of(c)) by {
            }
            lemma_one_parent(grid, order, a, b, c);
        }
    }
}

} // verus!
