//! The carver: a randomized depth-first walk over the cells that opens a
//! passage on every move into a cell it has not entered before.

use rand::rngs::StdRng;
use vstd::prelude::*;

use crate::maze::coordinate::Coordinate;
use crate::maze::graph::{links_inside, lemma_ordered_acyclic, one_link_back};
use crate::maze::grid::{lemma_slot_bound, lemma_slot_injective, slot, Grid, GridView};
use crate::maze::random::{random_below, shuffle};

verus! {

/// The frames that a cell leaves behind for its neighbours: one for each
/// neighbour, holding the neighbour and the cell it is reached from, with the
/// first of `neighbors` last, so that it is the first to be taken up again.
pub open spec fn frames_of(current: Coordinate, neighbors: Seq<Coordinate>) -> Seq<
    (Coordinate, Coordinate),
> {
    Seq::new(neighbors.len(), |i: int| (neighbors[neighbors.len() - 1 - i], current))
}

/// Puts on the stack `pending`, for each of `neighbors`, a frame that leads
/// from `current` to it. The frames go on in reverse, so that the walk takes
/// the neighbours up in the order in which `neighbors` lists them.
pub fn schedule(
    pending: &mut Vec<(Coordinate, Coordinate)>,
    current: Coordinate,
    neighbors: &Vec<Coordinate>,
)
    ensures
        final(pending)@ == old(pending)@ + frames_of(current, neighbors@),
{
    let mut left: usize = neighbors.len();
    while left > 0
        invariant
            left <= neighbors.len(),
            pending@ == old(pending)@ + frames_of(current, neighbors@).take(
                neighbors.len() - left,
            ),
        decreases left,
    {
        left = left - 1;
        pending.push((neighbors[left], current));
    }
}

/// Whether `frame` leads to a cell of the grid from an entered cell next to
/// it.
spec fn frame_ok(grid: GridView, order: Seq<Coordinate>, frame: (Coordinate, Coordinate)) -> bool {
    grid.on_grid(frame.0) && order.contains(frame.1) && frame.1.adjacent(frame.0)
}

/// Whether every neighbour of every entered cell is entered too, or waits in a
/// frame that leads to it from that cell; `hole` is a frame that has been
/// taken off the stack and not yet followed.
spec fn explored(
    grid: GridView,
    pending: Seq<(Coordinate, Coordinate)>,
    order: Seq<Coordinate>,
    hole: Option<(Coordinate, Coordinate)>,
) -> bool {
    forall|v: Coordinate, n: Coordinate|
        order.contains(v) && grid.on_grid(n) && #[trigger] v.adjacent(n) ==> order.contains(n)
            || pending.contains((n, v)) || hole == Some((n, v))
}

/// Whether the passages are those of a tree that was grown by entering the
/// cells in the order of `order`: every link joins entered cells, every cell
/// is linked to at most one cell entered before it, and there is one passage
/// for each entered cell but the first.
spec fn tree(grid: GridView, order: Seq<Coordinate>) -> bool {
    &&& links_inside(grid, order)
    &&& one_link_back(grid, order)
    &&& grid.passage_count() == (if order.len() == 0 {
        0
    } else {
        order.len() - 1
    })
}

/// What holds of a walk under way: `visited` are the cells entered so far, in
/// the order of `order`; `before` is the grid that the walk began on, `grid`
/// the grid now, `pending` the stack of frames.
spec fn walking(
    visited: Set<Coordinate>,
    before: GridView,
    grid: GridView,
    pending: Seq<(Coordinate, Coordinate)>,
    order: Seq<Coordinate>,
    hole: Option<(Coordinate, Coordinate)>,
) -> bool {
    &&& grid.valid()
    &&& before.valid()
    &&& before.within(grid)
    &&& grid.state == before.state
    &&& order.no_duplicates()
    &&& visited == order.to_set()
    &&& forall|i: int|
        0 <= i < order.len() ==> grid.on_grid(#[trigger] order[i]) && grid.reaches(
            order[0],
            order[i],
        )
    &&& forall|j: int| 0 <= j < pending.len() ==> frame_ok(grid, order, #[trigger] pending[j])
    &&& explored(grid, pending, order, hole)
    &&& before.all_walls() ==> tree(grid, order)
}

/// Before the walk begins nothing is entered, and the frame that leads to the
/// first cell is in hand.
proof fn lemma_walk_begins(grid: GridView, start: Coordinate)
    requires
        grid.valid(),
    ensures
        walking(
            Set::<Coordinate>::empty(),
            grid,
            grid,
            Seq::<(Coordinate, Coordinate)>::empty(),
            Seq::<Coordinate>::empty(),
            Some((start, start)),
        ),
{
    assert(Seq::<Coordinate>::empty().to_set() =~= Set::<Coordinate>::empty());
}

/// A frame that leads to a cell already entered is dropped.
proof fn lemma_walk_skips(
    visited: Set<Coordinate>,
    before: GridView,
    grid: GridView,
    pending: Seq<(Coordinate, Coordinate)>,
    order: Seq<Coordinate>,
    current: Coordinate,
    last: Coordinate,
)
    requires
        walking(visited, before, grid, pending, order, Some((current, last))),
        visited.contains(current),
    ensures
        walking(visited, before, grid, pending, order, None),
{
}

/// Taking the top frame off the stack leaves it in hand.
proof fn lemma_walk_pops(
    visited: Set<Coordinate>,
    before: GridView,
    grid: GridView,
    pending: Seq<(Coordinate, Coordinate)>,
    order: Seq<Coordinate>,
)
    requires
        walking(visited, before, grid, pending, order, None),
        pending.len() > 0,
    ensures
        walking(visited, before, grid, pending.drop_last(), order, Some(pending.last())),
        frame_ok(grid, order, pending.last()),
{
    let rest = pending.drop_last();
    assert forall|v: Coordinate, n: Coordinate|
        order.contains(v) && grid.on_grid(n) && #[trigger] v.adjacent(n) implies order.contains(n)
        || rest.contains((n, v)) || Some(pending.last()) == Some((n, v)) by {
        if !order.contains(n) {
            let j = choose|j: int| 0 <= j < pending.len() && pending[j] == (n, v);
            if j < pending.len() - 1 {
                assert(rest[j] == (n, v));
            }
        }
    }
}

/// The cells entered are cells of the grid, each one once, so there are no
/// more of them than the grid has cells.
proof fn lemma_walk_bound(
    visited: Set<Coordinate>,
    before: GridView,
    grid: GridView,
    pending: Seq<(Coordinate, Coordinate)>,
    order: Seq<Coordinate>,
    hole: Option<(Coordinate, Coordinate)>,
)
    requires
        walking(visited, before, grid, pending, order, hole),
    ensures
        order.len() <= grid.width * grid.height,
        grid.width * grid.height == before.width * before.height,
{
    grid.lemma_cell_count();
    order.unique_seq_to_set();
    assert(order.to_set().subset_of(grid.cells())) by {
        assert forall|c: Coordinate| order.to_set().contains(c) implies grid.cells().contains(
            c,
        ) by {
            let i = choose|i: int| 0 <= i < order.len() && order[i] == c;
        }
    }
    vstd::set_lib::lemma_len_subset(order.to_set(), grid.cells());
}

/// Entering a cell that was not entered before: the cell is recorded, the
/// border to the cell it was reached from is opened, and a frame is left for
/// each of its neighbours on the grid, in whatever order `around` lists them.
proof fn lemma_walk_enters(
    visited: Set<Coordinate>,
    before: GridView,
    grid: GridView,
    pending: Seq<(Coordinate, Coordinate)>,
    order: Seq<Coordinate>,
    current: Coordinate,
    last: Coordinate,
    around: Seq<Coordinate>,
)
    requires
        walking(visited, before, grid, pending, order, Some((current, last))),
        grid.on_grid(current),
        !visited.contains(current),
        (order.len() == 0 && current == last) || frame_ok(grid, order, (current, last)),
        forall|n: Coordinate| #[trigger]
            around.contains(n) <==> grid.on_grid(n) && current.adjacent(n),
    ensures
        walking(
            visited.insert(current),
            before,
            grid.open(current, last),
            pending + frames_of(current, around),
            order.push(current),
            None,
        ),
{
    let opened = grid.open(current, last);
    let longer = order.push(current);
    let frames = frames_of(current, around);
    let stack = pending + frames;
    grid.lemma_open_valid(current, last);
    assert(longer.to_set() =~= visited.insert(current)) by {
        assert forall|c: Coordinate| longer.to_set().contains(c) <==> visited.insert(
            current,
        ).contains(c) by {
            if longer.contains(c) {
                let i = choose|i: int| 0 <= i < longer.len() && longer[i] == c;
            }
            if order.contains(c) {
                let i = choose|i: int| 0 <= i < order.len() && order[i] == c;
                assert(longer[i] == c);
            }
            if c == current {
                assert(longer[order.len() as int] == c);
            }
        }
    }
    assert forall|c: Coordinate| order.contains(c) implies longer.contains(c) by {
        let i = choose|i: int| 0 <= i < order.len() && order[i] == c;
        assert(longer[i] == c);
    }
    assert(longer.contains(current)) by {
        assert(longer[order.len() as int] == current);
    }
    assert forall|i: int| 0 <= i < longer.len() implies opened.on_grid(#[trigger] longer[i])
        && opened.reaches(longer[0], longer[i]) by {
        if i < order.len() {
            grid.lemma_reaches_within(opened, order[0], order[i]);
        } else if order.len() == 0 {
            opened.lemma_reaches_itself(current);
        } else {
            let at = choose|at: int| 0 <= at < order.len() && order[at] == last;
            grid.lemma_reaches_within(opened, order[0], last);
            grid.lemma_open_links(current, last, last, current);
            opened.lemma_reaches_step(order[0], last, current);
        }
    }
    assert forall|j: int| 0 <= j < stack.len() implies frame_ok(
        opened,
        longer,
        #[trigger] stack[j],
    ) by {
        if j >= pending.len() {
            let n = around[around.len() - 1 - (j - pending.len())];
            assert(around.contains(n));
        }
    }
    assert(explored(opened, stack, longer, None)) by {
        assert forall|v: Coordinate, n: Coordinate|
            longer.contains(v) && opened.on_grid(n) && #[trigger] v.adjacent(n)
                implies longer.contains(n) || stack.contains((n, v)) by {
            if v == current {
                assert(around.contains(n));
                let i = choose|i: int| 0 <= i < around.len() && around[i] == n;
                let j = around.len() - 1 - i;
                assert(stack[pending.len() + j] == (n, v));
            } else if !order.contains(n) && n != current {
                let j = choose|j: int| 0 <= j < pending.len() && pending[j] == (n, v);
                assert(stack[j] == (n, v));
            }
        }
    }
    if before.all_walls() {
        lemma_tree_grows(grid, order, current, last);
    }
}

/// A tree stays a tree when a cell that was not entered before is joined to
/// an entered cell next to it; and a walk that enters its first cell opens
/// nothing.
proof fn lemma_tree_grows(
    grid: GridView,
    order: Seq<Coordinate>,
    current: Coordinate,
    last: Coordinate,
)
    requires
        grid.valid(),
        tree(grid, order),
        order.no_duplicates(),
        forall|i: int| 0 <= i < order.len() ==> grid.on_grid(#[trigger] order[i]),
        grid.on_grid(current),
        !order.contains(current),
        (order.len() == 0 && current == last) || frame_ok(grid, order, (current, last)),
    ensures
        tree(grid.open(current, last), order.push(current)),
{
    let opened = grid.open(current, last);
    let longer = order.push(current);
    grid.lemma_open_valid(current, last);
    if order.len() == 0 {
        grid.lemma_open_nothing(current, last);
    } else {
        assert(grid.on_grid(last)) by {
            let at = choose|at: int| 0 <= at < order.len() && order[at] == last;
        }
        assert forall|a: Coordinate, b: Coordinate| #[trigger]
            opened.linked(a, b) implies longer.contains(a) by {
            grid.lemma_open_links(current, last, a, b);
            if grid.linked(a, b) {
                let i = choose|i: int| 0 <= i < order.len() && order[i] == a;
                assert(longer[i] == a);
            } else if a == current {
                assert(longer[order.len() as int] == a);
            } else {
                let i = choose|i: int| 0 <= i < order.len() && order[i] == last;
                assert(longer[i] == a);
            }
        }
        assert forall|i: int, j: int, k: int|
            0 <= i < k && 0 <= j < k && k < longer.len() && #[trigger] opened.linked(
                longer[i],
                longer[k],
            ) && #[trigger] opened.linked(longer[j], longer[k]) implies i == j by {
            grid.lemma_open_links(current, last, longer[i], longer[k]);
            grid.lemma_open_links(current, last, longer[j], longer[k]);
            if k >= order.len() {
                grid.lemma_linked_symmetric(order[i], current);
                grid.lemma_linked_symmetric(order[j], current);
            }
        }
    }
}

/// When no frame is left, every cell has been entered: the passages connect
/// the grid; and if the walk began on a grid of walls they form a perfect
/// maze.
proof fn lemma_walk_ends(
    visited: Set<Coordinate>,
    before: GridView,
    grid: GridView,
    order: Seq<Coordinate>,
)
    requires
        walking(visited, before, grid, Seq::<(Coordinate, Coordinate)>::empty(), order, None),
        order.len() >= 1,
    ensures
        grid.connected(),
        before.all_walls() ==> grid.perfect(),
{
    let start = order[0];
    assert forall|c: Coordinate| grid.on_grid(c) implies order.to_set().contains(c) by {
        assert forall|v: Coordinate, n: Coordinate|
            order.to_set().contains(v) && grid.on_grid(n) && #[trigger] v.adjacent(n)
                implies order.to_set().contains(n) by {
        }
        grid.lemma_closed_holds_all(order.to_set(), start, c);
    }
    assert forall|c: Coordinate| grid.on_grid(c) implies #[trigger] grid.reaches(start, c) by {
        let i = choose|i: int| 0 <= i < order.len() && order[i] == c;
    }
    grid.lemma_connected_from(start);
    if before.all_walls() {
        lemma_ordered_acyclic(grid, order);
        grid.lemma_cell_count();
        order.unique_seq_to_set();
        assert(order.to_set() =~= grid.cells()) by {
            assert forall|c: Coordinate| order.to_set().contains(c) implies grid.cells().contains(
                c,
            ) by {
                let i = choose|i: int| 0 <= i < order.len() && order[i] == c;
            }
        }
    }
}

/// The recursive-backtracking maze generator. Between two runs it remembers no
/// cell.
pub struct RecursiveBacktrack {
    width: usize,
    height: usize,
    visited: Vec<bool>,
}

impl View for RecursiveBacktrack {
    type V = Set<Coordinate>;

    /// The cells that the walk has entered.
    closed spec fn view(&self) -> Set<Coordinate> {
        Set::new(
            |c: Coordinate|
                c.0 < self.width && c.1 < self.height && self.visited@[slot(
                    self.width as int,
                    c.0 as int,
                    c.1 as int,
                )],
        )
    }
}

impl RecursiveBacktrack {
    /// Whether the table of entered cells has one entry for each cell of
    /// `grid`.
    pub closed spec fn fits(&self, grid: GridView) -> bool {
        &&& self.width == grid.width
        &&& self.height == grid.height
        &&& self.visited@.len() == grid.width * grid.height
    }

    /// A generator that has entered no cell.
    pub fn new() -> (carver: RecursiveBacktrack)
        ensures
            carver@ == Set::<Coordinate>::empty(),
    {
        RecursiveBacktrack { width: 0, height: 0, visited: Vec::new() }
    }

    /// Carves `grid` by a randomized depth-first walk from a cell that `rng`
    /// picks. Whatever `rng` gives, every cell of the grid can afterwards be
    /// reached from every other, no passage is closed again, and a grid that
    /// was all walls is a perfect maze: its passages are connected, close no
    /// cycle, and number one less than the cells.
    pub fn carve(&mut self, grid: &mut Grid, rng: &mut StdRng)
        requires
            old(grid).wf(),
        ensures
            final(grid).wf(),
            old(grid)@.within(final(grid)@),
            final(grid)@.state == old(grid)@.state,
            forall|c: Coordinate| final(grid).cell_at(c) == old(grid).cell_at(c),
            final(grid)@.connected(),
            old(grid)@.all_walls() ==> final(grid)@.perfect(),
            old(grid)@.all_walls() ==> final(grid)@.passage_count() + 1 == final(grid)@.width
                * final(grid)@.height,
            final(self)@ == Set::<Coordinate>::empty(),
    {
        let x: usize = random_below(rng, grid.width());
        let y: usize = random_below(rng, grid.height());
        let starting_coordinate = Coordinate(x, y);
        self.carve_from(grid, rng, starting_coordinate)
    }

    /// Carves `grid` by a randomized depth-first walk that begins at `start`:
    /// what `carve` does once the first cell is picked. The cells entered
    /// before are forgotten first, and those entered by this walk afterwards.
    pub fn carve_from(&mut self, grid: &mut Grid, rng: &mut StdRng, start: Coordinate)
        requires
            old(grid).wf(),
            old(grid)@.on_grid(start),
        ensures
            final(grid).wf(),
            old(grid)@.within(final(grid)@),
            final(grid)@.state == old(grid)@.state,
            forall|c: Coordinate| final(grid).cell_at(c) == old(grid).cell_at(c),
            final(grid)@.connected(),
            old(grid)@.all_walls() ==> final(grid)@.perfect(),
            old(grid)@.all_walls() ==> final(grid)@.passage_count() + 1 == final(grid)@.width
                * final(grid)@.height,
            final(self)@ == Set::<Coordinate>::empty(),
    {
        self.prepare(grid);
        let ghost before = grid@;
        let mut pending: Vec<(Coordinate, Coordinate)> = Vec::new();
        let ghost mut order: Seq<Coordinate> = Seq::empty();
        proof {
            lemma_walk_begins(before, start);
        }
        let first = self.do_carve(grid, rng, &mut pending, start, start, Ghost(before), Ghost(order));
        proof {
            order = first@;
        }
        while pending.len() > 0
            invariant
                grid.wf(),
                self.fits(grid@),
                walking(self@, before, grid@, pending@, order, None),
                order.len() >= 1,
                forall|c: Coordinate| grid.cell_at(c) == old(grid).cell_at(c),
            decreases before.width * before.height - order.len(), pending.len(),
        {
            proof {
                lemma_walk_pops(self@, before, grid@, pending@, order);
                lemma_walk_bound(self@, before, grid@, pending@, order, None);
            }
            let frame = pending.pop().unwrap();
            let next = self.do_carve(
                grid,
                rng,
                &mut pending,
                frame.0,
                frame.1,
                Ghost(before),
                Ghost(order),
            );
            proof {
                order = next@;
                lemma_walk_bound(self@, before, grid@, pending@, order, None);
            }
        }
        proof {
            lemma_walk_ends(self@, before, grid@, order);
        }
        self.discard();
    }

    /// Follows one frame: `current` is the cell to enter, `last` the cell it
    /// is reached from. A cell entered before is left alone: grid, entered
    /// cells and stack stay as they were. Otherwise the cell is recorded, the
    /// border to `last` is opened, and a frame for each neighbour goes on the
    /// stack, in an order that `rng` picks. Either way no passage is closed,
    /// no entered cell is forgotten, and the order of entry only grows.
    fn do_carve(
        &mut self,
        grid: &mut Grid,
        rng: &mut StdRng,
        pending: &mut Vec<(Coordinate, Coordinate)>,
        current: Coordinate,
        last: Coordinate,
        Ghost(before): Ghost<GridView>,
        Ghost(order): Ghost<Seq<Coordinate>>,
    ) -> (next: Ghost<Seq<Coordinate>>)
        requires
            old(grid).wf(),
            old(self).fits(old(grid)@),
            walking(old(self)@, before, old(grid)@, old(pending)@, order, Some((current, last))),
            old(grid)@.on_grid(current),
            (order.len() == 0 && current == last) || frame_ok(old(grid)@, order, (current, last)),
        ensures
            final(grid).wf(),
            final(self).fits(final(grid)@),
            walking(final(self)@, before, final(grid)@, final(pending)@, next@, None),
            forall|c: Coordinate| final(grid).cell_at(c) == old(grid).cell_at(c),
            next@.len() >= 1,
            (next@ == order && final(pending)@ == old(pending)@) || next@.len() == order.len() + 1,
            old(self)@.contains(current) ==> {
                &&& *final(grid) == *old(grid)
                &&& *final(self) == *old(self)
                &&& final(pending)@ == old(pending)@
                &&& next@ == order
            },
            !old(self)@.contains(current) ==> {
                &&& final(self)@ == old(self)@.insert(current)
                &&& final(grid)@ == old(grid)@.open(current, last)
                &&& next@ == order.push(current)
            },
            !old(self)@.contains(current) ==> exists|around: Seq<Coordinate>|
                {
                    &&& around.to_multiset() == final(grid)@.neighbors_of(current).to_multiset()
                    &&& final(pending)@ == old(pending)@ + #[trigger] frames_of(current, around)
                },
            old(grid)@.within(final(grid)@),
            old(self)@.subset_of(final(self)@),
            order.is_prefix_of(next@),
    {
        if self.is_visited(grid, current) {
            proof {
                lemma_walk_skips(self@, before, grid@, pending@, order, current, last);
            }
            return Ghost(order);
        }
        self.mark(grid, current);
        grid.open_passage(current, last);
        let mut neighbors: Vec<Coordinate> = grid.neighbors(&current);
        let ghost listed = neighbors@;
        shuffle(rng, &mut neighbors);
        schedule(pending, current, &neighbors);
        proof {
            broadcast use vstd::seq_lib::to_multiset_contains;

            assert forall|n: Coordinate| #[trigger]
                neighbors@.contains(n) <==> old(grid)@.on_grid(n) && current.adjacent(n) by {
                grid@.lemma_neighbors_of(current, n);
                assert(listed.contains(n) <==> listed.to_multiset().count(n) > 0);
            }
            lemma_walk_enters(
                old(self)@,
                before,
                old(grid)@,
                old(pending)@,
                order,
                current,
                last,
                neighbors@,
            );
            old(grid)@.lemma_open_valid(current, last);
            assert(neighbors@.to_multiset() == grid@.neighbors_of(current).to_multiset());
            assert(pending@ == old(pending)@ + frames_of(current, neighbors@));
        }
        Ghost(order.push(current))
    }

    /// Forgets every cell and makes room for the cells of `grid`.
    fn prepare(&mut self, grid: &Grid)
        requires
            grid.wf(),
        ensures
            final(self).fits(grid@),
            final(self)@ == Set::<Coordinate>::empty(),
    {
        let width: usize = grid.width();
        let height: usize = grid.height();
        let mut visited: Vec<bool> = Vec::new();
        let total: usize = width * height;
        let mut i: usize = 0;
        while i < total
            invariant
                i <= total,
                visited@.len() == i,
                forall|k: int| 0 <= k < i ==> !visited@[k],
            decreases total - i,
        {
            visited.push(false);
            i = i + 1;
        }
        self.width = width;
        self.height = height;
        self.visited = visited;
        proof {
            assert forall|c: Coordinate| !self@.contains(c) by {
                if c.0 < width && c.1 < height {
                    lemma_slot_bound(width as int, height as int, c.0 as int, c.1 as int);
                }
            }
        }
    }

    /// Forgets every cell.
    fn discard(&mut self)
        ensures
            final(self)@ == Set::<Coordinate>::empty(),
    {
        self.width = 0;
        self.height = 0;
        self.visited = Vec::new();
    }

    /// Whether the walk has entered `c`.
    fn is_visited(&self, grid: &Grid, c: Coordinate) -> (entered: bool)
        requires
            grid.wf(),
            self.fits(grid@),
            grid@.on_grid(c),
        ensures
            entered == self@.contains(c),
    {
        proof {
            lemma_slot_bound(self.width as int, self.height as int, c.0 as int, c.1 as int);
        }
        self.visited[c.1 * self.width + c.0]
    }

    /// Records that the walk has entered `c`.
    fn mark(&mut self, grid: &Grid, c: Coordinate)
        requires
            grid.wf(),
            old(self).fits(grid@),
            grid@.on_grid(c),
        ensures
            final(self).fits(grid@),
            final(self)@ == old(self)@.insert(c),
    {
        proof {
            lemma_slot_bound(self.width as int, self.height as int, c.0 as int, c.1 as int);
        }
        let at: usize = c.1 * self.width + c.0;
        self.visited.set(at, true);
        proof {
            let w = self.width as int;
            assert forall|k: Coordinate| #[trigger]
                self@.contains(k) <==> old(self)@.insert(c).contains(k) by {
                if k.0 < self.width && k.1 < self.height {
                    lemma_slot_bound(w, self.height as int, k.0 as int, k.1 as int);
                    if slot(w, k.0 as int, k.1 as int) == at {
                        lemma_slot_injective(w, k.0 as int, k.1 as int, c.0 as int, c.1 as int);
                    }
                }
            }
        }
    }
}

} // verus!
