//! Cell coordinates and lattice adjacency.

use vstd::prelude::*;

verus! {

/// The position of a cell: field `0` is the column `x`, field `1` the row `y`,
/// both counted from the top-left corner.
#[derive(Clone, Copy, Debug, PartialEq, Eq, Hash, Structural)]
pub struct Coordinate(pub usize, pub usize);

impl Coordinate {
    /// Whether `other` is exactly one lattice step away along a single axis.
    pub open spec fn adjacent(self, other: Coordinate) -> bool {
        ||| self.0 == other.0 && (self.1 + 1 == other.1 || other.1 + 1 == self.1)
        ||| self.1 == other.1 && (self.0 + 1 == other.0 || other.0 + 1 == self.0)
    }

    /// The lattice neighbours of `self` in the order west, north, east, south,
    /// leaving out those whose coordinate would not fit the machine word.
    pub open spec fn spec_neighbors(self) -> Seq<Coordinate> {
        (if self.0 > 0 {
            seq![Coordinate((self.0 - 1) as usize, self.1)]
        } else {
            Seq::empty()
        }) + (if self.1 > 0 {
            seq![Coordinate(self.0, (self.1 - 1) as usize)]
        } else {
            Seq::empty()
        }) + (if self.0 < usize::MAX {
            seq![Coordinate((self.0 + 1) as usize, self.1)]
        } else {
            Seq::empty()
        }) + (if self.1 < usize::MAX {
            seq![Coordinate(self.0, (self.1 + 1) as usize)]
        } else {
            Seq::empty()
        })
    }

    /// The lattice neighbours of `self`: west, north, east, south.
    pub fn neighbors(&self) -> (found: Vec<Coordinate>)
        ensures
            found@ == self.spec_neighbors(),
    {
        let mut found: Vec<Coordinate> = Vec::new();
        let x: usize = self.0;
        let y: usize = self.1;
        if x > 0 {
            found.push(Coordinate(x - 1, y));
        }
        if y > 0 {
            found.push(Coordinate(x, y - 1));
        }
        if x < usize::MAX {
            found.push(Coordinate(x + 1, y));
        }
        if y < usize::MAX {
            found.push(Coordinate(x, y + 1));
        }
        found
    }

    /// A coordinate is a neighbour exactly when it is adjacent.
    pub proof fn lemma_neighbors_adjacent(self, other: Coordinate)
        ensures
            self.spec_neighbors().contains(other) <==> self.adjacent(other),
    {
        let n = self.spec_neighbors();
        if self.adjacent(other) {
            if self.1 == other.1 && other.0 + 1 == self.0 {
                assert(n[0] == other);
            } else if self.0 == other.0 && other.1 + 1 == self.1 {
                assert(n[if self.0 > 0 { 1int } else { 0int }] == other);
            } else if self.1 == other.1 && self.0 + 1 == other.0 {
                let i = (if self.0 > 0 { 1int } else { 0int }) + (if self.1 > 0 { 1int } else { 0int });
                assert(n[i] == other);
            } else {
                let i = (if self.0 > 0 { 1int } else { 0int }) + (if self.1 > 0 { 1int } else { 0int })
                    + (if self.0 < usize::MAX { 1int } else { 0int });
                assert(n[i] == other);
            }
        }
    }
}

} // verus!
