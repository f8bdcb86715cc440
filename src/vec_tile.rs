//! A tile that keeps one `bool` per cell.
use crate::grid::{empty_grid, lemma_index};
use crate::tile::{LifeTile, LifeTileSrc};
use vstd::prelude::*;

verus! {

/// A tile whose cells are listed row by row in a vector.
#[derive(Debug, Clone)]
pub struct VecTile {
    pub size: usize,
    cells: Vec<bool>,
}

impl VecTile {
    /// Position of cell (x, y) in the listing.
    pub fn index(&self, x: usize, y: usize) -> (r: usize)
        requires
            self.well_formed(),
            x < self.side(),
            y < self.side(),
        ensures
            r == x + y * self.side(),
            r < self.side() * self.side(),
    {
        proof {
            lemma_index(self.size as int, x as int, y as int);
        }
        x + y * self.size
    }
}

impl LifeTileSrc for VecTile {
    closed spec fn side(&self) -> nat {
        self.size as nat
    }

    closed spec fn cells(&self) -> Seq<bool> {
        self.cells@
    }

    closed spec fn well_formed(&self) -> bool {
        &&& self.cells@.len() == self.size * self.size
        &&& self.size * self.size <= usize::MAX
    }

    proof fn lemma_well_formed(&self) {
    }

    fn size(&self) -> (r: usize) {
        self.size
    }

    fn get(&self, x: usize, y: usize) -> (r: bool) {
        self.cells[self.index(x, y)]
    }
}

impl LifeTile for VecTile {
    fn new(size: usize) -> (r: VecTile) {
        let r = VecTile { size: size, cells: vec![false; size * size] };
        proof {
            assert(r.cells@ =~= empty_grid(size as nat));
        }
        r
    }

    fn set(&mut self, x: usize, y: usize, value: bool) {
        let index = self.index(x, y);
        self.cells.set(index, value);
    }

    fn same_cells(&self, other: &VecTile) -> (r: bool) {
        let r = self.cells == other.cells;
        proof {
            if r {
                assert(self.cells@ =~= other.cells@);
            }
        }
        r
    }
}

impl PartialEq for VecTile {
    fn eq(&self, other: &VecTile) -> (r: bool) {
        let r = self.cells == other.cells;
        proof {
            if r {
                assert(self.cells@ =~= other.cells@);
            }
        }
        r
    }
}

impl vstd::std_specs::cmp::PartialEqSpecImpl for VecTile {
    open spec fn obeys_eq_spec() -> bool {
        true
    }

    open spec fn eq_spec(&self, other: &VecTile) -> bool {
        self.cells() == other.cells()
    }
}

impl Eq for VecTile {
}

} // verus!
