//! A tile that keeps its cells in a fixed-size bit set.
use crate::grid::{empty_grid, lemma_index};
use crate::tile::{LifeTile, LifeTileSrc};
use fixedbitset::FixedBitSet;
use vstd::prelude::*;

verus! {

#[verifier::external_type_specification]
#[verifier::external_body]
pub struct ExFixedBitSet(FixedBitSet);

/// The positions of the set bits.
pub uninterp spec fn bits_of(b: FixedBitSet) -> Set<nat>;

/// The length in bits.
pub uninterp spec fn bit_len(b: FixedBitSet) -> nat;

/// Relies on FixedBitSet::with_capacity: `bits` bits, none set.
#[verifier::external_body]
fn bits_with_capacity(bits: usize) -> (r: FixedBitSet)
    ensures
        bit_len(r) == bits,
        bits_of(r) == Set::<nat>::empty(),
{
    FixedBitSet::with_capacity(bits)
}

/// Relies on FixedBitSet::contains: whether bit `bit` is set.
#[verifier::external_body]
fn bits_contains(b: &FixedBitSet, bit: usize) -> (r: bool)
    ensures
        r == bits_of(*b).contains(bit as nat),
{
    b.contains(bit)
}

/// Relies on FixedBitSet::set: sets or clears bit `bit`; it panics unless
/// `bit` is below the length.
#[verifier::external_body]
fn bits_set(b: &mut FixedBitSet, bit: usize, enabled: bool)
    requires
        bit < bit_len(*old(b)),
    ensures
        bit_len(*final(b)) == bit_len(*old(b)),
        bits_of(*final(b)) == if enabled {
            bits_of(*old(b)).insert(bit as nat)
        } else {
            bits_of(*old(b)).remove(bit as nat)
        },
{
    b.set(bit, enabled)
}

/// Relies on FixedBitSet's derived `==`: same length and same blocks, the
/// blocks being exactly as many as the length needs.
#[verifier::external_body]
fn bits_eq(a: &FixedBitSet, b: &FixedBitSet) -> (r: bool)
    ensures
        r == (bit_len(*a) == bit_len(*b) && bits_of(*a) == bits_of(*b)),
{
    a == b
}

/// Relies on FixedBitSet's `Clone`: a copy with the same length and bits.
pub assume_specification[ <FixedBitSet as Clone>::clone ](b: &FixedBitSet) -> (r: FixedBitSet)
    ensures
        bit_len(r) == bit_len(*b),
        bits_of(r) == bits_of(*b),
;

/// A tile whose cells are the bits of a bit set, listed row by row.
#[derive(Debug, Clone)]
pub struct BitTile {
    pub size: usize,
    cells: FixedBitSet,
}

impl BitTile {
    /// Position of cell (x, y) in the listing.
    pub fn index(&self, x: usize, y: usize) -> (r: usize)
        requires
            self.well_formed(),
            x < self.side(),
            y < self.side(),
        ensures
            r == x + y * self.side(),
            r < self.side() * self.side(),
    {
        proof {
            lemma_index(self.size as int, x as int, y as int);
        }
        x + y * self.size
    }
}

impl LifeTileSrc for BitTile {
    closed spec fn side(&self) -> nat {
        self.size as nat
    }

    closed spec fn cells(&self) -> Seq<bool> {
        Seq::new((self.size * self.size) as nat, |i: int| bits_of(self.cells).contains(i as nat))
    }

    closed spec fn well_formed(&self) -> bool {
        &&& bit_len(self.cells) == self.size * self.size
        &&& self.size * self.size <= usize::MAX
        &&& forall|i: nat| #[trigger] bits_of(self.cells).contains(i) ==> i < self.size * self.size
    }

    proof fn lemma_well_formed(&self) {
    }

    fn size(&self) -> (r: usize) {
        self.size
    }

    fn get(&self, x: usize, y: usize) -> (r: bool) {
        bits_contains(&self.cells, self.index(x, y))
    }
}

impl LifeTile for BitTile {
    fn new(size: usize) -> (r: BitTile) {
        let r = BitTile { size: size, cells: bits_with_capacity(size * size) };
        proof {
            assert(r.cells() =~= empty_grid(size as nat));
        }
        r
    }

    fn set(&mut self, x: usize, y: usize, value: bool) {
        let index = self.index(x, y);
        let ghost before = self.cells();
        bits_set(&mut self.cells, index, value);
        proof {
            assert(self.cells() =~= before.update(index as int, value));
        }
    }

    fn same_cells(&self, other: &BitTile) -> (r: bool) {
        let r = bits_eq(&self.cells, &other.cells);
        proof {
            if self.cells() == other.cells() {
                let n = self.size * self.size;
                assert(self.cells().len() == n);
                assert forall|i: nat| bits_of(self.cells).contains(i) == bits_of(other.cells).contains(i) by {
                    if i < n {
                        assert(self.cells()[i as int] == other.cells()[i as int]);
                    }
                }
                assert(bits_of(self.cells) =~= bits_of(other.cells));
            }
            if r {
                assert(self.cells() =~= other.cells());
            }
        }
        r
    }
}

impl PartialEq for BitTile {
    fn eq(&self, other: &BitTile) -> (r: bool) {
        bits_eq(&self.cells, &other.cells)
    }
}

impl vstd::std_specs::cmp::PartialEqSpecImpl for BitTile {
    open spec fn obeys_eq_spec() -> bool {
        true
    }

    closed spec fn eq_spec(&self, other: &BitTile) -> bool {
        bit_len(self.cells) == bit_len(other.cells) && bits_of(self.cells) == bits_of(other.cells)
    }
}

impl Eq for BitTile {
}

} // verus!
