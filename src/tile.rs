//! Square tiles of cells and their Game-of-Life transition.
use crate::grid::{
    cell_at, empty_grid, is_grid, lemma_grid_ext, lemma_grid_from, lemma_index, lemma_side_fits,
    mirror_grid, mirror_grid_over_x, next_cell, step, strip_cell, window_count,
};
use vstd::arithmetic::div_mod::lemma_small_mod;
use vstd::prelude::*;

verus! {

/// Relies on num_integer::mod_floor: for a positive modulus the floored
/// remainder lies in `[0, m)` and is congruent to `x`.
#[verifier::external_body]
fn floor_mod(x: isize, m: isize) -> (r: isize)
    requires
        m > 0,
    ensures
        r == x % m,
        0 <= r < m,
{
    num_integer::mod_floor(x, m)
}

/// A source of square patterns of cells.
pub trait LifeTileSrc {
    /// Side length.
    spec fn side(&self) -> nat;

    /// The cells listed row by row: cell (x, y) at `x + y * side`.
    spec fn cells(&self) -> Seq<bool>;

    /// The internal state is consistent.
    spec fn well_formed(&self) -> bool;

    proof fn lemma_well_formed(&self)
        requires
            self.well_formed(),
        ensures
            is_grid(self.cells(), self.side()),
            self.side() * self.side() <= usize::MAX,
    ;

    fn size(&self) -> (r: usize)
        requires
            self.well_formed(),
        ensures
            r == self.side(),
    ;

    fn get(&self, x: usize, y: usize) -> (r: bool)
        requires
            self.well_formed(),
            x < self.side(),
            y < self.side(),
        ensures
            r == cell_at(self.cells(), self.side() as int, x as int, y as int),
    ;
}

/// Cell (x, y) seen from `t`, wrapping columns into `previous` and `next` and
/// rows around `t`.
fn neighbor<T: LifeTileSrc>(t: &T, previous: &T, next: &T, x: isize, y: isize) -> (r: bool)
    requires
        t.well_formed(),
        previous.well_formed(),
        next.well_formed(),
        previous.side() == t.side(),
        next.side() == t.side(),
        t.side() > 0,
        -1 <= x <= t.side(),
        -1 <= y <= t.side(),
    ensures
        r == strip_cell(t.cells(), previous.cells(), next.cells(), t.side() as int, x as int, y as int),
{
    proof {
        t.lemma_well_formed();
        lemma_side_fits(t.side() as int);
    }
    let size = t.size() as isize;
    let y2 = floor_mod(y, size);
    let x2 = floor_mod(x, size);
    if x < 0 {
        previous.get(x2 as usize, y2 as usize)
    } else if x >= size {
        next.get(x2 as usize, y2 as usize)
    } else {
        t.get(x2 as usize, y2 as usize)
    }
}

/// Inside `[0, s)` the strip shows the tile itself.
proof fn lemma_inside(t: Seq<bool>, p: Seq<bool>, n: Seq<bool>, s: int, x: int, y: int)
    requires
        0 <= x < s,
        0 <= y < s,
    ensures
        strip_cell(t, p, n, s, x, y) == cell_at(t, s, x, y),
{
    lemma_small_mod(x as nat, s as nat);
    lemma_small_mod(y as nat, s as nat);
}

/// The rule for a cell whose whole window lies inside the tile.
fn interior_cell<T: LifeTileSrc>(t: &T, x: usize, y: usize) -> (r: bool)
    requires
        t.well_formed(),
        0 < x < t.side() - 1,
        0 < y < t.side() - 1,
    ensures
        forall|p: Seq<bool>, n: Seq<bool>|
            r == next_cell(t.cells(), p, n, t.side() as int, x as int, y as int),
{
    let size = t.size();
    let mut c: usize = 0;
    if t.get(x - 1, y - 1) {
        c += 1;
    }
    if t.get(x, y - 1) {
        c += 1;
    }
    if t.get(x + 1, y - 1) {
        c += 1;
    }
    if t.get(x - 1, y) {
        c += 1;
    }
    if t.get(x, y) {
        c += 1;
    }
    if t.get(x + 1, y) {
        c += 1;
    }
    if t.get(x - 1, y + 1) {
        c += 1;
    }
    if t.get(x, y + 1) {
        c += 1;
    }
    if t.get(x + 1, y + 1) {
        c += 1;
    }
    let r = if t.get(x, y) {
        c == 3 || c == 4
    } else {
        c == 3
    };
    proof {
        let s = t.side() as int;
        let cs = t.cells();
        let (xi, yi) = (x as int, y as int);
        assert forall|p: Seq<bool>, n: Seq<bool>|
            r == next_cell(cs, p, n, s, xi, yi) by {
            lemma_inside(cs, p, n, s, xi - 1, yi - 1);
            lemma_inside(cs, p, n, s, xi, yi - 1);
            lemma_inside(cs, p, n, s, xi + 1, yi - 1);
            lemma_inside(cs, p, n, s, xi - 1, yi);
            lemma_inside(cs, p, n, s, xi, yi);
            lemma_inside(cs, p, n, s, xi + 1, yi);
            lemma_inside(cs, p, n, s, xi - 1, yi + 1);
            lemma_inside(cs, p, n, s, xi, yi + 1);
            lemma_inside(cs, p, n, s, xi + 1, yi + 1);
            assert(c == window_count(cs, p, n, s, xi, yi));
        }
    }
    r
}

/// A tile that can be built, changed cell by cell, and evolved.
pub trait LifeTile: LifeTileSrc + Sized + Clone + Eq + Send + Sync {
    /// A tile of side `size` with every cell dead.
    fn new(size: usize) -> (r: Self)
        requires
            size * size <= usize::MAX,
        ensures
            r.well_formed(),
            r.side() == size,
            r.cells() == empty_grid(size as nat),
    ;

    /// Sets cell (x, y) to `value`.
    fn set(&mut self, x: usize, y: usize, value: bool)
        requires
            old(self).well_formed(),
            x < old(self).side(),
            y < old(self).side(),
        ensures
            final(self).well_formed(),
            final(self).side() == old(self).side(),
            final(self).cells() == old(self).cells().update(x + y * old(self).side(), value),
    ;

    /// Whether the two tiles hold the same cells.
    fn same_cells(&self, other: &Self) -> (r: bool)
        requires
            self.well_formed(),
            other.well_formed(),
        ensures
            r == (self.cells() == other.cells()),
    ;

    /// A tile of this kind with the cells of `t_in`.
    fn copy_from<S: LifeTileSrc>(t_in: &S) -> (r: Self)
        requires
            t_in.well_formed(),
        ensures
            r.well_formed(),
            r.side() == t_in.side(),
            r.cells() == t_in.cells(),
    {
        proof {
            t_in.lemma_well_formed();
        }
        let size = t_in.size();
        let mut t = Self::new(size);
        proof {
            lemma_empty_cells(size as nat);
        }
        for x in 0..size
            invariant
                t_in.well_formed(),
                size == t_in.side(),
                is_grid(t_in.cells(), size as nat),
                t.well_formed(),
                t.side() == size,
                forall|xx: int, yy: int|
                    0 <= xx < size && 0 <= yy < size ==> #[trigger] cell_at(t.cells(), size as int, xx, yy)
                        == if xx < x {
                        cell_at(t_in.cells(), size as int, xx, yy)
                    } else {
                        false
                    },
        {
            for y in 0..size
                invariant
                    t_in.well_formed(),
                    size == t_in.side(),
                    is_grid(t_in.cells(), size as nat),
                    t.well_formed(),
                    t.side() == size,
                    x < size,
                    forall|xx: int, yy: int|
                        0 <= xx < size && 0 <= yy < size ==> #[trigger] cell_at(t.cells(), size as int, xx, yy)
                            == if xx < x || (xx == x && yy < y) {
                            cell_at(t_in.cells(), size as int, xx, yy)
                        } else {
                            false
                        },
            {
                let v = t_in.get(x, y);
                let ghost before = t.cells();
                proof {
                    t.lemma_well_formed();
                }
                t.set(x, y, v);
                proof {
                    lemma_index(size as int, x as int, y as int);
                    assert forall|xx: int, yy: int|
                        0 <= xx < size && 0 <= yy < size implies #[trigger] cell_at(t.cells(), size as int, xx, yy)
                            == if xx < x || (xx == x && yy < y + 1) {
                            cell_at(t_in.cells(), size as int, xx, yy)
                        } else {
                            false
                        } by {
                        lemma_index(size as int, xx, yy);
                        if xx != x || yy != y {
                            if xx + yy * size == x + y * size {
                                lemma_same_index(size as int, xx, yy, x as int, y as int);
                            }
                            assert(cell_at(t.cells(), size as int, xx, yy) == cell_at(before, size as int, xx, yy));
                        }
                    }
                }
            }
        }
        proof {
            t.lemma_well_formed();
            lemma_grid_ext(t.cells(), t_in.cells(), size as nat);
        }
        t
    }

    /// The next generation of this tile, where `previous` lies to its left and
    /// `next` to its right.
    fn next_generation(&self, previous: &Self, next: &Self) -> (r: Self)
        requires
            self.well_formed(),
            previous.well_formed(),
            next.well_formed(),
            previous.side() == self.side(),
            next.side() == self.side(),
            self.side() > 0,
        ensures
            r.well_formed(),
            r.side() == self.side(),
            r.cells() == step(self.cells(), previous.cells(), next.cells(), self.side()),
    {
        let ghost goal = step(self.cells(), previous.cells(), next.cells(), self.side());
        proof {
            self.lemma_well_formed();
            lemma_grid_from(
                self.side(),
                |xx: int, yy: int| next_cell(self.cells(), previous.cells(), next.cells(), self.side() as int, xx, yy),
            );
        }
        let size = self.size();
        let mut t = Self::new(size);
        let mut y: usize = 0;
        while y < size
            invariant
                self.well_formed(),
                previous.well_formed(),
                next.well_formed(),
                previous.side() == size,
                next.side() == size,
                size == self.side(),
                size > 0,
                size * size <= usize::MAX,
                y <= size,
                is_grid(goal, size as nat),
                forall|xx: int, yy: int|
                    0 <= xx < size && 0 <= yy < size ==> #[trigger] cell_at(goal, size as int, xx, yy)
                        == next_cell(self.cells(), previous.cells(), next.cells(), size as int, xx, yy),
                t.well_formed(),
                t.side() == size,
                forall|i: int|
                    0 <= i < size * size ==> #[trigger] t.cells()[i] == if i < y * size {
                        goal[i]
                    } else {
                        false
                    },
            decreases size - y,
        {
            let mut x: usize = 0;
            while x < size
                invariant
                    self.well_formed(),
                    previous.well_formed(),
                    next.well_formed(),
                    previous.side() == size,
                    next.side() == size,
                    size == self.side(),
                    size > 0,
                    size * size <= usize::MAX,
                    y < size,
                    x <= size,
                    is_grid(goal, size as nat),
                    forall|xx: int, yy: int|
                        0 <= xx < size && 0 <= yy < size ==> #[trigger] cell_at(goal, size as int, xx, yy)
                            == next_cell(self.cells(), previous.cells(), next.cells(), size as int, xx, yy),
                    t.well_formed(),
                    t.side() == size,
                    forall|i: int|
                        0 <= i < size * size ==> #[trigger] t.cells()[i] == if i < x + y * size {
                            goal[i]
                        } else {
                            false
                        },
                decreases size - x,
            {
                let v = if x == 0 || y == 0 || x == size - 1 || y == size - 1 {
                    self.next_generation_cell(previous, next, x, y)
                } else {
                    interior_cell(self, x, y)
                };
                proof {
                    lemma_index(size as int, x as int, y as int);
                    assert(v == cell_at(goal, size as int, x as int, y as int));
                    t.lemma_well_formed();
                }
                t.set(x, y, v);
                x += 1;
            }
            proof {
                assert(x + y * size == (y + 1) * size) by (nonlinear_arith)
                    requires
                        x == size,
                ;
            }
            y += 1;
        }
        proof {
            t.lemma_well_formed();
            assert(t.cells() =~= goal);
        }
        t
    }

    /// The next state of cell (x, y) of this tile, where `previous` lies to its
    /// left and `next` to its right.
    fn next_generation_cell(&self, previous: &Self, next: &Self, x: usize, y: usize) -> (r: bool)
        requires
            self.well_formed(),
            previous.well_formed(),
            next.well_formed(),
            previous.side() == self.side(),
            next.side() == self.side(),
            x < self.side(),
            y < self.side(),
        ensures
            r == next_cell(self.cells(), previous.cells(), next.cells(), self.side() as int, x as int, y as int),
    {
        proof {
            self.lemma_well_formed();
            lemma_side_fits(self.side() as int);
        }
        let xi = x as isize;
        let yi = y as isize;
        let mut c: usize = 0;
        if neighbor(self, previous, next, xi - 1, yi - 1) {
            c += 1;
        }
        if neighbor(self, previous, next, xi, yi - 1) {
            c += 1;
        }
        if neighbor(self, previous, next, xi + 1, yi - 1) {
            c += 1;
        }
        if neighbor(self, previous, next, xi - 1, yi) {
            c += 1;
        }
        if neighbor(self, previous, next, xi, yi) {
            c += 1;
        }
        if neighbor(self, previous, next, xi + 1, yi) {
            c += 1;
        }
        if neighbor(self, previous, next, xi - 1, yi + 1) {
            c += 1;
        }
        if neighbor(self, previous, next, xi, yi + 1) {
            c += 1;
        }
        if neighbor(self, previous, next, xi + 1, yi + 1) {
            c += 1;
        }
        if self.get(x, y) {
            c == 3 || c == 4
        } else {
            c == 3
        }
    }

    /// This tile reflected along the vertical axis (column x to column size - 1 - x).
    fn mirror(&self) -> (r: Self)
        requires
            self.well_formed(),
        ensures
            r.well_formed(),
            r.side() == self.side(),
            r.cells() == mirror_grid(self.cells(), self.side()),
    {
        proof {
            self.lemma_well_formed();
        }
        let size = self.size();
        let mut t = Self::new(size);
        proof {
            lemma_empty_cells(size as nat);
        }
        for x in 0..size
            invariant
                self.well_formed(),
                size == self.side(),
                is_grid(self.cells(), size as nat),
                t.well_formed(),
                t.side() == size,
                forall|xx: int, yy: int|
                    0 <= xx < size && 0 <= yy < size ==> #[trigger] cell_at(t.cells(), size as int, xx, yy)
                        == if xx < x {
                        cell_at(self.cells(), size as int, size - 1 - xx, yy)
                    } else {
                        false
                    },
        {
            for y in 0..size
                invariant
                    self.well_formed(),
                    size == self.side(),
                    is_grid(self.cells(), size as nat),
                    t.well_formed(),
                    t.side() == size,
                    x < size,
                    forall|xx: int, yy: int|
                        0 <= xx < size && 0 <= yy < size ==> #[trigger] cell_at(t.cells(), size as int, xx, yy)
                            == if xx < x || (xx == x && yy < y) {
                            cell_at(self.cells(), size as int, size - 1 - xx, yy)
                        } else {
                            false
                        },
            {
                let v = self.get(size - x - 1, y);
                let ghost before = t.cells();
                proof {
                    t.lemma_well_formed();
                }
                t.set(x, y, v);
                proof {
                    lemma_index(size as int, x as int, y as int);
                    assert forall|xx: int, yy: int|
                        0 <= xx < size && 0 <= yy < size implies #[trigger] cell_at(t.cells(), size as int, xx, yy)
                            == if xx < x || (xx == x && yy < y + 1) {
                            cell_at(self.cells(), size as int, size - 1 - xx, yy)
                        } else {
                            false
                        } by {
                        lemma_index(size as int, xx, yy);
                        if xx != x || yy != y {
                            if xx + yy * size == x + y * size {
                                lemma_same_index(size as int, xx, yy, x as int, y as int);
                            }
                            assert(cell_at(t.cells(), size as int, xx, yy) == cell_at(before, size as int, xx, yy));
                        }
                    }
                }
            }
        }
        proof {
            t.lemma_well_formed();
            let f = |xx: int, yy: int| cell_at(self.cells(), size as int, size - 1 - xx, yy);
            lemma_grid_from(size as nat, f);
            lemma_grid_ext(t.cells(), mirror_grid(self.cells(), size as nat), size as nat);
        }
        t
    }

    /// This tile reflected along the horizontal axis (row y to row size - 1 - y).
    fn mirror_over_x(&self) -> (r: Self)
        requires
            self.well_formed(),
        ensures
            r.well_formed(),
            r.side() == self.side(),
            r.cells() == mirror_grid_over_x(self.cells(), self.side()),
    {
        proof {
            self.lemma_well_formed();
        }
        let size = self.size();
        let mut t = Self::new(size);
        proof {
            lemma_empty_cells(size as nat);
        }
        for x in 0..size
            invariant
                self.well_formed(),
                size == self.side(),
                is_grid(self.cells(), size as nat),
                t.well_formed(),
                t.side() == size,
                forall|xx: int, yy: int|
                    0 <= xx < size && 0 <= yy < size ==> #[trigger] cell_at(t.cells(), size as int, xx, yy)
                        == if xx < x {
                        cell_at(self.cells(), size as int, xx, size - 1 - yy)
                    } else {
                        false
                    },
        {
            for y in 0..size
                invariant
                    self.well_formed(),
                    size == self.side(),
                    is_grid(self.cells(), size as nat),
                    t.well_formed(),
                    t.side() == size,
                    x < size,
                    forall|xx: int, yy: int|
                        0 <= xx < size && 0 <= yy < size ==> #[trigger] cell_at(t.cells(), size as int, xx, yy)
                            == if xx < x || (xx == x && yy < y) {
                            cell_at(self.cells(), size as int, xx, size - 1 - yy)
                        } else {
                            false
                        },
            {
                let v = self.get(x, size - y - 1);
                let ghost before = t.cells();
                proof {
                    t.lemma_well_formed();
                }
                t.set(x, y, v);
                proof {
                    lemma_index(size as int, x as int, y as int);
                    assert forall|xx: int, yy: int|
                        0 <= xx < size && 0 <= yy < size implies #[trigger] cell_at(t.cells(), size as int, xx, yy)
                            == if xx < x || (xx == x && yy < y + 1) {
                            cell_at(self.cells(), size as int, xx, size - 1 - yy)
                        } else {
                            false
                        } by {
                        lemma_index(size as int, xx, yy);
                        if xx != x || yy != y {
                            if xx + yy * size == x + y * size {
                                lemma_same_index(size as int, xx, yy, x as int, y as int);
                            }
                            assert(cell_at(t.cells(), size as int, xx, yy) == cell_at(before, size as int, xx, yy));
                        }
                    }
                }
            }
        }
        proof {
            t.lemma_well_formed();
            let f = |xx: int, yy: int| cell_at(self.cells(), size as int, xx, size - 1 - yy);
            lemma_grid_from(size as nat, f);
            lemma_grid_ext(t.cells(), mirror_grid_over_x(self.cells(), size as nat), size as nat);
        }
        t
    }
}

/// Every cell of the empty tile is dead.
proof fn lemma_empty_cells(s: nat)
    ensures
        forall|x: int, y: int|
            0 <= x < s && 0 <= y < s ==> !#[trigger] cell_at(empty_grid(s), s as int, x, y),
{
    assert forall|x: int, y: int| 0 <= x < s && 0 <= y < s implies !#[trigger] cell_at(
        empty_grid(s),
        s as int,
        x,
        y,
    ) by {
        lemma_index(s as int, x, y);
    }
}

/// Distinct cells of a tile have distinct indices.
pub proof fn lemma_same_index(s: int, x1: int, y1: int, x2: int, y2: int)
    requires
        0 <= x1 < s,
        0 <= y1 < s,
        0 <= x2 < s,
        0 <= y2 < s,
        x1 + y1 * s == x2 + y2 * s,
    ensures
        x1 == x2,
        y1 == y2,
{
    lemma_index(s, x1, y1);
    lemma_index(s, x2, y2);
}

} // verus!
