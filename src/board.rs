//! A board: the infinite strip of tiles, player A's background to the left of
//! position 0 and player B's from position 0 on, of which only the disturbed
//! window between them is stored.
use crate::cycle::{is_periodic, iterate, lemma_cycle_index, TileCycle};
use crate::grid::{cell_at, is_grid, step};
use crate::tile::{LifeTile, LifeTileSrc};
use rayon::iter::{IntoParallelIterator, ParallelIterator};
use std::sync::Arc;
use vstd::prelude::*;

verus! {

/// Tile `x` of the strip at generation `g`, where at generation 0 every tile
/// left of position 0 is `a` and every other tile is `b`.
pub open spec fn life(a: Seq<bool>, b: Seq<bool>, s: nat, g: nat, x: int) -> Seq<bool>
    decreases g,
{
    if g == 0 {
        if x < 0 {
            a
        } else {
            b
        }
    } else {
        let h = (g - 1) as nat;
        step(life(a, b, s, h, x), life(a, b, s, h, x - 1), life(a, b, s, h, x + 1), s)
    }
}

/// Two patterns of side `s` that a board can be built from.
pub open spec fn is_game(a: Seq<bool>, b: Seq<bool>, s: nat) -> bool {
    &&& s > 0
    &&& s * s <= usize::MAX
    &&& is_grid(a, s)
    &&& is_grid(b, s)
    &&& is_periodic(a, s)
    &&& is_periodic(b, s)
}

/// At generation `g` every tile left of `first` is A's background, every tile
/// right of `last` is B's, and the window `[first, last]`, when not empty,
/// starts with a tile that is not A's background and ends with one that is not
/// B's.
pub open spec fn is_window(a: Seq<bool>, b: Seq<bool>, s: nat, g: nat, first: int, last: int) -> bool {
    &&& first <= last + 1
    &&& forall|x: int| x < first ==> #[trigger] life(a, b, s, g, x) == iterate(a, s, g)
    &&& forall|x: int| x > last ==> #[trigger] life(a, b, s, g, x) == iterate(b, s, g)
    &&& first <= last ==> life(a, b, s, g, first) != iterate(a, s, g)
    &&& first <= last ==> life(a, b, s, g, last) != iterate(b, s, g)
}

/// How many tiles of `[lo, hi]` at generation `g` equal `target`.
pub open spec fn count_equal(a: Seq<bool>, b: Seq<bool>, s: nat, g: nat, lo: int, hi: int, target: Seq<bool>) -> int
    decreases hi - lo + 1,
{
    if hi < lo {
        0
    } else {
        count_equal(a, b, s, g, lo, hi - 1, target) + if life(a, b, s, g, hi) == target {
            1int
        } else {
            0int
        }
    }
}

/// The score at generation `g` with window `[first, last]`: each player
/// gains the tiles the window has moved into the other's side and loses those
/// it has moved into its own, and gains one for each tile of the window that
/// equals its starting pattern.
pub open spec fn score_of(a: Seq<bool>, b: Seq<bool>, s: nat, g: nat, first: int, last: int) -> (int, int) {
    (
        first + count_equal(a, b, s, g, first, last, a),
        -last - 1 + count_equal(a, b, s, g, first, last, b),
    )
}

/// The gray level of a cell in a picture: 0 when alive, 255 when dead.
pub open spec fn luma(alive: bool) -> u8 {
    if alive {
        0
    } else {
        255
    }
}

/// Cells of earlier tiles of a row lie before those of a later one.
proof fn lemma_block_index(k: int, xi: int, k0: int, s: int)
    requires
        0 <= k < k0,
        0 <= xi < s,
    ensures
        0 <= k * s + xi < k0 * s,
{
    assert(0 <= k * s) by (nonlinear_arith)
        requires
            0 <= k,
            0 <= s,
    ;
    assert(k * s + s <= k0 * s) by (nonlinear_arith)
        requires
            k + 1 <= k0,
            0 <= s,
    ;
}

/// A window of stored tiles over the infinite strip.
pub trait Board<T: LifeTile>: Sized {
    /// Side of the tiles.
    spec fn side(&self) -> nat;

    /// The number of generations run so far.
    spec fn generation(&self) -> nat;

    /// Player A's pattern.
    spec fn start_a(&self) -> Seq<bool>;

    /// Player B's pattern.
    spec fn start_b(&self) -> Seq<bool>;

    /// First position of the window.
    spec fn first(&self) -> int;

    /// Last position of the window.
    spec fn last(&self) -> int;

    spec fn well_formed(&self) -> bool;

    proof fn lemma_well_formed(&self)
        requires
            self.well_formed(),
        ensures
            is_game(self.start_a(), self.start_b(), self.side()),
            self.start_a() != self.start_b(),
            self.generation() < isize::MAX / 4,
            -(self.generation() as int) <= self.first(),
            self.last() < self.generation(),
            is_window(
                self.start_a(),
                self.start_b(),
                self.side(),
                self.generation(),
                self.first(),
                self.last(),
            ),
            iterate(self.start_a(), self.side(), self.generation()) != iterate(
                self.start_b(),
                self.side(),
                self.generation(),
            ),
    ;

    /// The board at generation 0 of patterns `a` and `b`, which must have the
    /// same size and each come back to itself; none when they are equal.
    fn new(a: T, b: T) -> (r: Option<Self>)
        requires
            a.well_formed(),
            b.well_formed(),
            a.side() == b.side(),
            a.side() > 0,
            is_periodic(a.cells(), a.side()),
            is_periodic(b.cells(), b.side()),
        ensures
            r is None <==> a.cells() == b.cells(),
            r matches Some(bd) ==> {
                &&& bd.well_formed()
                &&& bd.side() == a.side()
                &&& bd.generation() == 0
                &&& bd.start_a() == a.cells()
                &&& bd.start_b() == b.cells()
                &&& bd.first() == 0
                &&& bd.last() == -1
            },
    {
        if a.same_cells(&b) {
            return None;
        }
        Some(Self::new_inner(a, b))
    }

    /// The board at generation 0 of two different patterns.
    fn new_inner(a: T, b: T) -> (r: Self)
        requires
            a.well_formed(),
            b.well_formed(),
            a.side() == b.side(),
            a.side() > 0,
            is_periodic(a.cells(), a.side()),
            is_periodic(b.cells(), b.side()),
            a.cells() != b.cells(),
        ensures
            r.well_formed(),
            r.side() == a.side(),
            r.generation() == 0,
            r.start_a() == a.cells(),
            r.start_b() == b.cells(),
            r.first() == 0,
            r.last() == -1,
    ;

    fn lowest_non_a(&self) -> (r: isize)
        requires
            self.well_formed(),
        ensures
            r == self.first(),
    ;

    fn highest_non_b(&self) -> (r: isize)
        requires
            self.well_formed(),
        ensures
            r == self.last(),
    ;

    /// The board one generation on; none once the two backgrounds have become
    /// the same, after which the game is a draw.
    fn next_generation(&self) -> (r: Option<Self>)
        requires
            self.well_formed(),
            self.generation() + 1 < isize::MAX / 4,
        ensures
            r is None <==> iterate(self.start_a(), self.side(), self.generation() + 1) == iterate(
                self.start_b(),
                self.side(),
                self.generation() + 1,
            ),
            r matches Some(n) ==> {
                &&& n.well_formed()
                &&& n.side() == self.side()
                &&& n.generation() == self.generation() + 1
                &&& n.start_a() == self.start_a()
                &&& n.start_b() == self.start_b()
                &&& self.first() - 1 <= n.first()
                &&& n.last() <= self.last() + 1
                &&& n.first() <= n.last() ==> life(
                    self.start_a(),
                    self.start_b(),
                    self.side(),
                    n.generation(),
                    n.first(),
                ) != iterate(self.start_a(), self.side(), n.generation())
                &&& n.first() <= n.last() ==> life(
                    self.start_a(),
                    self.start_b(),
                    self.side(),
                    n.generation(),
                    n.last(),
                ) != iterate(self.start_b(), self.side(), n.generation())
            },
    ;

    /// A's background at the current generation.
    fn a_current(&self) -> (r: &T)
        requires
            self.well_formed(),
        ensures
            r.well_formed(),
            r.side() == self.side(),
            r.cells() == iterate(self.start_a(), self.side(), self.generation()),
    ;

    /// B's background at the current generation.
    fn b_current(&self) -> (r: &T)
        requires
            self.well_formed(),
        ensures
            r.well_formed(),
            r.side() == self.side(),
            r.cells() == iterate(self.start_b(), self.side(), self.generation()),
    ;

    /// A's pattern.
    fn a_original(&self) -> (r: &T)
        requires
            self.well_formed(),
        ensures
            r.well_formed(),
            r.side() == self.side(),
            r.cells() == self.start_a(),
    ;

    /// B's pattern.
    fn b_original(&self) -> (r: &T)
        requires
            self.well_formed(),
        ensures
            r.well_formed(),
            r.side() == self.side(),
            r.cells() == self.start_b(),
    ;

    /// The tile at position `x` of the strip.
    fn tile_at(&self, x: isize) -> (r: &T)
        requires
            self.well_formed(),
        ensures
            r.well_formed(),
            r.side() == self.side(),
            r.cells() == life(self.start_a(), self.start_b(), self.side(), self.generation(), x as int),
            x < self.first() ==> r.cells() == iterate(self.start_a(), self.side(), self.generation()),
            x > self.last() ==> r.cells() == iterate(self.start_b(), self.side(), self.generation()),
    ;

    /// The score of each player.
    fn score(&self) -> (r: (isize, isize))
        requires
            self.well_formed(),
        ensures
            (r.0 as int, r.1 as int) == score_of(
                self.start_a(),
                self.start_b(),
                self.side(),
                self.generation(),
                self.first(),
                self.last(),
            ),
    {
        proof {
            self.lemma_well_formed();
        }
        let ghost (a, b, s, g) = (self.start_a(), self.start_b(), self.side(), self.generation());
        let first = self.lowest_non_a();
        let last = self.highest_non_b();
        let mut score_a = first;
        let mut score_b = -last - 1;
        let mut x = first;
        while x <= last
            invariant
                self.well_formed(),
                a == self.start_a(),
                b == self.start_b(),
                s == self.side(),
                g == self.generation(),
                a != b,
                first == self.first(),
                last == self.last(),
                -(g as int) <= first <= x <= last + 1,
                last < g,
                g < isize::MAX / 4,
                0 <= count_equal(a, b, s, g, first as int, x - 1, a),
                0 <= count_equal(a, b, s, g, first as int, x - 1, b),
                count_equal(a, b, s, g, first as int, x - 1, a) + count_equal(a, b, s, g, first as int, x - 1, b) <= x
                    - first,
                score_a == first + count_equal(a, b, s, g, first as int, x - 1, a),
                score_b == -last - 1 + count_equal(a, b, s, g, first as int, x - 1, b),
            decreases last - x + 1,
        {
            let t = self.tile_at(x);
            if t.same_cells(self.a_original()) {
                score_a += 1;
            } else if t.same_cells(self.b_original()) {
                score_b += 1;
            }
            x += 1;
        }
        (score_a, score_b)
    }


    /// The window with one background tile on each side, as rows of gray
    /// levels with one entry per cell, tiles left to right: 0 for a live cell,
    /// 255 for a dead one.
    fn luma_rows(&self) -> (r: Vec<Vec<u8>>)
        requires
            self.well_formed(),
        ensures
            r@.len() == self.side(),
            forall|row: int|
                0 <= row < self.side() ==> (#[trigger] r@[row])@.len() == (self.last() - self.first()
                    + 3) * self.side(),
            forall|row: int, k: int, xx: int|
                0 <= row < self.side() && 0 <= k < self.last() - self.first() + 3 && 0 <= xx
                    < self.side() ==> #[trigger] r@[row]@[k * self.side() + xx] == luma(
                    cell_at(
                        life(
                            self.start_a(),
                            self.start_b(),
                            self.side(),
                            self.generation(),
                            self.first() - 1 + k,
                        ),
                        self.side() as int,
                        xx,
                        row,
                    ),
                ),
    {
        proof {
            self.lemma_well_formed();
        }
        let ghost (a, b, s, g) = (self.start_a(), self.start_b(), self.side(), self.generation());
        let size = self.tile_size();
        let first = self.lowest_non_a() - 1;
        let last = self.highest_non_b() + 1;
        let ghost count = last - first + 1;
        let mut rows: Vec<Vec<u8>> = Vec::new();
        for row in 0..size
            invariant
                self.well_formed(),
                a == self.start_a(),
                b == self.start_b(),
                s == self.side(),
                g == self.generation(),
                size == s,
                s > 0,
                s * s <= usize::MAX,
                first == self.first() - 1,
                last == self.last() + 1,
                count == last - first + 1,
                -(g as int) - 1 <= first <= last + 1,
                last <= g,
                g < isize::MAX / 4,
                rows@.len() == row,
                forall|rr: int| 0 <= rr < row ==> (#[trigger] rows@[rr])@.len() == count * s,
                forall|rr: int, k: int, xx: int|
                    0 <= rr < row && 0 <= k < count && 0 <= xx < s ==> #[trigger] rows@[rr]@[k * s + xx]
                        == luma(cell_at(life(a, b, s, g, first + k), s as int, xx, rr)),
        {
            let mut line: Vec<u8> = Vec::new();
            let mut x = first;
            while x <= last
                invariant
                    self.well_formed(),
                    a == self.start_a(),
                    b == self.start_b(),
                    s == self.side(),
                    g == self.generation(),
                    size == s,
                    s > 0,
                    s * s <= usize::MAX,
                    row < s,
                    count == last - first + 1,
                    -(g as int) - 1 <= first <= x <= last + 1,
                    last <= g,
                    g < isize::MAX / 4,
                    line@.len() == (x - first) * s,
                    forall|k: int, xx: int|
                        0 <= k < x - first && 0 <= xx < s ==> #[trigger] line@[k * s + xx] == luma(
                            cell_at(life(a, b, s, g, first + k), s as int, xx, row as int),
                        ),
                decreases last - x + 1,
            {
                let t = self.tile_at(x);
                let ghost k0 = x - first;
                let mut xx: usize = 0;
                while xx < size
                    invariant
                        t.well_formed(),
                        t.side() == s,
                        t.cells() == life(a, b, s, g, x as int),
                        size == s,
                        row < s,
                        k0 == x - first,
                        k0 >= 0,
                        xx <= s,
                        line@.len() == k0 * s + xx,
                        forall|k: int, xi: int|
                            0 <= k < k0 && 0 <= xi < s ==> #[trigger] line@[k * s + xi] == luma(
                                cell_at(life(a, b, s, g, first + k), s as int, xi, row as int),
                            ),
                        forall|xi: int|
                            0 <= xi < xx ==> #[trigger] line@[k0 * s + xi] == luma(
                                cell_at(life(a, b, s, g, x as int), s as int, xi, row as int),
                            ),
                    decreases size - xx,
                {
                    let v: u8 = if t.get(xx, row) {
                        0
                    } else {
                        255
                    };
                    let ghost before = line@;
                    line.push(v);
                    proof {
                        assert forall|k: int, xi: int|
                            0 <= k < k0 && 0 <= xi < s implies #[trigger] line@[k * s + xi] == luma(
                                cell_at(life(a, b, s, g, first + k), s as int, xi, row as int),
                            ) by {
                            lemma_block_index(k, xi, k0, s as int);
                            assert(line@[k * s + xi] == before[k * s + xi]);
                        }
                        assert forall|xi: int| 0 <= xi < xx + 1 implies #[trigger] line@[k0 * s + xi] == luma(
                            cell_at(life(a, b, s, g, x as int), s as int, xi, row as int),
                        ) by {
                            if xi < xx {
                                assert(line@[k0 * s + xi] == before[k0 * s + xi]);
                            }
                        }
                    }
                    xx += 1;
                }
                proof {
                    assert((k0 + 1) * s == k0 * s + s) by (nonlinear_arith);
                    assert forall|k: int, xi: int|
                        0 <= k < k0 + 1 && 0 <= xi < s implies #[trigger] line@[k * s + xi] == luma(
                            cell_at(life(a, b, s, g, first + k), s as int, xi, row as int),
                        ) by {
                        if k == k0 {
                            assert(line@[k0 * s + xi] == luma(
                                cell_at(life(a, b, s, g, x as int), s as int, xi, row as int),
                            ));
                        }
                    }
                }
                x += 1;
            }
            let ghost before_rows = rows@;
            rows.push(line);
            proof {
                assert forall|rr: int, k: int, xx: int|
                    0 <= rr < row + 1 && 0 <= k < count && 0 <= xx < s implies #[trigger] rows@[rr]@[k * s
                        + xx] == luma(cell_at(life(a, b, s, g, first + k), s as int, xx, rr)) by {
                    if rr < row {
                        assert(rows@[rr] == before_rows[rr]);
                    }
                }
            }
        }
        rows
    }

    /// Side of the tiles.
    fn tile_size(&self) -> (r: usize)
        requires
            self.well_formed(),
        ensures
            r == self.side(),
    {
        proof {
            self.lemma_well_formed();
        }
        self.a_current().size()
    }
}

/// Relies on rayon::join: it runs both closures and returns their results, the
/// first one's first.
#[verifier::external_body]
fn discover_cycles<T: LifeTile>(a: T, b: T) -> (r: (Option<TileCycle<T>>, Option<TileCycle<T>>))
    requires
        a.well_formed(),
        b.well_formed(),
        a.side() > 0,
        b.side() > 0,
    ensures
        r.0 is Some <==> is_periodic(a.cells(), a.side()),
        r.0 matches Some(c) ==> c.well_formed() && c.side() == a.side() && c@[0] == a.cells(),
        r.1 is Some <==> is_periodic(b.cells(), b.side()),
        r.1 matches Some(c) ==> c.well_formed() && c.side() == b.side() && c@[0] == b.cells(),
{
    rayon::join(move || TileCycle::new(a), move || TileCycle::new(b))
}

/// Relies on rayon's indexed parallel iterators: mapping the range
/// `first..last + 1` and collecting into a `Vec` gives one result per
/// position, in the order of the positions.
#[verifier::external_body]
fn step_positions<T: LifeTile>(board: &VecBoard<T>, first: isize, last: isize) -> (r: Vec<T>)
    requires
        board.well_formed(),
        board.generation() + 1 < isize::MAX / 4,
        board.first() - 1 <= first,
        first <= last + 1,
        last <= board.last() + 1,
    ensures
        r@.len() == last - first + 1,
        forall|i: int|
            0 <= i < r@.len() ==> (#[trigger] r@[i]).well_formed() && r@[i].side() == board.side()
                && r@[i].cells() == life(
                board.start_a(),
                board.start_b(),
                board.side(),
                board.generation() + 1,
                first + i,
            ),
{
    (first..last + 1).into_par_iter().map(|x| board.step_at(x)).collect()
}

/// The board kept as a vector of tiles from `vec_start` on, of which the
/// first `num_a_at_start` are A's background.
pub struct VecBoard<T: LifeTile> {
    tiles: Vec<T>,
    vec_start: isize,
    num_a_at_start: isize,
    a: Arc<TileCycle<T>>,
    b: Arc<TileCycle<T>>,
    generation: usize,
}

impl<T: LifeTile> VecBoard<T> {
    /// The next generation of the tile at position `x`.
    pub fn step_at(&self, x: isize) -> (r: T)
        requires
            self.well_formed(),
            self.generation() + 1 < isize::MAX / 4,
            self.first() - 1 <= x <= self.last() + 1,
        ensures
            r.well_formed(),
            r.side() == self.side(),
            r.cells() == life(self.start_a(), self.start_b(), self.side(), self.generation() + 1, x as int),
    {
        proof {
            self.lemma_well_formed();
        }
        let t = self.tile_at(x);
        t.next_generation(self.tile_at(x - 1), self.tile_at(x + 1))
    }
}

impl<T: LifeTile> Board<T> for VecBoard<T> {
    closed spec fn side(&self) -> nat {
        (*self.a).side()
    }

    closed spec fn generation(&self) -> nat {
        self.generation as nat
    }

    closed spec fn start_a(&self) -> Seq<bool> {
        (*self.a)@[0]
    }

    closed spec fn start_b(&self) -> Seq<bool> {
        (*self.b)@[0]
    }

    closed spec fn first(&self) -> int {
        self.vec_start + self.num_a_at_start
    }

    closed spec fn last(&self) -> int {
        self.vec_start + self.tiles@.len() - 1
    }

    closed spec fn well_formed(&self) -> bool {
        let (a, b, s, g) = (self.start_a(), self.start_b(), self.side(), self.generation());
        &&& (*self.a).well_formed()
        &&& (*self.b).well_formed()
        &&& (*self.b).side() == s
        &&& is_game(a, b, s)
        &&& a != b
        &&& g < isize::MAX / 4
        &&& 0 <= self.num_a_at_start <= self.tiles@.len()
        &&& -(g as int) <= self.vec_start
        &&& -(g as int) <= self.first()
        &&& self.last() < g
        &&& forall|i: int|
            self.num_a_at_start <= i < self.tiles@.len() ==> (#[trigger] self.tiles@[i]).well_formed()
                && self.tiles@[i].side() == s && self.tiles@[i].cells() == life(
                a,
                b,
                s,
                g,
                self.vec_start + i,
            )
        &&& is_window(a, b, s, g, self.first(), self.last())
        &&& iterate(a, s, g) != iterate(b, s, g)
    }

    proof fn lemma_well_formed(&self) {
    }

    fn new_inner(a: T, b: T) -> (r: Self) {
        let ghost (ca, cb, s) = (a.cells(), b.cells(), a.side());
        proof {
            a.lemma_well_formed();
        }
        let (oa, ob) = discover_cycles(a, b);
        let r = VecBoard {
            tiles: Vec::new(),
            vec_start: 0,
            num_a_at_start: 0,
            a: Arc::new(oa.unwrap()),
            b: Arc::new(ob.unwrap()),
            generation: 0,
        };
        proof {
            assert(iterate(ca, s, 0) == ca);
            assert(iterate(cb, s, 0) == cb);
        }
        r
    }

    fn lowest_non_a(&self) -> (r: isize) {
        self.vec_start + self.num_a_at_start
    }

    fn highest_non_b(&self) -> (r: isize) {
        self.vec_start + self.tiles.len() as isize - 1
    }

    #[verifier::spinoff_prover]
    fn next_generation(&self) -> (r: Option<Self>) {
        proof {
            self.lemma_well_formed();
        }
        let ghost (a, b, s, g) = (self.start_a(), self.start_b(), self.side(), self.generation());
        let first = self.lowest_non_a() - 1;
        let last = self.highest_non_b() + 1;
        let a_next = self.a.default_at_generation(self.generation + 1);
        let b_next = self.b.default_at_generation(self.generation + 1);
        if a_next.same_cells(b_next) {
            return None;
        }
        let mut tiles_new = step_positions(self, first, last);
        let ghost stepped = tiles_new@;
        let ghost len0 = stepped.len();
        let mut num_a: usize = 0;
        while num_a < tiles_new.len() && tiles_new[num_a].same_cells(a_next)
            invariant
                tiles_new@ == stepped,
                num_a <= len0,
                len0 == stepped.len(),
                a_next.well_formed(),
                forall|i: int| 0 <= i < len0 ==> (#[trigger] stepped[i]).well_formed(),
                forall|i: int| 0 <= i < num_a ==> (#[trigger] stepped[i]).cells() == a_next.cells(),
            decreases len0 - num_a,
        {
            num_a += 1;
        }
        assert(num_a == len0 || stepped[num_a as int].cells() != a_next.cells());
        while tiles_new.len() > 0 && tiles_new[tiles_new.len() - 1].same_cells(b_next)
            invariant
                tiles_new@ == stepped.subrange(0, tiles_new@.len() as int),
                tiles_new@.len() <= len0,
                len0 == stepped.len(),
                b_next.well_formed(),
                forall|i: int| 0 <= i < len0 ==> (#[trigger] stepped[i]).well_formed(),
                forall|i: int|
                    tiles_new@.len() <= i < len0 ==> (#[trigger] stepped[i]).cells() == b_next.cells(),
            decreases tiles_new@.len(),
        {
            tiles_new.pop();
        }
        let r = VecBoard {
            tiles: tiles_new,
            vec_start: first,
            num_a_at_start: num_a as isize,
            a: self.a.clone(),
            b: self.b.clone(),
            generation: self.generation + 1,
        };
        proof {
            let g1 = (g + 1) as nat;
            let da = iterate(a, s, g1);
            let db = iterate(b, s, g1);
            assert(r.start_a() == a && r.start_b() == b && r.side() == s);
            assert(r.tiles@ =~= stepped.subrange(0, r.tiles@.len() as int));
            assert(num_a <= r.tiles@.len()) by {
                if num_a > r.tiles@.len() {
                    let k = r.tiles@.len() as int;
                    assert(stepped[k].cells() == a_next.cells());
                    assert(stepped[k].cells() == b_next.cells());
                }
            }
            assert forall|x: int| x < r.first() implies #[trigger] life(a, b, s, g1, x) == da by {
                if x < first {
                    assert(life(a, b, s, g, x) == iterate(a, s, g));
                    assert(life(a, b, s, g, x - 1) == iterate(a, s, g));
                    assert(life(a, b, s, g, x + 1) == iterate(a, s, g));
                } else {
                    assert(stepped[x - first].cells() == a_next.cells());
                }
            }
            assert forall|x: int| x > r.last() implies #[trigger] life(a, b, s, g1, x) == db by {
                if x > last {
                    assert(life(a, b, s, g, x) == iterate(b, s, g));
                    assert(life(a, b, s, g, x - 1) == iterate(b, s, g));
                    assert(life(a, b, s, g, x + 1) == iterate(b, s, g));
                } else {
                    assert(stepped[x - first].cells() == b_next.cells());
                }
            }
            if r.first() <= r.last() {
                assert(stepped[num_a as int].cells() != a_next.cells());
                assert(stepped[r.tiles@.len() - 1].cells() != b_next.cells());
            }
            assert forall|i: int|
                r.num_a_at_start <= i < r.tiles@.len() implies (#[trigger] r.tiles@[i]).well_formed()
                    && r.tiles@[i].side() == s && r.tiles@[i].cells() == life(a, b, s, g1, r.vec_start + i) by {
                assert(r.tiles@[i] == stepped[i]);
            }
        }
        Some(r)
    }

    fn a_current(&self) -> (r: &T) {
        self.a.default_at_generation(self.generation)
    }

    fn b_current(&self) -> (r: &T) {
        self.b.default_at_generation(self.generation)
    }

    fn a_original(&self) -> (r: &T) {
        self.a.start()
    }

    fn b_original(&self) -> (r: &T) {
        self.b.start()
    }

    fn tile_at(&self, x: isize) -> (r: &T) {
        if x < self.lowest_non_a() {
            self.a_current()
        } else if x > self.highest_non_b() {
            self.b_current()
        } else {
            &self.tiles[(x - self.vec_start) as usize]
        }
    }
}

/// An untouched position holds its side's cycle tile for the current
/// generation.
pub proof fn lemma_background<T: LifeTile, B: Board<T>>(bd: &B, ca: &TileCycle<T>, cb: &TileCycle<T>, x: int)
    requires
        bd.well_formed(),
        ca.well_formed(),
        cb.well_formed(),
        ca@[0] == bd.start_a(),
        cb@[0] == bd.start_b(),
        ca.side() == bd.side(),
        cb.side() == bd.side(),
    ensures
        x < bd.first() ==> life(bd.start_a(), bd.start_b(), bd.side(), bd.generation(), x)
            == ca@[(bd.generation() % ca@.len()) as int],
        x > bd.last() ==> life(bd.start_a(), bd.start_b(), bd.side(), bd.generation(), x)
            == cb@[(bd.generation() % cb@.len()) as int],
{
    bd.lemma_well_formed();
    ca.lemma_well_formed();
    cb.lemma_well_formed();
    lemma_cycle_index(ca@, ca.side(), bd.generation());
    lemma_cycle_index(cb@, cb.side(), bd.generation());
}

} // verus!
