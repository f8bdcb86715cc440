//! A match between two patterns: player A's fills the strip left of position
//! 0, player B's, mirrored to face A, fills the rest.
use crate::board::{is_window, score_of, Board, VecBoard};
use crate::cycle::{is_periodic, iterate};
use crate::grid::{cell_at, lemma_index, mirror_grid};
use crate::tile::lemma_same_index;
use crate::tile::{LifeTile, LifeTileSrc};
use crate::vec_tile::VecTile;
use vstd::prelude::*;

verus! {

/// The two backgrounds have been equal at some generation up to `g`.
pub open spec fn converged_by(a: Seq<bool>, b: Seq<bool>, s: nat, g: nat) -> bool {
    exists|j: nat| j <= g && #[trigger] iterate(a, s, j) == iterate(b, s, j)
}

/// The window of the strip at generation `g`.
pub open spec fn window_of(a: Seq<bool>, b: Seq<bool>, s: nat, g: nat) -> (int, int) {
    choose|w: (int, int)| is_window(a, b, s, g, w.0, w.1)
}

/// The result after `g` generations of a board of `a` against `b`: a draw
/// once the backgrounds have met, else the score of the window.
pub open spec fn game_score(a: Seq<bool>, b: Seq<bool>, s: nat, g: nat) -> (int, int) {
    if converged_by(a, b, s, g) {
        (0, 0)
    } else {
        let w = window_of(a, b, s, g);
        score_of(a, b, s, g, w.0, w.1)
    }
}

/// Backgrounds that have met stay equal.
pub proof fn lemma_converged_stays(a: Seq<bool>, b: Seq<bool>, s: nat, j: nat, k: nat)
    requires
        j <= k,
        iterate(a, s, j) == iterate(b, s, j),
    ensures
        iterate(a, s, k) == iterate(b, s, k),
    decreases k - j,
{
    if j < k {
        lemma_converged_stays(a, b, s, j, (k - 1) as nat);
    }
}

/// While the backgrounds differ, the window is determined by the strip.
pub proof fn lemma_window_unique(a: Seq<bool>, b: Seq<bool>, s: nat, g: nat, f1: int, l1: int, f2: int, l2: int)
    requires
        iterate(a, s, g) != iterate(b, s, g),
        is_window(a, b, s, g, f1, l1),
        is_window(a, b, s, g, f2, l2),
    ensures
        f1 == f2,
        l1 == l2,
{
    let (da, db) = (iterate(a, s, g), iterate(b, s, g));
    if f1 < f2 {
        assert(crate::board::life(a, b, s, g, f1) == da);
        if f1 > l1 {
            assert(crate::board::life(a, b, s, g, f1) == db);
        }
    }
    if f2 < f1 {
        assert(crate::board::life(a, b, s, g, f2) == da);
        if f2 > l2 {
            assert(crate::board::life(a, b, s, g, f2) == db);
        }
    }
    if l1 < l2 {
        assert(crate::board::life(a, b, s, g, l2) == db);
        if l2 < f2 {
            assert(crate::board::life(a, b, s, g, l2) == da);
        }
    }
    if l2 < l1 {
        assert(crate::board::life(a, b, s, g, l1) == db);
        if l1 < f1 {
            assert(crate::board::life(a, b, s, g, l1) == da);
        }
    }
}

/// A board of `tile_a` against `tile_b` mirrored, run for `generations`
/// generations; none when the game is a draw: the two patterns are equal, or
/// their backgrounds have met.
pub fn struggle_board<S1: LifeTileSrc, S2: LifeTileSrc>(
    generations: usize,
    tile_a: &S1,
    tile_b: &S2,
) -> (r: Option<VecBoard<VecTile>>)
    requires
        tile_a.well_formed(),
        tile_b.well_formed(),
        tile_a.side() == tile_b.side(),
        tile_a.side() > 0,
        is_periodic(tile_a.cells(), tile_a.side()),
        is_periodic(mirror_grid(tile_b.cells(), tile_b.side()), tile_b.side()),
        generations < isize::MAX / 4,
    ensures
        r is None <==> converged_by(
            tile_a.cells(),
            mirror_grid(tile_b.cells(), tile_b.side()),
            tile_a.side(),
            generations as nat,
        ),
        r matches Some(bd) ==> {
            &&& bd.well_formed()
            &&& bd.side() == tile_a.side()
            &&& bd.generation() == generations
            &&& bd.start_a() == tile_a.cells()
            &&& bd.start_b() == mirror_grid(tile_b.cells(), tile_b.side())
        },
{
    let ghost s = tile_a.side();
    let ghost ca = tile_a.cells();
    let ghost cb = mirror_grid(tile_b.cells(), s);
    let bit_tile_a = VecTile::copy_from(tile_a);
    let bit_tile_b = VecTile::copy_from(tile_b).mirror();
    let mut b = VecBoard::new(bit_tile_a, bit_tile_b);
    proof {
        if ca == cb {
            assert(iterate(ca, s, 0) == iterate(cb, s, 0));
        }
        if converged_by(ca, cb, s, 0) {
            let j = choose|j: nat| j <= 0 && #[trigger] iterate(ca, s, j) == iterate(cb, s, j);
            assert(j == 0);
        }
    }
    let mut g: usize = 0;
    while g < generations
        invariant
            g <= generations,
            generations < isize::MAX / 4,
            b is None <==> converged_by(ca, cb, s, g as nat),
            b matches Some(bd) ==> {
                &&& bd.well_formed()
                &&& bd.side() == s
                &&& bd.generation() == g
                &&& bd.start_a() == ca
                &&& bd.start_b() == cb
            },
        decreases generations - g,
    {
        b = match b {
            Some(x) => x.next_generation(),
            None => None,
        };
        proof {
            let g1 = (g + 1) as nat;
            if converged_by(ca, cb, s, g as nat) {
                let j = choose|j: nat| j <= g && #[trigger] iterate(ca, s, j) == iterate(cb, s, j);
                assert(j <= g1 && iterate(ca, s, j) == iterate(cb, s, j));
            } else {
                if b is None {
                    assert(iterate(ca, s, g1) == iterate(cb, s, g1));
                } else {
                    if converged_by(ca, cb, s, g1) {
                        let j = choose|j: nat| j <= g1 && #[trigger] iterate(ca, s, j) == iterate(cb, s, j);
                        if j <= g {
                            assert(converged_by(ca, cb, s, g as nat));
                        }
                    }
                }
            }
        }
        g += 1;
    }
    b
}

/// The scores of `tile_a` against `tile_b` after `generations` generations;
/// a draw, (0, 0), when the board is none.
pub fn struggle<S1: LifeTileSrc, S2: LifeTileSrc>(generations: usize, tile_a: &S1, tile_b: &S2) -> (r: (
    isize,
    isize,
))
    requires
        tile_a.well_formed(),
        tile_b.well_formed(),
        tile_a.side() == tile_b.side(),
        tile_a.side() > 0,
        is_periodic(tile_a.cells(), tile_a.side()),
        is_periodic(mirror_grid(tile_b.cells(), tile_b.side()), tile_b.side()),
        generations < isize::MAX / 4,
    ensures
        (r.0 as int, r.1 as int) == game_score(
            tile_a.cells(),
            mirror_grid(tile_b.cells(), tile_b.side()),
            tile_a.side(),
            generations as nat,
        ),
{
    let b = struggle_board(generations, tile_a, tile_b);
    match b {
        Some(x) => {
            proof {
                x.lemma_well_formed();
                let (ca, cb, s, g) = (x.start_a(), x.start_b(), x.side(), x.generation());
                let w = window_of(ca, cb, s, g);
                let wit = (x.first(), x.last());
                assert(is_window(ca, cb, s, g, wit.0, wit.1));
                lemma_window_unique(ca, cb, s, g, w.0, w.1, x.first(), x.last());
            }
            x.score()
        },
        None => (0, 0),
    }
}

/// The cells, relative to its corner, of a lightweight spaceship heading
/// towards +x.
pub open spec fn is_lwss_cell(dx: int, dy: int) -> bool {
    ||| (dx == 0 && dy == 0)
    ||| (dx == 0 && dy == 2)
    ||| (dx == 1 && dy == 3)
    ||| (dx == 2 && dy == 3)
    ||| (dx == 3 && dy == 3)
    ||| (dx == 4 && dy == 3)
    ||| (dx == 4 && dy == 2)
    ||| (dx == 4 && dy == 1)
    ||| (dx == 3 && dy == 0)
}

/// Brings cell (x, y) to life.
fn set_alive<T: LifeTile>(t: &mut T, x: usize, y: usize)
    requires
        old(t).well_formed(),
        x < old(t).side(),
        y < old(t).side(),
    ensures
        final(t).well_formed(),
        final(t).side() == old(t).side(),
        forall|xx: int, yy: int|
            0 <= xx < old(t).side() && 0 <= yy < old(t).side() ==> #[trigger] cell_at(
                final(t).cells(),
                old(t).side() as int,
                xx,
                yy,
            ) == ((xx == x && yy == y) || cell_at(old(t).cells(), old(t).side() as int, xx, yy)),
{
    proof {
        t.lemma_well_formed();
    }
    let ghost before = t.cells();
    let ghost s = t.side() as int;
    t.set(x, y, true);
    proof {
        assert forall|xx: int, yy: int| 0 <= xx < s && 0 <= yy < s implies #[trigger] cell_at(
            t.cells(),
            s,
            xx,
            yy,
        ) == ((xx == x && yy == y) || cell_at(before, s, xx, yy)) by {
            lemma_index(s, xx, yy);
            lemma_index(s, x as int, y as int);
            if xx + yy * s == x + y * s {
                lemma_same_index(s, xx, yy, x as int, y as int);
            }
        }
    }
}

/// Adds a lightweight spaceship heading towards +x with its corner at (x, y).
pub fn lwss_at<T: LifeTile>(t: &mut T, x: usize, y: usize)
    requires
        old(t).well_formed(),
        x + 4 < old(t).side(),
        y + 3 < old(t).side(),
    ensures
        final(t).well_formed(),
        final(t).side() == old(t).side(),
        forall|xx: int, yy: int|
            0 <= xx < old(t).side() && 0 <= yy < old(t).side() ==> #[trigger] cell_at(
                final(t).cells(),
                old(t).side() as int,
                xx,
                yy,
            ) == (cell_at(old(t).cells(), old(t).side() as int, xx, yy) || is_lwss_cell(xx - x, yy - y)),
{
    proof {
        t.lemma_well_formed();
        let s = t.side();
        assert(s <= s * s) by (nonlinear_arith)
            requires
                s > 0,
        ;
    }
    set_alive(t, x, y);
    set_alive(t, x, y + 2);
    set_alive(t, x + 1, y + 3);
    set_alive(t, x + 2, y + 3);
    set_alive(t, x + 3, y + 3);
    set_alive(t, x + 4, y + 3);
    set_alive(t, x + 4, y + 2);
    set_alive(t, x + 4, y + 2);
    set_alive(t, x + 4, y + 1);
    set_alive(t, x + 3, y);
}

} // verus!
