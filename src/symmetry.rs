//! Reflection: mirroring every tile and the strip itself commutes with the
//! game, so swapping the players and mirroring both patterns swaps the score.
use crate::board::{count_equal, is_window, life};
use crate::cycle::iterate;
use crate::game::{converged_by, game_score, window_of};
use crate::grid::{
    cell_at, is_grid, lemma_grid_ext, lemma_grid_from, lemma_mirror_involution, mirror_grid,
    next_cell, step, strip_cell, window_count,
};
use vstd::arithmetic::div_mod::{lemma_fundamental_div_mod_converse, lemma_mod_bound};
use vstd::prelude::*;

verus! {

/// The cells of a mirrored tile.
proof fn lemma_mirror_cells(c: Seq<bool>, s: nat)
    ensures
        is_grid(mirror_grid(c, s), s),
        forall|x: int, y: int|
            0 <= x < s && 0 <= y < s ==> #[trigger] cell_at(mirror_grid(c, s), s as int, x, y) == cell_at(
                c,
                s as int,
                s - 1 - x,
                y,
            ),
{
    lemma_grid_from(s, |x: int, y: int| cell_at(c, s as int, s - 1 - x, y));
}

/// Column `x` of the strip `p t n` mirrored is column `s - 1 - x` of the strip
/// `n t p`.
proof fn lemma_strip_mirror(t: Seq<bool>, p: Seq<bool>, n: Seq<bool>, s: nat, x: int, y: int)
    requires
        s > 0,
        -1 <= x <= s,
    ensures
        strip_cell(mirror_grid(t, s), mirror_grid(p, s), mirror_grid(n, s), s as int, x, y)
            == strip_cell(t, n, p, s as int, s - 1 - x, y),
{
    let si = s as int;
    lemma_mirror_cells(t, s);
    lemma_mirror_cells(p, s);
    lemma_mirror_cells(n, s);
    lemma_mod_bound(y, si);
    if x == -1 {
        lemma_fundamental_div_mod_converse(-1, si, -1, si - 1);
        lemma_fundamental_div_mod_converse(si, si, 1, 0);
    } else if x == si {
        lemma_fundamental_div_mod_converse(si, si, 1, 0);
        lemma_fundamental_div_mod_converse(-1, si, -1, si - 1);
    } else {
        lemma_fundamental_div_mod_converse(x, si, 0, x);
        lemma_fundamental_div_mod_converse(si - 1 - x, si, 0, si - 1 - x);
    }
}

/// Mirroring the three tiles mirrors the next generation, with the neighbours
/// swapped.
pub proof fn lemma_step_mirror(t: Seq<bool>, p: Seq<bool>, n: Seq<bool>, s: nat)
    requires
        s > 0,
        is_grid(t, s),
    ensures
        step(mirror_grid(t, s), mirror_grid(p, s), mirror_grid(n, s), s) == mirror_grid(step(t, n, p, s), s),
{
    let (mt, mp, mn) = (mirror_grid(t, s), mirror_grid(p, s), mirror_grid(n, s));
    let si = s as int;
    let lhs = step(mt, mp, mn, s);
    let inner = step(t, n, p, s);
    lemma_grid_from(s, |x: int, y: int| next_cell(mt, mp, mn, si, x, y));
    lemma_grid_from(s, |x: int, y: int| next_cell(t, n, p, si, x, y));
    lemma_mirror_cells(inner, s);
    lemma_mirror_cells(t, s);
    assert forall|x: int, y: int| 0 <= x < s && 0 <= y < s implies #[trigger] cell_at(lhs, si, x, y)
        == cell_at(mirror_grid(inner, s), si, x, y) by {
        lemma_strip_mirror(t, p, n, s, x - 1, y - 1);
        lemma_strip_mirror(t, p, n, s, x, y - 1);
        lemma_strip_mirror(t, p, n, s, x + 1, y - 1);
        lemma_strip_mirror(t, p, n, s, x - 1, y);
        lemma_strip_mirror(t, p, n, s, x, y);
        lemma_strip_mirror(t, p, n, s, x + 1, y);
        lemma_strip_mirror(t, p, n, s, x - 1, y + 1);
        lemma_strip_mirror(t, p, n, s, x, y + 1);
        lemma_strip_mirror(t, p, n, s, x + 1, y + 1);
        assert(window_count(mt, mp, mn, si, x, y) == window_count(t, n, p, si, si - 1 - x, y));
    }
    lemma_grid_ext(lhs, mirror_grid(inner, s), s);
}

/// The generations of a mirrored tile are the mirrored generations.
pub proof fn lemma_iterate_mirror(t: Seq<bool>, s: nat, k: nat)
    requires
        s > 0,
        is_grid(t, s),
    ensures
        iterate(mirror_grid(t, s), s, k) == mirror_grid(iterate(t, s, k), s),
    decreases k,
{
    if k > 0 {
        let prev = iterate(t, s, (k - 1) as nat);
        lemma_iterate_mirror(t, s, (k - 1) as nat);
        lemma_step_mirror(prev, prev, prev, s);
    }
}

/// Mirroring is one to one.
pub proof fn lemma_mirror_injective(c1: Seq<bool>, c2: Seq<bool>, s: nat)
    requires
        is_grid(c1, s),
        is_grid(c2, s),
    ensures
        (mirror_grid(c1, s) == mirror_grid(c2, s)) == (c1 == c2),
{
    lemma_mirror_involution(c1, s);
    lemma_mirror_involution(c2, s);
}

/// The strip of the mirrored patterns, players swapped, is the strip of the
/// patterns read backwards with every tile mirrored.
pub proof fn lemma_life_mirror(a: Seq<bool>, b: Seq<bool>, s: nat, g: nat, x: int)
    requires
        s > 0,
        is_grid(a, s),
        is_grid(b, s),
    ensures
        life(mirror_grid(b, s), mirror_grid(a, s), s, g, x) == mirror_grid(life(a, b, s, g, -1 - x), s),
        is_grid(life(a, b, s, g, x), s),
    decreases g,
{
    if g > 0 {
        let h = (g - 1) as nat;
        lemma_life_mirror(a, b, s, h, x);
        lemma_life_mirror(a, b, s, h, x - 1);
        lemma_life_mirror(a, b, s, h, x + 1);
        lemma_life_mirror(a, b, s, h, -1 - x);
        lemma_step_mirror(life(a, b, s, h, -1 - x), life(a, b, s, h, -x), life(a, b, s, h, -2 - x), s);
        lemma_grid_from(s, |xx: int, yy: int| next_cell(life(a, b, s, h, x), life(a, b, s, h, x - 1), life(a, b, s, h, x + 1), s as int, xx, yy));
    }
}

/// Far enough out, the strip is still the backgrounds.
pub proof fn lemma_life_bounded(a: Seq<bool>, b: Seq<bool>, s: nat, g: nat, x: int)
    ensures
        x < -(g as int) ==> life(a, b, s, g, x) == iterate(a, s, g),
        x >= g ==> life(a, b, s, g, x) == iterate(b, s, g),
    decreases g,
{
    if g > 0 {
        let h = (g - 1) as nat;
        lemma_life_bounded(a, b, s, h, x);
        lemma_life_bounded(a, b, s, h, x - 1);
        lemma_life_bounded(a, b, s, h, x + 1);
    }
}

/// The first position of `[lo, hi)` whose tile at generation `g` is not A's
/// background, or `hi`.
spec fn first_off(a: Seq<bool>, b: Seq<bool>, s: nat, g: nat, lo: int, hi: int) -> int
    decreases hi - lo,
{
    if lo >= hi {
        hi
    } else if life(a, b, s, g, lo) != iterate(a, s, g) {
        lo
    } else {
        first_off(a, b, s, g, lo + 1, hi)
    }
}

/// The last position of `[lo, hi)` whose tile at generation `g` is not B's
/// background, or `lo - 1`.
spec fn last_off(a: Seq<bool>, b: Seq<bool>, s: nat, g: nat, lo: int, hi: int) -> int
    decreases hi - lo,
{
    if lo >= hi {
        lo - 1
    } else if life(a, b, s, g, hi - 1) != iterate(b, s, g) {
        hi - 1
    } else {
        last_off(a, b, s, g, lo, hi - 1)
    }
}

proof fn lemma_first_off(a: Seq<bool>, b: Seq<bool>, s: nat, g: nat, lo: int, hi: int)
    requires
        lo <= hi,
    ensures
        lo <= first_off(a, b, s, g, lo, hi) <= hi,
        forall|x: int| lo <= x < first_off(a, b, s, g, lo, hi) ==> #[trigger] life(a, b, s, g, x) == iterate(a, s, g),
        first_off(a, b, s, g, lo, hi) < hi ==> life(a, b, s, g, first_off(a, b, s, g, lo, hi)) != iterate(a, s, g),
    decreases hi - lo,
{
    if lo < hi && life(a, b, s, g, lo) == iterate(a, s, g) {
        lemma_first_off(a, b, s, g, lo + 1, hi);
    }
}

proof fn lemma_last_off(a: Seq<bool>, b: Seq<bool>, s: nat, g: nat, lo: int, hi: int)
    requires
        lo <= hi,
    ensures
        lo - 1 <= last_off(a, b, s, g, lo, hi) < hi,
        forall|x: int| last_off(a, b, s, g, lo, hi) < x < hi ==> #[trigger] life(a, b, s, g, x) == iterate(b, s, g),
        last_off(a, b, s, g, lo, hi) >= lo ==> life(a, b, s, g, last_off(a, b, s, g, lo, hi)) != iterate(b, s, g),
    decreases hi - lo,
{
    if lo < hi && life(a, b, s, g, hi - 1) == iterate(b, s, g) {
        lemma_last_off(a, b, s, g, lo, hi - 1);
    }
}

/// While the backgrounds differ the strip has a window.
pub proof fn lemma_window_exists(a: Seq<bool>, b: Seq<bool>, s: nat, g: nat)
    requires
        iterate(a, s, g) != iterate(b, s, g),
    ensures
        is_window(a, b, s, g, window_of(a, b, s, g).0, window_of(a, b, s, g).1),
{
    let gi = g as int;
    let f = first_off(a, b, s, g, -gi, gi);
    let l = last_off(a, b, s, g, -gi, gi);
    lemma_first_off(a, b, s, g, -gi, gi);
    lemma_last_off(a, b, s, g, -gi, gi);
    lemma_life_bounded(a, b, s, g, f - 1);
    lemma_life_bounded(a, b, s, g, gi - 1);
    if l < f - 1 {
        assert(life(a, b, s, g, f - 1) == iterate(b, s, g));
    }
    assert forall|x: int| x < f implies #[trigger] life(a, b, s, g, x) == iterate(a, s, g) by {
        lemma_life_bounded(a, b, s, g, x);
    }
    assert forall|x: int| x > l implies #[trigger] life(a, b, s, g, x) == iterate(b, s, g) by {
        lemma_life_bounded(a, b, s, g, x);
    }
    let w = (f, l);
    assert(is_window(a, b, s, g, w.0, w.1));
}

/// Mirroring a window of the strip gives a window of the mirrored game.
pub proof fn lemma_window_mirror(a: Seq<bool>, b: Seq<bool>, s: nat, g: nat, f: int, l: int)
    requires
        s > 0,
        is_grid(a, s),
        is_grid(b, s),
        is_window(a, b, s, g, f, l),
    ensures
        is_window(mirror_grid(b, s), mirror_grid(a, s), s, g, -1 - l, -1 - f),
{
    let (ma, mb) = (mirror_grid(a, s), mirror_grid(b, s));
    lemma_iterate_mirror(a, s, g);
    lemma_iterate_mirror(b, s, g);
    crate::cycle::lemma_iterate_grid(a, s, g);
    crate::cycle::lemma_iterate_grid(b, s, g);
    assert forall|x: int| x < -1 - l implies #[trigger] life(mb, ma, s, g, x) == iterate(mb, s, g) by {
        lemma_life_mirror(a, b, s, g, x);
    }
    assert forall|x: int| x > -1 - f implies #[trigger] life(mb, ma, s, g, x) == iterate(ma, s, g) by {
        lemma_life_mirror(a, b, s, g, x);
    }
    if f <= l {
        lemma_life_mirror(a, b, s, g, -1 - l);
        lemma_life_mirror(a, b, s, g, -1 - f);
        lemma_life_mirror(a, b, s, g, l);
        lemma_life_mirror(a, b, s, g, f);
        lemma_mirror_injective(life(a, b, s, g, l), iterate(b, s, g), s);
        lemma_mirror_injective(life(a, b, s, g, f), iterate(a, s, g), s);
    }
}

/// Counting from the left end.
proof fn lemma_count_left(a: Seq<bool>, b: Seq<bool>, s: nat, g: nat, lo: int, hi: int, t: Seq<bool>)
    requires
        lo <= hi,
    ensures
        count_equal(a, b, s, g, lo, hi, t) == (if life(a, b, s, g, lo) == t {
            1int
        } else {
            0int
        }) + count_equal(a, b, s, g, lo + 1, hi, t),
    decreases hi - lo,
{
    reveal_with_fuel(count_equal, 2);
    if lo < hi {
        lemma_count_left(a, b, s, g, lo, hi - 1, t);
    }
}

/// Counting in the mirrored game over the mirrored interval counts the same.
pub proof fn lemma_count_mirror(a: Seq<bool>, b: Seq<bool>, s: nat, g: nat, lo: int, hi: int, t: Seq<bool>)
    requires
        s > 0,
        is_grid(a, s),
        is_grid(b, s),
        is_grid(t, s),
    ensures
        count_equal(mirror_grid(b, s), mirror_grid(a, s), s, g, -1 - hi, -1 - lo, mirror_grid(t, s))
            == count_equal(a, b, s, g, lo, hi, t),
    decreases hi - lo + 1,
{
    if lo <= hi {
        let (ma, mb) = (mirror_grid(a, s), mirror_grid(b, s));
        lemma_count_mirror(a, b, s, g, lo, hi - 1, t);
        lemma_count_left(mb, ma, s, g, -1 - hi, -1 - lo, mirror_grid(t, s));
        lemma_life_mirror(a, b, s, g, -1 - hi);
        lemma_life_mirror(a, b, s, g, hi);
        lemma_mirror_injective(life(a, b, s, g, hi), t, s);
        assert(-1 - (hi - 1) == -1 - hi + 1);
    }
}

/// Swapping the players and mirroring both patterns swaps the score.
pub proof fn lemma_score_symmetry(a: Seq<bool>, b: Seq<bool>, s: nat, g: nat)
    requires
        s > 0,
        is_grid(a, s),
        is_grid(b, s),
    ensures
        game_score(mirror_grid(b, s), mirror_grid(a, s), s, g) == (
            game_score(a, b, s, g).1,
            game_score(a, b, s, g).0,
        ),
{
    let (ma, mb) = (mirror_grid(a, s), mirror_grid(b, s));
    assert forall|j: nat| #[trigger] iterate(mb, s, j) == iterate(ma, s, j) <==> iterate(a, s, j) == iterate(b, s, j) by {
        lemma_iterate_mirror(a, s, j);
        lemma_iterate_mirror(b, s, j);
        crate::cycle::lemma_iterate_grid(a, s, j);
        crate::cycle::lemma_iterate_grid(b, s, j);
        lemma_mirror_injective(iterate(b, s, j), iterate(a, s, j), s);
    }
    if converged_by(a, b, s, g) {
        let j = choose|j: nat| j <= g && #[trigger] iterate(a, s, j) == iterate(b, s, j);
        assert(iterate(mb, s, j) == iterate(ma, s, j));
    } else if converged_by(mb, ma, s, g) {
        let j = choose|j: nat| j <= g && #[trigger] iterate(mb, s, j) == iterate(ma, s, j);
        assert(iterate(a, s, j) == iterate(b, s, j));
    } else {
        assert(iterate(a, s, g) != iterate(b, s, g));
        assert(iterate(mb, s, g) != iterate(ma, s, g));
        let w = window_of(a, b, s, g);
        let w2 = window_of(mb, ma, s, g);
        lemma_window_exists(a, b, s, g);
        lemma_window_exists(mb, ma, s, g);
        lemma_window_mirror(a, b, s, g, w.0, w.1);
        crate::game::lemma_window_unique(mb, ma, s, g, w2.0, w2.1, -1 - w.1, -1 - w.0);
        lemma_count_mirror(a, b, s, g, w.0, w.1, a);
        lemma_count_mirror(a, b, s, g, w.0, w.1, b);
    }
}

/// The scores of B against A are those of A against B, swapped.
pub proof fn lemma_struggle_symmetry(tile_a: Seq<bool>, tile_b: Seq<bool>, s: nat, g: nat)
    requires
        s > 0,
        is_grid(tile_a, s),
        is_grid(tile_b, s),
    ensures
        game_score(tile_b, mirror_grid(tile_a, s), s, g) == (
            game_score(tile_a, mirror_grid(tile_b, s), s, g).1,
            game_score(tile_a, mirror_grid(tile_b, s), s, g).0,
        ),
{
    lemma_mirror_cells(tile_b, s);
    lemma_score_symmetry(tile_a, mirror_grid(tile_b, s), s, g);
    lemma_mirror_involution(tile_b, s);
}

} // verus!
