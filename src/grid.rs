//! The mathematical model of a tile: its cells listed row by row, and the
//! Game-of-Life transition of a tile between two neighbouring tiles.
use vstd::arithmetic::div_mod::{
    lemma_fundamental_div_mod, lemma_fundamental_div_mod_converse, lemma_mod_pos_bound,
};
use vstd::prelude::*;

verus! {

/// `c` lists the cells of a tile of side `s`, row by row.
pub open spec fn is_grid(c: Seq<bool>, s: nat) -> bool {
    c.len() == s * s
}

/// Cell (x, y) of the listing `c` of a tile of side `s`.
pub open spec fn cell_at(c: Seq<bool>, s: int, x: int, y: int) -> bool {
    c[x + y * s]
}

/// The tile of side `s` whose cell (x, y) is `f(x, y)`.
pub open spec fn grid_from(s: nat, f: spec_fn(int, int) -> bool) -> Seq<bool> {
    Seq::new(s * s, |i: int| f(i % (s as int), i / (s as int)))
}

/// The tile of side `s` with every cell dead.
pub open spec fn empty_grid(s: nat) -> Seq<bool> {
    Seq::new(s * s, |i: int| false)
}

/// `c` reflected along the vertical axis: column x goes to column s - 1 - x.
pub open spec fn mirror_grid(c: Seq<bool>, s: nat) -> Seq<bool> {
    grid_from(s, |x: int, y: int| cell_at(c, s as int, s - 1 - x, y))
}

/// `c` reflected along the horizontal axis: row y goes to row s - 1 - y.
pub open spec fn mirror_grid_over_x(c: Seq<bool>, s: nat) -> Seq<bool> {
    grid_from(s, |x: int, y: int| cell_at(c, s as int, x, s - 1 - y))
}

/// The cell at column `x` and row `y` seen from tile `t`, where `p` lies to the
/// left of `t` and `n` to its right. Columns outside `[0, s)` wrap into `p`
/// (x < 0) or `n` (x >= s); rows wrap around within each tile.
pub open spec fn strip_cell(t: Seq<bool>, p: Seq<bool>, n: Seq<bool>, s: int, x: int, y: int) -> bool {
    let src = if x < 0 {
        p
    } else if x >= s {
        n
    } else {
        t
    };
    cell_at(src, s, x % s, y % s)
}

/// 1 when `strip_cell` is alive, else 0.
pub open spec fn live(t: Seq<bool>, p: Seq<bool>, n: Seq<bool>, s: int, x: int, y: int) -> int {
    if strip_cell(t, p, n, s, x, y) {
        1
    } else {
        0
    }
}

/// Live cells of the 3x3 window centred on (x, y), the centre included.
pub open spec fn window_count(t: Seq<bool>, p: Seq<bool>, n: Seq<bool>, s: int, x: int, y: int) -> int {
    live(t, p, n, s, x - 1, y - 1) + live(t, p, n, s, x, y - 1) + live(t, p, n, s, x + 1, y - 1)
        + live(t, p, n, s, x - 1, y) + live(t, p, n, s, x, y) + live(t, p, n, s, x + 1, y)
        + live(t, p, n, s, x - 1, y + 1) + live(t, p, n, s, x, y + 1) + live(t, p, n, s, x + 1, y + 1)
}

/// The rule: a live cell stays alive when its window holds 3 or 4 live cells
/// (itself included); a dead cell comes alive when its window holds exactly 3.
pub open spec fn next_cell(t: Seq<bool>, p: Seq<bool>, n: Seq<bool>, s: int, x: int, y: int) -> bool {
    let c = window_count(t, p, n, s, x, y);
    if cell_at(t, s, x, y) {
        c == 3 || c == 4
    } else {
        c == 3
    }
}

/// The next generation of tile `t` between `p` (left) and `n` (right).
pub open spec fn step(t: Seq<bool>, p: Seq<bool>, n: Seq<bool>, s: nat) -> Seq<bool> {
    grid_from(s, |x: int, y: int| next_cell(t, p, n, s as int, x, y))
}

/// The next generation of `t` in a row made of copies of `t`.
pub open spec fn self_step(t: Seq<bool>, s: nat) -> Seq<bool> {
    step(t, t, t, s)
}

/// Index arithmetic of the row-by-row listing.
pub proof fn lemma_index(s: int, x: int, y: int)
    requires
        0 <= x < s,
        0 <= y < s,
    ensures
        0 <= x + y * s < s * s,
        (x + y * s) % s == x,
        (x + y * s) / s == y,
{
    assert(0 <= y * s) by (nonlinear_arith)
        requires
            0 <= y,
            0 < s,
    ;
    assert(x + y * s < s * s) by (nonlinear_arith)
        requires
            x < s,
            y < s,
            0 <= y,
    ;
    lemma_fundamental_div_mod_converse(x + y * s, s, y, x);
}

/// Every index of a listing is the index of one cell.
pub proof fn lemma_split_index(s: int, i: int)
    requires
        0 < s,
        0 <= i < s * s,
    ensures
        0 <= i % s < s,
        0 <= i / s < s,
        i == i % s + (i / s) * s,
{
    lemma_mod_pos_bound(i, s);
    lemma_fundamental_div_mod(i, s);
    assert(i == (i / s) * s + i % s) by (nonlinear_arith)
        requires
            i == s * (i / s) + (i % s),
    ;
    assert(0 <= i / s < s) by (nonlinear_arith)
        requires
            0 <= i < s * s,
            i == (i / s) * s + i % s,
            0 <= i % s < s,
    ;
}

/// A side whose square fits in `usize` also fits in `isize`, with room for one more.
pub proof fn lemma_side_fits(s: int)
    requires
        0 <= s,
        s * s <= usize::MAX,
    ensures
        s < isize::MAX,
{
    if s >= isize::MAX {
        assert(s * s >= isize::MAX * isize::MAX) by (nonlinear_arith)
            requires
                s >= isize::MAX,
                isize::MAX > 0,
        ;
        assert(isize::MAX * isize::MAX > usize::MAX) by (nonlinear_arith)
            requires
                isize::MAX >= 0x7fff_ffff,
                usize::MAX == 2 * isize::MAX + 1,
        ;
    }
}

/// The cells of a tile built by `grid_from` are those of its function.
pub proof fn lemma_grid_from(s: nat, f: spec_fn(int, int) -> bool)
    ensures
        is_grid(grid_from(s, f), s),
        forall|x: int, y: int|
            0 <= x < s && 0 <= y < s ==> #[trigger] cell_at(grid_from(s, f), s as int, x, y) == f(x, y),
{
    assert forall|x: int, y: int| 0 <= x < s && 0 <= y < s implies #[trigger] cell_at(
        grid_from(s, f),
        s as int,
        x,
        y,
    ) == f(x, y) by {
        lemma_index(s as int, x, y);
    }
}

/// Two tiles of side `s` with the same cells are the same listing.
pub proof fn lemma_grid_ext(c1: Seq<bool>, c2: Seq<bool>, s: nat)
    requires
        is_grid(c1, s),
        is_grid(c2, s),
        forall|x: int, y: int|
            0 <= x < s && 0 <= y < s ==> #[trigger] cell_at(c1, s as int, x, y) == cell_at(c2, s as int, x, y),
    ensures
        c1 == c2,
{
    assert forall|i: int| 0 <= i < c1.len() implies c1[i] == c2[i] by {
        assert(s > 0) by (nonlinear_arith)
            requires
                0 <= i < s * s,
        ;
        lemma_split_index(s as int, i);
        assert(cell_at(c1, s as int, i % (s as int), i / (s as int)) == cell_at(
            c2,
            s as int,
            i % (s as int),
            i / (s as int),
        ));
    }
    assert(c1 =~= c2);
}

/// Reflecting twice along the vertical axis gives the tile back.
pub proof fn lemma_mirror_involution(c: Seq<bool>, s: nat)
    requires
        is_grid(c, s),
    ensures
        mirror_grid(mirror_grid(c, s), s) == c,
{
    let m = mirror_grid(c, s);
    lemma_grid_from(s, |x: int, y: int| cell_at(c, s as int, s - 1 - x, y));
    lemma_grid_from(s, |x: int, y: int| cell_at(m, s as int, s - 1 - x, y));
    lemma_grid_ext(mirror_grid(m, s), c, s);
}

/// The next generation is a function of the three tiles' cells: equal inputs
/// give equal results.
pub proof fn lemma_step_deterministic(
    t1: Seq<bool>,
    p1: Seq<bool>,
    n1: Seq<bool>,
    t2: Seq<bool>,
    p2: Seq<bool>,
    n2: Seq<bool>,
    s: nat,
)
    requires
        t1 == t2,
        p1 == p2,
        n1 == n2,
    ensures
        step(t1, p1, n1, s) == step(t2, p2, n2, s),
{
}

} // verus!
