//! The periodic background of a row made of copies of one tile.
use crate::grid::{is_grid, self_step};
use crate::tile::{LifeTile, LifeTileSrc};
use vstd::prelude::*;
use vstd::relations::injective_on;
use vstd::set_lib::{lemma_int_range, lemma_len_subset, lemma_len_union, lemma_map_size, lemma_map_size_bound, set_int_range};

verus! {

/// Tile `t` of side `s` after `k` generations in a row of copies of itself.
pub open spec fn iterate(t: Seq<bool>, s: nat, k: nat) -> Seq<bool>
    decreases k,
{
    if k == 0 {
        t
    } else {
        self_step(iterate(t, s, (k - 1) as nat), s)
    }
}

/// `k` is the least number of generations after which `t` comes back.
pub open spec fn is_least_period(t: Seq<bool>, s: nat, k: nat) -> bool {
    &&& k > 0
    &&& iterate(t, s, k) == t
    &&& forall|j: nat| 0 < j < k ==> #[trigger] iterate(t, s, j) != t
}

/// `t` comes back to itself after some positive number of generations.
pub open spec fn is_periodic(t: Seq<bool>, s: nat) -> bool {
    exists|k: nat| k > 0 && #[trigger] iterate(t, s, k) == t
}

/// `v` lists, from generation 0 on, the tiles that a periodic tile of side `s`
/// runs through before it comes back.
pub open spec fn is_cycle(v: Seq<Seq<bool>>, s: nat) -> bool {
    &&& v.len() > 0
    &&& s > 0
    &&& is_grid(v[0], s)
    &&& forall|i: int| 0 <= i < v.len() ==> #[trigger] v[i] == iterate(v[0], s, i as nat)
    &&& is_least_period(v[0], s, v.len())
}

/// The number of distinct listings of `len` cells.
pub open spec fn num_patterns(len: nat) -> nat
    decreases len,
{
    if len == 0 {
        1
    } else {
        2 * num_patterns((len - 1) as nat)
    }
}

/// Every generation of a tile is a tile of the same side.
pub proof fn lemma_iterate_grid(t: Seq<bool>, s: nat, k: nat)
    requires
        is_grid(t, s),
    ensures
        is_grid(iterate(t, s, k), s),
{
}

/// Running `a` generations and then `b` more is running `a + b`.
pub proof fn lemma_iterate_add(t: Seq<bool>, s: nat, a: nat, b: nat)
    ensures
        iterate(iterate(t, s, a), s, b) == iterate(t, s, a + b),
    decreases b,
{
    if b > 0 {
        lemma_iterate_add(t, s, a, (b - 1) as nat);
    }
}

/// Equal generations stay equal.
pub proof fn lemma_iterate_shift(t: Seq<bool>, s: nat, i: nat, j: nat, c: nat)
    requires
        iterate(t, s, i) == iterate(t, s, j),
    ensures
        iterate(t, s, i + c) == iterate(t, s, j + c),
{
    lemma_iterate_add(t, s, i, c);
    lemma_iterate_add(t, s, j, c);
}

/// A generation that comes back after `d` more comes back after every multiple of `d`.
pub proof fn lemma_iterate_multiple(t: Seq<bool>, s: nat, i: nat, d: nat, c: nat)
    requires
        iterate(t, s, i) == iterate(t, s, i + d),
    ensures
        iterate(t, s, i) == iterate(t, s, i + d * c),
    decreases c,
{
    if c > 0 {
        let e = (d * (c - 1)) as nat;
        assert(e + d == d * c) by (nonlinear_arith)
            requires
                c > 0,
                e == d * (c - 1),
        ;
        lemma_iterate_multiple(t, s, i, d, (c - 1) as nat);
        lemma_iterate_shift(t, s, i, i + d, e);
        assert(i + d + e == i + d * c);
    } else {
        assert(d * c == 0) by (nonlinear_arith)
            requires
                c == 0,
        ;
    }
}

/// The listings of `len` cells.
spec fn patterns(len: nat) -> Set<Seq<bool>> {
    Set::new(|q: Seq<bool>| q.len() == len)
}

/// There are `num_patterns(len)` listings of `len` cells at most.
proof fn lemma_patterns(len: nat)
    ensures
        patterns(len).finite(),
        patterns(len).len() <= num_patterns(len),
    decreases len,
{
    if len == 0 {
        assert forall|q: Seq<bool>| #[trigger] patterns(0).contains(q) implies q == Seq::<bool>::empty() by {
            assert(q =~= Seq::<bool>::empty());
        }
        assert(patterns(0) =~= Set::<Seq<bool>>::empty().insert(Seq::<bool>::empty()));
    } else {
        let prev = patterns((len - 1) as nat);
        lemma_patterns((len - 1) as nat);
        let with_false = prev.map(|q: Seq<bool>| q.push(false));
        let with_true = prev.map(|q: Seq<bool>| q.push(true));
        lemma_map_size_bound(prev, with_false, |q: Seq<bool>| q.push(false));
        lemma_map_size_bound(prev, with_true, |q: Seq<bool>| q.push(true));
        lemma_len_union(with_false, with_true);
        assert forall|q: Seq<bool>| #[trigger] patterns(len).contains(q) implies with_false.union(
            with_true,
        ).contains(q) by {
            let r = q.drop_last();
            assert(prev.contains(r));
            assert(r.push(q.last()) =~= q);
            if q.last() {
                assert(with_true.contains(r.push(true)));
            } else {
                assert(with_false.contains(r.push(false)));
            }
        }
        vstd::set_lib::lemma_len_subset(patterns(len), with_false.union(with_true));
    }
}

/// Among `num_patterns(s * s) + 1` generations of a tile two are equal.
proof fn lemma_pigeonhole(t: Seq<bool>, s: nat) -> (r: (nat, nat))
    requires
        is_grid(t, s),
    ensures
        r.0 < r.1,
        iterate(t, s, r.0) == iterate(t, s, r.1),
{
    let n = num_patterns(s * s);
    let f = |k: int| iterate(t, s, k as nat);
    let dom = set_int_range(0, (n + 1) as int);
    if forall|i: int, j: int|
        0 <= i < j <= n ==> #[trigger] iterate(t, s, i as nat) != #[trigger] iterate(t, s, j as nat) {
        lemma_int_range(0, (n + 1) as int);
        assert(injective_on(f, dom)) by {
            assert forall|i: int, j: int| dom.contains(i) && dom.contains(j) && #[trigger] f(i) == #[trigger] f(j) implies i
                == j by {
                if i < j {
                    assert(iterate(t, s, i as nat) != iterate(t, s, j as nat));
                } else if j < i {
                    assert(iterate(t, s, j as nat) != iterate(t, s, i as nat));
                }
            }
        }
        lemma_map_size(dom, dom.map(f), f);
        lemma_patterns(s * s);
        assert forall|q: Seq<bool>| #[trigger] dom.map(f).contains(q) implies patterns(s * s).contains(q) by {
            let k = choose|k: int| dom.contains(k) && f(k) == q;
            lemma_iterate_grid(t, s, k as nat);
        }
        lemma_len_subset(dom.map(f), patterns(s * s));
        assert(false);
        (0, 1)
    } else {
        let (i, j) = choose|i: int, j: int|
            0 <= i < j <= n && #[trigger] iterate(t, s, i as nat) == #[trigger] iterate(t, s, j as nat);
        (i as nat, j as nat)
    }
}

/// Some generation `m > 0` of a tile equals generation `2 * m`.
pub proof fn lemma_eventually_repeats(t: Seq<bool>, s: nat)
    requires
        is_grid(t, s),
    ensures
        exists|m: nat| m > 0 && #[trigger] iterate(t, s, m) == iterate(t, s, 2 * m),
{
    let (i, j) = lemma_pigeonhole(t, s);
    let d = (j - i) as nat;
    let m = d * (i + 1);
    assert(m >= i + 1) by (nonlinear_arith)
        requires
            d >= 1,
            m == d * (i + 1),
    ;
    lemma_iterate_multiple(t, s, i, d, i + 1);
    lemma_iterate_shift(t, s, i, i + m, (m - i) as nat);
    assert(iterate(t, s, m) == iterate(t, s, 2 * m));
}

/// When generations `a` and `b` agree (0 < a < b) and none of generations
/// `1..=b` is the start, the start never comes back.
pub proof fn lemma_not_periodic(t: Seq<bool>, s: nat, a: nat, b: nat)
    requires
        0 < a < b,
        iterate(t, s, a) == iterate(t, s, b),
        forall|j: nat| 0 < j <= b ==> #[trigger] iterate(t, s, j) != t,
    ensures
        !is_periodic(t, s),
{
    if is_periodic(t, s) {
        let k = choose|k: nat| k > 0 && #[trigger] iterate(t, s, k) == t;
        assert(iterate(t, s, 0) == iterate(t, s, k));
        lemma_iterate_multiple(t, s, 0, k, a);
        let m = (a * k - a) as nat;
        assert(a * k >= a) by (nonlinear_arith)
            requires
                k >= 1,
                a >= 0,
        ;
        lemma_iterate_shift(t, s, a, b, m);
        let d = (b - a) as nat;
        lemma_iterate_add(t, s, k * a, d);
        assert(b + m == k * a + d) by (nonlinear_arith)
            requires
                m == a * k - a,
                d == b - a,
        ;
        assert(iterate(t, s, d) == t);
        assert(iterate(t, s, d) != t);
    }
}

/// Whether the tiles, at least three of them, have come back to an earlier
/// tile: the one halfway along has the cells of the last one.
pub fn floyd_repeat<T: LifeTile>(tiles: &Vec<T>) -> (r: bool)
    requires
        forall|i: int| 0 <= i < tiles@.len() ==> #[trigger] tiles@[i].well_formed(),
    ensures
        r == (tiles@.len() >= 3 && tiles@[(tiles@.len() / 2) as int].cells() == tiles@[tiles@.len() - 1].cells()),
{
    let n = tiles.len();
    if n < 3 {
        return false;
    }
    tiles[n / 2].same_cells(&tiles[n - 1])
}

/// The tiles that an infinite row of copies of one tile runs through, one per
/// generation, until it comes back to its start.
pub struct TileCycle<T: LifeTile> {
    tiles: Vec<T>,
}

impl<T: LifeTile> TileCycle<T> {
    /// The cells of the tiles, from generation 0 on.
    pub closed spec fn view(&self) -> Seq<Seq<bool>> {
        self.tiles@.map_values(|t: T| t.cells())
    }

    /// Side of the tiles.
    pub closed spec fn side(&self) -> nat {
        self.tiles@[0].side()
    }

    pub closed spec fn well_formed(&self) -> bool {
        &&& forall|i: int|
            0 <= i < self.tiles@.len() ==> #[trigger] self.tiles@[i].well_formed()
                && self.tiles@[i].side() == self.side()
        &&& is_cycle(self@, self.side())
    }

    /// The cycle is a cycle of its start.
    pub proof fn lemma_well_formed(&self)
        requires
            self.well_formed(),
        ensures
            is_cycle(self@, self.side()),
    {
    }

    /// Discovers the cycle of `t0`. There is none when `t0` never comes back
    /// to itself: the search stops once the tiles repeat without it.
    pub fn new(t0: T) -> (r: Option<Self>)
        requires
            t0.well_formed(),
            t0.side() > 0,
        ensures
            r is Some <==> is_periodic(t0.cells(), t0.side()),
            r matches Some(c) ==> c.well_formed() && c.side() == t0.side() && c@[0] == t0.cells()
                && is_cycle(c@, c.side()),
    {
        let ghost s = t0.side();
        let ghost start = t0.cells();
        proof {
            t0.lemma_well_formed();
            lemma_eventually_repeats(start, s);
        }
        let ghost m = choose|m: nat| m > 0 && #[trigger] iterate(start, s, m) == iterate(start, s, 2 * m);
        let mut tiles: Vec<T> = Vec::new();
        tiles.push(t0);
        loop
            invariant
                1 <= tiles@.len() <= 2 * m + 1,
                s > 0,
                m > 0,
                iterate(start, s, m) == iterate(start, s, 2 * m),
                tiles@[0].cells() == start,
                start == t0.cells(),
                s == t0.side(),
                forall|i: int|
                    0 <= i < tiles@.len() ==> (#[trigger] tiles@[i]).well_formed() && tiles@[i].side() == s
                        && tiles@[i].cells() == iterate(start, s, i as nat),
                forall|j: nat| 0 < j < tiles@.len() ==> #[trigger] iterate(start, s, j) != start,
                forall|k: nat|
                    3 <= k <= tiles@.len() ==> iterate(start, s, k / 2) != #[trigger] iterate(
                        start,
                        s,
                        (k - 1) as nat,
                    ),
            decreases 2 * m + 1 - tiles@.len(),
        {
            let n = tiles.len();
            assert(tiles@[n - 1].well_formed() && tiles@[n - 1].side() == s);
            let next = tiles[n - 1].next_generation(&tiles[n - 1], &tiles[n - 1]);
            if next.same_cells(&tiles[0]) {
                let r = TileCycle { tiles };
                proof {
                    assert(iterate(start, s, n as nat) == start);
                    assert(is_periodic(start, s));
                    assert forall|i: int| 0 <= i < r@.len() implies #[trigger] r@[i] == iterate(
                        r@[0],
                        s,
                        i as nat,
                    ) by {
                        assert(r.tiles@[i].cells() == iterate(start, s, i as nat));
                    }
                }
                return Some(r);
            }
            tiles.push(next);
            if floyd_repeat(&tiles) {
                proof {
                    let len = (n + 1) as nat;
                    assert(iterate(start, s, (len - 1) as nat) != start);
                    assert(tiles@[(len / 2) as int].cells() == iterate(start, s, len / 2));
                    lemma_not_periodic(start, s, len / 2, (len - 1) as nat);
                }
                return None;
            }
            proof {
                if n == 2 * m + 1 {
                    assert(iterate(start, s, (n / 2) as nat) != iterate(start, s, (n - 1) as nat));
                    assert(n / 2 == m);
                }
            }
        }
    }

    /// The number of tiles in the cycle.
    pub fn len(&self) -> (r: usize)
        requires
            self.well_formed(),
        ensures
            r == self@.len(),
    {
        self.tiles.len()
    }

    /// The tile of generation 0.
    pub fn start(&self) -> (r: &T)
        requires
            self.well_formed(),
        ensures
            r.well_formed(),
            r.side() == self.side(),
            r.cells() == self@[0],
    {
        &self.tiles[0]
    }

    /// The tile at generation `g` of a row made of copies of the start.
    pub fn default_at_generation(&self, g: usize) -> (r: &T)
        requires
            self.well_formed(),
        ensures
            r.well_formed(),
            r.side() == self.side(),
            r.cells() == self@[(g as nat % self@.len()) as int],
            r.cells() == iterate(self@[0], self.side(), g as nat),
    {
        let k = self.tiles.len();
        proof {
            lemma_cycle_index(self@, self.side(), g as nat);
        }
        assert(self.tiles@[(g % k) as int].well_formed());
        &self.tiles[g % k]
    }
}

/// Generation `g` of a cycle's start is its entry `g % len`.
pub proof fn lemma_cycle_index(v: Seq<Seq<bool>>, s: nat, g: nat)
    requires
        is_cycle(v, s),
    ensures
        v[(g % v.len()) as int] == iterate(v[0], s, g),
{
    let k = v.len();
    let q = g / k;
    let r = g % k;
    assert(g == r + k * q) by (nonlinear_arith)
        requires
            k > 0,
            q == g / k,
            r == g % k,
    ;
    lemma_iterate_multiple(v[0], s, 0, k, q);
    lemma_iterate_add(v[0], s, k * q, r);
    assert(k * q + r == g) by (nonlinear_arith)
        requires
            g == r + k * q,
    ;
}

/// A discovered cycle is sound: its start comes back after exactly as many
/// generations as the cycle holds tiles, and after no fewer.
pub proof fn lemma_cycle_sound<T: LifeTile>(c: &TileCycle<T>)
    requires
        c.well_formed(),
    ensures
        iterate(c@[0], c.side(), c@.len()) == c@[0],
        forall|j: nat| 0 < j < c@.len() ==> #[trigger] iterate(c@[0], c.side(), j) != c@[0],
{
}

} // verus!
