use life_struggle::bit_tile::BitTile;
use life_struggle::tile::{LifeTile, LifeTileSrc};
use life_struggle::vec_tile::VecTile;

fn tile_with<T: LifeTile>(size: usize, cells: &[(usize, usize)]) -> T {
    let mut t = T::new(size);
    for &(x, y) in cells {
        t.set(x, y, true);
    }
    t
}

fn live_cells<T: LifeTile>(t: &T) -> Vec<(usize, usize)> {
    let mut r = Vec::new();
    for y in 0..t.size() {
        for x in 0..t.size() {
            if t.get(x, y) {
                r.push((x, y));
            }
        }
    }
    r
}

#[test]
fn new_tile_is_dead() {
    let t = VecTile::new(6);
    assert_eq!(t.size(), 6);
    assert!(live_cells(&t).is_empty());
}

#[test]
fn set_and_get_one_cell() {
    let mut t = VecTile::new(4);
    t.set(3, 1, true);
    assert!(t.get(3, 1));
    assert!(!t.get(1, 3));
    assert_eq!(t.index(3, 1), 7);
    t.set(3, 1, false);
    assert!(!t.get(3, 1));
}

#[test]
fn mirror_reflects_columns() {
    let t: VecTile = tile_with(5, &[(0, 1), (1, 4), (4, 0)]);
    let m = t.mirror();
    assert_eq!(live_cells(&m), vec![(0, 0), (4, 1), (3, 4)]);
}

#[test]
fn mirror_twice_is_identity() {
    let t: VecTile = tile_with(5, &[(0, 1), (1, 4), (4, 0), (2, 2)]);
    assert!(t.mirror().mirror() == t);
    assert!(t.mirror() != t);
}

#[test]
fn mirror_over_x_reflects_rows() {
    let t: VecTile = tile_with(4, &[(1, 0), (2, 3)]);
    let m = t.mirror_over_x();
    assert_eq!(live_cells(&m), vec![(2, 0), (1, 3)]);
}

#[test]
fn blinker_turns_horizontal() {
    let t: VecTile = tile_with(5, &[(2, 1), (2, 2), (2, 3)]);
    let n = t.next_generation(&t, &t);
    assert_eq!(live_cells(&n), vec![(1, 2), (2, 2), (3, 2)]);
    let back = n.next_generation(&n, &n);
    assert!(back == t);
}

#[test]
fn block_is_still() {
    let t: VecTile = tile_with(6, &[(2, 2), (3, 2), (2, 3), (3, 3)]);
    assert!(t.next_generation(&t, &t) == t);
}

#[test]
fn crowded_cell_dies_lonely_cell_dies() {
    // centre has four live neighbours, so five live cells in its window
    let t: VecTile = tile_with(7, &[(3, 3), (2, 3), (4, 3), (3, 2), (3, 4)]);
    let n = t.next_generation(&t, &t);
    assert!(!n.get(3, 3));
    let single: VecTile = tile_with(7, &[(3, 3)]);
    assert!(live_cells(&single.next_generation(&single, &single)).is_empty());
}

#[test]
fn left_neighbour_feeds_column_zero() {
    let empty = VecTile::new(4);
    let prev: VecTile = tile_with(4, &[(3, 0), (3, 1), (3, 2)]);
    let n = empty.next_generation(&prev, &empty);
    assert!(n.get(0, 1));
    assert!(!n.get(0, 0));
    assert!(!n.get(0, 2));
    assert_eq!(live_cells(&n), vec![(0, 1)]);
}

#[test]
fn right_neighbour_feeds_last_column() {
    let empty = VecTile::new(4);
    let next: VecTile = tile_with(4, &[(0, 1), (0, 2), (0, 3)]);
    let n = empty.next_generation(&empty, &next);
    assert_eq!(live_cells(&n), vec![(3, 2)]);
}

#[test]
fn rows_wrap_within_the_tile() {
    // a vertical line through rows 3, 0 and 1 of column 1
    let t: VecTile = tile_with(4, &[(1, 3), (1, 0), (1, 1)]);
    let empty = VecTile::new(4);
    let n = t.next_generation(&empty, &empty);
    assert_eq!(live_cells(&n), vec![(0, 0), (1, 0), (2, 0)]);
}

#[test]
fn next_generation_cell_matches_tile() {
    let t: VecTile = tile_with(5, &[(0, 0), (4, 0), (0, 4), (1, 1), (2, 1)]);
    let p: VecTile = tile_with(5, &[(4, 4), (4, 0), (4, 1)]);
    let n = t.next_generation(&p, &t);
    for y in 0..5 {
        for x in 0..5 {
            assert_eq!(n.get(x, y), t.next_generation_cell(&p, &t, x, y));
        }
    }
}

#[test]
fn next_generation_is_repeatable() {
    let t: VecTile = tile_with(6, &[(0, 0), (1, 0), (5, 5), (2, 3), (3, 3), (4, 3)]);
    let p: VecTile = tile_with(6, &[(5, 0), (5, 1)]);
    let a = t.next_generation(&p, &t);
    let b = t.next_generation(&p, &t);
    assert!(a == b);
}

#[test]
fn copy_from_keeps_cells() {
    let t: VecTile = tile_with(5, &[(0, 1), (3, 2), (4, 4)]);
    let b = BitTile::copy_from(&t);
    assert_eq!(b.size(), 5);
    assert_eq!(live_cells(&b), live_cells(&t));
    let v = VecTile::copy_from(&b);
    assert!(v == t);
}

#[test]
fn bit_tile_evolves_like_vec_tile() {
    let cells = [(2, 1), (2, 2), (2, 3), (0, 0), (4, 4)];
    let v: VecTile = tile_with(5, &cells);
    let b: BitTile = tile_with(5, &cells);
    let vn = v.next_generation(&v, &v);
    let bn = b.next_generation(&b, &b);
    assert_eq!(live_cells(&vn), live_cells(&bn));
    assert_eq!(b.index(2, 3), 17);
}

#[test]
fn bit_tile_equality_and_set() {
    let mut a: BitTile = tile_with(4, &[(1, 1)]);
    let b: BitTile = tile_with(4, &[(1, 1)]);
    assert!(a == b);
    assert!(a.same_cells(&b));
    a.set(1, 1, false);
    assert!(!a.get(1, 1));
    assert!(a != b);
    assert!(a == BitTile::new(4));
    let c = b.clone();
    assert!(c == b);
    assert!(c.get(1, 1));
}
