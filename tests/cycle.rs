use life_struggle::cycle::{floyd_repeat, TileCycle};
use life_struggle::game::lwss_at;
use life_struggle::tile::LifeTile;
use life_struggle::vec_tile::VecTile;

fn tile_with(size: usize, cells: &[(usize, usize)]) -> VecTile {
    let mut t = VecTile::new(size);
    for &(x, y) in cells {
        t.set(x, y, true);
    }
    t
}

#[test]
fn empty_tile_has_period_one() {
    let c = TileCycle::new(VecTile::new(4)).unwrap();
    assert_eq!(c.len(), 1);
    assert!(c.default_at_generation(7) == &VecTile::new(4));
}

#[test]
fn blinker_has_period_two() {
    let t = tile_with(5, &[(2, 1), (2, 2), (2, 3)]);
    let c = TileCycle::new(t.clone()).unwrap();
    assert_eq!(c.len(), 2);
    assert!(c.start() == &t);
    assert!(c.default_at_generation(0) == &t);
    assert!(c.default_at_generation(1) != &t);
    assert!(c.default_at_generation(10) == &t);
    assert!(c.default_at_generation(11) == &t.next_generation(&t, &t));
}

#[test]
fn cycle_returns_after_its_length() {
    let mut t = VecTile::new(8);
    lwss_at(&mut t, 0, 0);
    let c = TileCycle::new(t.clone()).unwrap();
    let k = c.len();
    assert!(k > 1);
    let mut u = t.clone();
    for j in 1..=k {
        u = u.next_generation(&u, &u);
        if j < k {
            assert!(u != t);
        }
    }
    assert!(u == t);
}

#[test]
fn dying_tile_has_no_cycle() {
    let t = tile_with(5, &[(2, 2)]);
    assert!(TileCycle::new(t).is_none());
    let pair = tile_with(6, &[(1, 1), (4, 4)]);
    assert!(TileCycle::new(pair).is_none());
}

#[test]
fn floyd_repeat_on_crafted_sequences() {
    let a = tile_with(3, &[(0, 0)]);
    let b = tile_with(3, &[(1, 1)]);
    let c = tile_with(3, &[(2, 2)]);
    assert!(!floyd_repeat(&vec![a.clone(), b.clone()]));
    assert!(floyd_repeat(&vec![a.clone(), b.clone(), b.clone()]));
    assert!(!floyd_repeat(&vec![a.clone(), b.clone(), c.clone()]));
    assert!(floyd_repeat(&vec![b.clone(), b.clone(), c.clone(), a.clone(), b.clone(), c.clone(), a.clone()]));
    assert!(!floyd_repeat(&vec![a.clone(), a.clone(), b.clone(), c.clone()]));
}
