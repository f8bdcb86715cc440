use life_struggle::game::{lwss_at, struggle};
use life_struggle::tile::LifeTile;
use life_struggle::vec_tile::VecTile;

#[test]
fn test_lwss_vs_gliders() {
    let size = 40;

    let mut a = VecTile::new(size);
    lwss_at(&mut a, 0, 0);

    let mut b = VecTile::new(size);
    {
        let mut q = |x: usize, y: usize| b.set(x, y, true);

        // Two gliders going -x+y
        q(9, 0);
        q(8, 1);
        q(10, 2);
        q(9, 2);
        q(8, 2);

        q(9, 10);
        q(8, 11);
        q(10, 12);
        q(9, 12);
        q(8, 12);
    }

    // send gliders +x+y
    b = b.mirror();

    let (score_a, score_b) = struggle(500, &a, &b);
    println!("Score: {} to {}", score_a, score_b);
    assert_eq!(score_a, -2);
    assert_eq!(score_b, -1);

    let (score_a, score_b) = struggle(2000, &a, &b);
    println!("Score: {} to {}", score_a, score_b);
    assert_eq!(score_a, -3);
    assert_eq!(score_b, -1);
}

#[test]
fn test_lwss_vs_empty() {
    let size = 8;

    let mut a = VecTile::new(size);
    lwss_at(&mut a, 0, 0);

    let b = VecTile::new(size);

    {
        let (score_a, score_b) = struggle(100, &a, &b);
        assert_eq!(score_a, 6);
        assert_eq!(score_b, -6);
    }

    {
        let (score_b, score_a) = struggle(100, &b, &a);
        assert_eq!(score_a, 6);
        assert_eq!(score_b, -6);
    }

    {
        let (score_b, score_a) = struggle(100, &a, &a);
        assert_eq!(score_a, 0);
        assert_eq!(score_b, 0);
    }

    {
        let (score_b, score_a) = struggle(100, &b, &b);
        assert_eq!(score_a, 0);
        assert_eq!(score_b, 0);
    }
}
