use life_struggle::board::{Board, VecBoard};
use life_struggle::cycle::TileCycle;
use life_struggle::game::{lwss_at, struggle, struggle_board};
use life_struggle::player::Player;
use life_struggle::tile::LifeTile;
use life_struggle::vec_tile::VecTile;

fn tile_with(size: usize, cells: &[(usize, usize)]) -> VecTile {
    let mut t = VecTile::new(size);
    for &(x, y) in cells {
        t.set(x, y, true);
    }
    t
}

fn lwss(size: usize) -> VecTile {
    let mut t = VecTile::new(size);
    lwss_at(&mut t, 0, 0);
    t
}

#[test]
fn equal_patterns_give_no_board() {
    let t = lwss(8);
    assert!(VecBoard::new(t.clone(), t.clone()).is_none());
}

#[test]
fn fresh_board_has_empty_window() {
    let a = lwss(8);
    let b = VecTile::new(8);
    let board = VecBoard::new(a.clone(), b.clone()).unwrap();
    assert_eq!(board.lowest_non_a(), 0);
    assert_eq!(board.highest_non_b(), -1);
    assert_eq!(board.score(), (0, 0));
    assert_eq!(board.tile_size(), 8);
    assert!(board.tile_at(-3) == &a);
    assert!(board.tile_at(0) == &b);
    assert!(board.a_original() == &a);
    assert!(board.b_original() == &b);
}

#[test]
fn untouched_positions_follow_the_cycles() {
    let a = lwss(8);
    let b = tile_with(8, &[(4, 2), (4, 3), (4, 4)]);
    let cycle_a = TileCycle::new(a.clone()).unwrap();
    let cycle_b = TileCycle::new(b.clone()).unwrap();
    let mut board = VecBoard::new(a, b).unwrap();
    for g in 1..30usize {
        board = board.next_generation().unwrap();
        let far_left = board.lowest_non_a() - 5;
        let far_right = board.highest_non_b() + 5;
        assert!(board.tile_at(far_left) == cycle_a.default_at_generation(g));
        assert!(board.tile_at(far_right) == cycle_b.default_at_generation(g));
        assert!(board.a_current() == cycle_a.default_at_generation(g));
        assert!(board.b_current() == cycle_b.default_at_generation(g));
    }
}

#[test]
fn window_is_trimmed_after_each_generation() {
    let a = lwss(8);
    let b = VecTile::new(8);
    let mut board = VecBoard::new(a, b).unwrap();
    for _ in 0..60 {
        let next = board.next_generation().unwrap();
        let first = next.lowest_non_a();
        let last = next.highest_non_b();
        assert!(first >= board.lowest_non_a() - 1);
        assert!(last <= board.highest_non_b() + 1);
        if first <= last {
            assert!(next.tile_at(first) != next.a_current());
            assert!(next.tile_at(last) != next.b_current());
        }
        board = next;
    }
}

#[test]
fn step_at_matches_next_generation() {
    let a = lwss(8);
    let b = VecTile::new(8);
    let mut board = VecBoard::new(a, b).unwrap();
    for _ in 0..10 {
        board = board.next_generation().unwrap();
    }
    let next = board.next_generation().unwrap();
    for x in (board.lowest_non_a() - 1)..=(board.highest_non_b() + 1) {
        assert!(&board.step_at(x) == next.tile_at(x));
    }
}

#[test]
fn struggle_board_runs_the_generations() {
    let a = lwss(8);
    let b = VecTile::new(8);
    let board = struggle_board(100, &a, &b).unwrap();
    assert_eq!(board.score(), (6, -6));
    assert!(struggle_board(100, &b, &b).is_none());
    // B's pattern is mirrored, so the mirror of A against A is a draw
    assert!(struggle_board(5, &a, &a.mirror()).is_none());
}

#[test]
fn swapped_players_swap_scores() {
    let a = lwss(8);
    let b = tile_with(8, &[(4, 2), (4, 3), (4, 4), (0, 0), (1, 0), (0, 1), (1, 1)]);
    for &g in [0usize, 1, 7, 40, 100].iter() {
        let (sa, sb) = struggle(g, &a, &b);
        let (tb, ta) = struggle(g, &b, &a);
        assert_eq!((sa, sb), (ta, tb));
    }
}

#[test]
fn zero_generations_score_nothing() {
    let a = lwss(8);
    let b = VecTile::new(8);
    assert_eq!(struggle(0, &a, &b), (0, 0));
}

#[test]
fn player_starts_with_no_games() {
    let p = Player::new(lwss(8), "Lwss".to_string(), true);
    assert_eq!(p.wins, 0);
    assert_eq!(p.losses, 0);
    assert_eq!(p.point_difference, 0);
    assert!(p.keep);
    assert_eq!(p.name, "Lwss");
}

#[test]
fn luma_rows_show_the_window_and_one_tile_each_side() {
    let a = lwss(8);
    let b = VecTile::new(8);
    let board = VecBoard::new(a, b).unwrap();
    let rows = board.luma_rows();
    assert_eq!(rows.len(), 8);
    for row in &rows {
        assert_eq!(row.len(), 16);
    }
    assert_eq!(rows[0][0], 0);
    assert_eq!(rows[0][1], 255);
    assert_eq!(rows[0][3], 0);
    assert_eq!(rows[3][4], 0);
    assert!(rows[0][8..].iter().all(|&v| v == 255));
    let next = board.next_generation().unwrap();
    let rows = next.luma_rows();
    assert_eq!(rows[0].len(), 8 * (next.highest_non_b() - next.lowest_non_a() + 3) as usize);
}
