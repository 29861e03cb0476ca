use minesweeper::game::{generate_board, Game};
use minesweeper::{Config, TileMarking, TileState, TileValue};

fn config(x: usize, y: usize, mines: usize) -> Config {
    Config { x, y, mines }
}

fn snapshot(g: &Game) -> Vec<(TileState, TileValue)> {
    let mut out = Vec::new();
    for y in 0..g.height() {
        for x in 0..g.width() {
            out.push(g.get_tile(x, y).unwrap());
        }
    }
    out
}

fn is_mine_at(g: &Game, x: i64, y: i64) -> bool {
    if x < 0 || y < 0 {
        return false;
    }
    matches!(g.get_tile(x as usize, y as usize), Some((_, TileValue::Mine)))
}

fn opened_count(g: &Game) -> usize {
    snapshot(g).iter().filter(|(s, _)| *s == TileState::Opened).count()
}

#[test]
fn tile_count_is_the_area() {
    assert_eq!(config(4, 5, 3).tile_count(), 20);
}

#[test]
fn config_error_keeps_the_config() {
    let c = config(2, 2, 9);
    let e = minesweeper::ConfigError::new(c);
    assert_eq!(e.config(), c);
}

#[test]
fn too_many_mines_is_refused() {
    let c = config(2, 2, 5);
    match Game::new(c) {
        Err(e) => assert_eq!(e.config(), c),
        Ok(_) => panic!("a board with more mines than tiles was built"),
    }
}

#[test]
fn empty_board_is_refused() {
    assert!(Game::new(config(0, 5, 0)).is_err());
    assert!(Game::new(config(5, 0, 0)).is_err());
}

#[test]
fn board_area_past_usize_is_refused() {
    assert!(Game::new(config(usize::MAX, 2, 0)).is_err());
}

#[test]
fn full_board_is_all_mines() {
    let g = Game::new(config(3, 2, 6)).unwrap();
    for (state, value) in snapshot(&g) {
        assert_eq!(state, TileState::Closed(TileMarking::Unmarked));
        assert_eq!(value, TileValue::Mine);
    }
}

#[test]
fn generated_board_has_exactly_the_mines_asked_for() {
    for &(w, h, m) in &[(1, 1, 0), (1, 1, 1), (15, 15, 20), (4, 7, 27), (9, 3, 0)] {
        let g = Game::new(config(w, h, m)).unwrap();
        assert_eq!(g.width(), w);
        assert_eq!(g.height(), h);
        let tiles = snapshot(&g);
        let mines = tiles.iter().filter(|(_, v)| *v == TileValue::Mine).count();
        let empties = tiles.iter().filter(|(_, v)| matches!(v, TileValue::Empty(_))).count();
        assert_eq!(mines, m);
        assert_eq!(empties, w * h - m);
    }
}

#[test]
fn adjacency_counts_match_the_mines_around() {
    for _ in 0..20 {
        let g = Game::new(config(8, 6, 14)).unwrap();
        for y in 0..6i64 {
            for x in 0..8i64 {
                if let Some((_, TileValue::Empty(n))) = g.get_tile(x as usize, y as usize) {
                    let mut around = 0;
                    for dx in -1..=1i64 {
                        for dy in -1..=1i64 {
                            if (dx, dy) != (0, 0) && is_mine_at(&g, x + dx, y + dy) {
                                around += 1;
                            }
                        }
                    }
                    assert_eq!(n, around);
                }
            }
        }
    }
}

#[test]
fn mines_are_placed_at_random() {
    let mut away_from_origin = false;
    for _ in 0..50 {
        let g = Game::new(config(10, 10, 1)).unwrap();
        if !is_mine_at(&g, 0, 0) {
            away_from_origin = true;
        }
    }
    assert!(away_from_origin);
}

#[test]
fn draws_are_flat_indices() {
    // 3 by 1 with 2 mines, draws 0 then 2: mines at indices 0 and 2.
    let g = Game::with_draws(config(3, 1, 2), &vec![0, 2]).unwrap();
    assert_eq!(g.get_tile(0, 0).unwrap().1, TileValue::Mine);
    assert_eq!(g.get_tile(1, 0).unwrap().1, TileValue::Empty(2));
    assert_eq!(g.get_tile(2, 0).unwrap().1, TileValue::Mine);
}

#[test]
fn draw_on_a_mine_is_drawn_again() {
    // 2 by 2 with 2 mines: the repeated 3s are skipped, then 1 is placed;
    // the trailing 0 comes after the last mine and is not used.
    let g = Game::with_draws(config(2, 2, 2), &vec![3, 3, 3, 1, 0]).unwrap();
    assert_eq!(g.get_tile(1, 1).unwrap().1, TileValue::Mine);
    assert_eq!(g.get_tile(1, 0).unwrap().1, TileValue::Mine);
    assert_eq!(g.get_tile(0, 0).unwrap().1, TileValue::Empty(2));
    assert_eq!(g.get_tile(0, 1).unwrap().1, TileValue::Empty(2));
}

#[test]
fn draw_maps_to_column_and_row() {
    // Index 5 of a 4-wide board is (1, 1).
    let g = Game::with_draws(config(4, 2, 1), &vec![5]).unwrap();
    assert_eq!(g.get_tile(1, 1).unwrap().1, TileValue::Mine);
    assert_eq!(g.get_tile(3, 0).unwrap().1, TileValue::Empty(0));
}

#[test]
fn generate_board_counts_round_a_centre_mine() {
    let tiles = generate_board(config(3, 3, 1), &vec![4]);
    assert_eq!(tiles.len(), 9);
    for (i, t) in tiles.iter().enumerate() {
        if i == 4 {
            assert_eq!(t.value, TileValue::Mine);
        } else {
            assert_eq!(t.value, TileValue::Empty(1));
        }
        assert_eq!(t.state, TileState::Closed(TileMarking::Unmarked));
    }
}

#[test]
fn with_draws_refuses_a_bad_config() {
    assert!(Game::with_draws(config(1, 1, 2), &vec![0, 0]).is_err());
}

#[test]
fn open_off_the_board_changes_nothing() {
    let mut g = Game::new(config(4, 4, 3)).unwrap();
    let before = snapshot(&g);
    assert!(!g.open(4, 0));
    assert!(!g.open(0, 4));
    assert!(!g.open(usize::MAX, usize::MAX));
    assert_eq!(snapshot(&g), before);
}

#[test]
fn get_tile_off_the_board_is_none() {
    let g = Game::new(config(2, 3, 0)).unwrap();
    assert_eq!(g.get_tile(2, 0), None);
    assert_eq!(g.get_tile(0, 3), None);
    assert!(g.get_tile(1, 2).is_some());
}

#[test]
fn open_twice_returns_false_and_changes_nothing() {
    let mut g = Game::with_draws(config(3, 1, 1), &vec![2]).unwrap();
    assert!(!g.open(1, 0));
    let after_first = snapshot(&g);
    assert!(!g.open(1, 0));
    assert_eq!(snapshot(&g), after_first);

    let mut m = Game::with_draws(config(3, 1, 1), &vec![2]).unwrap();
    assert!(m.open(2, 0));
    let after_mine = snapshot(&m);
    assert!(!m.open(2, 0));
    assert_eq!(snapshot(&m), after_mine);
}

#[test]
fn open_a_numbered_tile_opens_only_it() {
    let mut g = Game::with_draws(config(3, 3, 1), &vec![0]).unwrap();
    assert!(!g.open(1, 1));
    assert_eq!(opened_count(&g), 1);
    assert_eq!(g.get_tile(1, 1), Some((TileState::Opened, TileValue::Empty(1))));
}

#[test]
fn open_a_zero_tile_opens_its_region_and_border() {
    // Mine at (0, 0) of a 3 by 3 board: every other tile is reached.
    let mut g = Game::with_draws(config(3, 3, 1), &vec![0]).unwrap();
    assert!(!g.open(2, 2));
    assert_eq!(opened_count(&g), 8);
    assert_eq!(
        g.get_tile(0, 0),
        Some((TileState::Closed(TileMarking::Unmarked), TileValue::Mine))
    );
}

#[test]
fn cascade_stops_at_numbered_tiles() {
    // 5 by 1 with a mine at x = 2: opening (0, 0) reveals (0, 0) and (1, 0).
    let mut g = Game::with_draws(config(5, 1, 1), &vec![2]).unwrap();
    assert!(!g.open(0, 0));
    assert_eq!(g.get_tile(0, 0), Some((TileState::Opened, TileValue::Empty(0))));
    assert_eq!(g.get_tile(1, 0), Some((TileState::Opened, TileValue::Empty(1))));
    assert_eq!(g.get_tile(2, 0).unwrap().0, TileState::Closed(TileMarking::Unmarked));
    assert_eq!(g.get_tile(3, 0).unwrap().0, TileState::Closed(TileMarking::Unmarked));
    assert_eq!(g.get_tile(4, 0).unwrap().0, TileState::Closed(TileMarking::Unmarked));
}

#[test]
fn cascade_passes_over_marked_tiles_and_keeps_opened_ones() {
    let mut g = Game::new(config(4, 4, 0)).unwrap();
    g.cycle(3, 3);
    g.cycle(0, 3);
    g.cycle(0, 3);
    assert!(!g.open(0, 0));
    assert_eq!(opened_count(&g), 16);
}

#[test]
fn cascade_fills_a_large_empty_board() {
    let mut g = Game::new(config(200, 150, 0)).unwrap();
    assert!(!g.open(100, 75));
    assert_eq!(opened_count(&g), 200 * 150);
}

#[test]
fn cycle_on_the_board_goes_round_and_skips_opened_tiles() {
    let mut g = Game::new(config(2, 2, 0)).unwrap();
    g.cycle(1, 0);
    assert_eq!(g.get_tile(1, 0).unwrap().0, TileState::Closed(TileMarking::Flag));
    g.cycle(1, 0);
    assert_eq!(g.get_tile(1, 0).unwrap().0, TileState::Closed(TileMarking::Question));
    g.cycle(1, 0);
    assert_eq!(g.get_tile(1, 0).unwrap().0, TileState::Closed(TileMarking::Unmarked));
    g.open(0, 0);
    let before = snapshot(&g);
    g.cycle(1, 0);
    g.cycle(5, 5);
    assert_eq!(snapshot(&g), before);
}

#[test]
fn single_mine_board_ends_the_game() {
    let mut g = Game::new(config(1, 1, 1)).unwrap();
    assert_eq!(g.get_tile(0, 0).unwrap().1, TileValue::Mine);
    assert!(g.open(0, 0));
    assert_eq!(g.get_tile(0, 0), Some((TileState::Opened, TileValue::Mine)));
}

#[test]
fn mine_free_board_opens_whole_in_one_call() {
    for y in 0..3 {
        for x in 0..3 {
            let mut g = Game::new(config(3, 3, 0)).unwrap();
            for (_, v) in snapshot(&g) {
                assert_eq!(v, TileValue::Empty(0));
            }
            assert!(!g.open(x, y));
            assert_eq!(opened_count(&g), 9);
        }
    }
}
