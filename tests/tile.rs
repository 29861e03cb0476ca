use minesweeper::{tile_symbol, Tile, TileMarking, TileState, TileValue};

#[test]
fn new_tile_is_closed_empty_and_unmarked() {
    let t = Tile::new();
    assert_eq!(t.value, TileValue::Empty(0));
    assert_eq!(t.state, TileState::Closed(TileMarking::Unmarked));
}

#[test]
fn set_mine_keeps_the_state() {
    let mut t = Tile::new();
    t.cycle();
    t.set_mine();
    assert_eq!(t.value, TileValue::Mine);
    assert_eq!(t.state, TileState::Closed(TileMarking::Flag));
}

#[test]
fn inc_mine_count_counts_up_and_leaves_mines_alone() {
    let mut t = Tile::new();
    t.inc_mine_count();
    t.inc_mine_count();
    assert_eq!(t.value, TileValue::Empty(2));
    let mut m = Tile::new();
    m.set_mine();
    m.inc_mine_count();
    assert_eq!(m.value, TileValue::Mine);
}

#[test]
fn tile_opens_once() {
    let mut t = Tile::new();
    t.inc_mine_count();
    assert_eq!(t.open(), Some(TileValue::Empty(1)));
    assert_eq!(t.state, TileState::Opened);
    assert_eq!(t.open(), None);
    assert_eq!(t.state, TileState::Opened);
    assert_eq!(t.value, TileValue::Empty(1));
}

#[test]
fn tile_cycle_goes_round_in_three_steps() {
    let mut t = Tile::new();
    t.cycle();
    assert_eq!(t.state, TileState::Closed(TileMarking::Flag));
    t.cycle();
    assert_eq!(t.state, TileState::Closed(TileMarking::Question));
    t.cycle();
    assert_eq!(t.state, TileState::Closed(TileMarking::Unmarked));
}

#[test]
fn cycle_leaves_an_opened_tile_alone() {
    let mut t = Tile::new();
    t.open();
    t.cycle();
    assert_eq!(t.state, TileState::Opened);
}

#[test]
fn tile_symbols_follow_state_and_value() {
    assert_eq!(tile_symbol(TileState::Opened, TileValue::Mine), '*');
    assert_eq!(tile_symbol(TileState::Opened, TileValue::Empty(0)), ' ');
    assert_eq!(tile_symbol(TileState::Opened, TileValue::Empty(1)), '1');
    assert_eq!(tile_symbol(TileState::Opened, TileValue::Empty(8)), '8');
    assert_eq!(tile_symbol(TileState::Closed(TileMarking::Unmarked), TileValue::Mine), '\u{2395}');
    assert_eq!(tile_symbol(TileState::Closed(TileMarking::Flag), TileValue::Empty(3)), '\u{233b}');
    assert_eq!(tile_symbol(TileState::Closed(TileMarking::Question), TileValue::Empty(0)), '\u{2370}');
}
