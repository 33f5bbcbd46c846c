use minefield::cell::{Cell, EngineError, GameState};
use minefield::engine::Engine;

/// A 5x5 board with a single mine placed manually at (2, 2).
fn board_5x5_mine_center() -> Engine {
    let mut e = Engine::new(5, 5, 1).unwrap();
    e.place_mine(2, 2);
    e
}

#[test]
fn cell_new_is_fresh() {
    let c = Cell::new();
    assert_eq!(c.value, 0);
    assert!(c.covered);
    assert!(!c.flagged);
}

#[test]
fn cell_flag_toggles_only_covered() {
    let mut c = Cell::new();
    c.flag();
    assert!(c.flagged);
    c.flag();
    assert!(!c.flagged);
    c.covered = false;
    c.flag();
    assert!(!c.flagged);
}

#[test]
fn new_rejects_oversized_mine_count() {
    assert!(matches!(Engine::new(5, 5, 25), Err(EngineError::InvalidConfiguration)));
    assert!(matches!(Engine::new(5, 5, 26), Err(EngineError::InvalidConfiguration)));
    assert!(Engine::new(5, 5, 24).is_ok());
    assert!(matches!(Engine::new(0, 5, 0), Err(EngineError::InvalidConfiguration)));
}

#[test]
fn coordinate_operations_reject_out_of_bounds() {
    let mut e = board_5x5_mine_center();
    assert_eq!(e.cell(5, 0).unwrap_err(), EngineError::OutOfBounds);
    assert_eq!(e.cell(0, 5).unwrap_err(), EngineError::OutOfBounds);
    assert_eq!(e.reveal_cell(7, 1).unwrap_err(), EngineError::OutOfBounds);
    assert_eq!(e.toggle_flag(1, 9).unwrap_err(), EngineError::OutOfBounds);
    assert!(e.cell(4, 4).is_ok());
}

#[test]
fn place_mine_sets_value_and_adjacency() {
    let e = board_5x5_mine_center();
    for y in 0..5 {
        for x in 0..5 {
            let c = e.cell(x, y).unwrap();
            let dx = x as i32 - 2;
            let dy = y as i32 - 2;
            if dx == 0 && dy == 0 {
                assert_eq!(c.value, -1);
            } else if dx.abs() <= 1 && dy.abs() <= 1 {
                assert_eq!(c.value, 1);
            } else {
                assert_eq!(c.value, 0);
            }
            assert!(c.covered);
            assert!(!c.flagged);
        }
    }
}

// A reveal on a zero-valued corner uncovers the whole board except the
// mine: the zero region floods and stops at the numbered border.
#[test]
fn scenario_flood_fill_from_corner() {
    let mut e = board_5x5_mine_center();
    assert_eq!(e.cell(0, 0).unwrap().value, 0);
    e.reveal_cell(0, 0).unwrap();
    for y in 0..5 {
        for x in 0..5 {
            let c = e.cell(x, y).unwrap();
            if x == 2 && y == 2 {
                assert!(c.covered);
            } else {
                assert!(!c.covered);
            }
        }
    }
    // Only the mine stays covered, so this reveal also wins the game.
    assert!(e.win_check());
    assert_eq!(e.state(), GameState::Won);
}

// A flag protects its cell from being revealed, directly and by flood.
#[test]
fn scenario_flagged_cell_is_not_revealed() {
    let mut e = board_5x5_mine_center();
    e.toggle_flag(3, 3).unwrap();
    e.reveal_cell(3, 3).unwrap();
    let c = e.cell(3, 3).unwrap();
    assert!(c.covered);
    assert!(c.flagged);
    assert_eq!(e.state(), GameState::InProgress);
}

#[test]
fn flood_fill_never_uncovers_flagged_cell() {
    let mut e = board_5x5_mine_center();
    e.toggle_flag(4, 4).unwrap();
    e.reveal_cell(0, 0).unwrap();
    let flagged = e.cell(4, 4).unwrap();
    assert!(flagged.covered);
    assert!(flagged.flagged);
    // Every other non-mine cell was uncovered.
    for y in 0..5 {
        for x in 0..5 {
            let c = e.cell(x, y).unwrap();
            if (x == 2 && y == 2) || (x == 4 && y == 4) {
                assert!(c.covered);
            } else {
                assert!(!c.covered);
            }
        }
    }
}

// Revealing an unflagged mine loses the game, and a subsequent call to
// uncover_all_mines leaves every mine uncovered.
#[test]
fn scenario_revealing_mine_loses() {
    let mut e = board_5x5_mine_center();
    e.reveal_cell(2, 2).unwrap();
    assert_eq!(e.state(), GameState::Lost);
    e.uncover_all_mines();
    assert!(!e.cell(2, 2).unwrap().covered);
    // Terminal state: further reveals and flags are no-ops.
    e.reveal_cell(0, 0).unwrap();
    assert!(e.cell(0, 0).unwrap().covered);
    e.toggle_flag(0, 0).unwrap();
    assert!(!e.cell(0, 0).unwrap().flagged);
}

// On a 16x16 board with 40 mines, revealing every non-mine cell brings
// the covered count to exactly 40 and wins the game.
#[test]
fn scenario_sixteen_by_sixteen_win() {
    let mut e = Engine::new(16, 16, 40).unwrap();
    let mut placed = 0;
    'outer: for y in 0..16 {
        for x in 0..16 {
            if placed == 40 {
                break 'outer;
            }
            e.place_mine(x, y);
            placed += 1;
        }
    }
    assert_eq!(placed, 40);
    for y in 0..16 {
        for x in 0..16 {
            if e.cell(x, y).unwrap().value != -1 {
                e.reveal_cell(x, y).unwrap();
            }
        }
    }
    let mut covered = 0;
    for y in 0..16 {
        for x in 0..16 {
            if e.cell(x, y).unwrap().covered {
                covered += 1;
            }
        }
    }
    assert_eq!(covered, 40);
    assert!(e.win_check());
    assert_eq!(e.state(), GameState::Won);
}

fn snapshot(e: &Engine) -> (Vec<Cell>, GameState) {
    let mut cells = Vec::new();
    for y in 0..e.rows() {
        for x in 0..e.cols() {
            cells.push(e.cell(x, y).unwrap());
        }
    }
    (cells, e.state())
}

// Revealing the same cell twice changes nothing the second time.
#[test]
fn reveal_is_idempotent() {
    let mut e = board_5x5_mine_center();
    e.reveal_cell(0, 4).unwrap();
    let before = snapshot(&e);
    e.reveal_cell(0, 4).unwrap();
    assert_eq!(snapshot(&e), before);
}

// A reveal on a flagged cell changes nothing at all.
#[test]
fn reveal_on_flagged_cell_is_noop() {
    let mut e = board_5x5_mine_center();
    e.toggle_flag(2, 2).unwrap();
    let before = snapshot(&e);
    e.reveal_cell(2, 2).unwrap();
    assert_eq!(snapshot(&e), before);
    assert_eq!(e.state(), GameState::InProgress);
}

// Toggling a flag on an uncovered cell is a no-op; on a covered cell it
// flips the flag, and a second toggle restores the original state.
#[test]
fn toggle_flag_round_trip() {
    let mut e = board_5x5_mine_center();
    e.reveal_cell(1, 1).unwrap();
    let before = snapshot(&e);
    e.toggle_flag(1, 1).unwrap();
    assert_eq!(snapshot(&e), before);
    e.toggle_flag(3, 3).unwrap();
    assert!(e.cell(3, 3).unwrap().flagged);
    assert!(e.cell(3, 3).unwrap().covered);
    e.toggle_flag(3, 3).unwrap();
    assert_eq!(snapshot(&e), before);
}

#[test]
fn win_check_counts_covered_cells() {
    let e = board_5x5_mine_center();
    // 25 covered cells against a mine count of 1.
    assert!(!e.win_check());
    let mut e = Engine::new(2, 2, 1).unwrap();
    e.place_mine(0, 0);
    e.reveal_cell(1, 0).unwrap();
    assert!(!e.win_check());
    e.reveal_cell(0, 1).unwrap();
    assert!(!e.win_check());
    e.reveal_cell(1, 1).unwrap();
    assert!(e.win_check());
    assert_eq!(e.state(), GameState::Won);
}

#[test]
fn get_total_flagged_counts_flags() {
    let mut e = board_5x5_mine_center();
    assert_eq!(e.get_total_flagged(), 0);
    e.toggle_flag(0, 0).unwrap();
    e.toggle_flag(1, 0).unwrap();
    e.toggle_flag(2, 0).unwrap();
    assert_eq!(e.get_total_flagged(), 3);
    e.toggle_flag(1, 0).unwrap();
    assert_eq!(e.get_total_flagged(), 2);
}

#[test]
fn flag_all_mines_flags_exactly_the_mines() {
    let mut e = board_5x5_mine_center();
    e.flag_all_mines();
    for y in 0..5 {
        for x in 0..5 {
            let c = e.cell(x, y).unwrap();
            assert_eq!(c.flagged, x == 2 && y == 2);
        }
    }
    assert_eq!(e.get_total_flagged(), 1);
}

#[test]
fn uncover_all_mines_only_touches_mines() {
    let mut e = board_5x5_mine_center();
    e.uncover_all_mines();
    for y in 0..5 {
        for x in 0..5 {
            let c = e.cell(x, y).unwrap();
            assert_eq!(c.covered, !(x == 2 && y == 2));
        }
    }
}

// The smallest legal board: a single free cell and no mines; the first
// reveal immediately wins.
#[test]
fn one_by_one_board_with_zero_mines() {
    let mut e = Engine::new(1, 1, 0).unwrap();
    e.setup();
    assert!(!e.win_check());
    e.reveal_cell(0, 0).unwrap();
    assert!(e.win_check());
    assert_eq!(e.state(), GameState::Won);
}

// Won is terminal: reveals and flag toggles no longer take effect.
#[test]
fn won_state_blocks_further_effects() {
    let mut e = board_5x5_mine_center();
    e.reveal_cell(0, 0).unwrap();
    assert_eq!(e.state(), GameState::Won);
    e.toggle_flag(2, 2).unwrap();
    assert!(!e.cell(2, 2).unwrap().flagged);
    e.reveal_cell(2, 2).unwrap();
    assert!(e.cell(2, 2).unwrap().covered);
    assert_eq!(e.state(), GameState::Won);
}
