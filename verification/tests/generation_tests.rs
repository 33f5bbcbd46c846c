use minefield::cell::GameState;
use minefield::engine::Engine;

/// The exact number of mines among the 8-connected in-bounds neighbors
/// of (x, y), recomputed independently of the engine.
fn neighbor_mines(e: &Engine, x: usize, y: usize) -> i32 {
    let mut n = 0;
    for dy in -1i32..=1 {
        for dx in -1i32..=1 {
            if dx == 0 && dy == 0 {
                continue;
            }
            let nx = x as i32 + dx;
            let ny = y as i32 + dy;
            if nx < 0 || ny < 0 || nx >= e.cols() as i32 || ny >= e.rows() as i32 {
                continue;
            }
            if e.cell(nx as usize, ny as usize).unwrap().value == -1 {
                n += 1;
            }
        }
    }
    n
}

// Every generated board carries exactly the configured number of mines.
#[test]
fn generated_board_has_exact_mine_count() {
    let mut e = Engine::new(16, 16, 40).unwrap();
    e.setup();
    let mut mines = 0;
    for y in 0..16 {
        for x in 0..16 {
            if e.cell(x, y).unwrap().value == -1 {
                mines += 1;
            }
        }
    }
    assert_eq!(mines, 40);
    assert_eq!(e.mine_count(), 40);
}

// On every generated board each non-mine cell's value is the exact count
// of mines among its in-bounds 8-neighbors.
#[test]
fn generated_board_has_exact_adjacency_counts() {
    let mut e = Engine::new(16, 16, 40).unwrap();
    e.setup();
    for y in 0..16 {
        for x in 0..16 {
            let c = e.cell(x, y).unwrap();
            if c.value != -1 {
                assert_eq!(c.value as i32, neighbor_mines(&e, x, y));
            }
        }
    }
}

// setup replaces a played board by a fresh, fully covered, unflagged one
// and clears the game state.
#[test]
fn setup_resets_a_played_board() {
    let mut e = Engine::new(7, 9, 10).unwrap();
    e.setup();
    e.toggle_flag(0, 0).unwrap();
    let mut lost = false;
    for y in 0..7 {
        for x in 0..9 {
            if e.cell(x, y).unwrap().value == -1 && !e.cell(x, y).unwrap().flagged {
                e.reveal_cell(x, y).unwrap();
                lost = true;
                break;
            }
        }
        if lost {
            break;
        }
    }
    assert!(lost);
    assert_eq!(e.state(), GameState::Lost);
    e.setup();
    assert_eq!(e.state(), GameState::InProgress);
    assert_eq!(e.rows(), 7);
    assert_eq!(e.cols(), 9);
    assert_eq!(e.get_total_flagged(), 0);
    let mut mines = 0;
    for y in 0..7 {
        for x in 0..9 {
            let c = e.cell(x, y).unwrap();
            assert!(c.covered);
            assert!(!c.flagged);
            if c.value == -1 {
                mines += 1;
            }
        }
    }
    assert_eq!(mines, 10);
}

// Different boards can come out of generation, but every one of them
// satisfies the same invariants; run a few rounds to exercise the
// random source.
#[test]
fn repeated_generation_keeps_invariants() {
    let mut e = Engine::new(8, 8, 20).unwrap();
    for _ in 0..5 {
        e.setup();
        let mut mines = 0;
        for y in 0..8 {
            for x in 0..8 {
                let c = e.cell(x, y).unwrap();
                if c.value == -1 {
                    mines += 1;
                } else {
                    assert_eq!(c.value as i32, neighbor_mines(&e, x, y));
                }
            }
        }
        assert_eq!(mines, 20);
    }
}
