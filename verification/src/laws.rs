//! Laws of the engine that relate several operations: idempotence of the
//! reveal, the flag toggle round trip, and completeness of the flood
//! fill. Each is proved from the operations' public contracts alone.

use vstd::prelude::*;
use crate::cell::GameState;
use crate::engine::{reveal_post, toggle_post, EngineView};
use crate::model::{
    cell_at, count_covered, lemma_flat_coords, lemma_no_reach_into_saturated,
    lemma_reveal_uncovers_reached, zreach,
};

verus! {

/// Law: the reveal is idempotent. If one reveal at `(x, y)` takes the
/// engine from `v0` to `v1`, a second reveal at the same coordinate
/// changes nothing: the region is already saturated, so the fill cannot
/// uncover another cell, and the game state is re-derived unchanged.
pub proof fn lemma_reveal_idempotent(
    v0: EngineView,
    v1: EngineView,
    v2: EngineView,
    x: int,
    y: int,
)
    requires
        v0.shape_ok(),
        v0.contains(x, y),
        reveal_post(v0, v1, x, y),
        reveal_post(v1, v2, x, y),
    ensures
        v2 == v1,
{
    assert(v1.grid.len() == v0.grid.len());
    assert forall|j: int| 0 <= j < v1.grid.len() implies v2.grid[j] == v1.grid[j] by {
        lemma_flat_coords(v0.rows, v0.cols, j);
        let ax = j % v0.cols;
        let ay = j / v0.cols;
        assert(cell_at(v2.grid, v1.cols, ax, ay).value == cell_at(v1.grid, v1.cols, ax, ay).value);
        assert(cell_at(v2.grid, v1.cols, ax, ay).flagged == cell_at(
            v1.grid,
            v1.cols,
            ax,
            ay,
        ).flagged);
        if cell_at(v1.grid, v1.cols, ax, ay).covered && !cell_at(
            v2.grid,
            v1.cols,
            ax,
            ay,
        ).covered {
            assert(zreach(v1.grid, v1.rows, v1.cols, x, y, ax, ay));
            lemma_no_reach_into_saturated(v1.grid, v1.rows, v1.cols, x, y, ax, ay);
        }
        assert(!cell_at(v1.grid, v1.cols, ax, ay).covered ==> !cell_at(
            v2.grid,
            v1.cols,
            ax,
            ay,
        ).covered);
    }
    assert(v2.grid =~= v1.grid);
    assert(cell_at(v1.grid, v1.cols, x, y).value == cell_at(v0.grid, v0.cols, x, y).value);
    assert(count_covered(v2.grid) == count_covered(v1.grid));
    if cell_at(v0.grid, v0.cols, x, y).value == -1 {
        assert(v1.state == GameState::Lost);
        assert(v2.state == GameState::Lost);
    }
    assert(v2 =~= v1);
}

/// Law: toggling the flag at one coordinate twice restores the engine to
/// its original state; in particular a toggle on an uncovered cell is a
/// no-op and a toggle on a covered cell only flips its flag.
pub proof fn lemma_toggle_flag_twice(
    v0: EngineView,
    v1: EngineView,
    v2: EngineView,
    x: int,
    y: int,
)
    requires
        v0.shape_ok(),
        toggle_post(v0, v1, x, y),
        toggle_post(v1, v2, x, y),
    ensures
        v2 == v0,
{
    assert forall|j: int| 0 <= j < v0.grid.len() implies v2.grid[j] == v0.grid[j] by {
        lemma_flat_coords(v0.rows, v0.cols, j);
        let ax = j % v0.cols;
        let ay = j / v0.cols;
        assert(cell_at(v1.grid, v1.cols, ax, ay) == if ax == x && ay == y {
            cell_at(v0.grid, v0.cols, ax, ay).flag_toggled()
        } else {
            cell_at(v0.grid, v0.cols, ax, ay)
        });
        assert(cell_at(v2.grid, v2.cols, ax, ay) == if ax == x && ay == y {
            cell_at(v1.grid, v1.cols, ax, ay).flag_toggled()
        } else {
            cell_at(v1.grid, v1.cols, ax, ay)
        });
    }
    assert(v2.grid =~= v0.grid);
    assert(v2 =~= v0);
}

/// Law: the reveal uncovers the whole connected zero region of the
/// target together with its border. Every cell that the flood fill
/// reaches from `(x, y)` on the old board is uncovered afterwards; that
/// no flagged cell is ever uncovered, and that every newly uncovered cell
/// lies in the reached region, are clauses of [`reveal_post`] itself.
pub proof fn lemma_reveal_floods_region(
    v0: EngineView,
    v1: EngineView,
    x: int,
    y: int,
    cx: int,
    cy: int,
)
    requires
        reveal_post(v0, v1, x, y),
        zreach(v0.grid, v0.rows, v0.cols, x, y, cx, cy),
    ensures
        !cell_at(v1.grid, v1.cols, cx, cy).covered,
{
    lemma_reveal_uncovers_reached(v0.grid, v1.grid, v0.rows, v0.cols, x, y, cx, cy);
}

/// Law: the reveal contract pins its outcome down. Any two engines that
/// both satisfy [`reveal_post`] from the same starting state at the same
/// coordinate are equal: every newly uncovered cell is reached by the
/// fill, and every reached cell must be uncovered, so the revealed set
/// — and with it the re-derived game state — is uniquely determined.
pub proof fn lemma_reveal_deterministic(
    v0: EngineView,
    va: EngineView,
    vb: EngineView,
    x: int,
    y: int,
)
    requires
        v0.shape_ok(),
        v0.contains(x, y),
        reveal_post(v0, va, x, y),
        reveal_post(v0, vb, x, y),
    ensures
        va == vb,
{
    assert forall|j: int| 0 <= j < v0.grid.len() implies va.grid[j] == vb.grid[j] by {
        lemma_flat_coords(v0.rows, v0.cols, j);
        let ax = j % v0.cols;
        let ay = j / v0.cols;
        if cell_at(v0.grid, v0.cols, ax, ay).covered {
            if !cell_at(va.grid, v0.cols, ax, ay).covered {
                assert(zreach(v0.grid, v0.rows, v0.cols, x, y, ax, ay));
                lemma_reveal_uncovers_reached(
                    v0.grid,
                    vb.grid,
                    v0.rows,
                    v0.cols,
                    x,
                    y,
                    ax,
                    ay,
                );
            }
            if !cell_at(vb.grid, v0.cols, ax, ay).covered {
                assert(zreach(v0.grid, v0.rows, v0.cols, x, y, ax, ay));
                lemma_reveal_uncovers_reached(
                    v0.grid,
                    va.grid,
                    v0.rows,
                    v0.cols,
                    x,
                    y,
                    ax,
                    ay,
                );
            }
        }
    }
    assert(va.grid =~= vb.grid);
    assert(count_covered(va.grid) == count_covered(vb.grid));
    assert(va =~= vb);
}

} // verus!

