//! The mathematical model of the minefield: flat indexing of the
//! rectangular grid, counting of cells, the 8-neighbor adjacency count,
//! board well-formedness predicates, and flood-fill reachability.

use vstd::prelude::*;
use crate::cell::Cell;

verus! {

/// Flat index of the grid coordinate `(x, y)` on a board with `cols` columns.
pub open spec fn idx(cols: int, x: int, y: int) -> int {
    y * cols + x
}

/// True iff `(x, y)` is a coordinate on a `rows` by `cols` board.
pub open spec fn in_bounds(rows: int, cols: int, x: int, y: int) -> bool {
    0 <= x < cols && 0 <= y < rows
}

/// The cell at coordinate `(x, y)` of the flat grid `g`.
pub open spec fn cell_at(g: Seq<Cell>, cols: int, x: int, y: int) -> Cell {
    g[idx(cols, x, y)]
}

/// Two distinct coordinates are adjacent iff they differ by at most one in
/// each direction (8-connectivity).
pub open spec fn adjacent(x1: int, y1: int, x2: int, y2: int) -> bool {
    &&& !(x1 == x2 && y1 == y2)
    &&& -1 <= x1 - x2 <= 1
    &&& -1 <= y1 - y2 <= 1
}

/// In-bounds coordinates have in-range flat indices.
pub proof fn lemma_idx_bounds(rows: int, cols: int, x: int, y: int)
    requires
        in_bounds(rows, cols, x, y),
    ensures
        0 <= idx(cols, x, y) < rows * cols,
{
    assert(0 <= y * cols + x < rows * cols) by (nonlinear_arith)
        requires
            0 <= x < cols,
            0 <= y < rows,
    {
    }
}

/// Flat indexing is injective on in-bounds coordinates.
pub proof fn lemma_idx_injective(cols: int, x1: int, y1: int, x2: int, y2: int)
    requires
        0 <= x1 < cols,
        0 <= x2 < cols,
        idx(cols, x1, y1) == idx(cols, x2, y2),
    ensures
        x1 == x2 && y1 == y2,
{
    assert(x1 == x2 && y1 == y2) by (nonlinear_arith)
        requires
            0 <= x1 < cols,
            0 <= x2 < cols,
            y1 * cols + x1 == y2 * cols + x2,
    {
    }
}

/// The number of cells of `g` satisfying `p`.
pub open spec fn count_matching(g: Seq<Cell>, p: spec_fn(Cell) -> bool) -> int
    decreases g.len(),
{
    if g.len() == 0 {
        0
    } else {
        count_matching(g.drop_last(), p) + if p(g.last()) {
            1int
        } else {
            0int
        }
    }
}

/// A count over a sequence lies between 0 and the sequence's length.
pub proof fn lemma_count_matching_bounds(g: Seq<Cell>, p: spec_fn(Cell) -> bool)
    ensures
        0 <= count_matching(g, p) <= g.len(),
    decreases g.len(),
{
    if g.len() > 0 {
        lemma_count_matching_bounds(g.drop_last(), p);
    }
}

/// Appending one cell adds its own contribution to the count.
pub proof fn lemma_count_matching_push(g: Seq<Cell>, p: spec_fn(Cell) -> bool, c: Cell)
    ensures
        count_matching(g.push(c), p) == count_matching(g, p) + if p(c) {
            1int
        } else {
            0int
        },
{
    assert(g.push(c).drop_last() =~= g);
    assert(g.push(c).last() == c);
}

/// Replacing one cell adjusts the count by the difference of the old and
/// new contributions.
pub proof fn lemma_count_matching_update(g: Seq<Cell>, p: spec_fn(Cell) -> bool, i: int, c: Cell)
    requires
        0 <= i < g.len(),
    ensures
        count_matching(g.update(i, c), p) == count_matching(g, p) - (if p(g[i]) {
            1int
        } else {
            0int
        }) + (if p(c) {
            1int
        } else {
            0int
        }),
    decreases g.len(),
{
    let gu = g.update(i, c);
    if i == g.len() - 1 {
        assert(gu.drop_last() =~= g.drop_last());
        assert(gu.last() == c);
    } else {
        assert(gu.drop_last() =~= g.drop_last().update(i, c));
        assert(gu.last() == g.last());
        lemma_count_matching_update(g.drop_last(), p, i, c);
    }
}

/// Extending a prefix by one element extends its count by that element's
/// contribution.
pub proof fn lemma_count_matching_take_step(g: Seq<Cell>, p: spec_fn(Cell) -> bool, i: int)
    requires
        0 <= i < g.len(),
    ensures
        count_matching(g.take(i + 1), p) == count_matching(g.take(i), p) + if p(g[i]) {
            1int
        } else {
            0int
        },
{
    assert(g.take(i + 1) =~= g.take(i).push(g[i]));
    lemma_count_matching_push(g.take(i), p, g[i]);
}

/// A count over a sequence none of whose cells satisfies the predicate is
/// zero.
pub proof fn lemma_count_matching_zero(g: Seq<Cell>, p: spec_fn(Cell) -> bool)
    requires
        forall|j: int| 0 <= j < g.len() ==> !p(#[trigger] g[j]),
    ensures
        count_matching(g, p) == 0,
    decreases g.len(),
{
    if g.len() > 0 {
        lemma_count_matching_zero(g.drop_last(), p);
    }
}

/// The number of covered cells of `g`.
pub open spec fn count_covered(g: Seq<Cell>) -> int {
    count_matching(g, |c: Cell| c.covered)
}

/// The number of flagged cells of `g`.
pub open spec fn count_flagged(g: Seq<Cell>) -> int {
    count_matching(g, |c: Cell| c.flagged)
}

/// The number of mine cells of `g`.
pub open spec fn count_mines(g: Seq<Cell>) -> int {
    count_matching(g, |c: Cell| c.value == -1)
}

/// The number of non-mine cells of `g`.
pub open spec fn count_free(g: Seq<Cell>) -> int {
    count_matching(g, |c: Cell| c.value != -1)
}

/// Mine cells and non-mine cells together make up the whole grid.
pub proof fn lemma_count_mines_free(g: Seq<Cell>)
    ensures
        count_mines(g) + count_free(g) == g.len(),
    decreases g.len(),
{
    if g.len() > 0 {
        lemma_count_mines_free(g.drop_last());
        assert(count_matching(g, |c: Cell| c.value == -1) == count_matching(
            g.drop_last(),
            |c: Cell| c.value == -1,
        ) + if (|c: Cell| c.value == -1)(g.last()) {
            1int
        } else {
            0int
        });
        assert(count_matching(g, |c: Cell| c.value != -1) == count_matching(
            g.drop_last(),
            |c: Cell| c.value != -1,
        ) + if (|c: Cell| c.value != -1)(g.last()) {
            1int
        } else {
            0int
        });
    }
}

/// 1 iff the cell at `(x, y)` exists and holds a mine.
pub open spec fn mine_ind(g: Seq<Cell>, rows: int, cols: int, x: int, y: int) -> int {
    if in_bounds(rows, cols, x, y) && cell_at(g, cols, x, y).value == -1 {
        1
    } else {
        0
    }
}

/// The exact count of mines among the up-to-8 in-bounds neighbors of
/// `(x, y)`.
pub open spec fn adj_count(g: Seq<Cell>, rows: int, cols: int, x: int, y: int) -> int {
    mine_ind(g, rows, cols, x - 1, y - 1) + mine_ind(g, rows, cols, x, y - 1) + mine_ind(
        g,
        rows,
        cols,
        x + 1,
        y - 1,
    ) + mine_ind(g, rows, cols, x - 1, y) + mine_ind(g, rows, cols, x + 1, y) + mine_ind(
        g,
        rows,
        cols,
        x - 1,
        y + 1,
    ) + mine_ind(g, rows, cols, x, y + 1) + mine_ind(g, rows, cols, x + 1, y + 1)
}

/// Every in-bounds cell's value lies in the legal range: `-1` for a mine,
/// otherwise at most 8.
pub open spec fn values_ok(g: Seq<Cell>, rows: int, cols: int) -> bool {
    forall|x: int, y: int|
        in_bounds(rows, cols, x, y) ==> -1 <= (#[trigger] cell_at(g, cols, x, y)).value <= 8
}

/// Every in-bounds non-mine cell's value equals the exact count of mines
/// among its in-bounds 8-neighbors.
pub open spec fn adjacency_ok(g: Seq<Cell>, rows: int, cols: int) -> bool {
    forall|x: int, y: int|
        in_bounds(rows, cols, x, y) && (#[trigger] cell_at(g, cols, x, y)).value != -1
            ==> cell_at(g, cols, x, y).value == adj_count(g, rows, cols, x, y)
}

/// A flag only ever sits on a covered cell.
pub open spec fn flags_ok(g: Seq<Cell>, rows: int, cols: int) -> bool {
    forall|x: int, y: int|
        in_bounds(rows, cols, x, y) && (#[trigger] cell_at(g, cols, x, y)).flagged ==> cell_at(
            g,
            cols,
            x,
            y,
        ).covered
}

/// Relates a flat index to its grid coordinate: for an in-range index on
/// a well-sized board, `(j % cols, j / cols)` is in bounds and flattens
/// back to `j`.
pub proof fn lemma_flat_coords(rows: int, cols: int, j: int)
    requires
        1 <= cols,
        1 <= rows,
        0 <= j < rows * cols,
    ensures
        in_bounds(rows, cols, j % cols, j / cols),
        idx(cols, j % cols, j / cols) == j,
{
    vstd::arithmetic::div_mod::lemma_fundamental_div_mod(j, cols);
    vstd::arithmetic::div_mod::lemma_mod_bound(j, cols);
    vstd::arithmetic::div_mod::lemma_div_pos_is_pos(j, cols);
    assert(j / cols < rows) by (nonlinear_arith)
        requires
            1 <= cols,
            j == cols * (j / cols) + (j % cols),
            0 <= j % cols < cols,
            0 <= j / cols,
            j < rows * cols,
    {
    }
    assert((j / cols) * cols == cols * (j / cols)) by (nonlinear_arith) {}
    assert(idx(cols, j % cols, j / cols) == j);
}

/// The inverse direction: an in-bounds coordinate is recovered from its
/// own flat index by division and remainder.
pub proof fn lemma_coords_flat(rows: int, cols: int, x: int, y: int)
    requires
        in_bounds(rows, cols, x, y),
    ensures
        idx(cols, x, y) % cols == x,
        idx(cols, x, y) / cols == y,
{
    vstd::arithmetic::div_mod::lemma_fundamental_div_mod_converse(y * cols + x, cols, y, x);
}

/// The cell at `(ax, ay)` after a mine is placed at `(x, y)`: the target
/// becomes a mine, each adjacent non-mine cell's value grows by one, and
/// every other cell is unchanged.
pub open spec fn mine_placed_cell(g0: Seq<Cell>, cols: int, x: int, y: int, ax: int, ay: int) -> Cell {
    let c = cell_at(g0, cols, ax, ay);
    if ax == x && ay == y {
        Cell { value: (-1) as i8, ..c }
    } else if adjacent(ax, ay, x, y) && c.value != -1 {
        Cell { value: (c.value + 1) as i8, ..c }
    } else {
        c
    }
}

/// The whole-board transformation of placing one mine at `(x, y)`.
pub open spec fn mine_placed(g0: Seq<Cell>, g1: Seq<Cell>, rows: int, cols: int, x: int, y: int) -> bool {
    &&& g1.len() == g0.len()
    &&& forall|ax: int, ay: int|
        in_bounds(rows, cols, ax, ay) ==> #[trigger] cell_at(g1, cols, ax, ay) == mine_placed_cell(
            g0,
            cols,
            x,
            y,
            ax,
            ay,
        )
}

/// After a mine is placed at `(x, y)`, a coordinate holds a mine exactly
/// if it held one before or is the target itself.
proof fn lemma_mine_ind_after(
    g0: Seq<Cell>,
    g1: Seq<Cell>,
    rows: int,
    cols: int,
    x: int,
    y: int,
    px: int,
    py: int,
)
    requires
        mine_placed(g0, g1, rows, cols, x, y),
        in_bounds(rows, cols, x, y),
        cell_at(g0, cols, x, y).value != -1,
        values_ok(g0, rows, cols),
    ensures
        mine_ind(g1, rows, cols, px, py) == mine_ind(g0, rows, cols, px, py) + if px == x && py
            == y {
            1int
        } else {
            0int
        },
{
    if in_bounds(rows, cols, px, py) {
        assert(cell_at(g1, cols, px, py) == mine_placed_cell(g0, cols, x, y, px, py));
        assert(-1 <= cell_at(g0, cols, px, py).value <= 8);
    }
}

/// Placing a mine on a board whose values and adjacency counts are exact
/// keeps them exact: the target becomes a mine and each non-mine cell's
/// value still equals its mine-neighbor count.
pub proof fn lemma_mine_placed_preserves_invariants(
    g0: Seq<Cell>,
    g1: Seq<Cell>,
    rows: int,
    cols: int,
    x: int,
    y: int,
)
    requires
        mine_placed(g0, g1, rows, cols, x, y),
        in_bounds(rows, cols, x, y),
        cell_at(g0, cols, x, y).value != -1,
        values_ok(g0, rows, cols),
        adjacency_ok(g0, rows, cols),
    ensures
        values_ok(g1, rows, cols),
        adjacency_ok(g1, rows, cols),
{
    assert forall|ax: int, ay: int| in_bounds(rows, cols, ax, ay) implies -1 <= (
    #[trigger] cell_at(g1, cols, ax, ay)).value <= 8 && (cell_at(g1, cols, ax, ay).value != -1
        ==> cell_at(g1, cols, ax, ay).value == adj_count(g1, rows, cols, ax, ay)) by {
        lemma_mine_ind_after(g0, g1, rows, cols, x, y, ax - 1, ay - 1);
        lemma_mine_ind_after(g0, g1, rows, cols, x, y, ax, ay - 1);
        lemma_mine_ind_after(g0, g1, rows, cols, x, y, ax + 1, ay - 1);
        lemma_mine_ind_after(g0, g1, rows, cols, x, y, ax - 1, ay);
        lemma_mine_ind_after(g0, g1, rows, cols, x, y, ax + 1, ay);
        lemma_mine_ind_after(g0, g1, rows, cols, x, y, ax - 1, ay + 1);
        lemma_mine_ind_after(g0, g1, rows, cols, x, y, ax, ay + 1);
        lemma_mine_ind_after(g0, g1, rows, cols, x, y, ax + 1, ay + 1);
        assert(cell_at(g1, cols, ax, ay) == mine_placed_cell(g0, cols, x, y, ax, ay));
        assert(-1 <= cell_at(g0, cols, ax, ay).value <= 8);
        if adjacent(ax, ay, x, y) {
            assert(mine_ind(g0, rows, cols, x, y) == 0);
            assert(adj_count(g1, rows, cols, ax, ay) == adj_count(g0, rows, cols, ax, ay) + 1);
        } else if !(ax == x && ay == y) {
            assert(adj_count(g1, rows, cols, ax, ay) == adj_count(g0, rows, cols, ax, ay));
        }
    }
}

/// Placing a mine raises the mine count by exactly one.
pub proof fn lemma_mine_placed_count(
    g0: Seq<Cell>,
    g1: Seq<Cell>,
    rows: int,
    cols: int,
    x: int,
    y: int,
)
    requires
        mine_placed(g0, g1, rows, cols, x, y),
        in_bounds(rows, cols, x, y),
        cell_at(g0, cols, x, y).value != -1,
        values_ok(g0, rows, cols),
        g0.len() == rows * cols,
        1 <= rows,
        1 <= cols,
    ensures
        count_mines(g1) == count_mines(g0) + 1,
{
    let p = |c: Cell| c.value == -1;
    let i0 = idx(cols, x, y);
    lemma_idx_bounds(rows, cols, x, y);
    lemma_coords_flat(rows, cols, x, y);
    let gm = g0.update(i0, Cell { value: (-1) as i8, ..cell_at(g0, cols, x, y) });
    lemma_count_matching_update(g0, p, i0, Cell { value: (-1) as i8, ..cell_at(g0, cols, x, y) });
    assert(count_matching(gm, p) == count_matching(g0, p) + 1);
    assert forall|j: int| 0 <= j < g1.len() implies p(#[trigger] g1[j]) == p(gm[j]) by {
        lemma_flat_coords(rows, cols, j);
        let ax = j % cols;
        let ay = j / cols;
        assert(cell_at(g1, cols, ax, ay) == mine_placed_cell(g0, cols, x, y, ax, ay));
        if ax == x && ay == y {
            lemma_idx_injective(cols, ax, ay, x, y);
        } else {
            assert(gm[j] == g0[j]);
            assert(-1 <= cell_at(g0, cols, ax, ay).value <= 8);
        }
    }
    lemma_count_matching_congruent(gm, g1, p);
}

/// Two same-length grids whose cells agree under a predicate have the
/// same count for it.
pub proof fn lemma_count_matching_congruent(g0: Seq<Cell>, g1: Seq<Cell>, p: spec_fn(Cell) -> bool)
    requires
        g0.len() == g1.len(),
        forall|j: int| 0 <= j < g1.len() ==> p(#[trigger] g1[j]) == p(g0[j]),
    ensures
        count_matching(g1, p) == count_matching(g0, p),
    decreases g0.len(),
{
    if g0.len() > 0 {
        lemma_count_matching_congruent(g0.drop_last(), g1.drop_last(), p);
    }
}

/// A flood-fill path on grid `g` from `(x0, y0)`: consecutive cells are
/// adjacent; every cell on the path except the last is a zero-valued,
/// unflagged expander; and every cell after the first is covered and
/// unflagged, so the fill may step into it.
pub open spec fn path_ok(
    g: Seq<Cell>,
    rows: int,
    cols: int,
    x0: int,
    y0: int,
    p: Seq<(int, int)>,
) -> bool {
    &&& p.len() >= 1
    &&& p[0] == (x0, y0)
    &&& forall|k: int| 0 <= k < p.len() ==> in_bounds(rows, cols, (#[trigger] p[k]).0, p[k].1)
    &&& forall|k: int|
        1 <= k < p.len() ==> adjacent((#[trigger] p[k]).0, p[k].1, p[k - 1].0, p[k - 1].1)
    &&& forall|k: int|
        1 <= k < p.len() ==> (#[trigger] cell_at(g, cols, p[k].0, p[k].1)).covered && !cell_at(
            g,
            cols,
            p[k].0,
            p[k].1,
        ).flagged
    &&& forall|k: int|
        0 <= k < p.len() - 1 ==> (#[trigger] cell_at(g, cols, p[k].0, p[k].1)).value == 0
            && !cell_at(g, cols, p[k].0, p[k].1).flagged
}

/// `(x, y)` is reached by the flood fill started at `(x0, y0)` on grid
/// `g`: some flood-fill path ends there.
pub open spec fn zreach(g: Seq<Cell>, rows: int, cols: int, x0: int, y0: int, x: int, y: int) -> bool {
    exists|p: Seq<(int, int)>|
        path_ok(g, rows, cols, x0, y0, p) && p.last() == (x, y)
}

/// The fill's start cell reaches itself.
pub proof fn lemma_zreach_base(g: Seq<Cell>, rows: int, cols: int, x0: int, y0: int)
    requires
        in_bounds(rows, cols, x0, y0),
    ensures
        zreach(g, rows, cols, x0, y0, x0, y0),
{
    let p = seq![(x0, y0)];
    assert(path_ok(g, rows, cols, x0, y0, p) && p.last() == (x0, y0));
}

/// A reached zero-valued unflagged cell extends the fill to any covered,
/// unflagged, in-bounds neighbor.
pub proof fn lemma_zreach_step(
    g: Seq<Cell>,
    rows: int,
    cols: int,
    x0: int,
    y0: int,
    cx: int,
    cy: int,
    nx: int,
    ny: int,
)
    requires
        zreach(g, rows, cols, x0, y0, cx, cy),
        cell_at(g, cols, cx, cy).value == 0,
        !cell_at(g, cols, cx, cy).flagged,
        adjacent(nx, ny, cx, cy),
        in_bounds(rows, cols, nx, ny),
        cell_at(g, cols, nx, ny).covered,
        !cell_at(g, cols, nx, ny).flagged,
    ensures
        zreach(g, rows, cols, x0, y0, nx, ny),
{
    let p = choose|p: Seq<(int, int)>|
        path_ok(g, rows, cols, x0, y0, p) && p.last() == (cx, cy);
    let q = p.push((nx, ny));
    assert(q[0] == p[0]);
    assert forall|k: int| 0 <= k < q.len() implies in_bounds(
        rows,
        cols,
        (#[trigger] q[k]).0,
        q[k].1,
    ) by {
        if k < p.len() {
            assert(q[k] == p[k]);
        } else {
            assert(q[k] == (nx, ny));
        }
    }
    assert forall|k: int| 1 <= k < q.len() implies adjacent(
        (#[trigger] q[k]).0,
        q[k].1,
        q[k - 1].0,
        q[k - 1].1,
    ) by {
        if k < p.len() {
            assert(q[k] == p[k] && q[k - 1] == p[k - 1]);
        } else {
            assert(q[k] == (nx, ny) && q[k - 1] == p[p.len() - 1]);
        }
    }
    assert forall|k: int|
        1 <= k < q.len() implies (#[trigger] cell_at(g, cols, q[k].0, q[k].1)).covered && !cell_at(
        g,
        cols,
        q[k].0,
        q[k].1,
    ).flagged by {
        if k < p.len() {
            assert(q[k] == p[k]);
        } else {
            assert(q[k] == (nx, ny));
        }
    }
    assert forall|k: int|
        0 <= k < q.len() - 1 implies (#[trigger] cell_at(g, cols, q[k].0, q[k].1)).value == 0
        && !cell_at(g, cols, q[k].0, q[k].1).flagged by {
        if k < p.len() - 1 {
            assert(q[k] == p[k]);
        } else {
            assert(q[k] == p[p.len() - 1] && p.last() == (cx, cy));
        }
    }
    assert(path_ok(g, rows, cols, x0, y0, q) && q.last() == (nx, ny));
}

/// Every in-bounds, unflagged neighbor of `(cx, cy)` is uncovered in `g`.
pub open spec fn neighbors_uncovered(g: Seq<Cell>, rows: int, cols: int, cx: int, cy: int) -> bool {
    forall|nx: int, ny: int|
        in_bounds(rows, cols, nx, ny) && adjacent(nx, ny, cx, cy) && !(#[trigger] cell_at(
            g,
            cols,
            nx,
            ny,
        )).flagged ==> !cell_at(g, cols, nx, ny).covered
}

/// The region revealed by a fill started at `(x0, y0)` is saturated in
/// `g1`: every uncovered zero-valued unflagged cell that is the start or
/// was covered in `g0` has all its unflagged neighbors uncovered.
pub open spec fn region_closed(
    g0: Seq<Cell>,
    g1: Seq<Cell>,
    rows: int,
    cols: int,
    x0: int,
    y0: int,
) -> bool {
    forall|cx: int, cy: int|
        in_bounds(rows, cols, cx, cy) && !(#[trigger] cell_at(g1, cols, cx, cy)).covered && cell_at(
            g1,
            cols,
            cx,
            cy,
        ).value == 0 && !cell_at(g1, cols, cx, cy).flagged && ((cx == x0 && cy == y0) || cell_at(
            g0,
            cols,
            cx,
            cy,
        ).covered) ==> neighbors_uncovered(g1, rows, cols, cx, cy)
}

/// Relates the board before and after a reveal at in-bounds `(x, y)` that
/// took effect: values and flags are untouched, cells are only ever
/// uncovered and never while flagged, the target is uncovered, every
/// newly uncovered cell was reached by the flood fill, and the revealed
/// region is saturated.
pub open spec fn reveal_grid_post(
    g0: Seq<Cell>,
    g1: Seq<Cell>,
    rows: int,
    cols: int,
    x: int,
    y: int,
) -> bool {
    &&& g1.len() == g0.len()
    &&& forall|ax: int, ay: int|
        in_bounds(rows, cols, ax, ay) ==> (#[trigger] cell_at(g1, cols, ax, ay)).value == cell_at(
            g0,
            cols,
            ax,
            ay,
        ).value && cell_at(g1, cols, ax, ay).flagged == cell_at(g0, cols, ax, ay).flagged
    &&& forall|ax: int, ay: int|
        in_bounds(rows, cols, ax, ay) && !(#[trigger] cell_at(g0, cols, ax, ay)).covered
            ==> !cell_at(g1, cols, ax, ay).covered
    &&& forall|ax: int, ay: int|
        in_bounds(rows, cols, ax, ay) && (#[trigger] cell_at(g0, cols, ax, ay)).flagged ==> cell_at(
            g1,
            cols,
            ax,
            ay,
        ).covered == cell_at(g0, cols, ax, ay).covered
    &&& !cell_at(g1, cols, x, y).covered
    &&& forall|ax: int, ay: int|
        in_bounds(rows, cols, ax, ay) && (#[trigger] cell_at(g0, cols, ax, ay)).covered && !cell_at(
            g1,
            cols,
            ax,
            ay,
        ).covered ==> zreach(g0, rows, cols, x, y, ax, ay)
    &&& region_closed(g0, g1, rows, cols, x, y)
}

/// Completeness of a saturated reveal along one path: the end of any
/// flood-fill path on the old grid is uncovered in the new grid.
proof fn lemma_path_uncovered(
    g0: Seq<Cell>,
    g1: Seq<Cell>,
    rows: int,
    cols: int,
    x0: int,
    y0: int,
    p: Seq<(int, int)>,
)
    requires
        reveal_grid_post(g0, g1, rows, cols, x0, y0),
        path_ok(g0, rows, cols, x0, y0, p),
    ensures
        !cell_at(g1, cols, p.last().0, p.last().1).covered,
    decreases p.len(),
{
    if p.len() == 1 {
        assert(p.last() == (x0, y0));
    } else {
        let q = p.drop_last();
        assert(q[0] == p[0]);
        lemma_path_uncovered(g0, g1, rows, cols, x0, y0, q);
        let prev = p[p.len() - 2];
        assert(q.last() == prev);
        let last = p.last();
        assert(cell_at(g0, cols, prev.0, prev.1).value == 0 && !cell_at(
            g0,
            cols,
            prev.0,
            prev.1,
        ).flagged);
        assert(in_bounds(rows, cols, prev.0, prev.1));
        assert(in_bounds(rows, cols, last.0, last.1));
        assert(adjacent(last.0, last.1, prev.0, prev.1));
        assert(!cell_at(g0, cols, last.0, last.1).flagged);
        if p.len() - 2 > 0 {
            assert(cell_at(g0, cols, prev.0, prev.1).covered);
        }
        assert(neighbors_uncovered(g1, rows, cols, prev.0, prev.1));
    }
}

/// Completeness of a saturated reveal: every cell the flood fill reaches
/// on the old grid is uncovered in the new grid.
pub proof fn lemma_reveal_uncovers_reached(
    g0: Seq<Cell>,
    g1: Seq<Cell>,
    rows: int,
    cols: int,
    x0: int,
    y0: int,
    x: int,
    y: int,
)
    requires
        reveal_grid_post(g0, g1, rows, cols, x0, y0),
        zreach(g0, rows, cols, x0, y0, x, y),
    ensures
        !cell_at(g1, cols, x, y).covered,
{
    let p = choose|p: Seq<(int, int)>| path_ok(g0, rows, cols, x0, y0, p) && p.last() == (x, y);
    lemma_path_uncovered(g0, g1, rows, cols, x0, y0, p);
}

/// On a board whose start cell is uncovered and saturated, the flood
/// fill cannot reach any covered cell: every path beyond the start is
/// blocked by the already-uncovered neighbors.
pub proof fn lemma_no_reach_into_saturated(
    g: Seq<Cell>,
    rows: int,
    cols: int,
    x: int,
    y: int,
    cx: int,
    cy: int,
)
    requires
        !cell_at(g, cols, x, y).covered,
        cell_at(g, cols, x, y).value == 0 && !cell_at(g, cols, x, y).flagged
            ==> neighbors_uncovered(g, rows, cols, x, y),
        zreach(g, rows, cols, x, y, cx, cy),
    ensures
        !cell_at(g, cols, cx, cy).covered,
{
    let p = choose|p: Seq<(int, int)>| path_ok(g, rows, cols, x, y, p) && p.last() == (cx, cy);
    if p.len() == 1 {
        assert(p.last() == p[0]);
    } else {
        assert(cell_at(g, cols, p[0].0, p[0].1).value == 0 && !cell_at(
            g,
            cols,
            p[0].0,
            p[0].1,
        ).flagged);
        assert(neighbors_uncovered(g, rows, cols, x, y));
        assert(in_bounds(rows, cols, p[1].0, p[1].1));
        assert(adjacent(p[1].0, p[1].1, x, y));
        assert(!cell_at(g, cols, p[1].0, p[1].1).flagged);
        assert(cell_at(g, cols, p[1].0, p[1].1).covered);
    }
}

/// A fresh cell: no mine, covered, unflagged.
pub open spec fn fresh_cell() -> Cell {
    Cell { value: 0, covered: true, flagged: false }
}

/// Every in-bounds cell of `g` is fresh.
pub open spec fn all_fresh(g: Seq<Cell>, rows: int, cols: int) -> bool {
    forall|x: int, y: int|
        in_bounds(rows, cols, x, y) ==> #[trigger] cell_at(g, cols, x, y) == fresh_cell()
}

} // verus!
