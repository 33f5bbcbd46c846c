//! The minefield engine: the grid with its bookkeeping, and the
//! state-transition operations that drive a game.

use vstd::prelude::*;
use crate::cell::{Cell, EngineError, GameState};
use crate::model::{
    adjacency_ok, adjacent, all_fresh, cell_at, count_covered, count_flagged, count_free,
    count_matching, count_mines, flags_ok, fresh_cell, idx, in_bounds, lemma_coords_flat,
    lemma_count_matching_bounds, lemma_count_matching_take_step, lemma_count_matching_update,
    lemma_count_matching_zero, lemma_count_mines_free, lemma_flat_coords, lemma_idx_bounds,
    lemma_idx_injective, lemma_mine_placed_count, lemma_mine_placed_preserves_invariants,
    lemma_zreach_base, lemma_zreach_step, mine_placed, mine_placed_cell, reveal_grid_post,
    values_ok, zreach,
};

verus! {

/// The largest accepted extent of either board dimension. It keeps every
/// index computation comfortably inside the machine's integer types.
pub const MAX_DIM: usize = 16384;

/// The abstract value of an [`Engine`]: its dimensions, configured mine
/// count, the grid as a sequence of cells in row-major order, and the
/// game state.
#[verifier::ext_equal]
pub struct EngineView {
    pub rows: int,
    pub cols: int,
    pub mine_count: int,
    pub grid: Seq<Cell>,
    pub state: GameState,
}

impl EngineView {
    /// The cell at coordinate `(x, y)`.
    pub open spec fn cell(self, x: int, y: int) -> Cell {
        cell_at(self.grid, self.cols, x, y)
    }

    /// True iff `(x, y)` is a coordinate on this board.
    pub open spec fn contains(self, x: int, y: int) -> bool {
        in_bounds(self.rows, self.cols, x, y)
    }

    /// The basic well-formedness of the board: positive dimensions within
    /// the machine limit, a grid of exactly `rows * cols` cells, and a mine
    /// count below the number of cells.
    pub open spec fn shape_ok(self) -> bool {
        &&& 1 <= self.rows <= MAX_DIM
        &&& 1 <= self.cols <= MAX_DIM
        &&& self.grid.len() == self.rows * self.cols
        &&& 0 <= self.mine_count < self.rows * self.cols
    }

    /// The full board invariant after generation: legal values, exact
    /// adjacency counts, exactly `mine_count` mines, and flags only on
    /// covered cells.
    pub open spec fn generated(self) -> bool {
        &&& values_ok(self.grid, self.rows, self.cols)
        &&& adjacency_ok(self.grid, self.rows, self.cols)
        &&& flags_ok(self.grid, self.rows, self.cols)
        &&& count_mines(self.grid) == self.mine_count
    }
}

/// Relates the board before and after an effective flag toggle at
/// `(x, y)`: the target cell is replaced by its toggled value (a no-op on
/// an uncovered cell) and everything else is unchanged.
pub open spec fn toggle_post(v0: EngineView, v1: EngineView, x: int, y: int) -> bool {
    &&& v1.rows == v0.rows
    &&& v1.cols == v0.cols
    &&& v1.mine_count == v0.mine_count
    &&& v1.state == v0.state
    &&& v1.grid.len() == v0.grid.len()
    &&& forall|ax: int, ay: int|
        v0.contains(ax, ay) ==> #[trigger] cell_at(v1.grid, v1.cols, ax, ay) == if ax == x && ay
            == y {
            cell_at(v0.grid, v0.cols, ax, ay).flag_toggled()
        } else {
            cell_at(v0.grid, v0.cols, ax, ay)
        }
}

/// Relates an engine before and after a reveal at `(x, y)` that took
/// effect: the grid changes as [`reveal_grid_post`] describes, and the
/// game state becomes `Lost` the instant the target holds a mine, `Won`
/// when only the mines remain covered, and stays `InProgress` otherwise.
pub open spec fn reveal_post(v0: EngineView, v1: EngineView, x: int, y: int) -> bool {
    &&& v1.rows == v0.rows
    &&& v1.cols == v0.cols
    &&& v1.mine_count == v0.mine_count
    &&& reveal_grid_post(v0.grid, v1.grid, v0.rows, v0.cols, x, y)
    &&& v1.state == (if cell_at(v0.grid, v0.cols, x, y).value == -1 {
        GameState::Lost
    } else if count_covered(v1.grid) == v1.mine_count {
        GameState::Won
    } else {
        GameState::InProgress
    })
}

/// The coordinate `(x, y)` occurs in the worklist `s`.
spec fn in_stack(s: Seq<(usize, usize)>, x: int, y: int) -> bool {
    exists|k: int| 0 <= k < s.len() && (#[trigger] s[k]).0 == x && s[k].1 == y
}

/// Every worklist entry is an in-bounds coordinate, and one that is still
/// covered and unflagged on the original grid has been reached by the
/// flood fill.
spec fn stack_elems_ok(s: Seq<(usize, usize)>, v0: EngineView, tx: int, ty: int) -> bool {
    forall|k: int|
        0 <= k < s.len() ==> {
            let ex = (#[trigger] s[k]).0 as int;
            let ey = s[k].1 as int;
            &&& v0.contains(ex, ey)
            &&& (cell_at(v0.grid, v0.cols, ex, ey).covered && !cell_at(
                v0.grid,
                v0.cols,
                ex,
                ey,
            ).flagged ==> zreach(v0.grid, v0.rows, v0.cols, tx, ty, ex, ey))
        }
}

/// Every in-bounds neighbor of `(cx, cy)` is already uncovered in `g`,
/// protected by a flag, or still waiting in the worklist.
spec fn neighbors_done(v0: EngineView, g: Seq<Cell>, s: Seq<(usize, usize)>, cx: int, cy: int) -> bool {
    forall|nx: int, ny: int|
        in_bounds(v0.rows, v0.cols, nx, ny) && adjacent(nx, ny, cx, cy) ==> !(#[trigger] cell_at(
            g,
            v0.cols,
            nx,
            ny,
        )).covered || cell_at(v0.grid, v0.cols, nx, ny).flagged || in_stack(s, nx, ny)
}

/// Mid-fill saturation: every zero-valued unflagged cell that the fill
/// has uncovered (or the start cell) has each of its neighbors uncovered,
/// flagged, or queued.
spec fn pending_ok(v0: EngineView, g: Seq<Cell>, s: Seq<(usize, usize)>, tx: int, ty: int) -> bool {
    forall|cx: int, cy: int|
        in_bounds(v0.rows, v0.cols, cx, cy) && (#[trigger] cell_at(
            v0.grid,
            v0.cols,
            cx,
            cy,
        )).value == 0 && !cell_at(v0.grid, v0.cols, cx, cy).flagged && !cell_at(
            g,
            v0.cols,
            cx,
            cy,
        ).covered && ((cx == tx && cy == ty) || cell_at(v0.grid, v0.cols, cx, cy).covered)
            ==> neighbors_done(v0, g, s, cx, cy)
}

/// A coordinate of a worklist stays in any worklist that extends it
/// entrywise.
proof fn lemma_in_stack_extend(s1: Seq<(usize, usize)>, s2: Seq<(usize, usize)>, x: int, y: int)
    requires
        in_stack(s1, x, y),
        s1.len() <= s2.len(),
        forall|k: int| 0 <= k < s1.len() ==> s2[k] == s1[k],
    ensures
        in_stack(s2, x, y),
{
    let k = choose|k: int| 0 <= k < s1.len() && (#[trigger] s1[k]).0 == x && s1[k].1 == y;
    assert(0 <= k < s2.len() && s2[k].0 == x && s2[k].1 == y);
}

/// A coordinate of a worklist either survives removing the last entry or
/// is that last entry.
proof fn lemma_in_stack_pop(s: Seq<(usize, usize)>, x: int, y: int)
    requires
        s.len() > 0,
        in_stack(s, x, y),
    ensures
        in_stack(s.subrange(0, s.len() - 1), x, y) || (s.last().0 == x && s.last().1 == y),
{
    let k = choose|k: int| 0 <= k < s.len() && (#[trigger] s[k]).0 == x && s[k].1 == y;
    if k < s.len() - 1 {
        let t = s.subrange(0, s.len() - 1);
        assert(t[k] == s[k]);
        assert(0 <= k < t.len() && t[k].0 == x && t[k].1 == y);
    }
}

/// Queues every in-bounds neighbor of the reached zero-valued cell
/// `(cx, cy)` on the flood-fill worklist.
fn push_neighbors(
    stack: &mut Vec<(usize, usize)>,
    rows: usize,
    cols: usize,
    cx: usize,
    cy: usize,
    Ghost(v0): Ghost<EngineView>,
    Ghost(tx): Ghost<int>,
    Ghost(ty): Ghost<int>,
)
    requires
        v0.shape_ok(),
        rows == v0.rows,
        cols == v0.cols,
        v0.contains(cx as int, cy as int),
        cell_at(v0.grid, v0.cols, cx as int, cy as int).value == 0,
        !cell_at(v0.grid, v0.cols, cx as int, cy as int).flagged,
        zreach(v0.grid, v0.rows, v0.cols, tx, ty, cx as int, cy as int),
        stack_elems_ok(old(stack)@, v0, tx, ty),
    ensures
        stack_elems_ok(final(stack)@, v0, tx, ty),
        old(stack)@.len() <= final(stack)@.len() <= old(stack)@.len() + 8,
        forall|k: int| 0 <= k < old(stack)@.len() ==> final(stack)@[k] == old(stack)@[k],
        forall|nx: int, ny: int|
            in_bounds(v0.rows, v0.cols, nx, ny) && adjacent(nx, ny, cx as int, cy as int)
                ==> in_stack(final(stack)@, nx, ny),
{
    if cx > 0 && cy > 0 {
        proof {
            if cell_at(v0.grid, v0.cols, cx - 1, cy - 1).covered && !cell_at(
                v0.grid,
                v0.cols,
                cx - 1,
                cy - 1,
            ).flagged {
                lemma_zreach_step(
                    v0.grid,
                    v0.rows,
                    v0.cols,
                    tx,
                    ty,
                    cx as int,
                    cy as int,
                    cx - 1,
                    cy - 1,
                );
            }
        }
        stack.push((cx - 1, cy - 1));
    }
    let ghost s1 = stack@;
    if cy > 0 {
        proof {
            if cell_at(v0.grid, v0.cols, cx as int, cy - 1).covered && !cell_at(
                v0.grid,
                v0.cols,
                cx as int,
                cy - 1,
            ).flagged {
                lemma_zreach_step(
                    v0.grid,
                    v0.rows,
                    v0.cols,
                    tx,
                    ty,
                    cx as int,
                    cy as int,
                    cx as int,
                    cy - 1,
                );
            }
        }
        stack.push((cx, cy - 1));
    }
    let ghost s2 = stack@;
    if cx + 1 < cols && cy > 0 {
        proof {
            if cell_at(v0.grid, v0.cols, cx + 1, cy - 1).covered && !cell_at(
                v0.grid,
                v0.cols,
                cx + 1,
                cy - 1,
            ).flagged {
                lemma_zreach_step(
                    v0.grid,
                    v0.rows,
                    v0.cols,
                    tx,
                    ty,
                    cx as int,
                    cy as int,
                    cx + 1,
                    cy - 1,
                );
            }
        }
        stack.push((cx + 1, cy - 1));
    }
    let ghost s3 = stack@;
    if cx > 0 {
        proof {
            if cell_at(v0.grid, v0.cols, cx - 1, cy as int).covered && !cell_at(
                v0.grid,
                v0.cols,
                cx - 1,
                cy as int,
            ).flagged {
                lemma_zreach_step(
                    v0.grid,
                    v0.rows,
                    v0.cols,
                    tx,
                    ty,
                    cx as int,
                    cy as int,
                    cx - 1,
                    cy as int,
                );
            }
        }
        stack.push((cx - 1, cy));
    }
    let ghost s4 = stack@;
    if cx + 1 < cols {
        proof {
            if cell_at(v0.grid, v0.cols, cx + 1, cy as int).covered && !cell_at(
                v0.grid,
                v0.cols,
                cx + 1,
                cy as int,
            ).flagged {
                lemma_zreach_step(
                    v0.grid,
                    v0.rows,
                    v0.cols,
                    tx,
                    ty,
                    cx as int,
                    cy as int,
                    cx + 1,
                    cy as int,
                );
            }
        }
        stack.push((cx + 1, cy));
    }
    let ghost s5 = stack@;
    if cx > 0 && cy + 1 < rows {
        proof {
            if cell_at(v0.grid, v0.cols, cx - 1, cy + 1).covered && !cell_at(
                v0.grid,
                v0.cols,
                cx - 1,
                cy + 1,
            ).flagged {
                lemma_zreach_step(
                    v0.grid,
                    v0.rows,
                    v0.cols,
                    tx,
                    ty,
                    cx as int,
                    cy as int,
                    cx - 1,
                    cy + 1,
                );
            }
        }
        stack.push((cx - 1, cy + 1));
    }
    let ghost s6 = stack@;
    if cy + 1 < rows {
        proof {
            if cell_at(v0.grid, v0.cols, cx as int, cy + 1).covered && !cell_at(
                v0.grid,
                v0.cols,
                cx as int,
                cy + 1,
            ).flagged {
                lemma_zreach_step(
                    v0.grid,
                    v0.rows,
                    v0.cols,
                    tx,
                    ty,
                    cx as int,
                    cy as int,
                    cx as int,
                    cy + 1,
                );
            }
        }
        stack.push((cx, cy + 1));
    }
    let ghost s7 = stack@;
    if cx + 1 < cols && cy + 1 < rows {
        proof {
            if cell_at(v0.grid, v0.cols, cx + 1, cy + 1).covered && !cell_at(
                v0.grid,
                v0.cols,
                cx + 1,
                cy + 1,
            ).flagged {
                lemma_zreach_step(
                    v0.grid,
                    v0.rows,
                    v0.cols,
                    tx,
                    ty,
                    cx as int,
                    cy as int,
                    cx + 1,
                    cy + 1,
                );
            }
        }
        stack.push((cx + 1, cy + 1));
    }
    proof {
        let sf = stack@;
        assert forall|nx: int, ny: int|
            in_bounds(v0.rows, v0.cols, nx, ny) && adjacent(
                nx,
                ny,
                cx as int,
                cy as int,
            ) implies in_stack(sf, nx, ny) by {
            if nx == cx - 1 && ny == cy - 1 {
                assert(s1[s1.len() - 1] == ((cx - 1) as usize, (cy - 1) as usize));
                assert(in_stack(s1, nx, ny));
                lemma_in_stack_extend(s1, sf, nx, ny);
            } else if nx == cx && ny == cy - 1 {
                assert(s2[s2.len() - 1] == (cx, (cy - 1) as usize));
                assert(in_stack(s2, nx, ny));
                lemma_in_stack_extend(s2, sf, nx, ny);
            } else if nx == cx + 1 && ny == cy - 1 {
                assert(s3[s3.len() - 1] == ((cx + 1) as usize, (cy - 1) as usize));
                assert(in_stack(s3, nx, ny));
                lemma_in_stack_extend(s3, sf, nx, ny);
            } else if nx == cx - 1 && ny == cy {
                assert(s4[s4.len() - 1] == ((cx - 1) as usize, cy));
                assert(in_stack(s4, nx, ny));
                lemma_in_stack_extend(s4, sf, nx, ny);
            } else if nx == cx + 1 && ny == cy {
                assert(s5[s5.len() - 1] == ((cx + 1) as usize, cy));
                assert(in_stack(s5, nx, ny));
                lemma_in_stack_extend(s5, sf, nx, ny);
            } else if nx == cx - 1 && ny == cy + 1 {
                assert(s6[s6.len() - 1] == ((cx - 1) as usize, (cy + 1) as usize));
                assert(in_stack(s6, nx, ny));
                lemma_in_stack_extend(s6, sf, nx, ny);
            } else if nx == cx && ny == cy + 1 {
                assert(s7[s7.len() - 1] == (cx, (cy + 1) as usize));
                assert(in_stack(s7, nx, ny));
                lemma_in_stack_extend(s7, sf, nx, ny);
            } else {
                assert(nx == cx + 1 && ny == cy + 1);
                assert(sf[sf.len() - 1] == ((cx + 1) as usize, (cy + 1) as usize));
                assert(in_stack(sf, nx, ny));
            }
        }
    }
}

/// The minefield engine. It exclusively owns the grid and the derived game
/// state, and is driven by the operations below.
pub struct Engine {
    rows: usize,
    cols: usize,
    mine_count: usize,
    grid: Vec<Cell>,
    state: GameState,
}

impl View for Engine {
    type V = EngineView;

    closed spec fn view(&self) -> EngineView {
        EngineView {
            rows: self.rows as int,
            cols: self.cols as int,
            mine_count: self.mine_count as int,
            grid: self.grid@,
            state: self.state,
        }
    }
}

/// The product of two dimensions within the machine limit stays far below
/// `usize::MAX`, so flat indices can be computed without overflow.
proof fn lemma_dims_product_bound(rows: int, cols: int)
    requires
        1 <= rows <= MAX_DIM,
        1 <= cols <= MAX_DIM,
    ensures
        rows * cols <= 0x10000000,
{
    assert(rows * cols <= 0x10000000) by (nonlinear_arith)
        requires
            1 <= rows <= 16384,
            1 <= cols <= 16384,
    {
    }
}

/// Builds a vector of `n` fresh cells.
fn fresh_grid(n: usize) -> (g: Vec<Cell>)
    ensures
        g@.len() == n,
        forall|j: int| 0 <= j < n ==> g@[j] == fresh_cell(),
{
    let mut g: Vec<Cell> = Vec::new();
    let mut i: usize = 0;
    while i < n
        invariant
            i <= n,
            g@.len() == i,
            forall|j: int| 0 <= j < i ==> g@[j] == fresh_cell(),
        decreases n - i,
    {
        g.push(Cell::new());
        i = i + 1;
    }
    g
}

impl Engine {
    /// Creates an engine for a `rows` by `cols` board that will carry
    /// `mine_count` mines, with every cell fresh and no mines placed yet.
    /// Rejects a mine count that does not leave at least one free cell.
    pub fn new(rows: usize, cols: usize, mine_count: usize) -> (res: Result<Engine, EngineError>)
        requires
            rows <= MAX_DIM,
            cols <= MAX_DIM,
        ensures
            res is Err <==> mine_count >= rows * cols,
            res is Err ==> res == Err::<Engine, EngineError>(EngineError::InvalidConfiguration),
            res is Ok ==> {
                let v = res.unwrap()@;
                &&& v.shape_ok()
                &&& v.rows == rows
                &&& v.cols == cols
                &&& v.mine_count == mine_count
                &&& v.state == GameState::InProgress
                &&& all_fresh(v.grid, v.rows, v.cols)
                &&& count_mines(v.grid) == 0
            },
    {
        proof {
            assert(rows * cols <= MAX_DIM * MAX_DIM) by (nonlinear_arith)
                requires
                    rows <= MAX_DIM,
                    cols <= MAX_DIM,
            {
            }
        }
        let total: usize = rows * cols;
        if mine_count >= total {
            return Err(EngineError::InvalidConfiguration);
        }
        let grid = fresh_grid(total);
        let e = Engine { rows, cols, mine_count, grid, state: GameState::InProgress };
        proof {
            assert forall|x: int, y: int| in_bounds(e@.rows, e@.cols, x, y) implies #[trigger] cell_at(
                e@.grid,
                e@.cols,
                x,
                y,
            ) == fresh_cell() by {
                lemma_idx_bounds(e@.rows, e@.cols, x, y);
            }
            lemma_count_matching_zero(e@.grid, |c: Cell| c.value == -1);
        }
        Ok(e)
    }

    /// The number of rows of the board.
    pub fn rows(&self) -> (r: usize)
        ensures
            r == self@.rows,
    {
        self.rows
    }

    /// The number of columns of the board.
    pub fn cols(&self) -> (r: usize)
        ensures
            r == self@.cols,
    {
        self.cols
    }

    /// The configured number of mines.
    pub fn mine_count(&self) -> (r: usize)
        ensures
            r == self@.mine_count,
    {
        self.mine_count
    }

    /// The current game state.
    pub fn state(&self) -> (r: GameState)
        ensures
            r == self@.state,
    {
        self.state
    }

    /// The cell at `(x, y)`, or `OutOfBounds` for a coordinate off the
    /// board.
    pub fn cell(&self, x: usize, y: usize) -> (res: Result<Cell, EngineError>)
        requires
            self@.shape_ok(),
        ensures
            res is Err <==> !self@.contains(x as int, y as int),
            res is Err ==> res == Err::<Cell, EngineError>(EngineError::OutOfBounds),
            res is Ok ==> res.unwrap() == self@.cell(x as int, y as int),
    {
        if x >= self.cols || y >= self.rows {
            return Err(EngineError::OutOfBounds);
        }
        Ok(self.get_cell(x, y))
    }

    /// Reads the cell at an in-bounds coordinate.
    fn get_cell(&self, x: usize, y: usize) -> (c: Cell)
        requires
            self@.shape_ok(),
            self@.contains(x as int, y as int),
        ensures
            c == self@.cell(x as int, y as int),
    {
        proof {
            lemma_idx_bounds(self@.rows, self@.cols, x as int, y as int);
            lemma_dims_product_bound(self@.rows, self@.cols);
        }
        let i: usize = y * self.cols + x;
        self.grid[i]
    }

    /// Overwrites the cell at an in-bounds coordinate, leaving every other
    /// cell and all bookkeeping untouched.
    fn set_cell(&mut self, x: usize, y: usize, c: Cell)
        requires
            old(self)@.shape_ok(),
            old(self)@.contains(x as int, y as int),
        ensures
            final(self)@.rows == old(self)@.rows,
            final(self)@.cols == old(self)@.cols,
            final(self)@.mine_count == old(self)@.mine_count,
            final(self)@.state == old(self)@.state,
            final(self)@.shape_ok(),
            final(self)@.grid.len() == old(self)@.grid.len(),
            final(self)@.grid == old(self)@.grid.update(
                idx(old(self)@.cols, x as int, y as int),
                c,
            ),
            forall|ax: int, ay: int|
                old(self)@.contains(ax, ay) ==> #[trigger] cell_at(
                    final(self)@.grid,
                    final(self)@.cols,
                    ax,
                    ay,
                ) == if ax == x && ay == y {
                    c
                } else {
                    cell_at(old(self)@.grid, old(self)@.cols, ax, ay)
                },
    {
        proof {
            lemma_idx_bounds(self@.rows, self@.cols, x as int, y as int);
            lemma_dims_product_bound(self@.rows, self@.cols);
        }
        let i: usize = y * self.cols + x;
        self.grid[i] = c;
        proof {
            assert forall|ax: int, ay: int| old(self)@.contains(ax, ay) implies #[trigger] cell_at(
                self@.grid,
                self@.cols,
                ax,
                ay,
            ) == if ax == x && ay == y {
                c
            } else {
                cell_at(old(self)@.grid, old(self)@.cols, ax, ay)
            } by {
                lemma_idx_bounds(self@.rows, self@.cols, ax, ay);
                if idx(self@.cols, ax, ay) == idx(self@.cols, x as int, y as int) {
                    lemma_idx_injective(self@.cols, ax, ay, x as int, y as int);
                }
            }
        }
    }

    /// True iff the game has been won: the covered cells are exactly as
    /// many as the mines, so only the mines remain hidden.
    pub fn win_check(&self) -> (r: bool)
        requires
            self@.shape_ok(),
        ensures
            r == (count_covered(self@.grid) == self@.mine_count),
    {
        let n = self.count_where_covered();
        n == self.mine_count
    }

    /// The number of covered cells on the board.
    fn count_where_covered(&self) -> (r: usize)
        ensures
            r == count_covered(self@.grid),
    {
        let ghost p = |c: Cell| c.covered;
        let mut i: usize = 0;
        let mut n: usize = 0;
        proof {
            assert(self@.grid.take(0) =~= Seq::<Cell>::empty());
        }
        while i < self.grid.len()
            invariant
                i <= self@.grid.len(),
                n == count_matching(self@.grid.take(i as int), p),
                p == (|c: Cell| c.covered),
                n <= i,
            decreases self@.grid.len() - i,
        {
            proof {
                lemma_count_matching_take_step(self@.grid, p, i as int);
            }
            if self.grid[i].covered {
                n = n + 1;
            }
            i = i + 1;
        }
        proof {
            assert(self@.grid.take(i as int) =~= self@.grid);
        }
        n
    }

    /// The total number of flagged cells, for the presentation layer's
    /// remaining-mines estimate.
    pub fn get_total_flagged(&self) -> (r: usize)
        ensures
            r == count_flagged(self@.grid),
    {
        let ghost p = |c: Cell| c.flagged;
        let mut i: usize = 0;
        let mut n: usize = 0;
        proof {
            assert(self@.grid.take(0) =~= Seq::<Cell>::empty());
        }
        while i < self.grid.len()
            invariant
                i <= self@.grid.len(),
                n == count_matching(self@.grid.take(i as int), p),
                p == (|c: Cell| c.flagged),
                n <= i,
            decreases self@.grid.len() - i,
        {
            proof {
                lemma_count_matching_take_step(self@.grid, p, i as int);
            }
            if self.grid[i].flagged {
                n = n + 1;
            }
            i = i + 1;
        }
        proof {
            assert(self@.grid.take(i as int) =~= self@.grid);
        }
        n
    }

    /// Places a mine on the non-mine cell at `(x, y)` and re-derives the
    /// adjacency counts: each adjacent in-bounds non-mine cell's value
    /// grows by one, every other cell is unchanged, and the adjacency
    /// invariant is preserved.
    pub fn place_mine(&mut self, x: usize, y: usize)
        requires
            old(self)@.shape_ok(),
            old(self)@.contains(x as int, y as int),
            old(self)@.cell(x as int, y as int).value != -1,
            values_ok(old(self)@.grid, old(self)@.rows, old(self)@.cols),
            adjacency_ok(old(self)@.grid, old(self)@.rows, old(self)@.cols),
        ensures
            final(self)@.shape_ok(),
            final(self)@.rows == old(self)@.rows,
            final(self)@.cols == old(self)@.cols,
            final(self)@.mine_count == old(self)@.mine_count,
            final(self)@.state == old(self)@.state,
            final(self)@.grid.len() == old(self)@.grid.len(),
            values_ok(final(self)@.grid, final(self)@.rows, final(self)@.cols),
            adjacency_ok(final(self)@.grid, final(self)@.rows, final(self)@.cols),
            count_mines(final(self)@.grid) == count_mines(old(self)@.grid) + 1,
            mine_placed(
                old(self)@.grid,
                final(self)@.grid,
                old(self)@.rows,
                old(self)@.cols,
                x as int,
                y as int,
            ),
    {
        let ghost v0 = old(self)@;
        let ghost xi = x as int;
        let ghost yi = y as int;
        let n = self.grid.len();
        let cols = self.cols;
        let mut j: usize = 0;
        while j < n
            invariant
                v0 == old(self)@,
                v0.shape_ok(),
                v0.contains(xi, yi),
                cell_at(v0.grid, v0.cols, xi, yi).value != -1,
                values_ok(v0.grid, v0.rows, v0.cols),
                xi == x as int,
                yi == y as int,
                cols == v0.cols,
                n == v0.grid.len(),
                x < cols,
                self@.rows == v0.rows,
                self@.cols == v0.cols,
                self@.mine_count == v0.mine_count,
                self@.state == v0.state,
                self@.grid.len() == n,
                j <= n,
                forall|jj: int|
                    0 <= jj < j ==> #[trigger] self@.grid[jj] == mine_placed_cell(
                        v0.grid,
                        v0.cols,
                        xi,
                        yi,
                        jj % v0.cols,
                        jj / v0.cols,
                    ),
                forall|jj: int| j <= jj < n ==> #[trigger] self@.grid[jj] == v0.grid[jj],
            decreases n - j,
        {
            proof {
                lemma_flat_coords(v0.rows, v0.cols, j as int);
            }
            let ax = j % cols;
            let ay = j / cols;
            let c = self.grid[j];
            proof {
                assert(c == cell_at(v0.grid, v0.cols, ax as int, ay as int));
            }
            if ax == x && ay == y {
                self.grid[j] = Cell { value: -1, ..c };
            } else if ax + 1 >= x && ax <= x + 1 && ay + 1 >= y && ay <= y + 1 && c.value != -1 {
                self.grid[j] = Cell { value: c.value + 1, ..c };
            }
            j = j + 1;
        }
        proof {
            assert forall|axq: int, ayq: int| v0.contains(axq, ayq) implies #[trigger] cell_at(
                self@.grid,
                self@.cols,
                axq,
                ayq,
            ) == mine_placed_cell(v0.grid, v0.cols, xi, yi, axq, ayq) by {
                lemma_idx_bounds(v0.rows, v0.cols, axq, ayq);
                lemma_coords_flat(v0.rows, v0.cols, axq, ayq);
            }
            assert(mine_placed(v0.grid, self@.grid, v0.rows, v0.cols, xi, yi));
            lemma_mine_placed_preserves_invariants(v0.grid, self@.grid, v0.rows, v0.cols, xi, yi);
            lemma_mine_placed_count(v0.grid, self@.grid, v0.rows, v0.cols, xi, yi);
        }
    }

    /// Finds the coordinate of the `k`-th non-mine cell in row-major
    /// order.
    fn kth_free(&self, k: usize) -> (r: (usize, usize))
        requires
            self@.shape_ok(),
            k < count_free(self@.grid),
        ensures
            self@.contains(r.0 as int, r.1 as int),
            self@.cell(r.0 as int, r.1 as int).value != -1,
    {
        let ghost p = |c: Cell| c.value != -1;
        let mut i: usize = 0;
        let mut seen: usize = 0;
        proof {
            assert(self@.grid.take(0) =~= Seq::<Cell>::empty());
        }
        let n = self.grid.len();
        while i < n
            invariant
                self@.shape_ok(),
                n == self@.grid.len(),
                i <= n,
                seen == count_matching(self@.grid.take(i as int), p),
                p == (|c: Cell| c.value != -1),
                seen <= k,
                k < count_free(self@.grid),
            decreases n - i,
        {
            proof {
                lemma_count_matching_take_step(self@.grid, p, i as int);
            }
            let c = self.grid[i];
            if c.value != -1 {
                if seen == k {
                    let xx = i % self.cols;
                    let yy = i / self.cols;
                    proof {
                        lemma_flat_coords(self@.rows, self@.cols, i as int);
                    }
                    return (xx, yy);
                }
                seen = seen + 1;
            }
            i = i + 1;
        }
        proof {
            assert(self@.grid.take(n as int) =~= self@.grid);
            assert(false);
        }
        (0, 0)
    }

    /// Populates a fresh board with exactly `mine_count` mines at
    /// positions drawn uniformly from the cells that are still free,
    /// keeping every adjacency count exact.
    pub fn generate_board(&mut self)
        requires
            old(self)@.shape_ok(),
            all_fresh(old(self)@.grid, old(self)@.rows, old(self)@.cols),
        ensures
            final(self)@.shape_ok(),
            final(self)@.rows == old(self)@.rows,
            final(self)@.cols == old(self)@.cols,
            final(self)@.mine_count == old(self)@.mine_count,
            final(self)@.state == old(self)@.state,
            final(self)@.generated(),
            forall|ax: int, ay: int|
                final(self)@.contains(ax, ay) ==> (#[trigger] final(self)@.cell(ax, ay)).covered
                    && !final(self)@.cell(ax, ay).flagged,
    {
        proof {
            lemma_dims_product_bound(old(self)@.rows, old(self)@.cols);
            assert forall|ax: int, ay: int|
                old(self)@.contains(ax, ay) implies -1 <= (#[trigger] cell_at(
                old(self)@.grid,
                old(self)@.cols,
                ax,
                ay,
            )).value <= 8 && cell_at(old(self)@.grid, old(self)@.cols, ax, ay).value
                == crate::model::adj_count(
                old(self)@.grid,
                old(self)@.rows,
                old(self)@.cols,
                ax,
                ay,
            ) by {
                assert(cell_at(old(self)@.grid, old(self)@.cols, ax, ay) == fresh_cell());
            }
            assert forall|j: int| 0 <= j < old(self)@.grid.len() implies (#[trigger] old(
                self,
            )@.grid[j]).value != -1 by {
                lemma_flat_coords(old(self)@.rows, old(self)@.cols, j);
                assert(cell_at(old(self)@.grid, old(self)@.cols, j % old(self)@.cols, j / old(
                    self,
                )@.cols) == fresh_cell());
            }
            lemma_count_matching_zero(old(self)@.grid, |c: Cell| c.value == -1);
        }
        let total: usize = self.rows * self.cols;
        let mut placed: usize = 0;
        while placed < self.mine_count
            invariant
                self@.shape_ok(),
                self@.rows == old(self)@.rows,
                self@.cols == old(self)@.cols,
                self@.mine_count == old(self)@.mine_count,
                self@.state == old(self)@.state,
                total == self@.rows * self@.cols,
                placed <= self@.mine_count,
                count_mines(self@.grid) == placed,
                values_ok(self@.grid, self@.rows, self@.cols),
                adjacency_ok(self@.grid, self@.rows, self@.cols),
                forall|ax: int, ay: int|
                    self@.contains(ax, ay) ==> (#[trigger] self@.cell(ax, ay)).covered
                        && !self@.cell(ax, ay).flagged,
            decreases self@.mine_count - placed,
        {
            proof {
                lemma_count_mines_free(self@.grid);
            }
            let free: usize = total - placed;
            let k = crate::rng::random_below(free);
            let (mx, my) = self.kth_free(k);
            let ghost vb = self@;
            self.place_mine(mx, my);
            proof {
                assert forall|ax: int, ay: int|
                    self@.contains(ax, ay) implies (#[trigger] self@.cell(ax, ay)).covered
                    && !self@.cell(ax, ay).flagged by {
                    assert(vb.cell(ax, ay).covered && !vb.cell(ax, ay).flagged);
                    assert(cell_at(self@.grid, self@.cols, ax, ay) == mine_placed_cell(
                        vb.grid,
                        vb.cols,
                        mx as int,
                        my as int,
                        ax,
                        ay,
                    ));
                }
            }
            placed = placed + 1;
        }
        proof {
            assert forall|ax: int, ay: int|
                in_bounds(self@.rows, self@.cols, ax, ay) && (#[trigger] cell_at(
                    self@.grid,
                    self@.cols,
                    ax,
                    ay,
                )).flagged implies cell_at(self@.grid, self@.cols, ax, ay).covered by {
                assert(self@.cell(ax, ay).covered && !self@.cell(ax, ay).flagged);
            }
        }
    }

    /// Resets the board to a fresh fully covered grid, clears the game
    /// state to in-progress, and generates a new random minefield.
    pub fn setup(&mut self)
        requires
            old(self)@.shape_ok(),
        ensures
            final(self)@.shape_ok(),
            final(self)@.rows == old(self)@.rows,
            final(self)@.cols == old(self)@.cols,
            final(self)@.mine_count == old(self)@.mine_count,
            final(self)@.state == GameState::InProgress,
            final(self)@.generated(),
            forall|ax: int, ay: int|
                final(self)@.contains(ax, ay) ==> (#[trigger] final(self)@.cell(ax, ay)).covered
                    && !final(self)@.cell(ax, ay).flagged,
    {
        proof {
            lemma_dims_product_bound(old(self)@.rows, old(self)@.cols);
        }
        let total: usize = self.rows * self.cols;
        let grid = fresh_grid(total);
        self.grid = grid;
        self.state = GameState::InProgress;
        proof {
            assert forall|ax: int, ay: int| self@.contains(ax, ay) implies #[trigger] cell_at(
                self@.grid,
                self@.cols,
                ax,
                ay,
            ) == fresh_cell() by {
                lemma_idx_bounds(self@.rows, self@.cols, ax, ay);
            }
        }
        self.generate_board();
    }

    /// Runs the flood fill from the zero-valued, unflagged cell at
    /// `(x, y)`: uncovers it and expands across the connected zero region
    /// and its border, never touching a flagged cell.
    fn flood(&mut self, x: usize, y: usize)
        requires
            old(self)@.shape_ok(),
            old(self)@.contains(x as int, y as int),
            old(self)@.cell(x as int, y as int).value == 0,
            !old(self)@.cell(x as int, y as int).flagged,
        ensures
            final(self)@.shape_ok(),
            final(self)@.rows == old(self)@.rows,
            final(self)@.cols == old(self)@.cols,
            final(self)@.mine_count == old(self)@.mine_count,
            final(self)@.state == old(self)@.state,
            reveal_grid_post(
                old(self)@.grid,
                final(self)@.grid,
                old(self)@.rows,
                old(self)@.cols,
                x as int,
                y as int,
            ),
    {
        let ghost v0 = old(self)@;
        let ghost xi = x as int;
        let ghost yi = y as int;
        let t = self.get_cell(x, y);
        self.set_cell(x, y, Cell { covered: false, ..t });
        proof {
            lemma_zreach_base(v0.grid, v0.rows, v0.cols, xi, yi);
        }
        let mut stack: Vec<(usize, usize)> = Vec::new();
        push_neighbors(&mut stack, self.rows, self.cols, x, y, Ghost(v0), Ghost(xi), Ghost(yi));
        while stack.len() > 0
            invariant
                v0 == old(self)@,
                v0.shape_ok(),
                in_bounds(v0.rows, v0.cols, xi, yi),
                cell_at(v0.grid, v0.cols, xi, yi).value == 0,
                !cell_at(v0.grid, v0.cols, xi, yi).flagged,
                self@.shape_ok(),
                self@.rows == v0.rows,
                self@.cols == v0.cols,
                self@.mine_count == v0.mine_count,
                self@.state == v0.state,
                self@.grid.len() == v0.grid.len(),
                forall|ax: int, ay: int|
                    in_bounds(v0.rows, v0.cols, ax, ay) ==> (#[trigger] cell_at(
                        self@.grid,
                        v0.cols,
                        ax,
                        ay,
                    )).value == cell_at(v0.grid, v0.cols, ax, ay).value && cell_at(
                        self@.grid,
                        v0.cols,
                        ax,
                        ay,
                    ).flagged == cell_at(v0.grid, v0.cols, ax, ay).flagged,
                forall|ax: int, ay: int|
                    in_bounds(v0.rows, v0.cols, ax, ay) && !(#[trigger] cell_at(
                        v0.grid,
                        v0.cols,
                        ax,
                        ay,
                    )).covered ==> !cell_at(self@.grid, v0.cols, ax, ay).covered,
                forall|ax: int, ay: int|
                    in_bounds(v0.rows, v0.cols, ax, ay) && (#[trigger] cell_at(
                        v0.grid,
                        v0.cols,
                        ax,
                        ay,
                    )).flagged ==> cell_at(self@.grid, v0.cols, ax, ay).covered == cell_at(
                        v0.grid,
                        v0.cols,
                        ax,
                        ay,
                    ).covered,
                !cell_at(self@.grid, v0.cols, xi, yi).covered,
                forall|ax: int, ay: int|
                    in_bounds(v0.rows, v0.cols, ax, ay) && (#[trigger] cell_at(
                        v0.grid,
                        v0.cols,
                        ax,
                        ay,
                    )).covered && !cell_at(self@.grid, v0.cols, ax, ay).covered ==> zreach(
                        v0.grid,
                        v0.rows,
                        v0.cols,
                        xi,
                        yi,
                        ax,
                        ay,
                    ),
                stack_elems_ok(stack@, v0, xi, yi),
                pending_ok(v0, self@.grid, stack@, xi, yi),
            decreases 9 * count_covered(self@.grid) + stack@.len(),
        {
            let ghost s_head = stack@;
            let ghost g_head = self@.grid;
            proof {
                lemma_count_matching_bounds(self@.grid, |c: Cell| c.covered);
            }
            let top = stack.pop().unwrap();
            let ghost s_pop = stack@;
            let cx = top.0;
            let cy = top.1;
            let ghost cxi = cx as int;
            let ghost cyi = cy as int;
            proof {
                assert(s_head[s_head.len() - 1] == top);
                assert(v0.contains(cxi, cyi));
            }
            let c = self.get_cell(cx, cy);
            if c.covered && !c.flagged {
                self.set_cell(cx, cy, Cell { covered: false, ..c });
                proof {
                    lemma_idx_bounds(v0.rows, v0.cols, cxi, cyi);
                    lemma_count_matching_update(
                        g_head,
                        |cc: Cell| cc.covered,
                        idx(v0.cols, cxi, cyi),
                        Cell { covered: false, ..c },
                    );
                    assert(cell_at(v0.grid, v0.cols, cxi, cyi).covered);
                    assert(!cell_at(v0.grid, v0.cols, cxi, cyi).flagged);
                    assert(zreach(v0.grid, v0.rows, v0.cols, xi, yi, cxi, cyi));
                }
                if c.value == 0 {
                    push_neighbors(
                        &mut stack,
                        self.rows,
                        self.cols,
                        cx,
                        cy,
                        Ghost(v0),
                        Ghost(xi),
                        Ghost(yi),
                    );
                }
                proof {
                    let g_now = self@.grid;
                    let s_now = stack@;
                    assert forall|zx: int, zy: int|
                        in_bounds(v0.rows, v0.cols, zx, zy) && (#[trigger] cell_at(
                            v0.grid,
                            v0.cols,
                            zx,
                            zy,
                        )).value == 0 && !cell_at(v0.grid, v0.cols, zx, zy).flagged && !cell_at(
                            g_now,
                            v0.cols,
                            zx,
                            zy,
                        ).covered && ((zx == xi && zy == yi) || cell_at(
                            v0.grid,
                            v0.cols,
                            zx,
                            zy,
                        ).covered) implies neighbors_done(v0, g_now, s_now, zx, zy) by {
                        if zx == cxi && zy == cyi {
                            assert(c.value == 0);
                            assert(neighbors_done(v0, g_now, s_now, zx, zy));
                        } else {
                            assert(cell_at(g_now, v0.cols, zx, zy) == cell_at(
                                g_head,
                                v0.cols,
                                zx,
                                zy,
                            ));
                            assert(neighbors_done(v0, g_head, s_head, zx, zy));
                            assert forall|nx: int, ny: int|
                                in_bounds(v0.rows, v0.cols, nx, ny) && adjacent(
                                    nx,
                                    ny,
                                    zx,
                                    zy,
                                ) implies !(#[trigger] cell_at(g_now, v0.cols, nx, ny)).covered
                                || cell_at(v0.grid, v0.cols, nx, ny).flagged || in_stack(
                                s_now,
                                nx,
                                ny,
                            ) by {
                                if cell_at(g_head, v0.cols, nx, ny).covered && !cell_at(
                                    v0.grid,
                                    v0.cols,
                                    nx,
                                    ny,
                                ).flagged {
                                    assert(in_stack(s_head, nx, ny));
                                    lemma_in_stack_pop(s_head, nx, ny);
                                    if in_stack(s_pop, nx, ny) {
                                        lemma_in_stack_extend(s_pop, s_now, nx, ny);
                                    } else {
                                        assert(nx == cxi && ny == cyi);
                                        assert(!cell_at(g_now, v0.cols, nx, ny).covered);
                                    }
                                }
                            }
                        }
                    }
                }
            } else {
                proof {
                    let g_now = self@.grid;
                    let s_now = stack@;
                    assert forall|zx: int, zy: int|
                        in_bounds(v0.rows, v0.cols, zx, zy) && (#[trigger] cell_at(
                            v0.grid,
                            v0.cols,
                            zx,
                            zy,
                        )).value == 0 && !cell_at(v0.grid, v0.cols, zx, zy).flagged && !cell_at(
                            g_now,
                            v0.cols,
                            zx,
                            zy,
                        ).covered && ((zx == xi && zy == yi) || cell_at(
                            v0.grid,
                            v0.cols,
                            zx,
                            zy,
                        ).covered) implies neighbors_done(v0, g_now, s_now, zx, zy) by {
                        assert(neighbors_done(v0, g_head, s_head, zx, zy));
                        assert forall|nx: int, ny: int|
                            in_bounds(v0.rows, v0.cols, nx, ny) && adjacent(
                                nx,
                                ny,
                                zx,
                                zy,
                            ) implies !(#[trigger] cell_at(g_now, v0.cols, nx, ny)).covered
                            || cell_at(v0.grid, v0.cols, nx, ny).flagged || in_stack(
                            s_now,
                            nx,
                            ny,
                        ) by {
                            if cell_at(g_head, v0.cols, nx, ny).covered && !cell_at(
                                v0.grid,
                                v0.cols,
                                nx,
                                ny,
                            ).flagged {
                                assert(in_stack(s_head, nx, ny));
                                lemma_in_stack_pop(s_head, nx, ny);
                                if !in_stack(s_pop, nx, ny) {
                                    assert(nx == cxi && ny == cyi);
                                    assert(cell_at(g_now, v0.cols, cxi, cyi) == c);
                                    assert(!c.covered || c.flagged);
                                    assert(cell_at(v0.grid, v0.cols, nx, ny).flagged || !cell_at(
                                        g_now,
                                        v0.cols,
                                        nx,
                                        ny,
                                    ).covered);
                                }
                            }
                        }
                    }
                }
            }
            proof {
                lemma_count_matching_bounds(self@.grid, |c: Cell| c.covered);
            }
        }
        proof {
            let g1 = self@.grid;
            assert forall|zx: int, zy: int|
                in_bounds(v0.rows, v0.cols, zx, zy) && !(#[trigger] cell_at(
                    g1,
                    v0.cols,
                    zx,
                    zy,
                )).covered && cell_at(g1, v0.cols, zx, zy).value == 0 && !cell_at(
                    g1,
                    v0.cols,
                    zx,
                    zy,
                ).flagged && ((zx == xi && zy == yi) || cell_at(
                    v0.grid,
                    v0.cols,
                    zx,
                    zy,
                ).covered) implies crate::model::neighbors_uncovered(g1, v0.rows, v0.cols, zx, zy) by {
                assert(cell_at(v0.grid, v0.cols, zx, zy).value == 0);
                assert(!cell_at(v0.grid, v0.cols, zx, zy).flagged);
                assert(neighbors_done(v0, g1, stack@, zx, zy));
                assert forall|nx: int, ny: int|
                    in_bounds(v0.rows, v0.cols, nx, ny) && adjacent(nx, ny, zx, zy) && !(
                    #[trigger] cell_at(g1, v0.cols, nx, ny)).flagged implies !cell_at(
                    g1,
                    v0.cols,
                    nx,
                    ny,
                ).covered by {
                    assert(stack@.len() == 0);
                    assert(!in_stack(stack@, nx, ny));
                    assert(cell_at(g1, v0.cols, nx, ny).flagged == cell_at(
                        v0.grid,
                        v0.cols,
                        nx,
                        ny,
                    ).flagged);
                }
            }
            assert(crate::model::region_closed(v0.grid, g1, v0.rows, v0.cols, xi, yi));
        }
    }

    /// Reveals the cell at `(x, y)`. A no-op in a terminal game state and
    /// on a flagged cell; otherwise uncovers the target, flood-fills from
    /// a zero-valued target, and re-derives the game state: `Lost` the
    /// instant the target holds a mine, `Won` when only the mines remain
    /// covered.
    pub fn reveal_cell(&mut self, x: usize, y: usize) -> (res: Result<(), EngineError>)
        requires
            old(self)@.shape_ok(),
        ensures
            final(self)@.shape_ok(),
            final(self)@.rows == old(self)@.rows,
            final(self)@.cols == old(self)@.cols,
            final(self)@.mine_count == old(self)@.mine_count,
            res is Err <==> !old(self)@.contains(x as int, y as int),
            res is Err ==> res == Err::<(), EngineError>(EngineError::OutOfBounds) && final(self)@
                == old(self)@,
            res is Ok && old(self)@.state != GameState::InProgress ==> final(self)@ == old(self)@,
            res is Ok && old(self)@.state == GameState::InProgress && old(self)@.cell(
                x as int,
                y as int,
            ).flagged ==> final(self)@ == old(self)@,
            res is Ok && old(self)@.state == GameState::InProgress && !old(self)@.cell(
                x as int,
                y as int,
            ).flagged ==> reveal_post(old(self)@, final(self)@, x as int, y as int),
    {
        if x >= self.cols || y >= self.rows {
            return Err(EngineError::OutOfBounds);
        }
        if self.state != GameState::InProgress {
            return Ok(());
        }
        let t = self.get_cell(x, y);
        if t.flagged {
            return Ok(());
        }
        let ghost v0 = old(self)@;
        let ghost xi = x as int;
        let ghost yi = y as int;
        if t.value == 0 {
            self.flood(x, y);
        } else {
            self.set_cell(x, y, Cell { covered: false, ..t });
            proof {
                lemma_zreach_base(v0.grid, v0.rows, v0.cols, xi, yi);
                let g1 = self@.grid;
                assert forall|zx: int, zy: int|
                    in_bounds(v0.rows, v0.cols, zx, zy) && !(#[trigger] cell_at(
                        g1,
                        v0.cols,
                        zx,
                        zy,
                    )).covered && cell_at(g1, v0.cols, zx, zy).value == 0 && !cell_at(
                        g1,
                        v0.cols,
                        zx,
                        zy,
                    ).flagged && ((zx == xi && zy == yi) || cell_at(
                        v0.grid,
                        v0.cols,
                        zx,
                        zy,
                    ).covered) implies crate::model::neighbors_uncovered(
                    g1,
                    v0.rows,
                    v0.cols,
                    zx,
                    zy,
                ) by {
                    if zx == xi && zy == yi {
                        assert(cell_at(g1, v0.cols, zx, zy).value == t.value);
                        assert(false);
                    } else {
                        assert(cell_at(g1, v0.cols, zx, zy) == cell_at(v0.grid, v0.cols, zx, zy));
                        assert(cell_at(v0.grid, v0.cols, zx, zy).covered);
                        assert(false);
                    }
                }
                assert(crate::model::region_closed(v0.grid, g1, v0.rows, v0.cols, xi, yi));
            }
        }
        let lost = t.value == -1;
        if lost {
            self.state = GameState::Lost;
        } else if self.win_check() {
            self.state = GameState::Won;
        }
        Ok(())
    }

    /// Toggles the flag on the covered cell at `(x, y)`; a no-op on an
    /// uncovered cell, in a terminal game state, and rejected off the
    /// board.
    pub fn toggle_flag(&mut self, x: usize, y: usize) -> (res: Result<(), EngineError>)
        requires
            old(self)@.shape_ok(),
        ensures
            final(self)@.shape_ok(),
            final(self)@.rows == old(self)@.rows,
            final(self)@.cols == old(self)@.cols,
            final(self)@.mine_count == old(self)@.mine_count,
            final(self)@.state == old(self)@.state,
            res is Err <==> !old(self)@.contains(x as int, y as int),
            res is Err ==> res == Err::<(), EngineError>(EngineError::OutOfBounds) && final(self)@
                == old(self)@,
            res is Ok && old(self)@.state != GameState::InProgress ==> final(self)@ == old(self)@,
            res is Ok && old(self)@.state == GameState::InProgress ==> toggle_post(
                old(self)@,
                final(self)@,
                x as int,
                y as int,
            ),
            res is Ok && old(self)@.state == GameState::InProgress && !old(self)@.cell(
                x as int,
                y as int,
            ).covered ==> final(self)@ == old(self)@,
    {
        if x >= self.cols || y >= self.rows {
            return Err(EngineError::OutOfBounds);
        }
        if self.state != GameState::InProgress {
            return Ok(());
        }
        let mut c = self.get_cell(x, y);
        let ghost c0 = c;
        c.flag();
        self.set_cell(x, y, c);
        proof {
            if !c0.covered {
                lemma_idx_bounds(old(self)@.rows, old(self)@.cols, x as int, y as int);
                assert(c == c0);
                assert(self@.grid =~= old(self)@.grid);
                assert(self@ =~= old(self)@);
            }
        }
        Ok(())
    }

    /// Uncovers every mine cell, leaving all other cells untouched; used
    /// on a loss to show the whole board.
    pub fn uncover_all_mines(&mut self)
        requires
            old(self)@.shape_ok(),
        ensures
            final(self)@.shape_ok(),
            final(self)@.rows == old(self)@.rows,
            final(self)@.cols == old(self)@.cols,
            final(self)@.mine_count == old(self)@.mine_count,
            final(self)@.state == old(self)@.state,
            final(self)@.grid.len() == old(self)@.grid.len(),
            forall|j: int|
                0 <= j < old(self)@.grid.len() ==> #[trigger] final(self)@.grid[j] == (
                if old(self)@.grid[j].value == -1 {
                    Cell { covered: false, ..old(self)@.grid[j] }
                } else {
                    old(self)@.grid[j]
                }),
    {
        let mut i: usize = 0;
        while i < self.grid.len()
            invariant
                old(self)@.shape_ok(),
                self@.rows == old(self)@.rows,
                self@.cols == old(self)@.cols,
                self@.mine_count == old(self)@.mine_count,
                self@.state == old(self)@.state,
                self@.grid.len() == old(self)@.grid.len(),
                i <= self@.grid.len(),
                forall|j: int|
                    0 <= j < i ==> #[trigger] self@.grid[j] == (
                    if old(self)@.grid[j].value == -1 {
                        Cell { covered: false, ..old(self)@.grid[j] }
                    } else {
                        old(self)@.grid[j]
                    }),
                forall|j: int| i <= j < self@.grid.len() ==> #[trigger] self@.grid[j] == old(self)@.grid[j],
            decreases self@.grid.len() - i,
        {
            let c = self.grid[i];
            if c.value == -1 {
                self.grid[i] = Cell { covered: false, ..c };
            }
            i = i + 1;
        }
    }

    /// Flags every mine cell, leaving all other cells untouched; used on a
    /// win to mark the mines that were found.
    pub fn flag_all_mines(&mut self)
        requires
            old(self)@.shape_ok(),
        ensures
            final(self)@.shape_ok(),
            final(self)@.rows == old(self)@.rows,
            final(self)@.cols == old(self)@.cols,
            final(self)@.mine_count == old(self)@.mine_count,
            final(self)@.state == old(self)@.state,
            final(self)@.grid.len() == old(self)@.grid.len(),
            forall|j: int|
                0 <= j < old(self)@.grid.len() ==> #[trigger] final(self)@.grid[j] == (
                if old(self)@.grid[j].value == -1 {
                    Cell { flagged: true, ..old(self)@.grid[j] }
                } else {
                    old(self)@.grid[j]
                }),
    {
        let mut i: usize = 0;
        while i < self.grid.len()
            invariant
                old(self)@.shape_ok(),
                self@.rows == old(self)@.rows,
                self@.cols == old(self)@.cols,
                self@.mine_count == old(self)@.mine_count,
                self@.state == old(self)@.state,
                self@.grid.len() == old(self)@.grid.len(),
                i <= self@.grid.len(),
                forall|j: int|
                    0 <= j < i ==> #[trigger] self@.grid[j] == (
                    if old(self)@.grid[j].value == -1 {
                        Cell { flagged: true, ..old(self)@.grid[j] }
                    } else {
                        old(self)@.grid[j]
                    }),
                forall|j: int| i <= j < self@.grid.len() ==> #[trigger] self@.grid[j] == old(self)@.grid[j],
            decreases self@.grid.len() - i,
        {
            let c = self.grid[i];
            if c.value == -1 {
                self.grid[i] = Cell { flagged: true, ..c };
            }
            i = i + 1;
        }
    }
}

} // verus!
