//! The dynamic-programming table: one cell per pixel holding the cumulative
//! minimum cost of any top-to-bottom seam prefix ending there, plus a
//! back-pointer to the chosen predecessor in the row above.

use vstd::prelude::*;
use crate::grid::{Grid, Pixel, Position, grid_width};
use crate::energy::{
    energy_at, is_energy_map, lemma_energy_at_bounds, lemma_row_major_bound,
};

verus! {

/// One DP entry: cumulative cost and the predecessor in the row above
/// (`None` exactly in the top row).
#[derive(Clone, Copy, Debug)]
pub struct SeamCell {
    pub cost: u64,
    pub prev: Option<Position>,
}

/// The predecessor column chosen for the cell at column `c`, row `r` ≥ 1:
/// among the in-bounds candidates of row r − 1 — directly above (`c`),
/// right diagonal (`c + 1`), left diagonal (`c - 1`), evaluated in that
/// order — the first one of strictly minimal cumulative cost.
pub open spec fn table_prev_col(rows: Seq<Seq<Pixel>>, c: int, r: int) -> int
    decreases r, 0int,
{
    if r <= 0 {
        c
    } else {
        let w = grid_width(rows);
        let b1 = if c + 1 < w && table_cost(rows, c + 1, r - 1) < table_cost(rows, c, r - 1) {
            c + 1
        } else {
            c
        };
        if c - 1 >= 0 && table_cost(rows, c - 1, r - 1) < table_cost(rows, b1, r - 1) {
            c - 1
        } else {
            b1
        }
    }
}

/// Cumulative cost of the cell at column `c`, row `r`: its own energy plus
/// the cumulative cost of the chosen predecessor; in the top row, its own
/// energy alone.
pub open spec fn table_cost(rows: Seq<Seq<Pixel>>, c: int, r: int) -> int
    decreases r, 1int,
{
    if r <= 0 {
        energy_at(rows, c, 0)
    } else {
        energy_at(rows, c, r) + table_cost(rows, table_prev_col(rows, c, r), r - 1)
    }
}

/// The back-pointer of the cell at column `c`, row `r`.
pub open spec fn model_prev(rows: Seq<Seq<Pixel>>, c: int, r: int) -> Option<Position> {
    if r <= 0 {
        None
    } else {
        Some(Position(table_prev_col(rows, c, r) as usize, (r - 1) as usize))
    }
}

/// `t` is the seam table of `rows`: flat, row-major, each cell carrying the
/// model cost and back-pointer of its pixel.
pub open spec fn is_seam_table(rows: Seq<Seq<Pixel>>, t: Seq<SeamCell>) -> bool {
    &&& t.len() == rows.len() * grid_width(rows)
    &&& forall|c: int, r: int|
        0 <= c < grid_width(rows) && 0 <= r < rows.len() ==> t[r * grid_width(rows) + c].cost
            == #[trigger] table_cost(rows, c, r)
    &&& forall|c: int, r: int|
        0 <= c < grid_width(rows) && 0 <= r < rows.len() ==> t[r * grid_width(rows) + c].prev
            == #[trigger] model_prev(rows, c, r)
}

/// Cumulative costs are non-negative and grow by at most one maximal
/// energy per row.
pub proof fn lemma_table_cost_bounds(rows: Seq<Seq<Pixel>>, c: int, r: int)
    requires
        0 <= r,
    ensures
        0 <= table_cost(rows, c, r) <= (r + 1) * 780300,
    decreases r,
{
    if r <= 0 {
        lemma_energy_at_bounds(rows, c, 0);
    } else {
        lemma_energy_at_bounds(rows, c, r);
        lemma_table_cost_bounds(rows, table_prev_col(rows, c, r), r - 1);
        assert((r + 1) * 780300 == r * 780300 + 780300) by (nonlinear_arith);
    }
}

/// The chosen predecessor is an in-bounds candidate column.
pub proof fn lemma_prev_col_in_range(rows: Seq<Seq<Pixel>>, c: int, r: int)
    requires
        r >= 1,
        0 <= c < grid_width(rows),
    ensures
        0 <= table_prev_col(rows, c, r) < grid_width(rows),
        -1 <= table_prev_col(rows, c, r) - c <= 1,
{
}

/// The chosen predecessor's cumulative cost is minimal among the in-bounds
/// candidate columns c − 1, c, c + 1 of the row above.
pub proof fn lemma_prev_col_min(rows: Seq<Seq<Pixel>>, c: int, r: int, cand: int)
    requires
        r >= 1,
        0 <= c < grid_width(rows),
        0 <= cand < grid_width(rows),
        -1 <= cand - c <= 1,
    ensures
        table_cost(rows, table_prev_col(rows, c, r), r - 1) <= table_cost(rows, cand, r - 1),
{
}

/// The candidate predecessors of (x, y) for the seam table, in evaluation
/// order: directly above, right diagonal, left diagonal, kept in bounds;
/// empty in the top row.
pub open spec fn bottom_up_neighbor_positions(w: int, x: int, y: int) -> Seq<Position> {
    if y == 0 {
        Seq::<Position>::empty()
    } else if w <= 1 {
        seq![Position(x as usize, (y - 1) as usize)]
    } else if x == 0 {
        seq![Position(x as usize, (y - 1) as usize), Position((x + 1) as usize, (y - 1) as usize)]
    } else if x == w - 1 {
        seq![Position(x as usize, (y - 1) as usize), Position((x - 1) as usize, (y - 1) as usize)]
    } else {
        seq![
            Position(x as usize, (y - 1) as usize),
            Position((x + 1) as usize, (y - 1) as usize),
            Position((x - 1) as usize, (y - 1) as usize),
        ]
    }
}

/// The in-bounds candidate predecessors of (x, y), in evaluation order.
pub fn get_bottom_up_neighbors(grid: &Grid, x: usize, y: usize) -> (neighbors: Vec<Position>)
    requires
        grid.wf(),
        x < grid.spec_width(),
        y < grid.spec_height(),
    ensures
        neighbors@ == bottom_up_neighbor_positions(grid.spec_width(), x as int, y as int),
{
    let w = grid.width();
    let mut neighbors: Vec<Position> = Vec::new();
    if y > 0 {
        neighbors.push(Position(x, y - 1));
        if w > 1 {
            if x == 0 {
                neighbors.push(Position(x + 1, y - 1));
            } else if x == w - 1 {
                neighbors.push(Position(x - 1, y - 1));
            } else {
                neighbors.push(Position(x + 1, y - 1));
                neighbors.push(Position(x - 1, y - 1));
            }
        }
    }
    proof {
        assert(neighbors@ =~= bottom_up_neighbor_positions(
            grid.spec_width(),
            x as int,
            y as int,
        ));
    }
    neighbors
}

/// Builds the seam table of the grid from its energy map, top row first.
pub fn build_seam_table(grid: &Grid, energies: &Vec<u32>) -> (t: Vec<SeamCell>)
    requires
        grid.wf(),
        grid.spec_width() >= 1,
        grid.spec_height() >= 1,
        is_energy_map(grid@, energies@),
    ensures
        is_seam_table(grid@, t@),
{
    proof {
        grid.lemma_view_shape();
    }
    let w = grid.width();
    let h = grid.height();
    let mut t: Vec<SeamCell> = Vec::new();
    let mut x: usize = 0;
    while x < w
        invariant
            grid.wf(),
            w == grid.spec_width(),
            h == grid.spec_height(),
            w >= 1,
            h >= 1,
            x <= w,
            grid_width(grid@) == w,
            grid@.len() == h,
            is_energy_map(grid@, energies@),
            t@.len() == x,
            forall|c: int|
                0 <= c < x ==> t@[c].cost == #[trigger] table_cost(grid@, c, 0),
            forall|c: int|
                0 <= c < x ==> t@[c].prev == #[trigger] model_prev(grid@, c, 0),
        decreases w - x,
    {
        proof {
            assert(x < energies@.len()) by {
                lemma_row_major_bound(w as int, x as int, 0, h as int);
            }
            assert(energies@[0 * (w as int) + (x as int)] == energy_at(grid@, x as int, 0));
        }
        let e = energies[x];
        t.push(SeamCell { cost: e as u64, prev: None });
        x = x + 1;
    }
    let mut y: usize = 1;
    while y < h
        invariant
            grid.wf(),
            w == grid.spec_width(),
            h == grid.spec_height(),
            w >= 1,
            h >= 1,
            1 <= y <= h,
            h <= 0xFFFF_FFFF,
            grid_width(grid@) == w,
            grid@.len() == h,
            is_energy_map(grid@, energies@),
            t@.len() == y * w,
            forall|c: int, r: int|
                0 <= c < w && 0 <= r < y ==> t@[r * w + c].cost == #[trigger] table_cost(
                    grid@,
                    c,
                    r,
                ),
            forall|c: int, r: int|
                0 <= c < w && 0 <= r < y ==> t@[r * w + c].prev == #[trigger] model_prev(
                    grid@,
                    c,
                    r,
                ),
        decreases h - y,
    {
        let mut x: usize = 0;
        while x < w
            invariant
                grid.wf(),
                w == grid.spec_width(),
                h == grid.spec_height(),
                w >= 1,
                h >= 1,
                1 <= y < h,
                x <= w,
                h <= 0xFFFF_FFFF,
                grid_width(grid@) == w,
                grid@.len() == h,
                is_energy_map(grid@, energies@),
                t@.len() == y * w + x,
                forall|c: int, r: int|
                    0 <= c < w && 0 <= r < y ==> t@[r * w + c].cost == #[trigger] table_cost(
                        grid@,
                        c,
                        r,
                    ),
                forall|c: int, r: int|
                    0 <= c < w && 0 <= r < y ==> t@[r * w + c].prev == #[trigger] model_prev(
                        grid@,
                        c,
                        r,
                    ),
                forall|c: int|
                    0 <= c < x ==> t@[y * w + c].cost == #[trigger] table_cost(
                        grid@,
                        c,
                        y as int,
                    ),
                forall|c: int|
                    0 <= c < x ==> t@[y * w + c].prev == #[trigger] model_prev(
                        grid@,
                        c,
                        y as int,
                    ),
            decreases w - x,
        {
            proof {
                assert(t@.len() <= usize::MAX) by {
                    assert(t.len() == t@.len());
                }
                lemma_row_major_bound(w as int, x as int, (y - 1) as int, y as int);
                assert((y - 1) * (w as int) + w <= y * (w as int)) by (nonlinear_arith);
                assert(table_cost(grid@, x as int, (y - 1) as int) == t@[(y - 1) * (w as int) + x].cost);
            }
            let base: usize = (y - 1) * w;
            let up_cost: u64 = t[base + x].cost;
            let mut best_col: usize = x;
            let mut best_cost: u64 = up_cost;
            if x + 1 < w {
                proof {
                    assert(table_cost(grid@, x as int + 1, (y - 1) as int) == t@[(y - 1) * (
                    w as int) + (x + 1)].cost);
                }
                let rc = t[base + x + 1].cost;
                if rc < best_cost {
                    best_col = x + 1;
                    best_cost = rc;
                }
            }
            if x >= 1 {
                proof {
                    assert(table_cost(grid@, x as int - 1, (y - 1) as int) == t@[(y - 1) * (
                    w as int) + (x - 1)].cost);
                }
                let lc = t[base + x - 1].cost;
                if lc < best_cost {
                    best_col = x - 1;
                    best_cost = lc;
                }
            }
            proof {
                assert(best_col as int == table_prev_col(grid@, x as int, y as int));
                assert(best_cost as int == table_cost(grid@, best_col as int, (y - 1) as int));
                lemma_row_major_bound(w as int, x as int, y as int, h as int);
                assert(energies@[(y as int) * (w as int) + (x as int)] == energy_at(
                    grid@,
                    x as int,
                    y as int,
                ));
                lemma_energy_at_bounds(grid@, x as int, y as int);
                lemma_table_cost_bounds(grid@, best_col as int, (y - 1) as int);
                assert((y as int) * 780300 + 780300 <= 0x1_0000_0000 * 780300) by (nonlinear_arith)
                    requires
                        (y as int) <= 0xFFFF_FFFF,
                ;
            }
            let e = energies[y * w + x];
            let cost: u64 = e as u64 + best_cost;
            t.push(SeamCell { cost, prev: Some(Position(best_col, y - 1)) });
            proof {
                assert(cost as int == table_cost(grid@, x as int, y as int));
                assert(t@[(y as int) * (w as int) + (x as int)].prev == model_prev(
                    grid@,
                    x as int,
                    y as int,
                ));
                assert forall|c: int, r: int| 0 <= c < w && 0 <= r < y implies t@[r * w + c].cost
                    == #[trigger] table_cost(grid@, c, r) by {
                    lemma_row_major_bound(w as int, c, r, y as int);
                }
                assert forall|c: int, r: int| 0 <= c < w && 0 <= r < y implies t@[r * w + c].prev
                    == #[trigger] model_prev(grid@, c, r) by {
                    lemma_row_major_bound(w as int, c, r, y as int);
                }
            }
            x = x + 1;
        }
        proof {
            assert((y + 1) * (w as int) == y * (w as int) + w) by (nonlinear_arith);
            assert forall|c: int, r: int| 0 <= c < w && 0 <= r < y + 1 implies t@[r * w + c].cost
                == #[trigger] table_cost(grid@, c, r) by {
                if r < y {
                    lemma_row_major_bound(w as int, c, r, y as int);
                }
            }
            assert forall|c: int, r: int| 0 <= c < w && 0 <= r < y + 1 implies t@[r * w + c].prev
                == #[trigger] model_prev(grid@, c, r) by {
                if r < y {
                    lemma_row_major_bound(w as int, c, r, y as int);
                }
            }
        }
        y = y + 1;
    }
    t
}

} // verus!
