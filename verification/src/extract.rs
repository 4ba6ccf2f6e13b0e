//! Extraction of the minimum-cost seam from the completed table: pick the
//! cheapest bottom-row cell (leftmost on ties), follow back-pointers to the
//! top, and hand back the top-to-bottom path with its cost.

use vstd::prelude::*;
use crate::grid::{Grid, Pixel, Position, grid_width};
use crate::energy::{energy_at, lemma_row_major_bound};
use crate::table::{
    SeamCell, is_seam_table, lemma_prev_col_in_range, lemma_prev_col_min, model_prev, table_cost,
    table_prev_col,
};

verus! {

/// The extracted seam: one position per row, top to bottom, and the total
/// cost (the sum of the energies at its positions).
pub struct SeamPath {
    pub positions: Vec<Position>,
    pub cost: u64,
}

/// The bottom-row column of minimal cumulative cost among columns `[0, n)`,
/// the leftmost such column on ties.
pub open spec fn best_bottom_upto(rows: Seq<Seq<Pixel>>, n: int) -> int
    decreases n,
{
    if n <= 1 {
        0
    } else {
        let b = best_bottom_upto(rows, n - 1);
        if table_cost(rows, n - 1, rows.len() - 1) < table_cost(rows, b, rows.len() - 1) {
            n - 1
        } else {
            b
        }
    }
}

/// The bottom-row column where the minimal seam ends.
pub open spec fn best_bottom_col(rows: Seq<Seq<Pixel>>) -> int {
    best_bottom_upto(rows, grid_width(rows))
}

/// The column of the minimal seam at row `r`: at the bottom row the best
/// bottom column, above it the chosen predecessor of the row below.
pub open spec fn seam_col(rows: Seq<Seq<Pixel>>, r: int) -> int
    decreases rows.len() - r,
{
    if r >= rows.len() - 1 {
        best_bottom_col(rows)
    } else {
        table_prev_col(rows, seam_col(rows, r + 1), r + 1)
    }
}

/// The minimal seam as a sequence of columns, one per row.
pub open spec fn seam_cols(rows: Seq<Seq<Pixel>>) -> Seq<int> {
    Seq::new(rows.len(), |r: int| seam_col(rows, r))
}

/// `q` is a full top-to-bottom seam: one in-bounds column per row, each
/// consecutive pair at most one column apart.
pub open spec fn valid_seam_cols(rows: Seq<Seq<Pixel>>, q: Seq<int>) -> bool {
    &&& q.len() == rows.len()
    &&& forall|i: int| 0 <= i < q.len() ==> 0 <= #[trigger] q[i] < grid_width(rows)
    &&& forall|i: int| 1 <= i < q.len() ==> -1 <= #[trigger] q[i] - q[i - 1] <= 1
}

/// `q` is a seam prefix: it starts at the top row and may stop early.
pub open spec fn valid_prefix_cols(rows: Seq<Seq<Pixel>>, q: Seq<int>) -> bool {
    &&& 1 <= q.len() <= rows.len()
    &&& forall|i: int| 0 <= i < q.len() ==> 0 <= #[trigger] q[i] < grid_width(rows)
    &&& forall|i: int| 1 <= i < q.len() ==> -1 <= #[trigger] q[i] - q[i - 1] <= 1
}

/// Total energy along a seam (or seam prefix) given as columns: the sum of
/// `energy_at` over its positions, row `i` at column `q[i]`.
pub open spec fn cols_cost(rows: Seq<Seq<Pixel>>, q: Seq<int>) -> int
    decreases q.len(),
{
    if q.len() == 0 {
        0
    } else {
        cols_cost(rows, q.drop_last()) + energy_at(rows, q.last(), q.len() - 1)
    }
}

/// The cumulative cost of a cell is a lower bound on the energy of every
/// seam prefix ending at that cell.
pub proof fn lemma_table_cost_is_lower_bound(rows: Seq<Seq<Pixel>>, q: Seq<int>)
    requires
        valid_prefix_cols(rows, q),
    ensures
        table_cost(rows, q.last(), q.len() - 1) <= cols_cost(rows, q),
    decreases q.len(),
{
    let r = q.len() - 1;
    let c = q.last();
    if q.len() == 1 {
        assert(q.drop_last().len() == 0);
        assert(cols_cost(rows, q.drop_last()) == 0);
    } else {
        let p = q.drop_last();
        assert forall|i: int| 0 <= i < p.len() implies 0 <= #[trigger] p[i] < grid_width(rows) by {
            assert(p[i] == q[i]);
        }
        assert forall|i: int| 1 <= i < p.len() implies -1 <= #[trigger] p[i] - p[i - 1] <= 1 by {
            assert(p[i] == q[i]);
            assert(p[i - 1] == q[i - 1]);
        }
        lemma_table_cost_is_lower_bound(rows, p);
        let pc = p.last();
        assert(pc == q[r - 1]);
        assert(-1 <= q[r] - q[r - 1] <= 1);
        lemma_prev_col_min(rows, c, r, pc);
    }
}

/// The scanned bottom-row minimum really is minimal among the first `n`
/// columns.
pub proof fn lemma_best_bottom_upto_min(rows: Seq<Seq<Pixel>>, n: int, c: int)
    requires
        1 <= n,
        0 <= c < n,
    ensures
        0 <= best_bottom_upto(rows, n) < n,
        table_cost(rows, best_bottom_upto(rows, n), rows.len() - 1) <= table_cost(
            rows,
            c,
            rows.len() - 1,
        ),
    decreases n,
{
    if n > 1 {
        if c < n - 1 {
            lemma_best_bottom_upto_min(rows, n - 1, c);
        } else {
            lemma_best_bottom_upto_min(rows, n - 1, 0);
        }
    }
}

/// Every seam column is in bounds.
pub proof fn lemma_seam_col_in_range(rows: Seq<Seq<Pixel>>, r: int)
    requires
        rows.len() >= 1,
        grid_width(rows) >= 1,
        0 <= r < rows.len(),
    ensures
        0 <= seam_col(rows, r) < grid_width(rows),
    decreases rows.len() - r,
{
    if r >= rows.len() - 1 {
        lemma_best_bottom_upto_min(rows, grid_width(rows), 0);
    } else {
        lemma_seam_col_in_range(rows, r + 1);
        lemma_prev_col_in_range(rows, seam_col(rows, r + 1), r + 1);
    }
}

/// Consecutive seam columns are at most one apart.
pub proof fn lemma_seam_adjacent(rows: Seq<Seq<Pixel>>, r: int)
    requires
        rows.len() >= 1,
        grid_width(rows) >= 1,
        1 <= r < rows.len(),
    ensures
        -1 <= seam_col(rows, r - 1) - seam_col(rows, r) <= 1,
{
    lemma_seam_col_in_range(rows, r);
    lemma_prev_col_in_range(rows, seam_col(rows, r), r);
}

/// The energy of the seam's prefix down to row `r` equals the cumulative
/// cost recorded at its cell — the seam's cost is exactly the sum of the
/// energies at its positions.
pub proof fn lemma_seam_prefix_cost(rows: Seq<Seq<Pixel>>, r: int)
    requires
        rows.len() >= 1,
        grid_width(rows) >= 1,
        0 <= r < rows.len(),
    ensures
        cols_cost(rows, seam_cols(rows).take(r + 1)) == table_cost(rows, seam_col(rows, r), r),
    decreases r,
{
    let q = seam_cols(rows).take(r + 1);
    assert(q.last() == seam_col(rows, r));
    if r == 0 {
        assert(q.drop_last() =~= seam_cols(rows).take(0));
        assert(cols_cost(rows, seam_cols(rows).take(0)) == 0);
    } else {
        lemma_seam_prefix_cost(rows, r - 1);
        assert(q.drop_last() =~= seam_cols(rows).take(r));
        assert(seam_col(rows, r - 1) == table_prev_col(rows, seam_col(rows, r), r));
    }
}

/// The minimal seam is a valid seam, and no valid seam has a smaller total
/// energy: dynamic programming finds a global minimum.
pub proof fn lemma_seam_is_minimal(rows: Seq<Seq<Pixel>>, q: Seq<int>)
    requires
        rows.len() >= 1,
        grid_width(rows) >= 1,
        valid_seam_cols(rows, q),
    ensures
        valid_seam_cols(rows, seam_cols(rows)),
        cols_cost(rows, seam_cols(rows)) <= cols_cost(rows, q),
{
    let h = rows.len() as int;
    let w = grid_width(rows);
    let s = seam_cols(rows);
    assert forall|i: int| 0 <= i < s.len() implies 0 <= #[trigger] s[i] < w by {
        lemma_seam_col_in_range(rows, i);
    }
    assert forall|i: int| 1 <= i < s.len() implies -1 <= #[trigger] s[i] - s[i - 1] <= 1 by {
        lemma_seam_adjacent(rows, i);
    }
    lemma_table_cost_is_lower_bound(rows, q);
    assert(0 <= q[h - 1] < w);
    assert(q.last() == q[h - 1]);
    lemma_best_bottom_upto_min(rows, w, q[h - 1]);
    lemma_seam_prefix_cost(rows, h - 1);
    assert(seam_cols(rows).take(h) =~= seam_cols(rows));
    assert(seam_col(rows, h - 1) == best_bottom_col(rows));
}

/// Finds the minimum-cost seam: scans the bottom row for the cheapest cell
/// (leftmost on ties), then follows back-pointers to the top row and
/// returns the path ordered top to bottom, together with its cost.
pub fn extract_best_seam(grid: &Grid, table: &Vec<SeamCell>) -> (seam: SeamPath)
    requires
        grid.wf(),
        grid.spec_width() >= 1,
        grid.spec_height() >= 1,
        is_seam_table(grid@, table@),
    ensures
        seam.positions@.len() == grid.spec_height(),
        forall|r: int|
            0 <= r < grid.spec_height() ==> (#[trigger] seam.positions@[r]).1 == r
                && seam.positions@[r].0 == seam_col(grid@, r),
        forall|r: int|
            0 <= r < grid.spec_height() ==> (#[trigger] seam.positions@[r]).0
                < grid.spec_width(),
        forall|r: int|
            1 <= r < grid.spec_height() ==> (#[trigger] seam.positions@[r]).1
                - seam.positions@[r - 1].1 == 1 && -1 <= seam.positions@[r].0
                - seam.positions@[r - 1].0 <= 1,
        seam.cost == table_cost(grid@, best_bottom_col(grid@), grid@.len() - 1),
        seam.cost == cols_cost(grid@, seam_cols(grid@)),
{
    proof {
        grid.lemma_view_shape();
    }
    let w = grid.width();
    let h = grid.height();
    proof {
        assert(table.len() == table@.len());
        lemma_row_major_bound(w as int, 0, (h - 1) as int, h as int);
        assert(table@[((h - 1) as int) * (w as int) + 0].cost == table_cost(
            grid@,
            0,
            (h - 1) as int,
        ));
    }
    let base: usize = (h - 1) * w;
    let mut best_col: usize = 0;
    let mut best_cost: u64 = table[base].cost;
    let mut c: usize = 1;
    while c < w
        invariant
            grid.wf(),
            w == grid.spec_width(),
            h == grid.spec_height(),
            w >= 1,
            h >= 1,
            1 <= c <= w,
            grid_width(grid@) == w,
            grid@.len() == h,
            is_seam_table(grid@, table@),
            base == (h - 1) * w,
            best_col < c,
            best_col as int == best_bottom_upto(grid@, c as int),
            best_cost == table_cost(grid@, best_col as int, (h - 1) as int),
        decreases w - c,
    {
        proof {
            assert(table.len() == table@.len());
            lemma_row_major_bound(w as int, c as int, (h - 1) as int, h as int);
            assert(table@[((h - 1) as int) * (w as int) + (c as int)].cost == table_cost(
                grid@,
                c as int,
                (h - 1) as int,
            ));
        }
        let cost_c = table[base + c].cost;
        if cost_c < best_cost {
            best_col = c;
            best_cost = cost_c;
        }
        c = c + 1;
    }
    proof {
        assert(best_col as int == best_bottom_col(grid@));
        assert(seam_col(grid@, (h - 1) as int) == best_bottom_col(grid@));
        lemma_seam_col_in_range(grid@, (h - 1) as int);
    }
    let mut tmp: Vec<Position> = Vec::new();
    let mut col: usize = best_col;
    let mut row: usize = h;
    while row > 0
        invariant
            grid.wf(),
            w == grid.spec_width(),
            h == grid.spec_height(),
            w >= 1,
            h >= 1,
            row <= h,
            grid_width(grid@) == w,
            grid@.len() == h,
            is_seam_table(grid@, table@),
            tmp@.len() == h - row,
            row >= 1 ==> col as int == seam_col(grid@, (row - 1) as int),
            row >= 1 ==> col < w,
            forall|i: int|
                0 <= i < tmp@.len() ==> (#[trigger] tmp@[i]).1 == h - 1 - i && tmp@[i].0
                    == seam_col(grid@, h - 1 - i) && tmp@[i].0 < w,
        decreases row,
    {
        tmp.push(Position(col, row - 1));
        if row > 1 {
            proof {
                assert(table.len() == table@.len());
                lemma_row_major_bound(w as int, col as int, (row - 1) as int, h as int);
                assert(table@[((row - 1) as int) * (w as int) + (col as int)].prev == model_prev(
                    grid@,
                    col as int,
                    (row - 1) as int,
                ));
                lemma_seam_col_in_range(grid@, (row - 2) as int);
                assert(seam_col(grid@, (row - 2) as int) == table_prev_col(
                    grid@,
                    seam_col(grid@, (row - 1) as int),
                    (row - 1) as int,
                ));
            }
            let cell = table[(row - 1) * w + col];
            col = cell.prev.unwrap().0;
        }
        row = row - 1;
    }
    let mut positions: Vec<Position> = Vec::new();
    let mut i: usize = 0;
    while i < h
        invariant
            h >= 1,
            i <= h,
            tmp@.len() == h,
            positions@.len() == i,
            forall|j: int|
                0 <= j < tmp@.len() ==> (#[trigger] tmp@[j]).1 == h - 1 - j && tmp@[j].0
                    == seam_col(grid@, h - 1 - j) && tmp@[j].0 < w,
            forall|r: int| 0 <= r < i ==> #[trigger] positions@[r] == tmp@[h - 1 - r],
        decreases h - i,
    {
        let p = tmp[h - 1 - i];
        positions.push(p);
        i = i + 1;
    }
    proof {
        lemma_seam_prefix_cost(grid@, (h - 1) as int);
        assert(seam_cols(grid@).take(h as int) =~= seam_cols(grid@));
    }
    SeamPath { positions, cost: best_cost }
}

} // verus!
