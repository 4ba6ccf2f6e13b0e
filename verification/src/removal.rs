//! Removal of one seam: a fresh grid one column narrower, every row keeping
//! its remaining pixels in their original left-to-right order.

use vstd::prelude::*;
use crate::grid::{Grid, Pixel, Position, grid_width, rows_rect};

verus! {

/// The window of a flat row-major pixel sequence that holds row `r`.
pub open spec fn flat_row(s: Seq<Pixel>, w: int, r: int) -> Seq<Pixel> {
    s.subrange(r * w, r * w + w)
}

/// Removes the seam from the grid: the returned grid is one column
/// narrower, and each of its rows is the corresponding input row with the
/// pixel at the seam's column for that row left out — all other pixels
/// kept in order. The input grid is consumed; the result is freshly owned.
pub fn remove_seam(grid: Grid, path: &Vec<Position>) -> (out: Grid)
    requires
        grid.wf(),
        grid.spec_width() >= 1,
        grid.spec_height() >= 1,
        path@.len() == grid.spec_height(),
        forall|r: int|
            0 <= r < path@.len() ==> (#[trigger] path@[r]).1 == r && path@[r].0
                < grid.spec_width(),
    ensures
        out.wf(),
        out.spec_width() == grid.spec_width() - 1,
        out.spec_height() == grid.spec_height(),
        out@.len() == grid@.len(),
        forall|r: int|
            0 <= r < grid@.len() ==> #[trigger] out@[r] == grid@[r].remove(path@[r].0 as int),
{
    proof {
        grid.lemma_view_shape();
    }
    let w = grid.width();
    let h = grid.height();
    let w2 = w - 1;
    let mut new_pixels: Vec<Pixel> = Vec::new();
    let mut y: usize = 0;
    while y < h
        invariant
            grid.wf(),
            w == grid.spec_width(),
            h == grid.spec_height(),
            w >= 1,
            h >= 1,
            y <= h,
            w2 == w - 1,
            grid_width(grid@) == w,
            rows_rect(grid@),
            grid@.len() == h,
            path@.len() == h,
            forall|r: int|
                0 <= r < path@.len() ==> (#[trigger] path@[r]).1 == r && path@[r].0 < w,
            new_pixels@.len() == y * w2,
            forall|r: int|
                0 <= r < y ==> #[trigger] flat_row(new_pixels@, w2 as int, r) == grid@[r].remove(
                    path@[r].0 as int,
                ),
        decreases h - y,
    {
        let s = path[y].0;
        let mut rowv: Vec<Pixel> = Vec::new();
        let mut x: usize = 0;
        while x < w
            invariant
                grid.wf(),
                w == grid.spec_width(),
                h == grid.spec_height(),
                w >= 1,
                h >= 1,
                y < h,
                x <= w,
                s < w,
                grid_width(grid@) == w,
                rows_rect(grid@),
                grid@.len() == h,
                rowv@.len() == (if x <= s {
                    x as int
                } else {
                    x - 1
                }),
                forall|c: int|
                    0 <= c < rowv@.len() ==> #[trigger] rowv@[c] == (if c < s {
                        grid@[y as int][c]
                    } else {
                        grid@[y as int][c + 1]
                    }),
            decreases w - x,
        {
            if x != s {
                let p = grid.get_pixel(x, y);
                rowv.push(p);
            }
            x = x + 1;
        }
        proof {
            assert(rowv@ =~= grid@[y as int].remove(s as int));
        }
        let ghost prefix = new_pixels@;
        let ghost row_seq = rowv@;
        new_pixels.append(&mut rowv);
        proof {
            assert(new_pixels@ == prefix + row_seq);
            assert((y + 1) * (w2 as int) == y * (w2 as int) + w2) by (nonlinear_arith);
            assert forall|r: int| 0 <= r < y + 1 implies #[trigger] flat_row(
                new_pixels@,
                w2 as int,
                r,
            ) == grid@[r].remove(path@[r].0 as int) by {
                if r < y {
                    assert((r + 1) * (w2 as int) <= y * (w2 as int)) by (nonlinear_arith)
                        requires
                            0 <= r + 1 <= y,
                            0 <= w2 as int,
                    ;
                    assert(r * (w2 as int) + w2 == (r + 1) * (w2 as int)) by (nonlinear_arith);
                    assert(flat_row(new_pixels@, w2 as int, r) =~= flat_row(
                        prefix,
                        w2 as int,
                        r,
                    ));
                } else {
                    assert(flat_row(new_pixels@, w2 as int, r) =~= row_seq);
                }
            }
        }
        y = y + 1;
    }
    proof {
        assert((h as int) * (w2 as int) == (w2 as int) * (h as int)) by (nonlinear_arith);
    }
    let out = Grid::from_parts(w2, h, new_pixels);
    proof {
        out.lemma_view_shape();
        assert forall|r: int| 0 <= r < grid@.len() implies #[trigger] out@[r] == grid@[r].remove(
            path@[r].0 as int,
        ) by {
            assert(r * (w2 as int) + w2 == (r + 1) * (w2 as int)) by (nonlinear_arith);
            assert((r + 1) * (w2 as int) <= (h as int) * (w2 as int)) by (nonlinear_arith)
                requires
                    0 <= r + 1 <= h as int,
                    0 <= w2 as int,
            ;
            assert(flat_row(new_pixels@, w2 as int, r) == grid@[r].remove(path@[r].0 as int));
            assert(out@[r] =~= flat_row(new_pixels@, w2 as int, r));
        }
    }
    out
}

} // verus!
