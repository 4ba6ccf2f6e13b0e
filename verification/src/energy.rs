//! Per-pixel energy: the sum of squared per-channel differences between a
//! pixel and each of its in-bounds von Neumann neighbors.

use vstd::prelude::*;
use crate::grid::{Grid, Pixel, Position, grid_width, rows_rect};

verus! {

/// Squared difference of two 8-bit channel values.
pub open spec fn diff_sq(a: u8, b: u8) -> int {
    (a - b) * (a - b)
}

/// Sum of the squared differences of the three channels of two pixels.
pub open spec fn pixel_diff(p: Pixel, q: Pixel) -> int {
    diff_sq(p.r, q.r) + diff_sq(p.g, q.g) + diff_sq(p.b, q.b)
}

/// Energy of the pixel at column `c`, row `r`: one `pixel_diff` term per
/// in-bounds von Neumann neighbor (left, right, above, below), no
/// wraparound and no mirroring at the borders.
pub open spec fn energy_at(rows: Seq<Seq<Pixel>>, c: int, r: int) -> int {
    let w = grid_width(rows);
    let h = rows.len() as int;
    (if c > 0 {
        pixel_diff(rows[r][c], rows[r][c - 1])
    } else {
        0
    }) + (if c + 1 < w {
        pixel_diff(rows[r][c], rows[r][c + 1])
    } else {
        0
    }) + (if r > 0 {
        pixel_diff(rows[r][c], rows[r - 1][c])
    } else {
        0
    }) + (if r + 1 < h {
        pixel_diff(rows[r][c], rows[r + 1][c])
    } else {
        0
    })
}

/// The in-bounds von Neumann neighbors of (x, y) in a w × h grid, in the
/// order they are visited: horizontal first (left before right), then
/// vertical (below before above).
pub open spec fn neighbor_positions(w: int, h: int, x: int, y: int) -> Seq<Position> {
    let horiz = if w <= 1 {
        Seq::<Position>::empty()
    } else if x == 0 {
        seq![Position((x + 1) as usize, y as usize)]
    } else if x == w - 1 {
        seq![Position((x - 1) as usize, y as usize)]
    } else {
        seq![Position((x - 1) as usize, y as usize), Position((x + 1) as usize, y as usize)]
    };
    let vert = if h <= 1 {
        Seq::<Position>::empty()
    } else if y == 0 {
        seq![Position(x as usize, (y + 1) as usize)]
    } else if y == h - 1 {
        seq![Position(x as usize, (y - 1) as usize)]
    } else {
        seq![Position(x as usize, (y + 1) as usize), Position(x as usize, (y - 1) as usize)]
    };
    horiz + vert
}

/// `em` is the energy map of `rows`: flat, row-major, one entry per pixel.
pub open spec fn is_energy_map(rows: Seq<Seq<Pixel>>, em: Seq<u32>) -> bool {
    &&& em.len() == rows.len() * grid_width(rows)
    &&& forall|c: int, r: int|
        0 <= c < grid_width(rows) && 0 <= r < rows.len() ==> em[r * grid_width(rows) + c]
            == #[trigger] energy_at(rows, c, r)
}

pub proof fn lemma_diff_sq_bounds(a: u8, b: u8)
    ensures
        0 <= diff_sq(a, b) <= 65025,
{
    assert(0 <= (a - b) * (a - b) && (a - b) * (a - b) <= 65025) by (nonlinear_arith)
        requires
            -255 <= a - b && a - b <= 255,
    ;
}

pub proof fn lemma_pixel_diff_bounds(p: Pixel, q: Pixel)
    ensures
        0 <= pixel_diff(p, q) <= 195075,
{
    lemma_diff_sq_bounds(p.r, q.r);
    lemma_diff_sq_bounds(p.g, q.g);
    lemma_diff_sq_bounds(p.b, q.b);
}

/// Energy is non-negative and at most 4 × 3 × 255² = 780300.
pub proof fn lemma_energy_at_bounds(rows: Seq<Seq<Pixel>>, c: int, r: int)
    ensures
        0 <= energy_at(rows, c, r) <= 780300,
{
    let w = grid_width(rows);
    let h = rows.len() as int;
    lemma_pixel_diff_bounds(rows[r][c], rows[r][c - 1]);
    lemma_pixel_diff_bounds(rows[r][c], rows[r][c + 1]);
    lemma_pixel_diff_bounds(rows[r][c], rows[r - 1][c]);
    lemma_pixel_diff_bounds(rows[r][c], rows[r + 1][c]);
}

/// In a grid of one uniform color, every pixel's energy is 0.
pub proof fn lemma_uniform_energy_zero(rows: Seq<Seq<Pixel>>, p: Pixel, c: int, r: int)
    requires
        rows_rect(rows),
        forall|rr: int, cc: int|
            0 <= rr < rows.len() && 0 <= cc < grid_width(rows) ==> #[trigger] rows[rr][cc] == p,
        0 <= c < grid_width(rows),
        0 <= r < rows.len(),
    ensures
        energy_at(rows, c, r) == 0,
{
    let w = grid_width(rows);
    let h = rows.len() as int;
    assert(rows[r][c] == p);
    if c > 0 {
        assert(rows[r][c - 1] == p);
    }
    if c + 1 < w {
        assert(rows[r][c + 1] == p);
    }
    if r > 0 {
        assert(rows[r - 1][c] == p);
    }
    if r + 1 < h {
        assert(rows[r + 1][c] == p);
    }
    assert(diff_sq(p.r, p.r) == 0) by (nonlinear_arith);
    assert(diff_sq(p.g, p.g) == 0) by (nonlinear_arith);
    assert(diff_sq(p.b, p.b) == 0) by (nonlinear_arith);
}

/// Sum of `pixel_diff(center, ·)` over a list of neighbor positions.
pub open spec fn diff_sum_over(rows: Seq<Seq<Pixel>>, center: Pixel, ns: Seq<Position>) -> int
    decreases ns.len(),
{
    if ns.len() == 0 {
        0
    } else {
        diff_sum_over(rows, center, ns.drop_last()) + pixel_diff(
            center,
            rows[ns.last().1 as int][ns.last().0 as int],
        )
    }
}

proof fn lemma_diff_sum_concat(rows: Seq<Seq<Pixel>>, center: Pixel, s1: Seq<Position>, s2: Seq<Position>)
    ensures
        diff_sum_over(rows, center, s1 + s2) == diff_sum_over(rows, center, s1) + diff_sum_over(
            rows,
            center,
            s2,
        ),
    decreases s2.len(),
{
    if s2.len() == 0 {
        assert(s1 + s2 =~= s1);
    } else {
        assert((s1 + s2).drop_last() =~= s1 + s2.drop_last());
        assert((s1 + s2).last() == s2.last());
        lemma_diff_sum_concat(rows, center, s1, s2.drop_last());
    }
}

proof fn lemma_diff_sum_one(rows: Seq<Seq<Pixel>>, center: Pixel, a: Position)
    ensures
        diff_sum_over(rows, center, seq![a]) == pixel_diff(
            center,
            rows[a.1 as int][a.0 as int],
        ),
{
    assert(seq![a].drop_last() =~= Seq::<Position>::empty());
    assert(diff_sum_over(rows, center, Seq::<Position>::empty()) == 0);
}

proof fn lemma_diff_sum_two(rows: Seq<Seq<Pixel>>, center: Pixel, a: Position, b: Position)
    ensures
        diff_sum_over(rows, center, seq![a, b]) == pixel_diff(center, rows[a.1 as int][a.0 as int])
            + pixel_diff(center, rows[b.1 as int][b.0 as int]),
{
    assert(seq![a, b].drop_last() =~= seq![a]);
    lemma_diff_sum_one(rows, center, a);
}

/// A pixel's energy is exactly the sum of one squared-difference term per
/// listed neighbor — 2 terms at a corner, 3 at a non-corner edge, 4 in the
/// interior (fewer in single-row or single-column grids).
pub proof fn lemma_energy_is_neighbor_sum(rows: Seq<Seq<Pixel>>, c: int, r: int)
    requires
        0 <= c < grid_width(rows),
        0 <= r < rows.len(),
        grid_width(rows) <= usize::MAX,
        rows.len() <= usize::MAX,
    ensures
        energy_at(rows, c, r) == diff_sum_over(
            rows,
            rows[r][c],
            neighbor_positions(grid_width(rows), rows.len() as int, c, r),
        ),
{
    let w = grid_width(rows);
    let h = rows.len() as int;
    let center = rows[r][c];
    let horiz = if w <= 1 {
        Seq::<Position>::empty()
    } else if c == 0 {
        seq![Position((c + 1) as usize, r as usize)]
    } else if c == w - 1 {
        seq![Position((c - 1) as usize, r as usize)]
    } else {
        seq![Position((c - 1) as usize, r as usize), Position((c + 1) as usize, r as usize)]
    };
    let vert = if h <= 1 {
        Seq::<Position>::empty()
    } else if r == 0 {
        seq![Position(c as usize, (r + 1) as usize)]
    } else if r == h - 1 {
        seq![Position(c as usize, (r - 1) as usize)]
    } else {
        seq![Position(c as usize, (r + 1) as usize), Position(c as usize, (r - 1) as usize)]
    };
    assert(neighbor_positions(w, h, c, r) == horiz + vert);
    lemma_diff_sum_concat(rows, center, horiz, vert);
    if w <= 1 {
    } else if c == 0 {
        lemma_diff_sum_one(rows, center, Position((c + 1) as usize, r as usize));
    } else if c == w - 1 {
        lemma_diff_sum_one(rows, center, Position((c - 1) as usize, r as usize));
    } else {
        lemma_diff_sum_two(
            rows,
            center,
            Position((c - 1) as usize, r as usize),
            Position((c + 1) as usize, r as usize),
        );
    }
    if h <= 1 {
    } else if r == 0 {
        lemma_diff_sum_one(rows, center, Position(c as usize, (r + 1) as usize));
    } else if r == h - 1 {
        lemma_diff_sum_one(rows, center, Position(c as usize, (r - 1) as usize));
    } else {
        lemma_diff_sum_two(
            rows,
            center,
            Position(c as usize, (r + 1) as usize),
            Position(c as usize, (r - 1) as usize),
        );
    }
}

/// How many neighbors a pixel has: 2 at a corner, 3 at a non-corner edge,
/// 4 in the interior; at most 2 when the grid is a single row or column.
pub proof fn lemma_neighbor_count(w: int, h: int, x: int, y: int)
    requires
        0 <= x < w,
        0 <= y < h,
    ensures
        w >= 2 && h >= 2 && (x == 0 || x == w - 1) && (y == 0 || y == h - 1)
            ==> neighbor_positions(w, h, x, y).len() == 2,
        w >= 2 && h >= 2 && (x == 0 || x == w - 1) && !(y == 0 || y == h - 1)
            ==> neighbor_positions(w, h, x, y).len() == 3,
        w >= 2 && h >= 2 && !(x == 0 || x == w - 1) && (y == 0 || y == h - 1)
            ==> neighbor_positions(w, h, x, y).len() == 3,
        w >= 2 && h >= 2 && !(x == 0 || x == w - 1) && !(y == 0 || y == h - 1)
            ==> neighbor_positions(w, h, x, y).len() == 4,
        w == 1 || h == 1 ==> neighbor_positions(w, h, x, y).len() <= 2,
{
}

/// The sum of squared per-channel differences of two pixels, as a value.
fn pixel_diff_value(p: Pixel, q: Pixel) -> (d: u32)
    ensures
        d == pixel_diff(p, q),
{
    let dr: i32 = p.r as i32 - q.r as i32;
    let dg: i32 = p.g as i32 - q.g as i32;
    let db: i32 = p.b as i32 - q.b as i32;
    proof {
        assert(0 <= dr * dr && dr * dr <= 65025) by (nonlinear_arith)
            requires
                -255 <= dr && dr <= 255,
        ;
        assert(0 <= dg * dg && dg * dg <= 65025) by (nonlinear_arith)
            requires
                -255 <= dg && dg <= 255,
        ;
        assert(0 <= db * db && db * db <= 65025) by (nonlinear_arith)
            requires
                -255 <= db && db <= 255,
        ;
    }
    (dr * dr + dg * dg + db * db) as u32
}

/// The in-bounds von Neumann neighbors of (x, y), horizontal first.
pub fn get_von_neumann_neighbors(grid: &Grid, x: usize, y: usize) -> (neighbors: Vec<Position>)
    requires
        grid.wf(),
        x < grid.spec_width(),
        y < grid.spec_height(),
    ensures
        neighbors@ == neighbor_positions(grid.spec_width(), grid.spec_height(), x as int, y as int),
{
    let w = grid.width();
    let h = grid.height();
    let mut neighbors: Vec<Position> = Vec::new();
    if w > 1 {
        if x == 0 {
            neighbors.push(Position(x + 1, y));
        } else if x == w - 1 {
            neighbors.push(Position(x - 1, y));
        } else {
            neighbors.push(Position(x - 1, y));
            neighbors.push(Position(x + 1, y));
        }
    }
    if h > 1 {
        if y == 0 {
            neighbors.push(Position(x, y + 1));
        } else if y == h - 1 {
            neighbors.push(Position(x, y - 1));
        } else {
            neighbors.push(Position(x, y + 1));
            neighbors.push(Position(x, y - 1));
        }
    }
    proof {
        assert(neighbors@ =~= neighbor_positions(
            grid.spec_width(),
            grid.spec_height(),
            x as int,
            y as int,
        ));
    }
    neighbors
}

/// Energy of the pixel at column `x`, row `y` of the grid.
pub fn calculate_energy(grid: &Grid, x: usize, y: usize) -> (energy: u32)
    requires
        grid.wf(),
        x < grid.spec_width(),
        y < grid.spec_height(),
    ensures
        energy == energy_at(grid@, x as int, y as int),
        energy <= 780300,
{
    proof {
        grid.lemma_view_shape();
    }
    let center = grid.get_pixel(x, y);
    let w = grid.width();
    let h = grid.height();
    let mut energy: u32 = 0;
    if x > 0 {
        let d = pixel_diff_value(center, grid.get_pixel(x - 1, y));
        proof {
            lemma_pixel_diff_bounds(center, grid@[y as int][x as int - 1]);
        }
        energy = energy + d;
    }
    if x + 1 < w {
        let d = pixel_diff_value(center, grid.get_pixel(x + 1, y));
        proof {
            lemma_pixel_diff_bounds(center, grid@[y as int][x as int + 1]);
        }
        energy = energy + d;
    }
    if y > 0 {
        let d = pixel_diff_value(center, grid.get_pixel(x, y - 1));
        proof {
            lemma_pixel_diff_bounds(center, grid@[y as int - 1][x as int]);
        }
        energy = energy + d;
    }
    if y + 1 < h {
        let d = pixel_diff_value(center, grid.get_pixel(x, y + 1));
        proof {
            lemma_pixel_diff_bounds(center, grid@[y as int + 1][x as int]);
        }
        energy = energy + d;
    }
    energy
}

/// Index arithmetic for flat row-major storage: an entry of an earlier row
/// lies strictly below the start of any later row.
pub proof fn lemma_row_major_bound(w: int, c: int, r: int, r2: int)
    requires
        0 <= c < w,
        0 <= r < r2,
    ensures
        r * w + c < r2 * w,
{
    assert(r * w + c < r2 * w) by (nonlinear_arith)
        requires
            0 <= c < w,
            0 <= r < r2,
    ;
}

/// The energy map of the grid: one `u32` per pixel, row-major.
pub fn build_energy_map(grid: &Grid) -> (em: Vec<u32>)
    requires
        grid.wf(),
        grid.spec_width() >= 1,
        grid.spec_height() >= 1,
    ensures
        is_energy_map(grid@, em@),
{
    proof {
        grid.lemma_view_shape();
    }
    let w = grid.width();
    let h = grid.height();
    let mut em: Vec<u32> = Vec::new();
    let mut y: usize = 0;
    while y < h
        invariant
            grid.wf(),
            w == grid.spec_width(),
            h == grid.spec_height(),
            w >= 1,
            h >= 1,
            y <= h,
            grid_width(grid@) == w,
            grid@.len() == h,
            em@.len() == y * w,
            forall|c: int, r: int|
                0 <= c < w && 0 <= r < y ==> em@[r * w + c] == #[trigger] energy_at(grid@, c, r),
        decreases h - y,
    {
        let mut x: usize = 0;
        while x < w
            invariant
                grid.wf(),
                w == grid.spec_width(),
                h == grid.spec_height(),
                w >= 1,
                h >= 1,
                y < h,
                x <= w,
                grid_width(grid@) == w,
                grid@.len() == h,
                em@.len() == y * w + x,
                forall|c: int, r: int|
                    0 <= c < w && 0 <= r < y ==> em@[r * w + c] == #[trigger] energy_at(
                        grid@,
                        c,
                        r,
                    ),
                forall|c: int|
                    0 <= c < x ==> em@[y * w + c] == #[trigger] energy_at(grid@, c, y as int),
            decreases w - x,
        {
            let e = calculate_energy(grid, x, y);
            em.push(e);
            proof {
                assert forall|c: int, r: int| 0 <= c < w && 0 <= r < y implies em@[r * w + c]
                    == #[trigger] energy_at(grid@, c, r) by {
                    lemma_row_major_bound(w as int, c, r, y as int);
                }
            }
            x = x + 1;
        }
        proof {
            assert((y + 1) * (w as int) == y * (w as int) + w) by (nonlinear_arith);
            assert forall|c: int, r: int| 0 <= c < w && 0 <= r < y + 1 implies em@[r * w + c]
                == #[trigger] energy_at(grid@, c, r) by {
                if r < y {
                    lemma_row_major_bound(w as int, c, r, y as int);
                }
            }
        }
        y = y + 1;
    }
    em
}

} // verus!
