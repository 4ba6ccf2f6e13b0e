//! The carving loop: repeatedly build the energy map, build the seam
//! table, extract the minimal seam and remove it, once per column to be
//! removed.

use vstd::prelude::*;
use crate::grid::{Grid, Pixel};
use crate::energy::build_energy_map;
use crate::table::build_seam_table;
use crate::extract::{extract_best_seam, seam_col};
use crate::removal::remove_seam;

verus! {

/// Why a carve request is rejected.
#[derive(Clone, Copy, PartialEq, Eq, Structural, Debug)]
pub enum CarveError {
    /// The grid has zero width or zero height.
    InvalidDimension,
    /// At least as many columns as the grid has were asked to be removed.
    OverCarve,
}

/// The grid after removal of its minimal seam: every row loses the pixel
/// at the seam's column for that row.
pub open spec fn removed_once(rows: Seq<Seq<Pixel>>) -> Seq<Seq<Pixel>> {
    Seq::new(rows.len(), |r: int| rows[r].remove(seam_col(rows, r)))
}

/// The grid after `n` rounds of minimal-seam removal.
pub open spec fn carved(rows: Seq<Seq<Pixel>>, n: int) -> Seq<Seq<Pixel>>
    decreases n,
{
    if n <= 0 {
        rows
    } else {
        carved(removed_once(rows), n - 1)
    }
}

/// Carving zero columns is the identity: content and dimensions unchanged.
pub proof fn lemma_carved_zero(rows: Seq<Seq<Pixel>>)
    ensures
        carved(rows, 0) == rows,
{
}

/// Observer of carving progress, told once after each completed iteration.
pub trait ProgressObserver {
    /// Called after iteration `index` of `total` has finished.
    fn on_iteration_complete(&mut self, index: usize, total: usize);
}

/// An observer that ignores progress reports.
pub struct SilentObserver;

impl ProgressObserver for SilentObserver {
    fn on_iteration_complete(&mut self, index: usize, total: usize) {
        let _ = index;
        let _ = total;
    }
}

/// Carves `columns_to_remove` minimal seams out of the grid, reporting
/// each finished iteration to the observer.
///
/// Rejects a grid with zero width or height (`InvalidDimension`) and a
/// request for at least as many columns as the grid has (`OverCarve`);
/// otherwise returns the grid after `columns_to_remove` rounds of
/// minimal-seam removal, its width smaller by exactly that count.
pub fn carve_with_observer<O: ProgressObserver>(
    grid: Grid,
    columns_to_remove: usize,
    observer: &mut O,
) -> (res: Result<Grid, CarveError>)
    requires
        grid.wf(),
    ensures
        match res {
            Ok(out) => {
                &&& grid.spec_width() >= 1
                &&& grid.spec_height() >= 1
                &&& columns_to_remove < grid.spec_width()
                &&& out.wf()
                &&& out.spec_height() == grid.spec_height()
                &&& out.spec_width() == grid.spec_width() - columns_to_remove
                &&& out@ == carved(grid@, columns_to_remove as int)
            },
            Err(e) => {
                &&& (grid.spec_width() == 0 || grid.spec_height() == 0 || columns_to_remove
                    >= grid.spec_width())
                &&& (e == CarveError::InvalidDimension <==> (grid.spec_width() == 0
                    || grid.spec_height() == 0))
                &&& (e == CarveError::OverCarve <==> (grid.spec_width() >= 1
                    && grid.spec_height() >= 1 && columns_to_remove >= grid.spec_width()))
            },
        },
{
    let w = grid.width();
    let h = grid.height();
    if w == 0 || h == 0 {
        return Err(CarveError::InvalidDimension);
    }
    if columns_to_remove >= w {
        return Err(CarveError::OverCarve);
    }
    let n = columns_to_remove;
    let ghost orig_rows = grid@;
    let ghost w0 = grid.spec_width();
    let ghost h0 = grid.spec_height();
    let mut cur = grid;
    let mut i: usize = 0;
    while i < n
        invariant
            cur.wf(),
            i <= n,
            n < w0,
            h0 >= 1,
            cur.spec_width() == w0 - i,
            cur.spec_height() == h0,
            carved(cur@, n - i) == carved(orig_rows, n as int),
        decreases n - i,
    {
        proof {
            cur.lemma_view_shape();
        }
        let energies = build_energy_map(&cur);
        let t = build_seam_table(&cur, &energies);
        let seam = extract_best_seam(&cur, &t);
        let ghost prev_rows = cur@;
        cur = remove_seam(cur, &seam.positions);
        proof {
            assert forall|r: int| 0 <= r < prev_rows.len() implies cur@[r] == #[trigger] removed_once(
                prev_rows,
            )[r] by {
                assert(seam.positions@[r].0 == seam_col(prev_rows, r));
            }
            assert(cur@ =~= removed_once(prev_rows));
            assert(carved(prev_rows, n - i) == carved(removed_once(prev_rows), n - i - 1));
        }
        observer.on_iteration_complete(i, n);
        i = i + 1;
    }
    proof {
        assert(carved(cur@, 0) == cur@);
    }
    Ok(cur)
}

/// Carves `columns_to_remove` minimal seams out of the grid, silently.
///
/// Same contract as `carve_with_observer`; in particular, carving zero
/// columns returns the grid unchanged in content and dimensions.
pub fn carve(grid: Grid, columns_to_remove: usize) -> (res: Result<Grid, CarveError>)
    requires
        grid.wf(),
    ensures
        match res {
            Ok(out) => {
                &&& grid.spec_width() >= 1
                &&& grid.spec_height() >= 1
                &&& columns_to_remove < grid.spec_width()
                &&& out.wf()
                &&& out.spec_height() == grid.spec_height()
                &&& out.spec_width() == grid.spec_width() - columns_to_remove
                &&& out@ == carved(grid@, columns_to_remove as int)
            },
            Err(e) => {
                &&& (grid.spec_width() == 0 || grid.spec_height() == 0 || columns_to_remove
                    >= grid.spec_width())
                &&& (e == CarveError::InvalidDimension <==> (grid.spec_width() == 0
                    || grid.spec_height() == 0))
                &&& (e == CarveError::OverCarve <==> (grid.spec_width() >= 1
                    && grid.spec_height() >= 1 && columns_to_remove >= grid.spec_width()))
            },
        },
{
    let mut observer = SilentObserver;
    carve_with_observer(grid, columns_to_remove, &mut observer)
}

} // verus!
