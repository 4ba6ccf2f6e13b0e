use scrunchie::carve::{carve, carve_with_observer, CarveError, ProgressObserver};
use scrunchie::grid::{Grid, Pixel};

fn uniform_grid(width: usize, height: usize, p: Pixel) -> Grid {
    let mut pixels: Vec<Pixel> = Vec::new();
    for _ in 0..width * height {
        pixels.push(p);
    }
    Grid::new(width, height, pixels).unwrap()
}

/// The 5x3 grid with red outer columns (0 and 4) and blue elsewhere.
fn red_blue_grid_5x3() -> Grid {
    let red = Pixel { r: 255, g: 0, b: 0 };
    let blue = Pixel { r: 0, g: 0, b: 255 };
    let mut pixels: Vec<Pixel> = Vec::new();
    for _y in 0..3 {
        for x in 0..5 {
            if x == 0 || x == 4 {
                pixels.push(red);
            } else {
                pixels.push(blue);
            }
        }
    }
    Grid::new(5, 3, pixels).unwrap()
}

fn grid_pixels(g: &Grid) -> Vec<Vec<Pixel>> {
    let mut rows: Vec<Vec<Pixel>> = Vec::new();
    for y in 0..g.height() {
        let mut row: Vec<Pixel> = Vec::new();
        for x in 0..g.width() {
            row.push(g.get_pixel(x, y));
        }
        rows.push(row);
    }
    rows
}

#[test]
fn carve_zero_columns_is_identity() {
    let img = red_blue_grid_5x3();
    let before = grid_pixels(&img);
    let out = carve(img, 0).unwrap();
    assert_eq!(out.width(), 5);
    assert_eq!(out.height(), 3);
    assert_eq!(grid_pixels(&out), before);
}

#[test]
fn carve_reduces_width_by_requested_count() {
    let img = red_blue_grid_5x3();
    let out = carve(img, 3).unwrap();
    assert_eq!(out.width(), 2);
    assert_eq!(out.height(), 3);
}

#[test]
fn carve_red_blue_grid_removes_center_column() {
    let red = Pixel { r: 255, g: 0, b: 0 };
    let blue = Pixel { r: 0, g: 0, b: 255 };
    let img = red_blue_grid_5x3();
    let out = carve(img, 1).unwrap();
    assert_eq!(out.width(), 4);
    assert_eq!(out.height(), 3);
    // Every row was red, blue, blue, blue, red; the cost-0 seam ran down
    // original column 2, so each row is now red, blue, blue, red.
    for y in 0..3 {
        assert_eq!(out.get_pixel(0, y), red);
        assert_eq!(out.get_pixel(1, y), blue);
        assert_eq!(out.get_pixel(2, y), blue);
        assert_eq!(out.get_pixel(3, y), red);
    }
}

#[test]
fn carve_to_width_zero_is_rejected_as_over_carve() {
    let img = uniform_grid(1, 4, Pixel { r: 1, g: 1, b: 1 });
    let res = carve(img, 1);
    assert_eq!(res.unwrap_err(), CarveError::OverCarve);

    let img = uniform_grid(6, 2, Pixel { r: 1, g: 1, b: 1 });
    let res = carve(img, 6);
    assert_eq!(res.unwrap_err(), CarveError::OverCarve);

    let img = uniform_grid(6, 2, Pixel { r: 1, g: 1, b: 1 });
    let res = carve(img, 7);
    assert_eq!(res.unwrap_err(), CarveError::OverCarve);
}

#[test]
fn carve_rejects_empty_grid_as_invalid_dimension() {
    let img = Grid::new(0, 4, Vec::new()).unwrap();
    let res = carve(img, 0);
    assert_eq!(res.unwrap_err(), CarveError::InvalidDimension);

    let img = Grid::new(3, 0, Vec::new()).unwrap();
    let res = carve(img, 1);
    assert_eq!(res.unwrap_err(), CarveError::InvalidDimension);
}

#[test]
fn carve_single_column_by_zero_is_allowed() {
    let img = uniform_grid(1, 4, Pixel { r: 1, g: 1, b: 1 });
    let out = carve(img, 0).unwrap();
    assert_eq!(out.width(), 1);
    assert_eq!(out.height(), 4);
}

struct RecordingObserver {
    calls: Vec<(usize, usize)>,
}

impl ProgressObserver for RecordingObserver {
    fn on_iteration_complete(&mut self, index: usize, total: usize) {
        self.calls.push((index, total));
    }
}

#[test]
fn observer_hears_each_completed_iteration() {
    let img = red_blue_grid_5x3();
    let mut observer = RecordingObserver { calls: Vec::new() };
    let out = carve_with_observer(img, 3, &mut observer).unwrap();
    assert_eq!(out.width(), 2);
    assert_eq!(observer.calls, vec![(0, 3), (1, 3), (2, 3)]);
}

#[test]
fn carve_single_row_grid() {
    // A single-row grid: each pixel has at most two neighbors; carving two
    // columns leaves the three cheapest-to-keep pixels' row narrower.
    let mut pixels: Vec<Pixel> = Vec::new();
    for v in [10u8, 10, 10, 10, 10] {
        pixels.push(Pixel { r: v, g: 0, b: 0 });
    }
    let img = Grid::new(5, 1, pixels).unwrap();
    let out = carve(img, 2).unwrap();
    assert_eq!(out.width(), 3);
    assert_eq!(out.height(), 1);
    for x in 0..3 {
        assert_eq!(out.get_pixel(x, 0).r, 10);
    }
}

#[test]
fn grid_new_rejects_mismatched_pixel_count() {
    let pixels = vec![Pixel { r: 0, g: 0, b: 0 }; 5];
    assert!(Grid::new(2, 3, pixels).is_none());
    let pixels = vec![Pixel { r: 0, g: 0, b: 0 }; 6];
    assert!(Grid::new(2, 3, pixels).is_some());
}
