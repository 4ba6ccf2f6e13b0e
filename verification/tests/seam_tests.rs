use scrunchie::energy::build_energy_map;
use scrunchie::extract::extract_best_seam;
use scrunchie::grid::{Grid, Pixel, Position};
use scrunchie::removal::remove_seam;
use scrunchie::table::{build_seam_table, get_bottom_up_neighbors};

fn uniform_grid(width: usize, height: usize, p: Pixel) -> Grid {
    let mut pixels: Vec<Pixel> = Vec::new();
    for _ in 0..width * height {
        pixels.push(p);
    }
    Grid::new(width, height, pixels).unwrap()
}

/// A 3x3 grid whose red channel ramps 0..9 row-major; green and blue 0.
fn ramp_grid_3x3() -> Grid {
    let mut pixels: Vec<Pixel> = Vec::new();
    for v in 0..9u8 {
        pixels.push(Pixel { r: v, g: 0, b: 0 });
    }
    Grid::new(3, 3, pixels).unwrap()
}

/// The 5x3 grid with red outer columns (0 and 4) and blue elsewhere.
fn red_blue_grid_5x3() -> Grid {
    let red = Pixel { r: 255, g: 0, b: 0 };
    let blue = Pixel { r: 0, g: 0, b: 255 };
    let mut pixels: Vec<Pixel> = Vec::new();
    for _y in 0..3 {
        for x in 0..5 {
            if x == 0 || x == 4 {
                pixels.push(red);
            } else {
                pixels.push(blue);
            }
        }
    }
    Grid::new(5, 3, pixels).unwrap()
}

#[test]
fn test_get_bottom_up_neighbors() {
    let img = uniform_grid(4, 3, Pixel { r: 9, g: 9, b: 9 });

    // Top row: no candidates above.
    assert_eq!(get_bottom_up_neighbors(&img, 1, 0).len(), 0);

    // Left edge: directly above, then the right diagonal.
    let n = get_bottom_up_neighbors(&img, 0, 1);
    assert_eq!(n, vec![Position(0, 0), Position(1, 0)]);

    // Right edge: directly above, then the left diagonal.
    let n = get_bottom_up_neighbors(&img, 3, 1);
    assert_eq!(n, vec![Position(3, 0), Position(2, 0)]);

    // Interior: directly above, right diagonal, left diagonal.
    let n = get_bottom_up_neighbors(&img, 2, 2);
    assert_eq!(n, vec![Position(2, 1), Position(3, 1), Position(1, 1)]);

    // Single column: only the cell directly above.
    let thin = uniform_grid(1, 3, Pixel { r: 9, g: 9, b: 9 });
    let n = get_bottom_up_neighbors(&thin, 0, 1);
    assert_eq!(n, vec![Position(0, 0)]);
}

#[test]
fn test_determine_best_seam() {
    let img = red_blue_grid_5x3();
    let energies = build_energy_map(&img);
    let bottom_up = build_seam_table(&img, &energies);
    let seam = extract_best_seam(&img, &bottom_up);
    assert_eq!(seam.positions.len(), 3);
    assert_eq!(seam.cost, 0);
    assert_eq!(seam.positions[0], Position(2, 0));
    assert_eq!(seam.positions[1], Position(2, 1));
    assert_eq!(seam.positions[2], Position(2, 2));
}

#[test]
fn seam_path_is_connected_and_one_per_row() {
    let img = ramp_grid_3x3();
    let energies = build_energy_map(&img);
    let table = build_seam_table(&img, &energies);
    let seam = extract_best_seam(&img, &table);
    assert_eq!(seam.positions.len(), img.height());
    for (r, p) in seam.positions.iter().enumerate() {
        assert_eq!(p.1, r);
        assert!(p.0 < img.width());
    }
    for r in 1..seam.positions.len() {
        let a = seam.positions[r - 1].0 as i64;
        let b = seam.positions[r].0 as i64;
        assert!((a - b).abs() <= 1);
    }
}

#[test]
fn seam_cost_is_energy_sum_and_brute_force_minimum() {
    let img = ramp_grid_3x3();
    let energies = build_energy_map(&img);
    let table = build_seam_table(&img, &energies);
    let seam = extract_best_seam(&img, &table);

    // The reported cost is the sum of the energies at the path's positions.
    let mut sum: u64 = 0;
    for p in &seam.positions {
        sum += energies[p.1 * img.width() + p.0] as u64;
    }
    assert_eq!(seam.cost, sum);

    // And it is the minimum over every connected top-to-bottom path.
    let mut brute_min: u64 = u64::MAX;
    for c0 in 0..3usize {
        for c1 in 0..3usize {
            for c2 in 0..3usize {
                let d01 = (c0 as i64 - c1 as i64).abs();
                let d12 = (c1 as i64 - c2 as i64).abs();
                if d01 <= 1 && d12 <= 1 {
                    let cost = energies[c0] as u64 + energies[3 + c1] as u64
                        + energies[6 + c2] as u64;
                    if cost < brute_min {
                        brute_min = cost;
                    }
                }
            }
        }
    }
    assert_eq!(seam.cost, brute_min);
    assert_eq!(seam.cost, 39);
    // Leftmost of the two straight cost-39 columns wins the tie.
    assert_eq!(seam.positions[0], Position(0, 0));
    assert_eq!(seam.positions[1], Position(0, 1));
    assert_eq!(seam.positions[2], Position(0, 2));
}

#[test]
fn remove_seam_drops_one_pixel_per_row_keeping_order() {
    let img = ramp_grid_3x3();
    let path = vec![Position(1, 0), Position(0, 1), Position(1, 2)];
    let out = remove_seam(img, &path);
    assert_eq!(out.width(), 2);
    assert_eq!(out.height(), 3);
    // Row 0 was 0,1,2 with column 1 removed: 0,2.
    assert_eq!(out.get_pixel(0, 0).r, 0);
    assert_eq!(out.get_pixel(1, 0).r, 2);
    // Row 1 was 3,4,5 with column 0 removed: 4,5.
    assert_eq!(out.get_pixel(0, 1).r, 4);
    assert_eq!(out.get_pixel(1, 1).r, 5);
    // Row 2 was 6,7,8 with column 1 removed: 6,8.
    assert_eq!(out.get_pixel(0, 2).r, 6);
    assert_eq!(out.get_pixel(1, 2).r, 8);
}

#[test]
fn remove_seam_from_single_column_gives_empty_rows() {
    let img = uniform_grid(1, 2, Pixel { r: 3, g: 4, b: 5 });
    let path = vec![Position(0, 0), Position(0, 1)];
    let out = remove_seam(img, &path);
    assert_eq!(out.width(), 0);
    assert_eq!(out.height(), 2);
}
