use scrunchie::energy::{build_energy_map, calculate_energy, get_von_neumann_neighbors};
use scrunchie::grid::{Grid, Pixel, Position};

fn uniform_grid(width: usize, height: usize, p: Pixel) -> Grid {
    let mut pixels: Vec<Pixel> = Vec::new();
    for _ in 0..width * height {
        pixels.push(p);
    }
    Grid::new(width, height, pixels).unwrap()
}

/// A 3x3 grid whose red channel ramps 0..9 row-major; green and blue 0.
fn ramp_grid_3x3() -> Grid {
    let mut pixels: Vec<Pixel> = Vec::new();
    for v in 0..9u8 {
        pixels.push(Pixel { r: v, g: 0, b: 0 });
    }
    Grid::new(3, 3, pixels).unwrap()
}

#[test]
fn test_get_von_neumann_neighbors() {
    let img = uniform_grid(10, 8, Pixel { r: 7, g: 7, b: 7 });

    let neighbors = get_von_neumann_neighbors(&img, 0, 0);
    assert!(neighbors.contains(&Position(0, 1)));
    assert!(neighbors.contains(&Position(1, 0)));
    assert_eq!(neighbors.len(), 2);

    let neighbors = get_von_neumann_neighbors(&img, img.width() / 2, 0);
    assert!(neighbors.contains(&Position(img.width() / 2 - 1, 0)));
    assert!(neighbors.contains(&Position(img.width() / 2 + 1, 0)));
    assert!(neighbors.contains(&Position(img.width() / 2, 1)));
    assert_eq!(neighbors.len(), 3);

    let neighbors = get_von_neumann_neighbors(&img, img.width() - 1, 0);
    assert!(neighbors.contains(&Position(img.width() - 2, 0)));
    assert!(neighbors.contains(&Position(img.width() - 1, 1)));
    assert_eq!(neighbors.len(), 2);

    let neighbors = get_von_neumann_neighbors(&img, 0, img.height() / 2);
    assert!(neighbors.contains(&Position(0, img.height() / 2 - 1)));
    assert!(neighbors.contains(&Position(0, img.height() / 2 + 1)));
    assert!(neighbors.contains(&Position(1, img.height() / 2)));
    assert_eq!(neighbors.len(), 3);

    let neighbors = get_von_neumann_neighbors(&img, img.width() / 2, img.height() / 2);
    assert!(neighbors.contains(&Position(img.width() / 2, img.height() / 2 - 1)));
    assert!(neighbors.contains(&Position(img.width() / 2, img.height() / 2 + 1)));
    assert!(neighbors.contains(&Position(img.width() / 2 - 1, img.height() / 2)));
    assert!(neighbors.contains(&Position(img.width() / 2 + 1, img.height() / 2)));
    assert_eq!(neighbors.len(), 4);

    let neighbors = get_von_neumann_neighbors(&img, img.width() - 1, img.height() / 2);
    assert!(neighbors.contains(&Position(img.width() - 2, img.height() / 2)));
    assert!(neighbors.contains(&Position(img.width() - 1, img.height() / 2 - 1)));
    assert!(neighbors.contains(&Position(img.width() - 1, img.height() / 2 + 1)));
    assert_eq!(neighbors.len(), 3);

    let neighbors = get_von_neumann_neighbors(&img, 0, img.height() - 1);
    assert!(neighbors.contains(&Position(0, img.height() - 2)));
    assert!(neighbors.contains(&Position(1, img.height() - 1)));
    assert_eq!(neighbors.len(), 2);

    let neighbors = get_von_neumann_neighbors(&img, img.width() / 2, img.height() - 1);
    assert!(neighbors.contains(&Position(img.width() / 2, img.height() - 2)));
    assert!(neighbors.contains(&Position(img.width() / 2 - 1, img.height() - 1)));
    assert!(neighbors.contains(&Position(img.width() / 2 + 1, img.height() - 1)));
    assert_eq!(neighbors.len(), 3);

    let neighbors = get_von_neumann_neighbors(&img, img.width() - 1, img.height() - 1);
    assert!(neighbors.contains(&Position(img.width() - 1, img.height() - 2)));
    assert!(neighbors.contains(&Position(img.width() - 2, img.height() - 1)));
    assert_eq!(neighbors.len(), 2);
}

#[test]
fn test_calculate_energy() {
    let img = ramp_grid_3x3();
    // Horizontal differences are 1, vertical differences are 3; squared: 1 and 9.
    assert_eq!(calculate_energy(&img, 0, 0), 10);
    assert_eq!(calculate_energy(&img, 1, 0), 11);
    assert_eq!(calculate_energy(&img, 2, 0), 10);
    assert_eq!(calculate_energy(&img, 0, 1), 19);
    assert_eq!(calculate_energy(&img, 1, 1), 20);
    assert_eq!(calculate_energy(&img, 2, 1), 19);
    assert_eq!(calculate_energy(&img, 0, 2), 10);
    assert_eq!(calculate_energy(&img, 1, 2), 11);
    assert_eq!(calculate_energy(&img, 2, 2), 10);
}

#[test]
fn energy_sums_all_three_channels() {
    let pixels = vec![Pixel::new(0, 0, 0), Pixel::new(1, 2, 3)];
    let img = Grid::new(2, 1, pixels).unwrap();
    // 1^2 + 2^2 + 3^2 = 14, the only neighbor being the horizontal one.
    assert_eq!(calculate_energy(&img, 0, 0), 14);
    assert_eq!(calculate_energy(&img, 1, 0), 14);
}

#[test]
fn energy_map_has_grid_shape_row_major() {
    let img = ramp_grid_3x3();
    let em = build_energy_map(&img);
    assert_eq!(em.len(), img.width() * img.height());
    for y in 0..img.height() {
        for x in 0..img.width() {
            assert_eq!(em[y * img.width() + x], calculate_energy(&img, x, y));
        }
    }
}

#[test]
fn uniform_grid_has_zero_energy_everywhere() {
    let img = uniform_grid(5, 4, Pixel { r: 200, g: 100, b: 50 });
    let em = build_energy_map(&img);
    assert_eq!(em.len(), 20);
    for e in em {
        assert_eq!(e, 0);
    }
}

#[test]
fn single_column_grid_has_at_most_two_neighbors() {
    let img = uniform_grid(1, 5, Pixel { r: 1, g: 2, b: 3 });
    for y in 0..5 {
        let n = get_von_neumann_neighbors(&img, 0, y);
        assert!(n.len() <= 2);
    }
    assert_eq!(get_von_neumann_neighbors(&img, 0, 0).len(), 1);
    assert_eq!(get_von_neumann_neighbors(&img, 0, 2).len(), 2);
}

#[test]
fn single_row_grid_has_at_most_two_neighbors() {
    let img = uniform_grid(5, 1, Pixel { r: 1, g: 2, b: 3 });
    for x in 0..5 {
        let n = get_von_neumann_neighbors(&img, x, 0);
        assert!(n.len() <= 2);
    }
    assert_eq!(get_von_neumann_neighbors(&img, 0, 0).len(), 1);
    assert_eq!(get_von_neumann_neighbors(&img, 2, 0).len(), 2);
}

#[test]
fn maximal_contrast_energy_value() {
    // A lone black pixel between two white ones in a 3x1 grid: each term
    // is 3 * 255^2 = 195075, and the middle pixel has two of them.
    let pixels = vec![
        Pixel { r: 255, g: 255, b: 255 },
        Pixel { r: 0, g: 0, b: 0 },
        Pixel { r: 255, g: 255, b: 255 },
    ];
    let img = Grid::new(3, 1, pixels).unwrap();
    assert_eq!(calculate_energy(&img, 1, 0), 390150);
    assert_eq!(calculate_energy(&img, 0, 0), 195075);
}
