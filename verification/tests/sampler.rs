use mosaic::color::Rgb;
use mosaic::error::ErrorKind;
use mosaic::grid::GridCell;
use mosaic::inventory::{build_inventory, Inventory, PaletteColor};
use mosaic::pipeline::build_mosaic;
use mosaic::quantizer::Assignment;
use mosaic::sampler::{grid_from_pixels, sample_grid};
use rand::rngs::StdRng;
use rand::SeedableRng;

fn rgb(r: u8, g: u8, b: u8) -> Rgb {
    Rgb { r, g, b }
}

fn cell(x: u64, y: u64, source: Rgb) -> GridCell {
    GridCell { x, y, source }
}

fn entry(name: &str, color: Rgb, remaining: u64) -> PaletteColor {
    PaletteColor { name: name.to_string(), color, remaining }
}

fn palette(entries: Vec<PaletteColor>) -> Inventory {
    build_inventory(entries).unwrap()
}

/// A picture whose pixel in column x of row y is (x, y, 7).
fn picture(width: u32, height: u32) -> Vec<u8> {
    let mut pixels = Vec::new();
    for y in 0..height {
        for x in 0..width {
            pixels.push(x as u8);
            pixels.push(y as u8);
            pixels.push(7);
        }
    }
    pixels
}

#[test]
fn grid_rows_count_from_the_bottom_of_the_picture() {
    let pixels = vec![
        1, 2, 3, 4, 5, 6, // top row of the picture
        7, 8, 9, 10, 11, 12, // bottom row of the picture
    ];
    let grid = grid_from_pixels(&pixels, 2, 2).unwrap();
    assert_eq!(
        grid,
        vec![
            cell(0, 0, rgb(7, 8, 9)),
            cell(1, 0, rgb(10, 11, 12)),
            cell(0, 1, rgb(1, 2, 3)),
            cell(1, 1, rgb(4, 5, 6)),
        ]
    );
}

#[test]
fn grid_lists_every_position_row_by_row() {
    let grid = grid_from_pixels(&picture(5, 3), 5, 3).unwrap();
    assert_eq!(grid.len(), 15);
    for (i, c) in grid.iter().enumerate() {
        assert_eq!(c.x, i as u64 % 5);
        assert_eq!(c.y, i as u64 / 5);
        assert_eq!(c.source, rgb(c.x as u8, (2 - c.y) as u8, 7));
    }
}

#[test]
fn grid_of_a_single_row_and_a_single_column() {
    assert_eq!(
        grid_from_pixels(&vec![1, 2, 3, 4, 5, 6], 2, 1).unwrap(),
        vec![cell(0, 0, rgb(1, 2, 3)), cell(1, 0, rgb(4, 5, 6))]
    );
    assert_eq!(
        grid_from_pixels(&vec![1, 2, 3, 4, 5, 6], 1, 2).unwrap(),
        vec![cell(0, 0, rgb(4, 5, 6)), cell(0, 1, rgb(1, 2, 3))]
    );
}

#[test]
fn grid_without_cells() {
    assert_eq!(grid_from_pixels(&Vec::new(), 0, 0).unwrap(), Vec::new());
    assert_eq!(grid_from_pixels(&Vec::new(), 3, 0).unwrap(), Vec::new());
    assert_eq!(grid_from_pixels(&Vec::new(), 0, 3).unwrap(), Vec::new());
}

#[test]
fn grid_from_a_buffer_of_the_wrong_length_is_an_image_error() {
    assert_eq!(grid_from_pixels(&vec![1, 2, 3, 4, 5], 2, 1), Err(ErrorKind::ImageError));
    assert_eq!(grid_from_pixels(&vec![1, 2, 3, 4, 5, 6, 7], 2, 1), Err(ErrorKind::ImageError));
    assert_eq!(grid_from_pixels(&Vec::new(), 1, 1), Err(ErrorKind::ImageError));
    assert_eq!(
        grid_from_pixels(&Vec::new(), u32::MAX, u32::MAX),
        Err(ErrorKind::ImageError)
    );
}

#[test]
fn sampling_at_the_picture_s_own_size_keeps_every_pixel() {
    let grid = sample_grid(picture(4, 3), 4, 3, 4, 3).unwrap();
    assert_eq!(grid, grid_from_pixels(&picture(4, 3), 4, 3).unwrap());
}

#[test]
fn sampling_down_picks_single_pixels() {
    // Four pixels in a row shrink to two: each new pixel is one of the old.
    let pixels = vec![10, 10, 10, 20, 20, 20, 30, 30, 30, 40, 40, 40];
    let grid = sample_grid(pixels, 4, 1, 2, 1).unwrap();
    assert_eq!(grid, vec![cell(0, 0, rgb(20, 20, 20)), cell(1, 0, rgb(40, 40, 40))]);
}

#[test]
fn sampling_down_to_one_cell() {
    let grid = sample_grid(picture(2, 2), 2, 2, 1, 1).unwrap();
    assert_eq!(grid, vec![cell(0, 0, rgb(1, 1, 7))]);
}

#[test]
fn sampling_up_repeats_pixels_and_flips_the_rows() {
    let pixels = vec![
        200, 0, 0, // top
        0, 0, 200, // bottom
    ];
    let grid = sample_grid(pixels, 1, 2, 2, 4).unwrap();
    let red = rgb(200, 0, 0);
    let blue = rgb(0, 0, 200);
    assert_eq!(
        grid,
        vec![
            cell(0, 0, blue),
            cell(1, 0, blue),
            cell(0, 1, blue),
            cell(1, 1, blue),
            cell(0, 2, red),
            cell(1, 2, red),
            cell(0, 3, red),
            cell(1, 3, red),
        ]
    );
}

#[test]
fn sampling_never_blends_colors() {
    let mut pixels = Vec::new();
    for i in 0..100u32 {
        let v = if i % 2 == 0 { 0 } else { 255 };
        pixels.push(v);
        pixels.push(v);
        pixels.push(v);
    }
    let grid = sample_grid(pixels, 10, 10, 3, 3).unwrap();
    assert_eq!(grid.len(), 9);
    for c in grid {
        assert!(c.source == rgb(0, 0, 0) || c.source == rgb(255, 255, 255));
    }
}

#[test]
fn sampling_a_buffer_of_the_wrong_length_is_an_image_error() {
    assert_eq!(sample_grid(vec![1, 2, 3, 4], 1, 1, 48, 48), Err(ErrorKind::ImageError));
    assert_eq!(sample_grid(Vec::new(), 1, 1, 48, 48), Err(ErrorKind::ImageError));
}

#[test]
fn sampling_onto_a_grid_beyond_the_machine_is_a_config_error() {
    assert_eq!(
        sample_grid(Vec::new(), u32::MAX, 0, 1, u32::MAX),
        Err(ErrorKind::ConfigError)
    );
    assert_eq!(
        sample_grid(picture(1, 1), 1, 1, u32::MAX, u32::MAX),
        Err(ErrorKind::ConfigError)
    );
}

#[test]
fn sampling_a_picture_without_pixels_gives_black_cells() {
    let black = rgb(0, 0, 0);
    let expected = vec![cell(0, 0, black), cell(1, 0, black), cell(0, 1, black), cell(1, 1, black)];
    assert_eq!(sample_grid(Vec::new(), 0, 0, 2, 2).unwrap(), expected);
    assert_eq!(sample_grid(Vec::new(), 0, 3, 2, 2).unwrap(), expected);
    assert_eq!(sample_grid(Vec::new(), 3, 0, 2, 2).unwrap(), expected);
}

#[test]
fn sampling_onto_a_grid_without_cells_gives_no_cells() {
    assert_eq!(sample_grid(picture(3, 2), 3, 2, 0, 0).unwrap(), Vec::new());
    assert_eq!(sample_grid(picture(3, 2), 3, 2, 0, 5).unwrap(), Vec::new());
    assert_eq!(sample_grid(picture(3, 2), 3, 2, 5, 0).unwrap(), Vec::new());
    assert_eq!(sample_grid(Vec::new(), 0, 0, 0, 0).unwrap(), Vec::new());
}

#[test]
fn sampling_needs_every_row_to_fit_the_machine() {
    let wide = 2_000_000_000u32;
    let row_fits = |numbers_per_pixel: u128| numbers_per_pixel * wide as u128 <= usize::MAX as u128;
    let expected = |fits: bool| if fits { Ok(Vec::new()) } else { Err(ErrorKind::ConfigError) };
    assert_eq!(sample_grid(Vec::new(), wide, 0, 1, 0), expected(row_fits(4)));
    assert_eq!(sample_grid(Vec::new(), 0, 0, wide, 0), expected(row_fits(3)));
    assert_eq!(sample_grid(Vec::new(), 0, 0, 0, u32::MAX), Ok(Vec::new()));
}

#[test]
fn mosaic_of_a_grid_without_cells_uses_no_piece() {
    let mut inv = palette(vec![entry("a", rgb(0, 0, 0), 3)]);
    let untouched = inv.clone();
    let mut rng = StdRng::seed_from_u64(2);
    assert_eq!(build_mosaic(picture(2, 2), 2, 2, 0, 7, &mut inv, &mut rng), Ok(Vec::new()));
    assert_eq!(inv, untouched);
}

#[test]
fn mosaic_of_a_picture_without_pixels_is_all_one_color() {
    let mut inv = palette(vec![
        entry("white", rgb(255, 255, 255), 9),
        entry("dark", rgb(10, 10, 10), 9),
    ]);
    let mut rng = StdRng::seed_from_u64(2);
    let layout = build_mosaic(Vec::new(), 0, 0, 3, 2, &mut inv, &mut rng).unwrap();
    assert_eq!(layout.len(), 6);
    for (i, a) in layout.iter().enumerate() {
        assert_eq!(a.y * 3 + a.x, i as u64);
        assert_eq!(a.entry, 1);
        assert_eq!(a.color, rgb(10, 10, 10));
    }
    assert_eq!(inv.entries[0].remaining, 9);
    assert_eq!(inv.entries[1].remaining, 3);
}

#[test]
fn mosaic_of_a_small_picture() {
    let pixels = vec![
        250, 250, 250, 5, 5, 5, // top row: light, dark
        5, 5, 5, 250, 250, 250, // bottom row: dark, light
    ];
    let mut inv = palette(vec![
        entry("dark", rgb(0, 0, 0), 2),
        entry("light", rgb(255, 255, 255), 2),
    ]);
    let mut rng = StdRng::seed_from_u64(17);
    let layout = build_mosaic(pixels, 2, 2, 2, 2, &mut inv, &mut rng).unwrap();
    let dark = rgb(0, 0, 0);
    let light = rgb(255, 255, 255);
    assert_eq!(
        layout,
        vec![
            Assignment { x: 0, y: 0, color: dark, entry: 0 },
            Assignment { x: 1, y: 0, color: light, entry: 1 },
            Assignment { x: 0, y: 1, color: light, entry: 1 },
            Assignment { x: 1, y: 1, color: dark, entry: 0 },
        ]
    );
    assert_eq!(inv.entries[0].remaining, 0);
    assert_eq!(inv.entries[1].remaining, 0);
}

#[test]
fn mosaic_is_laid_out_row_by_row_for_every_seed() {
    for seed in 0..10u64 {
        let mut inv = palette(vec![
            entry("a", rgb(0, 0, 0), 40),
            entry("b", rgb(9, 9, 7), 40),
            entry("c", rgb(4, 4, 7), 40),
        ]);
        let mut rng = StdRng::seed_from_u64(seed);
        let layout = build_mosaic(picture(20, 10), 20, 10, 10, 5, &mut inv, &mut rng).unwrap();
        assert_eq!(layout.len(), 50);
        for (i, a) in layout.iter().enumerate() {
            assert_eq!(a.y * 10 + a.x, i as u64);
            assert_eq!(a.color, inv.entries[a.entry].color);
        }
        let left: u64 = inv.entries.iter().map(|e| e.remaining).sum();
        assert_eq!(left, 120 - 50);
    }
}

#[test]
fn mosaic_errors_come_in_order() {
    let mut rng = StdRng::seed_from_u64(1);
    let mut inv = palette(vec![entry("a", rgb(0, 0, 0), 3)]);
    let untouched = inv.clone();
    assert_eq!(
        build_mosaic(vec![1, 2], 1, 1, 2, 2, &mut inv, &mut rng),
        Err(ErrorKind::ImageError)
    );
    assert_eq!(inv, untouched);
    assert_eq!(
        build_mosaic(picture(1, 1), 1, 1, u32::MAX, u32::MAX, &mut inv, &mut rng),
        Err(ErrorKind::ConfigError)
    );
    assert_eq!(inv, untouched);
    assert_eq!(
        build_mosaic(picture(2, 2), 2, 2, 2, 2, &mut inv, &mut rng),
        Err(ErrorKind::InventoryExhausted)
    );
    assert_eq!(inv.entries[0].remaining, 0);
}
