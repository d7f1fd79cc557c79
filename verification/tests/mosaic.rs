use emoji_mosaic::color::Color;
use emoji_mosaic::mosaic::{generate, render, Grid};
use emoji_mosaic::palette::{Palette, PaletteEntry};
use emoji_mosaic::raster::Raster;

fn raster(width: u32, height: u32, pixels: &[[u8; 3]]) -> Raster {
    let mut data = Vec::new();
    for p in pixels {
        data.extend_from_slice(&[p[0], p[1], p[2], 255]);
    }
    match Raster::from_rgba(width, height, data) {
        Ok(r) => r,
        Err(e) => panic!("not a raster: {:?}", e),
    }
}

fn gradient(width: u32, height: u32) -> Raster {
    let mut pixels = Vec::new();
    for y in 0..height {
        for x in 0..width {
            pixels.push([(x * 37 % 256) as u8, (y * 91 % 256) as u8, ((x + y) * 13 % 256) as u8]);
        }
    }
    raster(width, height, &pixels)
}

fn palette(entries: &[([u8; 3], &str)]) -> Palette {
    let mut p = Palette::new();
    for (c, g) in entries {
        p.push(PaletteEntry { color: Color::new(c[0], c[1], c[2]), glyph: g.to_string() });
    }
    p
}

fn cells(grid: &Grid) -> Vec<Vec<String>> {
    grid.rows().clone()
}

#[test]
fn render_replaces_each_pixel_by_its_nearest_glyph() {
    let image = raster(
        3,
        2,
        &[[0, 0, 0], [255, 255, 255], [250, 10, 10], [10, 10, 10], [200, 0, 0], [240, 240, 240]],
    );
    let p = palette(&[([0, 0, 0], "k"), ([255, 255, 255], "w"), ([255, 0, 0], "r")]);
    let grid = render(&image, &p);
    assert_eq!(grid.width(), 3);
    assert_eq!(grid.height(), 2);
    assert_eq!(cells(&grid), vec![vec!["k", "w", "r"], vec!["k", "r", "w"]]);
    assert_eq!(grid.cell(2, 0).map(|g| g.as_str()), Some("r"));
    assert_eq!(grid.cell(0, 1).map(|g| g.as_str()), Some("k"));
    assert!(grid.cell(3, 0).is_none());
    assert!(grid.cell(0, 2).is_none());
}

#[test]
fn render_keeps_glyphs_of_two_code_points_whole() {
    let image = raster(2, 1, &[[0, 0, 0], [0, 0, 200]]);
    let p = palette(&[([0, 0, 0], "\u{2b1b}"), ([0, 0, 255], "\u{1f1fa}\u{1f1f8}")]);
    let grid = render(&image, &p);
    assert_eq!(cells(&grid), vec![vec!["\u{2b1b}", "\u{1f1fa}\u{1f1f8}"]]);
}

#[test]
fn render_of_an_image_without_pixels_has_no_cells() {
    let p = palette(&[([0, 0, 0], "k")]);
    let grid = render(&raster(0, 0, &[]), &p);
    assert_eq!((grid.width(), grid.height()), (0, 0));
    assert!(grid.rows().is_empty());
    let grid = render(&raster(0, 2, &[]), &p);
    assert_eq!((grid.width(), grid.height()), (0, 2));
    assert_eq!(cells(&grid), vec![Vec::<String>::new(), Vec::<String>::new()]);
}

#[test]
fn generate_has_the_requested_dimensions() {
    let p = palette(&[([0, 0, 0], "k"), ([255, 255, 255], "w")]);
    for (sw, sh) in [(1, 1), (7, 3), (3, 7), (40, 40), (64, 2)] {
        let image = gradient(sw, sh);
        for (w, h) in [(1, 1), (5, 4), (4, 5), (40, 40), (2, 9)] {
            let grid = generate(&image, w, h, &p);
            assert_eq!(grid.width(), w);
            assert_eq!(grid.height(), h);
            assert_eq!(grid.rows().len(), h as usize);
            for row in grid.rows() {
                assert_eq!(row.len(), w as usize);
            }
        }
    }
}

#[test]
fn generate_with_one_black_entry_gives_that_glyph_everywhere() {
    let p = palette(&[([0, 0, 0], "X")]);
    for (sw, sh) in [(1, 1), (5, 2), (9, 9)] {
        let grid = generate(&gradient(sw, sh), 6, 4, &p);
        assert_eq!((grid.width(), grid.height()), (6, 4));
        for row in grid.rows() {
            assert_eq!(row.len(), 6);
            for glyph in row {
                assert_eq!(glyph, "X");
            }
        }
    }
}

#[test]
fn generate_with_an_empty_palette_gives_the_fallback_everywhere() {
    let p = Palette::new();
    let grid = generate(&gradient(5, 3), 4, 2, &p);
    assert_eq!((grid.width(), grid.height()), (4, 2));
    assert_eq!(cells(&grid), vec![vec!["0", "0", "0", "0"], vec!["0", "0", "0", "0"]]);
}

#[test]
fn generate_at_the_size_of_the_image_is_its_mosaic() {
    let image = raster(2, 2, &[[0, 0, 0], [255, 255, 255], [255, 255, 255], [0, 0, 0]]);
    let p = palette(&[([0, 0, 0], "k"), ([255, 255, 255], "w")]);
    let grid = generate(&image, 2, 2, &p);
    assert_eq!(cells(&grid), vec![vec!["k", "w"], vec!["w", "k"]]);
    assert_eq!(cells(&grid), cells(&render(&image, &p)));
}

#[test]
fn generate_of_a_uniform_image_is_uniform() {
    let image = raster(4, 4, &[[250, 5, 5]; 16]);
    let p = palette(&[([0, 0, 0], "k"), ([255, 0, 0], "r"), ([255, 255, 255], "w")]);
    let grid = generate(&image, 3, 2, &p);
    assert_eq!(cells(&grid), vec![vec!["r", "r", "r"], vec!["r", "r", "r"]]);
}

#[test]
fn generate_is_the_same_on_every_run() {
    let image = gradient(11, 7);
    let p = palette(&[([0, 0, 0], "k"), ([128, 128, 128], "g"), ([255, 255, 255], "w")]);
    let first = cells(&generate(&image, 5, 5, &p));
    assert_eq!(cells(&generate(&image, 5, 5, &p)), first);
}

#[test]
fn generate_on_an_empty_grid_has_no_cells() {
    let p = palette(&[([0, 0, 0], "k")]);
    let grid = generate(&gradient(3, 3), 0, 2, &p);
    assert_eq!((grid.width(), grid.height()), (0, 2));
    assert_eq!(cells(&grid), vec![Vec::<String>::new(), Vec::<String>::new()]);
    let grid = generate(&gradient(3, 3), 2, 0, &p);
    assert_eq!((grid.width(), grid.height()), (2, 0));
    assert!(grid.rows().is_empty());
}
