use emoji_mosaic::chunker::{chunk, grid_lines, DEFAULT_LINES_PER_BLOCK, LINE_BREAK};
use emoji_mosaic::color::Color;
use emoji_mosaic::mosaic::render;
use emoji_mosaic::palette::{Palette, PaletteEntry};
use emoji_mosaic::raster::Raster;

fn lines(n: usize) -> Vec<String> {
    (0..n).map(|i| format!("row{}", i)).collect()
}

fn owned(texts: &[&str]) -> Vec<String> {
    texts.iter().map(|t| t.to_string()).collect()
}

#[test]
fn twelve_lines_by_five_give_blocks_of_five_five_and_two() {
    let blocks = chunk(&lines(12), 5);
    assert_eq!(
        blocks,
        vec![
            "row0\nrow1\nrow2\nrow3\nrow4",
            "row5\nrow6\nrow7\nrow8\nrow9",
            "row10\nrow11",
        ]
    );
    let sizes: Vec<usize> = blocks.iter().map(|b| b.split('\n').count()).collect();
    assert_eq!(sizes, vec![5, 5, 2]);
}

#[test]
fn the_blocks_hold_every_line_once_and_in_order() {
    let all = lines(23);
    for size in 1..30 {
        let blocks = chunk(&all, size);
        let back: Vec<String> =
            blocks.iter().flat_map(|b| b.split('\n')).map(|l| l.to_string()).collect();
        assert_eq!(back, all);
        assert_eq!(blocks.len(), (23 + size - 1) / size);
        for (k, block) in blocks.iter().enumerate() {
            let n = block.split('\n').count();
            if k + 1 < blocks.len() {
                assert_eq!(n, size);
            } else {
                assert_eq!(n, 23 - size * k);
            }
        }
    }
}

#[test]
fn a_whole_number_of_blocks_leaves_no_short_one() {
    let blocks = chunk(&lines(10), 5);
    assert_eq!(blocks, vec!["row0\nrow1\nrow2\nrow3\nrow4", "row5\nrow6\nrow7\nrow8\nrow9"]);
}

#[test]
fn fewer_lines_than_a_block_give_one_block() {
    assert_eq!(chunk(&lines(3), 5), vec!["row0\nrow1\nrow2"]);
    assert_eq!(chunk(&lines(1), 5), vec!["row0"]);
}

#[test]
fn no_lines_give_no_blocks() {
    assert!(chunk(&Vec::new(), 5).is_empty());
    assert!(chunk(&Vec::new(), 1).is_empty());
}

#[test]
fn a_trailing_empty_block_is_dropped() {
    let mut all = lines(10);
    all.push(String::new());
    assert_eq!(
        chunk(&all, 5),
        vec!["row0\nrow1\nrow2\nrow3\nrow4", "row5\nrow6\nrow7\nrow8\nrow9"]
    );
    assert!(chunk(&owned(&[""]), 5).is_empty());
}

#[test]
fn the_blocks_end_at_the_first_empty_one() {
    assert_eq!(chunk(&owned(&["a", "", "b"]), 1), vec!["a"]);
    assert!(chunk(&owned(&["", "a", "b"]), 1).is_empty());
}

#[test]
fn a_block_of_empty_lines_is_not_empty() {
    assert_eq!(chunk(&owned(&["", ""]), 5), vec!["\n"]);
    assert_eq!(chunk(&owned(&["a", "", "b"]), 2), vec!["a\n", "b"]);
    assert_eq!(chunk(&owned(&["", "a", "b", ""]), 2), vec!["\na", "b\n"]);
}

#[test]
fn an_empty_line_inside_a_block_is_kept() {
    let mut all = lines(12);
    all.push(String::new());
    let blocks = chunk(&all, 5);
    assert_eq!(blocks.len(), 3);
    assert_eq!(blocks[2], "row10\nrow11\n");
}

#[test]
fn the_defaults() {
    assert_eq!(DEFAULT_LINES_PER_BLOCK, 5);
    assert_eq!(LINE_BREAK, '\n');
}

#[test]
fn grid_lines_join_the_glyphs_of_each_row() {
    let data = vec![0, 0, 0, 255, 255, 255, 255, 255, 255, 255, 255, 255, 0, 0, 0, 255];
    let image = Raster::from_rgba(2, 2, data).unwrap();
    let mut p = Palette::new();
    p.push(PaletteEntry { color: Color::new(0, 0, 0), glyph: "\u{2b1b}".to_string() });
    p.push(PaletteEntry {
        color: Color::new(255, 255, 255),
        glyph: "\u{1f1fa}\u{1f1f8}".to_string(),
    });
    let grid = render(&image, &p);
    let lines = grid_lines(&grid);
    assert_eq!(lines, vec!["\u{2b1b}\u{1f1fa}\u{1f1f8}", "\u{1f1fa}\u{1f1f8}\u{2b1b}"]);
    assert_eq!(chunk(&lines, 5), vec!["\u{2b1b}\u{1f1fa}\u{1f1f8}\n\u{1f1fa}\u{1f1f8}\u{2b1b}"]);
}

#[test]
fn grid_lines_of_an_empty_grid() {
    let p = Palette::new();
    let none = Raster::from_rgba(0, 0, Vec::new()).unwrap();
    assert!(grid_lines(&render(&none, &p)).is_empty());
    let narrow = Raster::from_rgba(0, 3, Vec::new()).unwrap();
    let lines = grid_lines(&render(&narrow, &p));
    assert_eq!(lines, vec!["", "", ""]);
    assert_eq!(chunk(&lines, 5), vec!["\n\n"]);
    assert!(chunk(&lines, 1).is_empty());
}
