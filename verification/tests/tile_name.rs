use emoji_mosaic::error::CoreError;
use emoji_mosaic::tile_name::parse_tile_name;

fn glyph(name: &str) -> String {
    match parse_tile_name(name) {
        Ok(g) => g,
        Err(e) => panic!("{} is malformed: {:?}", name, e),
    }
}

fn malformed(name: &str) -> bool {
    matches!(parse_tile_name(name), Err(CoreError::Format))
}

#[test]
fn one_code_point() {
    assert_eq!(glyph("1f600.png"), "\u{1f600}");
    assert_eq!(glyph("58.png"), "X");
    assert_eq!(glyph("a9.png"), "\u{a9}");
}

#[test]
fn two_code_points() {
    let g = glyph("1f1fa-1f1f8.png");
    assert_eq!(g, "\u{1f1fa}\u{1f1f8}");
    assert_eq!(g.chars().count(), 2);
}

#[test]
fn four_code_points() {
    let g = glyph("1f468-1f3fb-200d-1f33e.png");
    assert_eq!(g, "\u{1f468}\u{1f3fb}\u{200d}\u{1f33e}");
    assert_eq!(g.chars().count(), 4);
}

#[test]
fn digits_of_either_case() {
    assert_eq!(glyph("1F600.png"), "\u{1f600}");
    assert_eq!(glyph("1f1FA-1F1f8.png"), "\u{1f1fa}\u{1f1f8}");
    assert_eq!(glyph("AbCd.png"), "\u{abcd}");
}

#[test]
fn leading_zeros_do_not_count() {
    assert_eq!(glyph("0041.png"), "A");
    assert_eq!(glyph("000000000000000041.png"), "A");
    assert_eq!(glyph("0.png"), "\u{0}");
}

#[test]
fn the_extension_is_what_follows_the_last_dot() {
    assert_eq!(glyph("1f600.jpeg"), "\u{1f600}");
    assert_eq!(glyph("1f600.p"), "\u{1f600}");
    assert_eq!(glyph("1f600."), "\u{1f600}");
    assert_eq!(glyph("1f600"), "\u{1f600}");
    assert_eq!(glyph("41-42"), "AB");
}

#[test]
fn a_dot_inside_the_stem_is_malformed() {
    assert!(malformed("1f600.v2.png"));
    assert!(malformed("1f600..png"));
}

#[test]
fn the_boundaries_of_the_code_points() {
    assert_eq!(glyph("d7ff.png"), "\u{d7ff}");
    assert!(malformed("d800.png"));
    assert!(malformed("dfff.png"));
    assert_eq!(glyph("e000.png"), "\u{e000}");
    assert_eq!(glyph("10ffff.png"), "\u{10ffff}");
    assert!(malformed("110000.png"));
    assert!(malformed("ffffffff.png"));
    assert!(malformed("100000000.png"));
    assert!(malformed("fffffffffffffffffffffffff.png"));
}

#[test]
fn a_word_that_is_not_hexadecimal_is_malformed() {
    assert!(malformed("xyz.png"));
    assert!(malformed("1f6g0.png"));
    assert!(malformed("1f600 .png"));
    assert!(malformed("+1f600.png"));
    assert!(malformed("0x1f600.png"));
    assert!(malformed("1f600_1f601.png"));
    assert!(malformed("\u{1f600}.png"));
}

#[test]
fn an_empty_word_is_malformed() {
    assert!(malformed(""));
    assert!(malformed(".png"));
    assert!(malformed("-"));
    assert!(malformed("-1f600.png"));
    assert!(malformed("1f600-.png"));
    assert!(malformed("1f600--1f601.png"));
}

#[test]
fn a_malformed_word_counts_wherever_it_stands() {
    assert!(malformed("zz-1f3fb-200d-1f33e.png"));
    assert!(malformed("1f468-zz-200d-1f33e.png"));
    assert!(malformed("1f468-1f3fb-200d-zz.png"));
    assert!(malformed("1f468-1f3fb-200d-1f33e-d800.png"));
}
