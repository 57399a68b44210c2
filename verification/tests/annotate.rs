//! Screenshots with layout blocks drawn on them.
use liteparse::error::LiteParseError;
use liteparse::float::F32;
use liteparse::layout_annotate::{annotate_layout_png, glyph, png_result, PALETTE};
use liteparse::types::LayoutBlock;

fn f(v: f32) -> F32 {
    F32::from_bits(v.to_bits())
}

fn block(label: &str, x: f32, y: f32, width: f32, height: f32) -> LayoutBlock {
    LayoutBlock {
        id: 1,
        label: label.into(),
        confidence: f(0.9),
        x: f(x),
        y: f(y),
        width: f(width),
        height: f(height),
    }
}

fn color(label: &str) -> [u8; 3] {
    let hash = label
        .bytes()
        .fold(0usize, |acc, byte| acc.wrapping_mul(31).wrapping_add(byte as usize));
    PALETTE[hash % 12]
}

#[test]
fn annotation_draws_layout_box_pixels() {
    let mut rgba = vec![255; 80 * 60 * 4];
    let png = annotate_layout_png(
        &mut rgba,
        80,
        60,
        f(80.0),
        f(60.0),
        &[block("Title", 10.0, 12.0, 20.0, 16.0)],
    )
    .unwrap();

    assert!(!png.is_empty());
    let top_left = ((12 * 80 + 10) * 4) as usize;
    assert_ne!(&rgba[top_left..top_left + 3], &[255, 255, 255]);
}

#[test]
fn annotation_returns_png_without_blocks() {
    let mut rgba = vec![255; 32 * 24 * 4];
    let png = annotate_layout_png(&mut rgba, 32, 24, f(32.0), f(24.0), &[]).unwrap();

    assert!(png.starts_with(b"\x89PNG\r\n\x1a\n"));
}

#[test]
fn annotation_scales_to_the_image() {
    let mut rgba = vec![255; 80 * 60 * 4];
    annotate_layout_png(
        &mut rgba,
        80,
        60,
        f(40.0),
        f(30.0),
        &[block("Table", 10.0, 15.0, 20.0, 10.0)],
    )
    .unwrap();
    let pixel = |x: usize, y: usize| {
        let i = (y * 80 + x) * 4;
        [rgba[i], rgba[i + 1], rgba[i + 2]]
    };
    let c = color("Table");
    // The outline is two pixels wide.
    assert_eq!(pixel(20, 30), c);
    assert_eq!(pixel(21, 31), c);
    assert_eq!(pixel(60, 50), c);
    assert_eq!(pixel(59, 49), c);
    assert_eq!(pixel(22, 32), [255, 255, 255]);
    // The label stands above the block, as wide as its text.
    assert_ne!(pixel(20, 17), [255, 255, 255]);
    assert_eq!(pixel(20, 16), [255, 255, 255]);
    assert_eq!(pixel(55, 20), pixel(20, 18));
    assert_eq!(pixel(56, 20), [255, 255, 255]);
    // The first row of the letter T is all white.
    assert_eq!(pixel(22, 20), pixel(20, 18));
    for x in 23..28 {
        assert_eq!(pixel(x, 20), [255, 255, 255]);
    }
    assert_eq!(pixel(28, 20), pixel(20, 18));
    // The stem of the letter is one pixel wide.
    assert_eq!(pixel(25, 21), [255, 255, 255]);
    assert_eq!(pixel(24, 21), pixel(20, 18));
}

#[test]
fn labels_are_mixed_with_what_is_below() {
    let mut rgba = vec![0; 80 * 60 * 4];
    annotate_layout_png(
        &mut rgba,
        80,
        60,
        f(80.0),
        f(60.0),
        &[block("x", 10.0, 20.0, 20.0, 16.0)],
    )
    .unwrap();
    let i = (8 * 80 + 11) * 4;
    let c = color("x");
    let expected: Vec<u8> = c.iter().map(|v| (*v as u16 * 220 / 255) as u8).collect();
    assert_eq!(&rgba[i..i + 3], &expected[..]);
    assert_eq!(rgba[i + 3], 255);
}

#[test]
fn nothing_is_drawn_for_a_page_without_a_size_or_a_thin_block() {
    let before = vec![7; 8 * 8 * 4];
    let mut rgba = before.clone();
    annotate_layout_png(&mut rgba, 8, 8, f(0.0), f(8.0), &[block("a", 0.0, 0.0, 5.0, 5.0)])
        .unwrap();
    assert_eq!(rgba, before);
    annotate_layout_png(&mut rgba, 8, 8, f(8.0), f(8.0), &[block("a", 3.0, 3.0, 0.0, 5.0)])
        .unwrap();
    assert_eq!(rgba, before);
}

#[test]
fn wrong_lengths_are_refused() {
    let mut rgba = vec![7; 15];
    let error = annotate_layout_png(&mut rgba, 2, 2, f(2.0), f(2.0), &[]).unwrap_err();
    assert!(matches!(error, LiteParseError::Other(_)));
    assert_eq!(error.message(), "invalid RGBA buffer length: got 15, expected 16");
    assert_eq!(rgba, vec![7; 15]);
}

#[test]
fn images_without_pixels_are_refused() {
    let error = annotate_layout_png(&mut vec![], 0, 5, f(2.0), f(2.0), &[]).unwrap_err();
    assert!(matches!(error, LiteParseError::Image(_)));
    assert_eq!(error.message(), "Zero width not allowed");
    let error = annotate_layout_png(&mut vec![], 5, 0, f(2.0), f(2.0), &[]).unwrap_err();
    assert_eq!(error.message(), "Zero height not allowed");
}

#[test]
fn the_file_holds_the_drawn_pixels() {
    let mut rgba = vec![200; 40 * 40 * 4];
    let png = annotate_layout_png(
        &mut rgba,
        40,
        40,
        f(40.0),
        f(40.0),
        &[block("Text", 5.0, 20.0, 20.0, 10.0)],
    )
    .unwrap();
    let decoded = image::load_from_memory(&png).unwrap().to_rgba8();
    assert_eq!(decoded.dimensions(), (40, 40));
    assert_eq!(decoded.into_raw(), rgba);
}

#[test]
fn encoder_errors_name_the_missing_side() {
    let failed = || image::ImageError::IoError(std::io::Error::other("failed"));
    assert_eq!(png_result(Err(failed()), 0).unwrap_err().message(), "Zero width not allowed");
    assert_eq!(png_result(Err(failed()), 3).unwrap_err().message(), "Zero height not allowed");
    assert_eq!(png_result(Ok(vec![1, 2]), 3).unwrap(), vec![1, 2]);
}

#[test]
fn the_left_edge_of_a_block_keeps_its_color() {
    let mut rgba = vec![255; 60 * 60 * 4];
    annotate_layout_png(
        &mut rgba,
        60,
        60,
        f(60.0),
        f(60.0),
        &[block("Section", 4.0, 5.0, 30.0, 40.0)],
    )
    .unwrap();
    for y in 5..=45 {
        let i = (y * 60 + 4) * 4;
        assert_eq!(&rgba[i..i + 3], &color("Section"));
    }
}

#[test]
fn glyphs_ignore_the_case() {
    for (lower, upper) in ('a'..='z').zip('A'..='Z') {
        assert_eq!(glyph(lower), glyph(upper));
    }
    assert_eq!(glyph('t'), [31, 4, 4, 4, 4, 4, 4]);
}

#[test]
fn glyphs_are_five_columns_wide_and_differ() {
    let unknown = [31, 1, 2, 4, 4, 0, 4];
    let own: Vec<char> = ('A'..='Z').chain('0'..='9').chain(['-', '_', ' ']).collect();
    for (i, c) in own.iter().enumerate() {
        assert!(glyph(*c).iter().all(|row| *row < 32));
        assert!(own[..i].iter().all(|d| glyph(*d) != glyph(*c)));
        assert_ne!(glyph(*c), unknown);
    }
    assert_eq!(glyph(' '), [0; 7]);
    assert_eq!(glyph('?'), unknown);
    assert_eq!(glyph('\u{e9}'), unknown);
}
