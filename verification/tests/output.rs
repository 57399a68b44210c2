//! JSON and markdown output.
use liteparse::config::ImageMode;
use liteparse::float::F32;
use liteparse::markdown_layout::blocks::Block;
use liteparse::output::json::build_json;
use liteparse::output::markdown::{
    dedupe_rules, fence, format_markdown, page_targets, tidy_blocks,
};
use liteparse::types::{LayoutBlock, OutlineTarget, ParsedPage, ProjectedLine, Rect, TextItem};

fn f(v: f32) -> F32 {
    F32::from_bits(v.to_bits())
}

fn item(text: &str, conf: Option<f32>) -> TextItem {
    TextItem {
        text: text.into(),
        x: f(1.0),
        y: f(2.0),
        width: f(3.0),
        height: f(4.0),
        font_name: Some("Helv".into()),
        font_size: Some(f(10.0)),
        confidence: conf.map(f),
        ..Default::default()
    }
}

fn page(items: Vec<TextItem>) -> ParsedPage {
    ParsedPage {
        page_number: 1,
        page_width: f(612.0),
        page_height: f(792.0),
        text: "txt".into(),
        text_items: items,
        layout_blocks: vec![],
        projected_lines: vec![],
        graphics: vec![],
    }
}

fn line(text: &str, x: f32, y: f32, h: f32, size: f32) -> ProjectedLine {
    ProjectedLine {
        text: text.into(),
        bbox: Rect {
            x: f(x),
            y: f(y),
            width: f(text.chars().count() as f32 * (size * 0.5)),
            height: f(h),
        },
        dominant_font_size: f(size),
        all_bold: false,
        spans: vec![TextItem::default()],
        region_path: Vec::new(),
    }
}

fn page_with(n: usize, lines: Vec<ProjectedLine>) -> ParsedPage {
    ParsedPage {
        page_number: n,
        page_width: f(612.0),
        page_height: f(792.0),
        text: "fallback".into(),
        text_items: vec![],
        layout_blocks: vec![],
        projected_lines: lines,
        graphics: vec![],
    }
}

fn paragraph(text: &str) -> Block {
    Block::Paragraph { text: text.into(), bold: false, italic: false }
}

/// Counts the pages of the document.
fn prepare(pages: &[ParsedPage]) -> usize {
    pages.len()
}

/// Makes a paragraph of each line.
fn classify(_: &usize, page: &ParsedPage, _: &Vec<OutlineTarget>, _: ImageMode) -> Vec<Block> {
    page.projected_lines.iter().map(|l| paragraph(&l.text)).collect()
}

/// Writes paragraphs and rules.
fn render(blocks: &Vec<Block>) -> String {
    let parts: Vec<String> = blocks
        .iter()
        .map(|b| match b {
            Block::Paragraph { text, .. } => text.clone(),
            Block::HorizontalRule => "---".into(),
            _ => String::new(),
        })
        .collect();
    parts.join("\n\n")
}

#[test]
fn test_build_json_native_text_defaults_confidence_to_one() {
    let j = build_json(&[page(vec![item("hi", None)])]);
    assert_eq!(j.pages.len(), 1);
    assert_eq!(j.pages[0].page, 1);
    assert_eq!(j.pages[0].text_items[0].confidence, Some(f(1.0)));
    assert_eq!(j.pages[0].text_items[0].font_name.as_deref(), Some("Helv"));
    assert!(j.pages[0].layout_blocks.is_empty());
}

#[test]
fn test_build_json_preserves_ocr_confidence() {
    let j = build_json(&[page(vec![item("hi", Some(0.42))])]);
    assert_eq!(j.pages[0].text_items[0].confidence, Some(f(0.42)));
}

#[test]
fn test_build_json_empty() {
    let j = build_json(&[]);
    assert!(j.pages.is_empty());
}

#[test]
fn test_build_json_keeps_text_items_when_layout_blocks_exist() {
    let mut page = page(vec![item("hi", None)]);
    page.layout_blocks = vec![LayoutBlock {
        id: 0,
        label: "Text".into(),
        confidence: f(0.9),
        x: f(1.0),
        y: f(2.0),
        width: f(3.0),
        height: f(4.0),
    }];

    let j = build_json(&[page]);

    assert_eq!(j.pages[0].text_items[0].text, "hi");
    assert_eq!(j.pages[0].layout_blocks[0].label, "Text");
}

#[test]
fn json_items_carry_their_block() {
    let mut assigned = item("hi", None);
    assigned.layout_block_id = Some(3);
    assigned.layout_label = Some("Table".into());
    let j = build_json(&[page(vec![assigned, item("ho", None)])]);
    assert_eq!(j.pages[0].text_items[0].layout_block_id, Some(3));
    assert_eq!(j.pages[0].text_items[0].layout_label.as_deref(), Some("Table"));
    assert_eq!(j.pages[0].text_items[1].layout_block_id, None);
    assert_eq!(j.pages[0].text_items[1].layout_label, None);
}

#[test]
fn test_empty() {
    assert_eq!(format_markdown(&[], &[], ImageMode::Placeholder, prepare, classify, render), "");
}

#[test]
fn dedupe_rules_drops_edges_and_collapses_runs() {
    let mut blocks = vec![
        Block::HorizontalRule,
        paragraph("a"),
        Block::HorizontalRule,
        Block::HorizontalRule,
        paragraph("b"),
        Block::HorizontalRule,
    ];
    dedupe_rules(&mut blocks);
    let kinds: Vec<bool> = blocks.iter().map(|b| matches!(b, Block::HorizontalRule)).collect();
    assert_eq!(kinds, vec![false, true, false]);
}

#[test]
fn deduping_twice_changes_nothing() {
    let mut blocks = vec![
        paragraph("a"),
        Block::HorizontalRule,
        Block::HorizontalRule,
        Block::HorizontalRule,
        paragraph("b"),
    ];
    dedupe_rules(&mut blocks);
    assert_eq!(blocks.len(), 3);
    dedupe_rules(&mut blocks);
    assert_eq!(blocks.len(), 3);
}

#[test]
fn only_rules_leave_nothing() {
    let mut blocks = vec![Block::HorizontalRule, Block::HorizontalRule];
    dedupe_rules(&mut blocks);
    assert!(blocks.is_empty());
}

#[test]
fn rules_between_figures_are_dropped() {
    let mut blocks = vec![
        Block::Figure { id: "1".into() },
        Block::HorizontalRule,
        Block::Figure { id: "2".into() },
    ];
    tidy_blocks(&mut blocks);
    assert_eq!(blocks.len(), 2);
    let mut blocks = vec![paragraph("a"), Block::HorizontalRule, Block::Figure { id: "2".into() }];
    tidy_blocks(&mut blocks);
    assert_eq!(blocks.len(), 3);
}

#[test]
fn test_fallback_when_no_projected_lines() {
    let p = ParsedPage {
        page_number: 1,
        page_width: f(0.0),
        page_height: f(0.0),
        text: "hello".into(),
        text_items: vec![],
        layout_blocks: vec![],
        projected_lines: vec![],
        graphics: vec![],
    };
    let out = format_markdown(&[p], &[], ImageMode::Placeholder, prepare, classify, render);
    assert!(out.contains("```text"));
    assert!(out.contains("hello"));
}

#[test]
fn fences_end_on_a_line_of_their_own() {
    assert_eq!(fence("hello"), "```text\nhello\n```");
    assert_eq!(fence("hello\n"), "```text\nhello\n```");
    assert_eq!(fence(""), "```text\n\n```");
}

#[test]
fn test_multi_page_separator() {
    let a = page_with(1, vec![line("A page.", 50.0, 80.0, 10.0, 10.0)]);
    let b = page_with(2, vec![line("B page.", 50.0, 80.0, 10.0, 10.0)]);
    let out = format_markdown(&[a, b], &[], ImageMode::Placeholder, prepare, classify, render);
    assert!(out.contains("-----"));
    assert!(out.find("A page.").unwrap() < out.find("B page.").unwrap());
    assert_eq!(out, "A page.\n\n-----\n\nB page.");
}

#[test]
fn pages_are_classified_with_their_outline() {
    let target = |title: &str, page_index: i32| OutlineTarget {
        title: title.into(),
        page_index,
        y: None,
    };
    let outline = [target("one", 0), target("two", 1), target("again", 0)];
    let titles = |page_number: usize| -> Vec<String> {
        page_targets(&outline, page_number).into_iter().map(|t| t.title).collect()
    };
    assert_eq!(titles(1), vec!["one", "again"]);
    assert_eq!(titles(2), vec!["two"]);
    assert!(titles(3).is_empty());

    let with_titles =
        |_: &usize, _: &ParsedPage, targets: &Vec<OutlineTarget>, _: ImageMode| -> Vec<Block> {
            targets.iter().map(|t| paragraph(&t.title)).collect()
        };
    let a = page_with(2, vec![line("x", 50.0, 80.0, 10.0, 10.0)]);
    let out = format_markdown(&[a], &outline, ImageMode::Off, prepare, with_titles, render);
    assert_eq!(out, "two");
}

#[test]
fn every_page_is_classified_with_the_signals_of_the_document() {
    let a = page_with(1, vec![line("small", 50.0, 80.0, 10.0, 10.0)]);
    let b = page_with(2, vec![line("LARGE", 50.0, 80.0, 24.0, 24.0)]);
    let largest = |pages: &[ParsedPage]| -> f32 {
        let sizes = pages.iter().flat_map(|p| p.projected_lines.iter());
        sizes.map(|l| f32::from_bits(l.dominant_font_size.to_bits())).fold(0.0, f32::max)
    };
    let sized =
        |size: &f32, page: &ParsedPage, _: &Vec<OutlineTarget>, _: ImageMode| -> Vec<Block> {
            page.projected_lines
                .iter()
                .map(|l| paragraph(&format!("{} of {}", l.text, size)))
                .collect()
        };
    let out = format_markdown(&[a, b], &[], ImageMode::Off, largest, sized, render);
    assert_eq!(out, "small of 24\n\n-----\n\nLARGE of 24");
}

#[test]
fn deduping_keeps_what_is_divided_divided() {
    let mut blocks = vec![
        paragraph("a"),
        paragraph("b"),
        Block::HorizontalRule,
        Block::HorizontalRule,
        paragraph("c"),
    ];
    dedupe_rules(&mut blocks);
    assert_eq!(render(&blocks), "a\n\nb\n\n---\n\nc");
}
