//! What layout blocks say about the lines of a page.
use liteparse::float::F32;
use liteparse::markdown_layout::blocks::Block;
use liteparse::markdown_layout::hints::{
    HintedTableExtraction, LayoutHintKind, LayoutHintRegion, MarkdownLayoutHints,
};
use liteparse::types::{LayoutBlock, ParsedPage, ProjectedLine, Rect, TextItem};
use std::collections::HashSet;

fn f(v: f32) -> F32 {
    F32::from_bits(v.to_bits())
}

fn value(v: F32) -> f32 {
    f32::from_bits(v.to_bits())
}

fn line(text: &str, x: f32, y: f32) -> ProjectedLine {
    ProjectedLine {
        text: text.into(),
        bbox: Rect { x: f(x), y: f(y), width: f(80.0), height: f(10.0) },
        dominant_font_size: f(10.0),
        all_bold: false,
        spans: Vec::new(),
        region_path: Vec::new(),
    }
}

fn line_with_spans(spans: &[(&str, f32)], y: f32, size: f32) -> ProjectedLine {
    let items: Vec<TextItem> = spans
        .iter()
        .map(|(text, x)| TextItem {
            text: (*text).into(),
            x: f(*x),
            y: f(y),
            width: f(text.chars().count() as f32 * size * 0.5),
            height: f(size),
            font_size: Some(f(size)),
            ..Default::default()
        })
        .collect();
    let first = spans[0].1;
    let last = items.last().unwrap();
    let right = value(last.x) + value(last.width);
    let texts: Vec<&str> = spans.iter().map(|(text, _)| *text).collect();
    ProjectedLine {
        text: texts.join(" "),
        bbox: Rect { x: f(first), y: f(y), width: f(right - first), height: f(size) },
        dominant_font_size: f(size),
        all_bold: false,
        spans: items,
        region_path: Vec::new(),
    }
}

fn block_at(id: usize, label: &str, y: f32, height: f32) -> LayoutBlock {
    LayoutBlock {
        id,
        label: label.into(),
        confidence: f(0.9),
        x: f(0.0),
        y: f(y),
        width: f(200.0),
        height: f(height),
    }
}

fn block(label: &str) -> LayoutBlock {
    block_at(0, label, 0.0, 100.0)
}

fn page(lines: Vec<ProjectedLine>) -> ParsedPage {
    ParsedPage {
        page_number: 1,
        page_width: f(612.0),
        page_height: f(792.0),
        text: String::new(),
        text_items: vec![],
        layout_blocks: vec![],
        projected_lines: lines,
        graphics: vec![],
    }
}

#[test]
fn suppresses_heading_inside_picture_formula_or_table_regions() {
    let mut page = page(vec![line("Caption", 20.0, 20.0)]);
    page.layout_blocks = vec![block("Picture")];

    let hints = MarkdownLayoutHints::from_page(&page);

    assert!(hints.suppresses_heading(&page.projected_lines[0]));
}

#[test]
fn ignores_non_markdown_layout_labels() {
    let mut page = page(vec![line("Body", 20.0, 20.0)]);
    page.layout_blocks = vec![block("Caption")];

    let hints = MarkdownLayoutHints::from_page(&page);

    assert!(!hints.suppresses_heading(&page.projected_lines[0]));
}

#[test]
fn continues_lines_inside_the_same_text_region() {
    let mut page = page(vec![
        line("First text line", 20.0, 20.0),
        line("second text line", 22.0, 70.0),
        line("outside text line", 20.0, 140.0),
    ]);
    page.layout_blocks = vec![block("Text")];

    let hints = MarkdownLayoutHints::from_page(&page);

    assert!(hints.continues_text_block(&page.projected_lines[0], &page.projected_lines[1]));
    assert!(!hints.continues_text_block(&page.projected_lines[1], &page.projected_lines[2]));
}

#[test]
fn separates_lines_inside_different_text_regions() {
    let mut page =
        page(vec![line("First text block", 20.0, 20.0), line("second text block", 22.0, 70.0)]);
    page.layout_blocks = vec![block_at(0, "Text", 0.0, 50.0), block_at(1, "Text", 60.0, 50.0)];

    let hints = MarkdownLayoutHints::from_page(&page);

    assert!(hints.separates_text_blocks(&page.projected_lines[0], &page.projected_lines[1]));
    assert!(!hints.continues_text_block(&page.projected_lines[0], &page.projected_lines[1]));
}

#[test]
fn detects_table_across_split_regions_when_table_hint_groups_lines() {
    let mut lines = vec![
        line_with_spans(&[("Name", 50.0), ("Scores", 150.0)], 20.0, 10.0),
        line_with_spans(&[("A", 50.0), ("1", 150.0), ("2", 250.0)], 35.0, 10.0),
        line_with_spans(&[("B", 50.0), ("3", 150.0), ("4", 250.0)], 50.0, 10.0),
        line_with_spans(&[("C", 50.0), ("5", 150.0), ("6", 250.0)], 65.0, 10.0),
    ];
    for (idx, line) in lines.iter_mut().enumerate() {
        line.region_path = vec![idx as u16];
    }
    let mut page = page(lines);
    page.layout_blocks = vec![block("Table")];

    let hints = MarkdownLayoutHints::from_page(&page);
    let extracted = hints.detect_table_interruptions(
        &page.projected_lines,
        &vec![],
        page.page_width,
        page.page_height,
        &HashSet::new(),
    );

    assert_eq!(extracted.tables.len(), 1);
    assert_eq!(extracted.consumed.len(), 4);
}

#[test]
fn excluded_lines_are_no_part_of_a_hinted_table() {
    let mut page = page(vec![
        line_with_spans(&[("A", 50.0), ("1", 150.0), ("2", 250.0)], 35.0, 10.0),
        line_with_spans(&[("B", 50.0), ("3", 150.0), ("4", 250.0)], 50.0, 10.0),
        line_with_spans(&[("C", 50.0), ("5", 150.0), ("6", 250.0)], 65.0, 10.0),
    ]);
    page.layout_blocks = vec![block("Table")];
    let hints = MarkdownLayoutHints::from_page(&page);
    let mut excluded = HashSet::new();
    excluded.insert(0);
    let extracted = hints.detect_table_interruptions(
        &page.projected_lines,
        &vec![],
        page.page_width,
        page.page_height,
        &excluded,
    );
    assert!(!extracted.consumed.contains(&0));
}

#[test]
fn labels_give_kinds() {
    assert_eq!(LayoutHintKind::from_label("Table"), Some(LayoutHintKind::Table));
    assert_eq!(LayoutHintKind::from_label("Text"), Some(LayoutHintKind::Text));
    assert_eq!(LayoutHintKind::from_label("Picture"), Some(LayoutHintKind::Figure));
    assert_eq!(LayoutHintKind::from_label("Formula"), Some(LayoutHintKind::Formula));
    assert_eq!(LayoutHintKind::from_label("table"), None);
    assert!(LayoutHintKind::Table.suppresses_heading());
    assert!(!LayoutHintKind::Text.suppresses_heading());
}

#[test]
fn regions_hold_the_lines_inside_them() {
    let region = LayoutHintRegion::from_layout_block(&block("Text")).unwrap();
    assert!(region.matches_line(&line("inside", 20.0, 20.0)));
    assert!(!region.matches_line(&line("below", 20.0, 300.0)));
    let lines =
        vec![line("a", 20.0, 20.0), line("b", 20.0, 300.0), line("c", 20.0, 40.0)];
    assert_eq!(region.matching_line_indices(&lines, &HashSet::new()), vec![0, 2]);
    let mut excluded = HashSet::new();
    excluded.insert(2);
    assert_eq!(region.matching_line_indices(&lines, &excluded), vec![0]);
}

#[test]
fn only_tables_with_two_columns_or_lines_are_useful() {
    assert!(HintedTableExtraction::is_useful_table_block(&Block::Table {
        header: None,
        rows: vec![vec!["a".into(), "b".into()]],
    }));
    assert!(HintedTableExtraction::is_useful_table_block(&Block::GridFallback {
        lines: vec!["a".into(), "b".into()],
    }));
    assert!(!HintedTableExtraction::is_useful_table_block(&Block::Table {
        header: Some(vec!["a".into()]),
        rows: vec![vec!["a".into(), "b".into()]],
    }));
    assert!(!HintedTableExtraction::is_useful_table_block(&Block::HorizontalRule));
    assert!(!HintedTableExtraction::is_useful_table_block(&Block::Table {
        header: None,
        rows: vec![],
    }));
}
