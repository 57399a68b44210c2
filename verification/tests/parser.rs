//! The parser: settings, decisions and assembled results.
use liteparse::config::{ImageMode, LiteParseConfig, OutputFormat};
use liteparse::error::LiteParseError;
use liteparse::float::F32;
use liteparse::markdown_layout::blocks::Block;
use liteparse::parser::{
    annotate_pages, assemble_parts, attach_layout_blocks, checked_pages, effective_pages,
    layout_sources, place_layout_blocks, rebuild_text_in_layout_order, BuiltInOcr, LayoutSource, LiteParse, OcrChoice,
    ParseStep, RenderedRgbaPage,
};
use liteparse::types::{
    LayoutBlock, OutlineTarget, ParsedPage, ProjectedLine, Rect, TextItem,
};

fn f(v: f32) -> F32 {
    F32::from_bits(v.to_bits())
}

fn item(text: &str, x: f32, y: f32) -> TextItem {
    TextItem {
        text: text.into(),
        x: f(x),
        y: f(y),
        width: f(10.0),
        height: f(10.0),
        ..Default::default()
    }
}

fn block(id: usize, label: &str, x: f32, y: f32) -> LayoutBlock {
    LayoutBlock {
        id,
        label: label.into(),
        confidence: f(0.9),
        x: f(x),
        y: f(y),
        width: f(40.0),
        height: f(40.0),
    }
}

fn page(number: usize, text: &str, items: Vec<TextItem>) -> ParsedPage {
    ParsedPage {
        page_number: number,
        page_width: f(100.0),
        page_height: f(100.0),
        text: text.into(),
        text_items: items,
        layout_blocks: vec![],
        projected_lines: vec![],
        graphics: vec![],
    }
}

fn project(_: usize, _: F32, _: F32, items: Vec<TextItem>) -> String {
    let texts: Vec<&str> = items.iter().map(|i| i.text.as_str()).collect();
    format!(" {} ", texts.join(" "))
}

fn prepare(pages: &[ParsedPage]) -> usize {
    pages.len()
}

fn classify(_: &usize, _: &ParsedPage, _: &Vec<OutlineTarget>, _: ImageMode) -> Vec<Block> {
    Vec::new()
}

fn render(_: &Vec<Block>) -> String {
    String::new()
}

#[test]
#[allow(clippy::field_reassign_with_default)]
fn test_new_stores_config() {
    let mut cfg = LiteParseConfig::default();
    cfg.ocr_enabled = false;
    cfg.max_pages = 7;
    let lp = LiteParse::new(cfg);
    assert!(!lp.config().ocr_enabled);
    assert_eq!(lp.config().max_pages, 7);
}

#[test]
fn settings_have_defaults() {
    let cfg = LiteParseConfig::default();
    assert!(cfg.ocr_enabled);
    assert_eq!(cfg.ocr_language, "eng");
    assert_eq!(cfg.max_pages, 1000);
    assert_eq!(cfg.dpi, f(150.0));
    assert_eq!(cfg.output_format, OutputFormat::Json);
    assert_eq!(cfg.image_mode, ImageMode::Placeholder);
    assert!(!cfg.layout_enabled);
    assert_eq!(cfg.layout_confidence_threshold, f(0.25));
    assert_eq!(cfg.layout_iou_threshold, f(0.45));
    assert_eq!(cfg.layout_image_size, 1280);
}

#[test]
fn pages_are_parsed_from_extracted_ones() {
    let lp = LiteParse::new(LiteParseConfig { output_format: OutputFormat::Text, ..Default::default() });
    let projected =
        |texts: Vec<&str>| -> Vec<ParsedPage> { texts.iter().map(|t| page(1, t, vec![])).collect() };
    let result = lp.parse_from_pages(vec!["one", "two"], vec![], projected, prepare, classify, render);
    assert_eq!(result.text, "one\n\ntwo");
    assert_eq!(result.pages.len(), 2);
    assert!(result.images.is_empty());

    let lp =
        LiteParse::new(LiteParseConfig { output_format: OutputFormat::Markdown, ..Default::default() });
    let result = lp.parse_from_pages(vec!["one"], vec![], projected, prepare, classify, render);
    assert_eq!(result.text, "```text\none\n```");
}

#[test]
fn results_are_assembled_with_the_signals_of_the_document() {
    let counted = |n: &usize, _: &ParsedPage, _: &Vec<OutlineTarget>, _: ImageMode| -> Vec<Block> {
        vec![Block::ListItem { text: format!("one of {n}") }]
    };
    let items = |blocks: &Vec<Block>| -> String {
        match &blocks[0] {
            Block::ListItem { text } => text.clone(),
            _ => String::new(),
        }
    };
    let lined = |number: usize| -> ParsedPage {
        let mut page = page(number, "fallback", vec![]);
        page.projected_lines = vec![ProjectedLine {
            text: "x".into(),
            bbox: Rect { x: f(0.0), y: f(0.0), width: f(5.0), height: f(5.0) },
            dominant_font_size: f(10.0),
            all_bold: false,
            spans: vec![],
            region_path: vec![],
        }];
        page
    };
    let lp =
        LiteParse::new(LiteParseConfig { output_format: OutputFormat::Markdown, ..Default::default() });
    let pages = vec![lined(1), lined(2)];
    let result = lp.assemble_result(pages, vec![], vec![], prepare, counted, items);
    assert_eq!(result.text, "one of 2\n\n-----\n\none of 2");
    let projected = |numbers: Vec<usize>| -> Vec<ParsedPage> {
        numbers.into_iter().map(lined).collect()
    };
    let result = lp.parse_from_pages(vec![1, 2, 3], vec![], projected, prepare, counted, items);
    assert!(result.text.starts_with("one of 3\n\n-----\n\none of 3"));
}

#[test]
fn links_and_images_depend_on_the_settings() {
    let lp = LiteParse::new(LiteParseConfig::default());
    assert!(!lp.extracts_links());
    assert!(!lp.extracts_images());
    let lp = LiteParse::new(LiteParseConfig {
        output_format: OutputFormat::Markdown,
        image_mode: ImageMode::Embed,
        ..Default::default()
    });
    assert!(lp.extracts_links());
    assert!(lp.extracts_images());
}

#[test]
fn layout_needs_a_detector() {
    let lp = LiteParse::new(LiteParseConfig::default());
    assert!(!lp.detects_layout(false).unwrap());
    let lp = LiteParse::new(LiteParseConfig { layout_enabled: true, ..Default::default() });
    assert!(lp.detects_layout(true).unwrap());
    let error = lp.detects_layout(false).unwrap_err();
    assert!(matches!(error, LiteParseError::Config(_)));
    assert_eq!(error.message(), "layout detection requires a YOLO layout feature");
}

#[test]
fn the_ocr_engine_is_chosen() {
    let lp = LiteParse::new(LiteParseConfig { ocr_enabled: false, ..Default::default() });
    assert!(lp.choose_ocr_engine(BuiltInOcr::Absent).unwrap().is_none());

    let lp = LiteParse::new(LiteParseConfig::default());
    let error = lp.choose_ocr_engine(BuiltInOcr::Absent).unwrap_err();
    assert!(error.message().contains("`ocrEngine` callback"));
    let error = lp.choose_ocr_engine(BuiltInOcr::Http).unwrap_err();
    assert!(error.message().contains("--ocr-server-url"));
    let chosen = lp.choose_ocr_engine(BuiltInOcr::HttpAndTesseract).unwrap();
    assert!(matches!(chosen, Some(OcrChoice::Tesseract { tessdata_path: None })));

    let lp = LiteParse::new(LiteParseConfig {
        ocr_server_url: Some("http://localhost".into()),
        ..Default::default()
    });
    match lp.choose_ocr_engine(BuiltInOcr::Http).unwrap() {
        Some(OcrChoice::Server { url, headers }) => {
            assert_eq!(url, "http://localhost");
            assert!(headers.is_empty());
        }
        other => panic!("expected a server, got {other:?}"),
    }

    let lp = lp.with_ocr_engine("mine");
    let chosen = lp.choose_ocr_engine(BuiltInOcr::Absent).unwrap();
    assert!(matches!(chosen, Some(OcrChoice::Provided { engine: &"mine" })));
}

#[test]
fn page_settings_are_checked() {
    assert_eq!(checked_pages(None, "--target-pages").unwrap(), None);
    assert_eq!(checked_pages(Some(Ok(vec![1, 2])), "--target-pages").unwrap(), Some(vec![1, 2]));
    let error = checked_pages(Some(Err("bad".into())), "--target-pages").unwrap_err();
    assert_eq!(error.message(), "invalid --target-pages: bad");

    assert_eq!(effective_pages(Some(vec![4]), Some(Err("bad".into()))).unwrap(), Some(vec![4]));
    assert_eq!(effective_pages(None, Some(Ok(vec![5]))).unwrap(), Some(vec![5]));
    let error = effective_pages(None, Some(Err("bad".into()))).unwrap_err();
    assert_eq!(error.message(), "invalid target_pages: bad");
}

#[test]
fn layout_screenshots_parse_their_pages() {
    let lp = LiteParse::new(LiteParseConfig {
        max_pages: 2,
        password: Some("p".into()),
        ocr_server_headers: vec![("a".into(), "b".into())],
        ..Default::default()
    });
    let config = lp.layout_config(&Some(vec![3, 10, 7]));
    assert!(config.layout_enabled);
    assert_eq!(config.target_pages.as_deref(), Some("3,10,7"));
    assert_eq!(config.max_pages, 3);
    assert_eq!(config.password.as_deref(), Some("p"));
    assert_eq!(config.ocr_server_headers, vec![("a".to_string(), "b".to_string())]);
    let config = lp.layout_config(&None);
    assert_eq!(config.target_pages, None);
    assert_eq!(config.max_pages, 2);
}

#[test]
fn pages_rendered_for_ocr_are_used_again() {
    assert_eq!(
        layout_sources(&vec![5, 6, 7], &vec![1], true),
        vec![
            LayoutSource::Unrendered { page_index: 4 },
            LayoutSource::Rendered { place: 0 },
            LayoutSource::Unrendered { page_index: 6 },
        ]
    );
    assert!(layout_sources(&vec![5, 6, 7], &vec![1], false).is_empty());
}

#[test]
fn parts_are_trimmed_and_joined() {
    let parts = |texts: &[&str]| -> Vec<String> { texts.iter().map(|t| t.to_string()).collect() };
    assert_eq!(
        assemble_parts(&parts(&[" a ", "  ", "b\n"])).as_deref(),
        Some("a\n\nb")
    );
    assert_eq!(assemble_parts(&parts(&[" ", ""])), None);
}

#[test]
fn blocks_are_attached_to_their_pages() {
    let mut pages = vec![
        page(1, "first", vec![item("left", 1.0, 1.0), item("right", 61.0, 1.0), item("off", 1.0, 90.0)]),
        page(2, "second", vec![]),
    ];
    attach_layout_blocks(
        &mut pages,
        vec![
            (0, vec![block(5, "Text", 60.0, 0.0), block(6, "Table", 20.0, 60.0), block(7, "Text", 0.0, 0.0)]),
            (9, vec![block(0, "Text", 0.0, 0.0)]),
        ],
        project,
    );
    assert_eq!(pages[0].text, "right\n\nleft\n\noff");
    let ids: Vec<Option<usize>> = pages[0].text_items.iter().map(|i| i.layout_block_id).collect();
    assert_eq!(ids, vec![Some(1), Some(0), None]);
    assert_eq!(pages[0].layout_blocks.len(), 2);
    assert_eq!(pages[1].text, "second");
    assert_eq!(pages.len(), 2);
}

#[test]
fn a_page_without_blocks_keeps_its_text() {
    let p = page(1, "text", vec![item("a", 1.0, 1.0)]);
    assert_eq!(rebuild_text_in_layout_order(&p, &project), None);
}

#[test]
fn rendered_pages_are_annotated() {
    let rendered = |page_num: u32| RenderedRgbaPage {
        page_num,
        width: 50,
        height: 50,
        rgba_bytes: vec![255; 50 * 50 * 4],
    };
    let mut parsed = page(2, "", vec![]);
    parsed.layout_blocks = vec![block(0, "Text", 20.0, 40.0)];
    let screenshots = annotate_pages(vec![rendered(1), rendered(2)], &vec![parsed]).unwrap();
    assert_eq!(screenshots.len(), 2);
    assert_eq!(screenshots[0].page_num, 1);
    assert_eq!(screenshots[1].width, 50);
    let pixels = |i: usize| {
        image::load_from_memory(&screenshots[i].image_bytes).unwrap().to_rgba8().into_raw()
    };
    assert_eq!(pixels(0), vec![255; 50 * 50 * 4]);
    assert_ne!(pixels(1), vec![255; 50 * 50 * 4]);
}

#[test]
fn a_page_that_cannot_be_encoded_stops_the_screenshots() {
    let broken = RenderedRgbaPage { page_num: 1, width: 2, height: 2, rgba_bytes: vec![0; 3] };
    let error = annotate_pages(vec![broken], &vec![]).unwrap_err();
    assert_eq!(error.message(), "invalid RGBA buffer length: got 3, expected 16");
}

fn steps(ocr_enabled: bool, layout_enabled: bool) -> Vec<ParseStep> {
    let lp =
        LiteParse::new(LiteParseConfig { ocr_enabled, layout_enabled, ..Default::default() });
    let mut steps = Vec::new();
    let mut done = None;
    while let Some(step) = lp.next_step(done) {
        steps.push(step);
        done = Some(step);
    }
    steps
}

#[test]
fn parsing_takes_the_enabled_steps() {
    assert_eq!(
        steps(false, false),
        vec![
            ParseStep::Resolve,
            ParseStep::TargetPages,
            ParseStep::Detector,
            ParseStep::Extract,
            ParseStep::Project,
            ParseStep::Attach,
            ParseStep::Format,
        ]
    );
    assert_eq!(steps(true, true).len(), 11);
    assert!(!steps(true, false).contains(&ParseStep::DetectLayout));
    assert!(!steps(false, true).contains(&ParseStep::Recognise));
}

#[test]
fn the_layout_parser_keeps_the_engine() {
    let lp = LiteParse::new(LiteParseConfig::default()).with_ocr_engine("mine");
    let layout = lp.layout_parser(&Some(vec![1]));
    assert!(layout.config().layout_enabled);
    let chosen = layout.choose_ocr_engine(BuiltInOcr::Absent).unwrap();
    assert!(matches!(chosen, Some(OcrChoice::Provided { engine: &"mine" })));
}

#[test]
fn placing_blocks_leaves_the_text_alone() {
    let mut p = page(1, "text", vec![item("a", 1.0, 1.0)]);
    place_layout_blocks(&mut p, vec![block(9, "Text", 0.0, 0.0)]);
    assert_eq!(p.text, "text");
    assert_eq!(p.layout_blocks[0].id, 0);
    assert_eq!(p.text_items[0].layout_block_id, Some(0));
    assert_eq!(p.text_items[0].layout_label.as_deref(), Some("Text"));
}
