//! Layout blocks: batches, assignment, compaction and reading order.
use liteparse::float::F32;
use liteparse::layout::{
    assign_detected_blocks, layout_batch_ranges, layout_page_image, LAYOUT_RENDER_BATCH_SIZE,
};
use liteparse::layout_merge::{assign_text_items_to_layout_blocks, compact_layout_blocks};
use liteparse::layout_order::order_layout_blocks_xy_cut;
use liteparse::types::{LayoutBlock, ParsedPage, TextItem};

fn f(v: f32) -> F32 {
    F32::from_bits(v.to_bits())
}

fn block(id: usize, label: &str, x: f32, y: f32, width: f32, height: f32) -> LayoutBlock {
    LayoutBlock {
        id,
        label: label.into(),
        confidence: f(0.9),
        x: f(x),
        y: f(y),
        width: f(width),
        height: f(height),
    }
}

fn item(x: f32, y: f32, width: f32, height: f32) -> TextItem {
    TextItem {
        text: "Revenue".into(),
        x: f(x),
        y: f(y),
        width: f(width),
        height: f(height),
        ..Default::default()
    }
}

fn page(number: usize) -> ParsedPage {
    ParsedPage {
        page_number: number,
        page_width: f(612.0),
        page_height: f(792.0),
        text: "txt".into(),
        text_items: vec![],
        layout_blocks: vec![],
        projected_lines: vec![],
        graphics: vec![],
    }
}

#[test]
fn layout_batch_ranges_caps_pages_per_batch() {
    assert_eq!(layout_batch_ranges(0, 4), Vec::<(usize, usize)>::new());
    assert_eq!(layout_batch_ranges(1, 4), vec![(0, 1)]);
    assert_eq!(layout_batch_ranges(9, 4), vec![(0, 4), (4, 8), (8, 9)]);
}

#[test]
fn layout_batch_ranges_treats_zero_batch_as_one() {
    assert_eq!(layout_batch_ranges(3, 0), vec![(0, 1), (1, 2), (2, 3)]);
}

#[test]
fn batches_are_full_but_for_the_last() {
    let ranges = layout_batch_ranges(10, 4);
    let sizes: Vec<usize> = ranges.iter().map(|(start, end)| end - start).collect();
    assert_eq!(sizes, vec![4, 4, 2]);
}

#[test]
fn batches_cover_every_page_once() {
    let ranges = layout_batch_ranges(11, LAYOUT_RENDER_BATCH_SIZE);
    let pages: Vec<usize> = ranges.iter().flat_map(|(start, end)| *start..*end).collect();
    assert_eq!(pages, (0..11).collect::<Vec<usize>>());
}

#[test]
fn page_images_carry_the_page() {
    let pages = vec![page(3), page(8)];
    let image = layout_page_image(&pages, 1, vec![1, 2, 3], 1, 1, f(72.0));
    assert_eq!(image.page_index, 1);
    assert_eq!(image.page_number, 8);
    assert_eq!(image.rgb_bytes, vec![1, 2, 3]);
    assert_eq!(image.page_width.to_bits(), 612.0f32.to_bits());
}

#[test]
fn detected_blocks_go_to_their_page() {
    let mut pages = vec![page(1), page(2)];
    assign_detected_blocks(&mut pages, 1, vec![block(0, "Text", 0.0, 0.0, 1.0, 1.0)]);
    assign_detected_blocks(&mut pages, 5, vec![block(0, "Text", 0.0, 0.0, 1.0, 1.0)]);
    assert!(pages[0].layout_blocks.is_empty());
    assert_eq!(pages[1].layout_blocks.len(), 1);
    assert_eq!(pages.len(), 2);
}

#[test]
fn assigns_text_item_to_block_with_largest_overlap() {
    let mut items = vec![item(12.0, 12.0, 40.0, 10.0)];
    let blocks = vec![
        block(0, "table", 0.0, 0.0, 20.0, 20.0),
        block(1, "text", 10.0, 10.0, 60.0, 20.0),
    ];

    assign_text_items_to_layout_blocks(&mut items, &blocks);

    assert_eq!(items[0].layout_block_id, Some(1));
    assert_eq!(items[0].layout_label.as_deref(), Some("text"));
}

#[test]
fn assigns_text_item_by_center_point_when_overlap_is_small() {
    let mut items = vec![item(48.0, 48.0, 4.0, 4.0)];
    let blocks = vec![block(7, "caption", 0.0, 0.0, 100.0, 100.0)];

    assign_text_items_to_layout_blocks(&mut items, &blocks);

    assert_eq!(items[0].layout_block_id, Some(7));
    assert_eq!(items[0].layout_label.as_deref(), Some("caption"));
}

#[test]
fn leaves_unmatched_text_item_unassigned() {
    let mut items = vec![item(200.0, 200.0, 10.0, 10.0)];
    let blocks = vec![block(0, "text", 0.0, 0.0, 50.0, 50.0)];

    assign_text_items_to_layout_blocks(&mut items, &blocks);

    assert_eq!(items[0].layout_block_id, None);
    assert_eq!(items[0].layout_label, None);
}

#[test]
fn items_without_area_go_where_their_centre_is() {
    let blocks = vec![
        block(0, "text", 0.0, 0.0, 20.0, 20.0),
        block(1, "table", 50.0, 50.0, 30.0, 30.0),
        block(2, "caption", 40.0, 40.0, 60.0, 60.0),
    ];
    let mut items = vec![
        item(60.0, 60.0, 0.0, 10.0),
        item(60.0, 60.0, 10.0, 0.0),
        item(90.0, 90.0, 0.0, 0.0),
        item(30.0, 30.0, 0.0, 10.0),
    ];
    assign_text_items_to_layout_blocks(&mut items, &blocks);
    let ids: Vec<Option<usize>> = items.iter().map(|i| i.layout_block_id).collect();
    assert_eq!(ids, vec![Some(1), Some(1), Some(2), None]);
    assert_eq!(items[0].layout_label.as_deref(), Some("table"));
    assert_eq!(items[3].layout_label, None);

    let mut items = vec![item(60.0, 60.0, 0.0, 10.0)];
    assign_text_items_to_layout_blocks(&mut items, &blocks[..2].to_vec());
    assert_eq!(items[0].layout_block_id, Some(1));
    assert_eq!(items[0].layout_label.as_deref(), Some("table"));
}

#[test]
fn assigning_twice_changes_nothing() {
    let mut items = vec![item(12.0, 12.0, 40.0, 10.0), item(300.0, 300.0, 5.0, 5.0)];
    let blocks = vec![block(4, "text", 10.0, 10.0, 60.0, 20.0)];
    assign_text_items_to_layout_blocks(&mut items, &blocks);
    assign_text_items_to_layout_blocks(&mut items, &blocks);
    assert_eq!(items[0].layout_block_id, Some(4));
    assert_eq!(items[1].layout_block_id, None);
}

#[test]
fn compacts_empty_blocks_and_reassigns_ids() {
    let mut items = vec![
        TextItem {
            x: f(1.0),
            y: f(1.0),
            width: f(10.0),
            height: f(10.0),
            text: "a".into(),
            ..Default::default()
        },
        TextItem {
            x: f(60.0),
            y: f(60.0),
            width: f(10.0),
            height: f(10.0),
            text: "b".into(),
            ..Default::default()
        },
    ];
    items[0].layout_block_id = Some(0);
    items[0].layout_label = Some("Text".into());
    items[1].layout_block_id = Some(2);
    items[1].layout_label = Some("Picture".into());

    let mut blocks = vec![
        block(0, "text", 0.0, 0.0, 20.0, 20.0),
        block(1, "title", 30.0, 30.0, 20.0, 20.0),
        block(2, "Picture", 50.0, 50.0, 30.0, 30.0),
    ];

    compact_layout_blocks(&mut blocks, &mut items);

    assert_eq!(blocks.len(), 2);
    assert_eq!(blocks[0].id, 0);
    assert_eq!(blocks[0].label, "text");
    assert_eq!(blocks[1].id, 1);
    assert_eq!(blocks[1].label, "Picture");

    assert_eq!(items[0].layout_block_id, Some(0));
    assert_eq!(items[0].layout_label.as_deref(), Some("text"));
    assert_eq!(items[1].layout_block_id, Some(1));
    assert_eq!(items[1].layout_label.as_deref(), Some("Picture"));
}

#[test]
fn compacts_blocks_using_block_ids_not_vector_indexes() {
    let mut items = vec![TextItem {
        x: f(60.0),
        y: f(60.0),
        width: f(10.0),
        height: f(10.0),
        text: "b".into(),
        layout_block_id: Some(20),
        layout_label: Some("Table".into()),
        ..Default::default()
    }];
    let mut blocks = vec![
        block(10, "Text", 0.0, 0.0, 20.0, 20.0),
        block(20, "Table", 50.0, 50.0, 30.0, 30.0),
    ];

    compact_layout_blocks(&mut blocks, &mut items);

    assert_eq!(blocks.len(), 1);
    assert_eq!(blocks[0].label, "Table");
    assert_eq!(items[0].layout_block_id, Some(0));
    assert_eq!(items[0].layout_label.as_deref(), Some("Table"));
}

#[test]
fn compaction_forgets_blocks_that_are_not_there() {
    let mut items = vec![item(0.0, 0.0, 1.0, 1.0)];
    items[0].layout_block_id = Some(9);
    items[0].layout_label = Some("Table".into());
    let mut blocks = vec![block(1, "Text", 0.0, 0.0, 20.0, 20.0)];
    compact_layout_blocks(&mut blocks, &mut items);
    assert!(blocks.is_empty());
    assert_eq!(items[0].layout_block_id, None);
    assert_eq!(items[0].layout_label, None);
}

#[test]
fn layout_order_xy_cut_reads_left_column_before_right_column() {
    let blocks = vec![
        block(0, "left-1", 40.0, 40.0, 180.0, 40.0),
        block(1, "right-1", 320.0, 40.0, 180.0, 40.0),
        block(2, "left-2", 40.0, 120.0, 180.0, 40.0),
        block(3, "right-2", 320.0, 120.0, 180.0, 40.0),
    ];

    let ordered = order_layout_blocks_xy_cut(blocks);
    let labels: Vec<&str> = ordered.iter().map(|block| block.label.as_str()).collect();

    assert_eq!(labels, vec!["left-1", "left-2", "right-1", "right-2"]);
    assert_eq!(ordered.iter().map(|block| block.id).collect::<Vec<_>>(), vec![0, 1, 2, 3]);
}

#[test]
fn xy_cut_keeps_full_width_title_before_column_body() {
    let blocks = vec![
        block(0, "left-1", 40.0, 120.0, 180.0, 40.0),
        block(1, "right-1", 320.0, 120.0, 180.0, 40.0),
        block(2, "title", 40.0, 40.0, 460.0, 50.0),
        block(3, "left-2", 40.0, 190.0, 180.0, 40.0),
        block(4, "right-2", 320.0, 190.0, 180.0, 40.0),
    ];

    let ordered = order_layout_blocks_xy_cut(blocks);
    let labels: Vec<&str> = ordered.iter().map(|block| block.label.as_str()).collect();

    assert_eq!(labels, vec!["title", "left-1", "left-2", "right-1", "right-2"]);
    assert_eq!(ordered.iter().map(|block| block.id).collect::<Vec<_>>(), vec![0, 1, 2, 3, 4]);
}

#[test]
fn overlapping_blocks_are_read_from_the_top() {
    let blocks = vec![
        block(0, "lower", 0.0, 30.0, 100.0, 100.0),
        block(1, "upper", 10.0, 0.0, 100.0, 100.0),
    ];
    let ordered = order_layout_blocks_xy_cut(blocks);
    let labels: Vec<&str> = ordered.iter().map(|block| block.label.as_str()).collect();
    assert_eq!(labels, vec!["upper", "lower"]);
}

#[test]
fn nothing_to_order_stays_nothing() {
    assert!(order_layout_blocks_xy_cut(vec![]).is_empty());
}

#[test]
fn pictures_survive_without_text() {
    let mut items = vec![];
    let mut blocks = vec![
        block(3, "Picture", 0.0, 0.0, 20.0, 20.0),
        block(4, "Text", 0.0, 0.0, 20.0, 20.0),
    ];
    compact_layout_blocks(&mut blocks, &mut items);
    assert_eq!(blocks.len(), 1);
    assert_eq!(blocks[0].label, "Picture");
    assert_eq!(blocks[0].id, 0);
}

#[test]
fn compacting_twice_changes_nothing() {
    let mut items = vec![item(0.0, 0.0, 1.0, 1.0), item(0.0, 0.0, 1.0, 1.0)];
    items[0].layout_block_id = Some(8);
    items[1].layout_block_id = Some(2);
    let mut blocks = vec![
        block(2, "Text", 0.0, 0.0, 20.0, 20.0),
        block(5, "Title", 0.0, 0.0, 20.0, 20.0),
        block(8, "Table", 0.0, 0.0, 20.0, 20.0),
    ];
    compact_layout_blocks(&mut blocks, &mut items);
    let once: Vec<(usize, String)> = blocks.iter().map(|b| (b.id, b.label.clone())).collect();
    assert_eq!(once, vec![(0, "Text".to_string()), (1, "Table".to_string())]);
    compact_layout_blocks(&mut blocks, &mut items);
    let twice: Vec<(usize, String)> = blocks.iter().map(|b| (b.id, b.label.clone())).collect();
    assert_eq!(twice, once);
    assert_eq!(items[0].layout_block_id, Some(1));
    assert_eq!(items[1].layout_block_id, Some(0));
}

#[test]
fn ordering_keeps_every_block() {
    let mut blocks = Vec::new();
    for i in 0..30usize {
        let x = ((i * 37) % 100) as f32;
        let y = ((i * 53) % 90) as f32;
        blocks.push(block(i, &format!("b{i}"), x, y, 12.0, 7.0));
    }
    let ordered = order_layout_blocks_xy_cut(blocks);
    let mut labels: Vec<String> = ordered.iter().map(|b| b.label.clone()).collect();
    labels.sort();
    labels.dedup();
    assert_eq!(labels.len(), 30);
}

#[test]
fn ordering_again_gives_the_same_blocks() {
    let blocks = vec![
        block(7, "Text", 320.0, 300.0, 200.0, 40.0),
        block(3, "Title", 50.0, 20.0, 470.0, 30.0),
        block(5, "Text", 50.0, 120.0, 200.0, 40.0),
        block(1, "Text", 320.0, 120.0, 200.0, 40.0),
        block(2, "Text", 50.0, 300.0, 200.0, 40.0),
        block(4, "Text", 60.0, 130.0, 200.0, 40.0),
    ];
    let order = order_layout_blocks_xy_cut;
    let shown = |blocks: &[LayoutBlock]| -> String { format!("{blocks:?}") };
    let once = order(blocks.clone());
    let ids: Vec<usize> = once.iter().map(|b| b.id).collect();
    assert_eq!(ids, vec![0, 1, 2, 3, 4, 5]);
    assert_eq!(shown(&order(once.clone())), shown(&once));

    let mut turned = blocks;
    for _ in 0..6 {
        turned.rotate_left(1);
        assert_eq!(shown(&order(turned.clone())), shown(&once));
        let reversed: Vec<LayoutBlock> = turned.iter().rev().cloned().collect();
        assert_eq!(shown(&order(reversed)), shown(&once));
    }
}
