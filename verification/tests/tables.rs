//! Tables with and without rules.
use liteparse::float::F32;
use liteparse::markdown_layout::blocks::{Block, TableRun};
use liteparse::markdown_layout::borderless::{detect_tables, try_detect_table};
use liteparse::markdown_layout::cells::{split_cells, TableCell};
use liteparse::markdown_layout::components::find_grid_components;
use liteparse::markdown_layout::merge::{escape_table_cell, merge_table_runs};
use liteparse::markdown_layout::recover::recover_merged_cell;
use liteparse::markdown_layout::ruled::{build_ruled_table, detect_ruled_tables, sort_runs};
use liteparse::markdown_layout::rules::{
    cluster_h_segments, collect_boundaries, dedup_close, extract_h_v_segments, find_bucket, HSeg,
    VSeg,
};
use liteparse::types::{GraphicPrimitive, ProjectedLine, Rect, TextItem};

fn f(v: f32) -> F32 {
    F32::from_bits(v.to_bits())
}

fn value(v: F32) -> f32 {
    f32::from_bits(v.to_bits())
}

fn rect(x: f32, y: f32, width: f32, height: f32) -> Rect {
    Rect { x: f(x), y: f(y), width: f(width), height: f(height) }
}

fn span(text: &str, x: f32, y: f32, size: f32) -> TextItem {
    TextItem {
        text: text.into(),
        x: f(x),
        y: f(y),
        width: f(text.chars().count() as f32 * size * 0.5),
        height: f(size),
        font_size: Some(f(size)),
        ..Default::default()
    }
}

fn line_with_spans(spans: &[(&str, f32)], y: f32, size: f32) -> ProjectedLine {
    let items: Vec<TextItem> = spans.iter().map(|(text, x)| span(text, *x, y, size)).collect();
    let first = spans[0].1;
    let last = items.last().unwrap();
    let right = value(last.x) + value(last.width);
    let texts: Vec<&str> = spans.iter().map(|(text, _)| *text).collect();
    ProjectedLine {
        text: texts.join(" "),
        bbox: rect(first, y, right - first, size),
        dominant_font_size: f(size),
        all_bold: false,
        spans: items,
        region_path: Vec::new(),
    }
}

fn line(text: &str, x: f32, y: f32, h: f32, size: f32) -> ProjectedLine {
    ProjectedLine {
        text: text.into(),
        bbox: rect(x, y, text.chars().count() as f32 * (size * 0.5), h),
        dominant_font_size: f(size),
        all_bold: false,
        spans: vec![span(text, x, y, size)],
        region_path: Vec::new(),
    }
}

fn stroke(x1: f32, y1: f32, x2: f32, y2: f32) -> GraphicPrimitive {
    GraphicPrimitive::Stroke { x1: f(x1), y1: f(y1), x2: f(x2), y2: f(y2) }
}

fn rect_borders(x: f32, y: f32, w: f32, h: f32) -> Vec<GraphicPrimitive> {
    vec![
        stroke(x, y, x + w, y),
        stroke(x, y + h, x + w, y + h),
        stroke(x, y, x, y + h),
        stroke(x + w, y, x + w, y + h),
    ]
}

fn cell(start_x: f32, end_x: f32, text: &str) -> TableCell {
    TableCell { start_x: f(start_x), end_x: f(end_x), text: text.into(), bold: false }
}

#[test]
fn split_cells_splits_on_wide_gaps() {
    let l = line_with_spans(&[("A", 50.0), ("B", 150.0), ("C", 250.0)], 100.0, 10.0);
    let cells = split_cells(&l);
    assert_eq!(cells.len(), 3);
    assert_eq!(cells[0].text, "A");
    assert_eq!(cells[1].text, "B");
    assert_eq!(cells[2].text, "C");
}

#[test]
fn recover_merged_cell_splits_off_by_one() {
    let row = vec![cell(50.0, 160.0, "MEMORYBANK 5.00"), cell(250.0, 280.0, "4.77")];
    let tracks = vec![f(50.0), f(150.0), f(250.0)];
    let out = recover_merged_cell(row, &tracks).expect("recovery should succeed");
    assert_eq!(out.len(), 3);
    assert_eq!(out[0].text, "MEMORYBANK");
    assert_eq!(out[1].text, "5.00");
    assert_eq!(out[2].text, "4.77");
}

#[test]
fn recover_merged_cell_splits_off_by_two() {
    let row = vec![cell(50.0, 260.0, "MEMORYBANK 13.18 10.03"), cell(350.0, 380.0, "7.61")];
    let tracks = vec![f(50.0), f(150.0), f(250.0), f(350.0)];
    let out = recover_merged_cell(row, &tracks).expect("recovery should succeed");
    assert_eq!(out.len(), 4);
    assert_eq!(out[0].text, "MEMORYBANK");
    assert_eq!(out[1].text, "13.18");
    assert_eq!(out[2].text, "10.03");
    assert_eq!(out[3].text, "7.61");
}

#[test]
fn recover_merged_cell_bails_without_enough_whitespace() {
    let row = vec![cell(50.0, 200.0, "ABC-DEF-GHI")];
    let tracks = vec![f(50.0), f(150.0)];
    assert!(recover_merged_cell(row, &tracks).is_none());
}

#[test]
fn split_cells_keeps_close_spans_together() {
    let l = line_with_spans(&[("Hello", 50.0), ("world", 80.0)], 100.0, 10.0);
    let cells = split_cells(&l);
    assert_eq!(cells.len(), 1);
    assert_eq!(cells[0].text, "Hello world");
}

#[test]
fn absorbs_partial_header_line_above_body() {
    let lines = vec![
        line_with_spans(&[("Name", 50.0), ("Scores", 150.0)], 100.0, 10.0),
        line_with_spans(&[("A", 50.0), ("1", 150.0), ("2", 250.0)], 115.0, 10.0),
        line_with_spans(&[("B", 50.0), ("3", 150.0), ("4", 250.0)], 130.0, 10.0),
        line_with_spans(&[("C", 50.0), ("5", 150.0), ("6", 250.0)], 145.0, 10.0),
    ];
    let runs = detect_tables(&lines);
    assert_eq!(runs.len(), 1);
    let run = &runs[0];
    assert_eq!(run.start, 0, "header line should be absorbed into the run");
    assert_eq!(run.end, 4);
    match &run.block {
        Block::Table { header, rows } => {
            let header = header.as_ref().expect("header should be present");
            assert_eq!(header, &vec!["Name".to_string(), "Scores".to_string(), String::new()]);
            assert_eq!(rows.len(), 3);
        }
        other => panic!("expected Block::Table, got {other:?}"),
    }
}

#[test]
fn does_not_absorb_single_cell_title_above_body() {
    let lines = vec![
        line_with_spans(&[("Results", 50.0)], 100.0, 10.0),
        line_with_spans(&[("A", 50.0), ("1", 150.0), ("2", 250.0)], 115.0, 10.0),
        line_with_spans(&[("B", 50.0), ("3", 150.0), ("4", 250.0)], 130.0, 10.0),
        line_with_spans(&[("C", 50.0), ("5", 150.0), ("6", 250.0)], 145.0, 10.0),
    ];
    let runs = detect_tables(&lines);
    assert_eq!(runs.len(), 1);
    assert_eq!(runs[0].start, 1, "single-cell title must stay out of the run");
}

#[test]
fn rejects_table_when_row_count_too_low() {
    let lines = vec![line_with_spans(&[("A", 50.0), ("B", 150.0), ("C", 250.0)], 100.0, 10.0)];
    let runs = detect_tables(&lines);
    assert!(runs.is_empty());
}

#[test]
fn rejects_table_when_column_count_too_low() {
    let lines = vec![
        line_with_spans(&[("A", 50.0), ("B", 200.0)], 100.0, 10.0),
        line_with_spans(&[("C", 50.0), ("D", 200.0)], 115.0, 10.0),
    ];
    let runs = detect_tables(&lines);
    assert!(runs.is_empty());
}

#[test]
fn escapes_pipe_inside_cell() {
    assert_eq!(escape_table_cell("a|b"), "a\\|b");
}

fn grid(ys: &[f32], xs: &[f32]) -> Vec<GraphicPrimitive> {
    let mut graphics = Vec::new();
    for y in ys {
        graphics.push(stroke(xs[0], *y, xs[xs.len() - 1], *y));
    }
    for x in xs {
        graphics.push(stroke(*x, ys[0], *x, ys[ys.len() - 1]));
    }
    graphics
}

#[test]
fn ruled_table_2x2_detected() {
    let graphics = grid(&[100.0, 140.0, 180.0], &[50.0, 150.0, 250.0]);
    let lines = vec![
        line("a", 90.0, 115.0, 10.0, 10.0),
        line("b", 190.0, 115.0, 10.0, 10.0),
        line("c", 90.0, 155.0, 10.0, 10.0),
        line("d", 190.0, 155.0, 10.0, 10.0),
    ];
    let runs = detect_ruled_tables(&lines, &graphics, f(612.0), f(792.0));
    assert_eq!(runs.len(), 1, "expected 1 ruled table, got {runs:?}");
    match &runs[0].block {
        Block::Table { header, rows } => {
            assert!(header.is_none(), "no bold first row → no header");
            assert_eq!(rows.len(), 2);
            assert_eq!(rows[0], vec!["a", "b"]);
            assert_eq!(rows[1], vec!["c", "d"]);
        }
        other => panic!("expected Block::Table, got {other:?}"),
    }
}

#[test]
fn ruled_table_rect_borders_detected() {
    let mut graphics = Vec::new();
    graphics.extend(rect_borders(50.0, 100.0, 100.0, 40.0));
    graphics.extend(rect_borders(150.0, 100.0, 100.0, 40.0));
    graphics.extend(rect_borders(50.0, 140.0, 100.0, 40.0));
    graphics.extend(rect_borders(150.0, 140.0, 100.0, 40.0));
    let lines = vec![
        line("a", 90.0, 115.0, 10.0, 10.0),
        line("b", 190.0, 115.0, 10.0, 10.0),
        line("c", 90.0, 155.0, 10.0, 10.0),
        line("d", 190.0, 155.0, 10.0, 10.0),
    ];
    let runs = detect_ruled_tables(&lines, &graphics, f(612.0), f(792.0));
    assert_eq!(runs.len(), 1);
}

#[test]
fn ruled_table_page_border_rejected() {
    let graphics = rect_borders(10.0, 10.0, 590.0, 770.0);
    let lines = vec![line("body text", 50.0, 400.0, 10.0, 10.0)];
    let runs = detect_ruled_tables(&lines, &graphics, f(612.0), f(792.0));
    assert!(runs.is_empty(), "page-border rect should not become a table, got {runs:?}");
}

#[test]
fn ruled_table_mostly_empty_rejected() {
    let graphics = grid(&[100.0, 130.0, 160.0, 190.0], &[50.0, 150.0, 250.0, 350.0]);
    let lines = vec![line("only", 90.0, 115.0, 10.0, 10.0)];
    let runs = detect_ruled_tables(&lines, &graphics, f(612.0), f(792.0));
    assert!(runs.is_empty());
}

#[test]
fn ruled_table_first_row_bold_becomes_header() {
    let graphics = grid(&[100.0, 140.0, 180.0], &[50.0, 150.0, 250.0]);
    let mut a = line("Name", 90.0, 115.0, 10.0, 10.0);
    let mut b = line("Score", 190.0, 115.0, 10.0, 10.0);
    a.all_bold = true;
    b.all_bold = true;
    let lines =
        vec![a, b, line("alice", 90.0, 155.0, 10.0, 10.0), line("99", 190.0, 155.0, 10.0, 10.0)];
    let runs = detect_ruled_tables(&lines, &graphics, f(612.0), f(792.0));
    assert_eq!(runs.len(), 1);
    match &runs[0].block {
        Block::Table { header, rows } => {
            assert_eq!(header.as_deref(), Some(&["Name".into(), "Score".into()][..]));
            assert_eq!(rows.len(), 1);
            assert_eq!(rows[0], vec!["alice", "99"]);
        }
        other => panic!("expected Block::Table, got {other:?}"),
    }
}

#[test]
fn merge_prefers_ruled_when_overlapping() {
    let ruled = vec![TableRun {
        start: 5,
        end: 10,
        block: Block::Table { header: None, rows: vec![vec!["ruled".into()]] },
    }];
    let borderless = vec![TableRun {
        start: 6,
        end: 11,
        block: Block::GridFallback { lines: vec!["bl".into()] },
    }];
    let merged = merge_table_runs(ruled, borderless);
    assert_eq!(merged.len(), 1);
    assert!(matches!(&merged[0].block, Block::Table { .. }));
}

#[test]
fn merge_keeps_runs_apart_in_order() {
    let run = |start: usize, end: usize, text: &str| TableRun {
        start,
        end,
        block: Block::GridFallback { lines: vec![text.into()] },
    };
    let merged =
        merge_table_runs(vec![run(4, 6, "ruled")], vec![run(0, 3, "before"), run(6, 9, "after")]);
    let starts: Vec<usize> = merged.iter().map(|r| r.start).collect();
    assert_eq!(starts, vec![0, 4, 6]);
}

#[test]
fn runs_are_sorted_by_their_start() {
    let run = |start: usize| TableRun { start, end: start + 1, block: Block::HorizontalRule };
    let sorted = sort_runs(vec![run(7), run(2), run(5)]);
    let starts: Vec<usize> = sorted.iter().map(|r| r.start).collect();
    assert_eq!(starts, vec![2, 5, 7]);
}

#[test]
fn escaping_covers_bars_backslashes_and_line_ends() {
    assert_eq!(escape_table_cell("plain"), "plain");
    assert_eq!(escape_table_cell("a\\b"), "a\\\\b");
    assert_eq!(escape_table_cell("a\nb"), "a b");
    assert_eq!(escape_table_cell("||"), "\\|\\|");
    assert_eq!(escape_table_cell("\\|"), "\\\\\\|");
    assert_eq!(escape_table_cell(""), "");
}

#[test]
fn a_table_cannot_reach_above_its_floor() {
    let lines = vec![
        line_with_spans(&[("Name", 50.0), ("Scores", 150.0)], 100.0, 10.0),
        line_with_spans(&[("A", 50.0), ("1", 150.0), ("2", 250.0)], 115.0, 10.0),
        line_with_spans(&[("B", 50.0), ("3", 150.0), ("4", 250.0)], 130.0, 10.0),
        line_with_spans(&[("C", 50.0), ("5", 150.0), ("6", 250.0)], 145.0, 10.0),
    ];
    assert_eq!(try_detect_table(&lines, 1, 0).unwrap().start, 0);
    assert_eq!(try_detect_table(&lines, 1, 1).unwrap().start, 1);
    assert!(try_detect_table(&lines, 3, 0).is_none());
}

#[test]
fn strokes_and_stroked_rectangles_give_segments() {
    let graphics = vec![
        stroke(0.0, 10.0, 100.0, 10.0),
        stroke(20.0, 0.0, 20.0, 50.0),
        stroke(0.0, 0.0, 30.0, 30.0),
        GraphicPrimitive::Rect { bbox: rect(0.0, 0.0, 40.0, 30.0), stroked: true },
        GraphicPrimitive::Rect { bbox: rect(0.0, 0.0, 40.0, 30.0), stroked: false },
    ];
    let (hs, vs) = extract_h_v_segments(&graphics);
    let ys: Vec<f32> = hs.iter().map(|s| value(s.y)).collect();
    let xs: Vec<f32> = vs.iter().map(|s| value(s.x)).collect();
    assert_eq!(ys, vec![10.0, 0.0, 30.0]);
    assert_eq!(xs, vec![20.0, 0.0, 40.0]);
}

#[test]
fn segments_on_one_line_are_clustered() {
    let seg = |x_min: f32, x_max: f32, y: f32| HSeg { x_min: f(x_min), x_max: f(x_max), y: f(y) };
    let clustered =
        cluster_h_segments(vec![seg(50.0, 100.0, 10.0), seg(0.0, 50.0, 10.0), seg(0.0, 9.0, 90.0)]);
    assert_eq!(clustered.len(), 2);
    assert_eq!(value(clustered[0].x_min), 0.0);
    assert_eq!(value(clustered[0].x_max), 100.0);
    assert_eq!(value(clustered[1].y), 90.0);
}

#[test]
fn close_boundaries_are_one() {
    let mut v = vec![f(1.0), f(1.5), f(40.0), f(40.0)];
    dedup_close(&mut v);
    assert_eq!(v.len(), 2);
    let sorted = collect_boundaries(vec![f(90.0), f(10.0), f(10.5), f(50.0)]);
    let values: Vec<f32> = sorted.iter().map(|b| value(*b)).collect();
    assert_eq!(values.len(), 3);
    assert!(values[0] < values[1] && values[1] < values[2]);
}

#[test]
fn buckets_are_half_open_but_for_the_last() {
    let boundaries = vec![f(0.0), f(10.0), f(20.0)];
    assert_eq!(find_bucket(&boundaries, f(0.0)), Some(0));
    assert_eq!(find_bucket(&boundaries, f(9.5)), Some(0));
    assert_eq!(find_bucket(&boundaries, f(10.0)), Some(1));
    assert_eq!(find_bucket(&boundaries, f(20.0)), Some(1));
    assert_eq!(find_bucket(&boundaries, f(20.5)), None);
    assert_eq!(find_bucket(&boundaries, f(-0.5)), None);
}

#[test]
fn crossing_segments_make_grids() {
    let h = |x_min: f32, x_max: f32, y: f32| HSeg { x_min: f(x_min), x_max: f(x_max), y: f(y) };
    let v = |y_min: f32, y_max: f32, x: f32| VSeg { y_min: f(y_min), y_max: f(y_max), x: f(x) };
    let hs = vec![
        h(0.0, 10.0, 0.0),
        h(100.0, 110.0, 0.0),
        h(0.0, 10.0, 10.0),
        h(100.0, 110.0, 10.0),
        h(200.0, 210.0, 0.0),
    ];
    let vs = vec![
        v(0.0, 10.0, 0.0),
        v(0.0, 10.0, 100.0),
        v(0.0, 10.0, 10.0),
        v(0.0, 10.0, 110.0),
        v(0.0, 10.0, 200.0),
    ];
    let grids = find_grid_components(&hs, &vs);
    // A single corner is no grid.
    assert_eq!(grids, vec![(vec![0, 2], vec![0, 2]), (vec![1, 3], vec![1, 3])]);
}

#[test]
fn blank_spans_make_no_cell() {
    let l = line_with_spans(&[("  ", 50.0), ("x", 150.0)], 100.0, 10.0);
    let cells = split_cells(&l);
    assert_eq!(cells.len(), 1);
    assert_eq!(cells[0].text, "x");
    assert!(split_cells(&line_with_spans(&[(" ", 50.0)], 100.0, 10.0)).is_empty());
}

#[test]
fn tables_of_a_page_do_not_overlap() {
    let mut lines = Vec::new();
    for (block, y0) in [(0, 100.0f32), (1, 400.0)] {
        for row in 0..3 {
            let text = format!("{block}{row}");
            lines.push(line_with_spans(
                &[(text.as_str(), 50.0), ("b", 150.0), ("c", 250.0)],
                y0 + 15.0 * row as f32,
                10.0,
            ));
        }
    }
    let runs = detect_tables(&lines);
    assert_eq!(runs.len(), 2);
    assert!(runs[0].end <= runs[1].start);
    assert_eq!(runs[1].end, 6);
}

fn table_with_a_gap(gap: f32) -> Option<TableRun> {
    let ys = [100.0, 140.0, 140.0 + gap, 180.0 + gap, 220.0 + gap];
    let hs: Vec<HSeg> =
        ys.iter().map(|y| HSeg { x_min: f(50.0), x_max: f(250.0), y: f(*y) }).collect();
    let vs: Vec<VSeg> = [50.0, 150.0, 250.0]
        .iter()
        .map(|x| VSeg { y_min: f(ys[0]), y_max: f(ys[4]), x: f(*x) })
        .collect();
    let at = |text: &str, x: f32, y: f32| -> ProjectedLine {
        let mut line = line(text, x, y, 10.0, 10.0);
        line.bbox = rect(x, y, 20.0, 10.0);
        line
    };
    let lines = vec![
        at("a", 90.0, 115.0),
        at("b", 190.0, 115.0),
        at("c", 90.0, 155.0 + gap),
        at("d", 190.0, 155.0 + gap),
        at("e", 90.0, 195.0 + gap),
        at("f", 190.0, 195.0 + gap),
    ];
    let (h, v): (Vec<usize>, Vec<usize>) = ((0..5).collect(), (0..3).collect());
    build_ruled_table(&hs, &vs, &h, &v, &lines, f(612.0), f(792.0))
}

#[test]
fn empty_rows_are_dropped_only_where_they_are_low() {
    let rows_of = |run: TableRun| -> Vec<Vec<String>> {
        assert_eq!((run.start, run.end), (0, 6));
        match run.block {
            Block::Table { header: None, rows } => rows,
            other => panic!("{other:?}"),
        }
    };
    let kept = rows_of(table_with_a_gap(24.0).unwrap());
    assert_eq!(kept, vec![vec!["a", "b"], vec!["", ""], vec!["c", "d"], vec!["e", "f"]]);
    let half = rows_of(table_with_a_gap(20.0).unwrap());
    assert_eq!(half.len(), 4);
    let dropped = rows_of(table_with_a_gap(19.0).unwrap());
    assert_eq!(dropped, vec![vec!["a", "b"], vec!["c", "d"], vec!["e", "f"]]);
}

#[test]
fn escaping_tells_texts_apart_but_for_line_ends() {
    assert_eq!(escape_table_cell("a\nb"), escape_table_cell("a b"));
    assert_ne!(escape_table_cell("\\|"), escape_table_cell("|"));
    assert_ne!(escape_table_cell("\\|"), escape_table_cell("\\\\|"));
    assert_ne!(escape_table_cell("|\\"), escape_table_cell("\\|"));
}

#[test]
fn merged_runs_stay_apart() {
    let run = |start: usize, end: usize| TableRun {
        start,
        end,
        block: Block::Table { header: None, rows: vec![vec!["x".into(), "y".into()]; 2] },
    };
    let merged = merge_table_runs(
        vec![run(10, 14), run(0, 4)],
        vec![run(3, 6), run(4, 8), run(7, 9), run(13, 20), run(20, 22)],
    );
    let spans: Vec<(usize, usize)> = merged.iter().map(|r| (r.start, r.end)).collect();
    assert_eq!(spans, vec![(0, 4), (4, 8), (10, 14), (20, 22)]);
}

fn ink(cells: &[TableCell]) -> String {
    let all: String = cells.iter().map(|c| c.text.as_str()).collect();
    all.chars().filter(|c| !c.is_whitespace()).collect()
}

#[test]
fn cells_keep_all_but_white_space() {
    let line = line_with_spans(
        &[("c  d", 150.0), (" a", 50.0), ("b ", 62.0), (" ", 100.0), ("e\tf", 260.0)],
        100.0,
        10.0,
    );
    let cells = split_cells(&line);
    assert_eq!(cells.len(), 3);
    assert_eq!(ink(&cells), "abcdef");
}

#[test]
fn recovery_keeps_all_but_white_space() {
    let row = vec![cell(50.0, 260.0, " one  two three "), cell(350.0, 380.0, "four")];
    let before = ink(&row);
    let tracks = vec![f(50.0), f(150.0), f(250.0), f(350.0)];
    let recovered = recover_merged_cell(row, &tracks).unwrap();
    assert_eq!(recovered.len(), 4);
    assert_eq!(ink(&recovered), before);
    assert_eq!(before, "onetwothreefour");
}
