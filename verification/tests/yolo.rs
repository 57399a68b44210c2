//! Layout detection: labels, the model's input and its output.
use liteparse::float::F32;
use liteparse::layout::LayoutPageImage;
use liteparse::yolo::detector::{
    detections_to_blocks, page_image, YoloLayoutDetector, YoloLayoutOptions,
};
use liteparse::yolo::error::LayoutError;
use liteparse::yolo::labels::{LayoutLabel, LayoutLabelError, LAYOUT_LABELS};
use liteparse::yolo::model::{
    decode_processed_candidates, decode_raw_webgpu_candidates, detect, detections_from_output,
    detections_from_raw_output, prepare_input, BACKEND_NAME, MODEL_IMAGE_SIZE,
};
use liteparse::yolo::postprocess::{
    iou, non_max_suppression, restore_box_to_page, DetectionCandidate,
};
use liteparse::yolo::preprocess::{letterbox_rgb_to_chw_f32, samples_stay_inside, validate_page_image, Letterbox};
use liteparse::yolo::types::{order_layout_detections_xy_cut, LayoutDetection, PageImage};

fn f(v: f32) -> F32 {
    F32::from_bits(v.to_bits())
}

fn value(v: F32) -> f32 {
    f32::from_bits(v.to_bits())
}

fn candidate(label: &str, confidence: f32, x: f32, y: f32) -> DetectionCandidate<String> {
    DetectionCandidate {
        label: label.into(),
        confidence: f(confidence),
        x: f(x),
        y: f(y),
        width: f(100.0),
        height: f(100.0),
    }
}

fn image(rgb: &[u8], width: u32, height: u32) -> PageImage<'_> {
    PageImage {
        rgb,
        width,
        height,
        page_width: f(width as f32),
        page_height: f(height as f32),
        dpi: f(72.0),
    }
}

#[test]
fn reports_compiled_backend_name() {
    assert!(matches!(BACKEND_NAME, "ndarray" | "metal" | "vulkan"));
}

#[test]
fn model_reports_compiled_backend_name() {
    assert!(matches!(BACKEND_NAME, "ndarray" | "metal" | "vulkan" | "webgpu"));
}

#[test]
fn restores_box_coordinates_from_letterbox_to_page_space() {
    let letterbox = Letterbox::new(1000, 500, 1280);

    let (x, y, width, height) = restore_box_to_page(
        f(128.0),
        f(448.0),
        f(256.0),
        f(128.0),
        &letterbox,
        f(500.0),
        f(250.0),
    );

    assert!((value(x) - 50.0).abs() < 0.001);
    assert!((value(y) - 50.0).abs() < 0.001);
    assert!((value(width) - 100.0).abs() < 0.001);
    assert!((value(height) - 50.0).abs() < 0.001);
}

#[test]
fn nms_keeps_highest_confidence_overlapping_detection() {
    let kept = non_max_suppression(
        vec![
            candidate("text", 0.80, 10.0, 10.0),
            candidate("text", 0.95, 12.0, 12.0),
            candidate("table", 0.70, 12.0, 12.0),
            candidate("text", 0.60, 300.0, 300.0),
        ],
        f(0.5),
    );

    assert_eq!(kept.len(), 3);
    assert_eq!(value(kept[0].confidence), 0.95);
    assert!(kept.iter().any(|d| d.label == "table"));
    assert!(kept.iter().any(|d| value(d.x) == 300.0));
}

#[test]
fn layout_label_converts_from_model_class_id() {
    assert_eq!(LayoutLabel::try_from(9), Ok(LayoutLabel::Text));
}

#[test]
fn layout_label_converts_from_public_string() {
    assert_eq!(LayoutLabel::try_from("SectionHeader"), Ok(LayoutLabel::SectionHeader));
}

#[test]
fn layout_label_parses_from_public_string() {
    assert_eq!("PageHeader".parse(), Ok(LayoutLabel::PageHeader));
}

#[test]
fn layout_label_debug_color_returns_known_text_color() {
    assert_eq!(LayoutLabel::Text.debug_color_rgba(), [0x43, 0xA0, 0x47, 255]);
}

#[test]
fn layout_label_converts_into_public_string() {
    assert_eq!(String::from(LayoutLabel::PageFooter), "PageFooter");
}

#[test]
fn unknown_labels_are_refused() {
    let error = LayoutLabel::try_from(11).unwrap_err();
    assert_eq!(error, LayoutLabelError::UnknownClassId(11));
    assert!(error.message().contains("11"));
    let error = LayoutLabel::try_from("text").unwrap_err();
    assert_eq!(error, LayoutLabelError::UnknownLabel("text".into()));
    assert!(error.message().contains("text"));
}

#[test]
fn labels_round_trip() {
    assert_eq!(LayoutLabel::class_count(), LAYOUT_LABELS.len());
    for (id, label) in LAYOUT_LABELS.iter().enumerate() {
        assert_eq!(LayoutLabel::try_from(id), Ok(*label));
        assert_eq!(LayoutLabel::try_from(label.as_str()), Ok(*label));
    }
}

fn raw_values() -> (usize, Vec<F32>) {
    let row_width = LayoutLabel::class_count() + 4;
    let mut values = vec![f(0.0); row_width];
    values[0] = f(10.0);
    values[1] = f(20.0);
    values[2] = f(110.0);
    values[3] = f(220.0);
    values[4 + 7] = f(0.70);
    values[4 + 9] = f(0.90);
    (row_width, values)
}

#[test]
fn raw_webgpu_decode_emits_only_best_class_per_row() {
    let rgb = vec![255; 1280 * 1280 * 3];
    let image = image(&rgb, 1280, 1280);
    let letterbox = Letterbox::new(1280, 1280, 1280);
    let (row_width, values) = raw_values();

    let candidates: Vec<DetectionCandidate<LayoutLabel>> = decode_raw_webgpu_candidates(
        &[1, 1, row_width],
        &values,
        f(0.25),
        &image,
        &letterbox,
    )
    .unwrap();

    assert_eq!(candidates.len(), 1);
    assert_eq!(candidates[0].label, LayoutLabel::Text);
    assert_eq!(value(candidates[0].confidence), 0.90);
}

#[test]
fn raw_rows_are_ranked_and_suppressed() {
    let rgb = vec![0; 3];
    let image = image(&rgb, 1280, 1280);
    let letterbox = Letterbox::new(1280, 1280, 1280);
    let (row_width, row) = raw_values();
    let mut better = row.clone();
    better[4 + 9] = f(0.95);
    let values: Vec<F32> = row.iter().chain(better.iter()).copied().collect();
    let detections: Vec<LayoutDetection<LayoutLabel>> = detections_from_raw_output(
        &[1, 2, row_width],
        &values,
        f(0.25),
        f(0.45),
        &image,
        &letterbox,
    )
    .unwrap();
    assert_eq!(detections.len(), 1);
    assert_eq!(value(detections[0].confidence), 0.95);
    let short: Result<Vec<LayoutDetection<LayoutLabel>>, LayoutError> = detections_from_raw_output(
        &[1, 3, row_width],
        &values,
        f(0.25),
        f(0.45),
        &image,
        &letterbox,
    );
    assert!(short.unwrap_err().message().contains("expected 45 raw values, got 30"));
}

#[test]
fn raw_rows_without_a_box_are_dropped() {
    let rgb = vec![0; 3];
    let image = image(&rgb, 1280, 1280);
    let letterbox = Letterbox::new(1280, 1280, 1280);
    let (row_width, row) = raw_values();
    let mut without = row.clone();
    without[2] = f(f32::NAN);
    let values: Vec<F32> = without.iter().chain(row.iter()).copied().collect();
    let detections: Vec<LayoutDetection<LayoutLabel>> = detections_from_raw_output(
        &[1, 2, row_width],
        &values,
        f(0.25),
        f(0.45),
        &image,
        &letterbox,
    )
    .unwrap();
    assert_eq!(detections.len(), 1);
    assert_eq!(value(detections[0].x), 10.0);
    assert_eq!(value(detections[0].width), 100.0);
}

#[test]
fn raw_decode_refuses_other_shapes() {
    let rgb = vec![0; 3];
    let image = image(&rgb, 1, 1);
    let letterbox = Letterbox::new(1, 1, 1280);
    let result: Result<Vec<DetectionCandidate<LayoutLabel>>, LayoutError> =
        decode_raw_webgpu_candidates(&[1, 1], &[], f(0.25), &image, &letterbox);
    let error = result.unwrap_err();
    assert!(matches!(error, LayoutError::InvalidModelOutput(_)));
    assert!(error.message().contains("[1, 1]"));
}

#[test]
fn processed_rows_become_candidates() {
    let rgb = vec![0; 3];
    let image = image(&rgb, 1280, 1280);
    let letterbox = Letterbox::new(1280, 1280, 1280);
    let mut values = vec![f(0.0); 300 * 6];
    for (row, confidence) in [0.9, 0.1].iter().enumerate() {
        for (column, v) in [10.0, 20.0, 110.0, 220.0, *confidence, 9.0].iter().enumerate() {
            values[row * 6 + column] = f(*v);
        }
    }
    let candidates: Vec<DetectionCandidate<LayoutLabel>> =
        decode_processed_candidates(&[1, 300, 6], &values, f(0.25), &image, &letterbox).unwrap();
    assert_eq!(candidates.len(), 1);
    assert_eq!(candidates[0].label, LayoutLabel::Text);
    assert_eq!(value(candidates[0].x), 10.0);
    assert_eq!(value(candidates[0].width), 100.0);
    assert_eq!(value(candidates[0].height), 200.0);

    let detections: Vec<LayoutDetection<LayoutLabel>> = detections_from_output(
        &[1, 300, 6],
        &values,
        f(0.05),
        f(0.45),
        &image,
        &letterbox,
    )
    .unwrap();
    assert_eq!(detections.len(), 1);
    assert_eq!(value(detections[0].confidence), 0.9);
}

#[test]
fn order_xy_cut_reads_left_column_before_right_column() {
    let detection = |label: LayoutLabel, x: f32, y: f32| LayoutDetection {
        label,
        confidence: f(0.9),
        x: f(x),
        y: f(y),
        width: f(180.0),
        height: f(40.0),
    };
    let detections = vec![
        detection(LayoutLabel::Text, 40.0, 40.0),
        detection(LayoutLabel::Title, 320.0, 40.0),
        detection(LayoutLabel::ListItem, 40.0, 120.0),
        detection(LayoutLabel::Table, 320.0, 120.0),
    ];

    let ordered = order_layout_detections_xy_cut(detections);
    let labels: Vec<LayoutLabel> = ordered.iter().map(|detection| detection.label).collect();

    assert_eq!(
        labels,
        vec![LayoutLabel::Text, LayoutLabel::ListItem, LayoutLabel::Title, LayoutLabel::Table]
    );
}

#[test]
fn computes_letterbox_for_wide_page() {
    let letterbox = Letterbox::new(1000, 500, 1280);

    assert_eq!(letterbox.resized_width, 1280);
    assert_eq!(letterbox.resized_height, 640);
    assert_eq!(value(letterbox.pad_x), 0.0);
    assert_eq!(value(letterbox.pad_y), 320.0);
    assert!((value(letterbox.scale) - 1.28).abs() < 0.0001);
}

#[test]
fn validates_rgb_buffer_length() {
    let rgb = [0; 12];
    let image = image(&rgb, 2, 2);

    assert!(validate_page_image(&image).is_ok());
}

#[test]
fn refuses_a_buffer_of_the_wrong_length() {
    let rgb = [0; 11];
    let error = validate_page_image(&image(&rgb, 2, 2)).unwrap_err();
    assert!(matches!(error, LayoutError::InvalidImageBuffer { expected: 12, actual: 11 }));
    assert_eq!(error.message(), "invalid RGB buffer length: expected 12, got 11");
}

#[test]
fn letterboxes_rgb_to_chw_normalized_float_input() {
    let rgb = [
        255, 0, 0, //
        0, 255, 0,
    ];
    let image = image(&rgb, 2, 1);

    let (input, letterbox) = letterbox_rgb_to_chw_f32(&image, 4).unwrap();
    let input: Vec<f32> = input.into_iter().map(value).collect();

    assert_eq!(letterbox.resized_width, 4);
    assert_eq!(letterbox.resized_height, 2);
    assert_eq!(input.len(), 3 * 4 * 4);
    assert_eq!(input[0], 1.0);
    assert_eq!(input[16], 1.0);
    assert_eq!(input[32], 1.0);
    assert_eq!(input[4], 1.0);
    assert_eq!(input[20], 0.0);
    assert_eq!(input[36], 0.0);
    assert_eq!(input[6], 0.0);
    assert_eq!(input[22], 1.0);
    assert_eq!(input[38], 0.0);
}

#[test]
fn only_the_size_of_the_model_is_supported() {
    let infer = |_: Vec<F32>| -> Result<(Vec<usize>, Vec<F32>), String> { Err("unused".into()) };
    let rgb = [0; 3];
    let image = image(&rgb, 1, 1);
    let options = YoloLayoutOptions { image_size: 640, ..YoloLayoutOptions::default() };
    let error = YoloLayoutDetector::new(infer, options).detect_page(&image).unwrap_err();
    assert!(matches!(
        error,
        LayoutError::UnsupportedImageSize { expected: MODEL_IMAGE_SIZE, actual: 640 }
    ));
    assert!(prepare_input(&image, 640).is_err());
}

#[test]
fn pages_are_detected_with_a_model() {
    let infer = |input: Vec<F32>| -> Result<(Vec<usize>, Vec<F32>), String> {
        assert_eq!(input.len(), 3 * 1280 * 1280);
        let mut values = vec![f(0.0); 300 * 6];
        for (column, v) in [128.0, 448.0, 384.0, 576.0, 0.9, 8.0].iter().enumerate() {
            values[column] = f(*v);
        }
        Ok((vec![1, 300, 6], values))
    };
    let rgb = vec![255; 1000 * 500 * 3];
    let mut image = image(&rgb, 1000, 500);
    image.page_width = f(500.0);
    image.page_height = f(250.0);
    let detector = YoloLayoutDetector::new(infer, YoloLayoutOptions::default());
    let detections = detector.detect_page(&image).unwrap();
    assert_eq!(detections.len(), 1);
    assert_eq!(detections[0].label, LayoutLabel::Table);
    assert!((value(detections[0].x) - 50.0).abs() < 0.001);
    assert!((value(detections[0].width) - 100.0).abs() < 0.001);

    let short = PageImage { rgb: &rgb[1..], ..image };
    assert!(matches!(
        detector.detect_page(&short).unwrap_err(),
        LayoutError::InvalidImageBuffer { .. }
    ));
}

#[test]
fn failures_of_the_model_are_passed_on() {
    let rgb = [0; 3];
    let image = image(&rgb, 1, 1);
    let failing = |_: Vec<F32>| -> Result<(Vec<usize>, Vec<F32>), String> { Err("broken".into()) };
    let result: Result<Vec<LayoutDetection<LayoutLabel>>, LayoutError> =
        detect(&image, f(0.25), f(0.45), MODEL_IMAGE_SIZE, &failing);
    assert!(result.unwrap_err().message().contains("broken"));
    let odd = |_: Vec<F32>| -> Result<(Vec<usize>, Vec<F32>), String> { Ok((vec![2], vec![])) };
    let result: Result<Vec<LayoutDetection<LayoutLabel>>, LayoutError> =
        detect(&image, f(0.25), f(0.45), MODEL_IMAGE_SIZE, &odd);
    assert!(result.unwrap_err().message().contains("expected [1, 300, 6], got [2]"));
}

#[test]
fn options_have_defaults() {
    let options = YoloLayoutOptions::default();
    assert_eq!(value(options.confidence_threshold), 0.25);
    assert_eq!(value(options.iou_threshold), 0.45);
    assert_eq!(options.image_size, 1280);
}

#[test]
fn a_missing_model_is_named() {
    assert!(LayoutError::ModelUnavailable.message().contains("not available"));
}

#[test]
fn detections_to_blocks_assigns_reading_order_ids() {
    let blocks = detections_to_blocks(vec![
        LayoutDetection {
            label: LayoutLabel::Text,
            confidence: f(0.8),
            x: f(20.0),
            y: f(20.0),
            width: f(10.0),
            height: f(10.0),
        },
        LayoutDetection {
            label: LayoutLabel::Title,
            confidence: f(0.9),
            x: f(10.0),
            y: f(10.0),
            width: f(10.0),
            height: f(10.0),
        },
    ]);

    assert_eq!(blocks[0].label, "Title");
    assert_eq!(blocks[0].id, 0);
    assert_eq!(blocks[1].id, 1);
}

#[test]
fn overlap_is_a_share_of_the_union() {
    assert_eq!(value(iou(&candidate("a", 0.5, 0.0, 0.0), &candidate("b", 0.5, 0.0, 0.0))), 1.0);
    assert_eq!(value(iou(&candidate("a", 0.5, 0.0, 0.0), &candidate("b", 0.5, 200.0, 0.0))), 0.0);
    let half = value(iou(&candidate("a", 0.5, 0.0, 0.0), &candidate("b", 0.5, 50.0, 0.0)));
    assert_eq!(half, 5000.0f32 / 15000.0);
}

#[test]
fn rendered_pages_become_model_images() {
    let page = LayoutPageImage {
        page_index: 0,
        page_number: 1,
        rgb_bytes: vec![1, 2, 3],
        width: 1,
        height: 1,
        page_width: f(5.0),
        page_height: f(6.0),
        dpi: f(72.0),
    };
    let image = page_image(&page);
    assert_eq!(image.rgb, &[1, 2, 3]);
    assert_eq!(value(image.page_height), 6.0);
}

#[test]
fn images_of_every_shape_fit() {
    for (width, height) in [(1, 1), (1, 5000), (5000, 1), (1279, 1281), (0, 0), (0, 7), (3, 0)] {
        let letterbox = Letterbox::new(width, height, 1280);
        assert!(letterbox.resized_width <= 1280, "{width}x{height}");
        assert!(letterbox.resized_height <= 1280, "{width}x{height}");
    }
}

#[test]
fn samples_of_images_stay_inside() {
    assert!(samples_stay_inside(1, 1, 1280));
    assert!(samples_stay_inside(0, 7, 1280));
    assert!(samples_stay_inside(2480, 3508, 1280));
    assert!(samples_stay_inside(40_000_000, 2, 1280));
}
