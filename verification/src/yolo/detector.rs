//! Detector options, and what surrounds a run of the model.
use super::error::LayoutError;
use super::labels::LayoutLabel;
use super::model::detect;
use super::preprocess::validate_page_image;
use super::types::{order_layout_detections_xy_cut, LayoutDetection, PageImage};
use crate::float::F32;
use crate::layout::LayoutPageImage;
use crate::types::LayoutBlock;
use vstd::prelude::*;

verus! {

/// Options of the layout detector.
#[derive(Clone, Copy, Debug)]
pub struct YoloLayoutOptions {
    /// The least confidence of a detection.
    pub confidence_threshold: F32,
    /// The overlap above which the less confident of two detections is dropped.
    pub iou_threshold: F32,
    /// The side of the model's input, in pixels.
    pub image_size: u32,
}

impl Default for YoloLayoutOptions {
    fn default() -> (r: Self)
        ensures
            r.confidence_threshold == F32::ratio(1, 4),
            r.iou_threshold == F32::ratio(45, 100),
            r.image_size == 1280,
    {
        YoloLayoutOptions {
            confidence_threshold: F32::fraction(1, 4),
            iou_threshold: F32::fraction(45, 100),
            image_size: 1280,
        }
    }
}

/// Detects layout regions with a model. `M` runs the model on an input and gives the shape and the
/// values of its output.
pub struct YoloLayoutDetector<M> {
    model: M,
    options: YoloLayoutOptions,
}

impl<M> YoloLayoutDetector<M> {
    /// What runs the model.
    pub closed spec fn runs(self) -> M {
        self.model
    }

    /// The options.
    pub closed spec fn chosen(self) -> YoloLayoutOptions {
        self.options
    }

    /// Create a YOLO layout detector.
    pub fn new(model: M, options: YoloLayoutOptions) -> (r: Self)
        ensures
            r.runs() == model,
            r.chosen() == options,
    {
        YoloLayoutDetector { model, options }
    }
}

impl<M> YoloLayoutDetector<M> where
    M: Fn(Vec<F32>) -> Result<(Vec<usize>, Vec<F32>), String>,
 {
    /// Detect document layout regions for one rendered page image: the pixels are checked first,
    /// then the input size.
    pub fn detect_page(&self, image: &PageImage<'_>) -> (r: Result<
        Vec<LayoutDetection<LayoutLabel>>,
        LayoutError,
    >)
        requires
            super::preprocess::rgb_length(image.width, image.height) <= usize::MAX,
            self.chosen().image_size == super::model::MODEL_IMAGE_SIZE && image.rgb@.len()
                == super::preprocess::rgb_length(image.width, image.height)
                ==> super::preprocess::is_sampled_inside(
                image.width,
                image.height,
                super::model::MODEL_IMAGE_SIZE,
            ),
            forall|input: Vec<F32>| call_requires(self.runs(), (input,)),
            forall|input: Vec<F32>, shape: Vec<usize>, values: Vec<F32>|
                #[trigger] call_ensures(self.runs(), (input,), Ok((shape, values))) && shape@
                    == seq![1usize, 300, 6] ==> super::model::confidences_are_numbers(values@),
        ensures
            if image.rgb@.len() != super::preprocess::rgb_length(image.width, image.height) {
                r == Err::<Vec<LayoutDetection<LayoutLabel>>, LayoutError>(
                    LayoutError::InvalidImageBuffer {
                        expected: super::preprocess::rgb_length(
                            image.width,
                            image.height,
                        ) as usize,
                        actual: image.rgb@.len() as usize,
                    },
                )
            } else if self.chosen().image_size != super::model::MODEL_IMAGE_SIZE {
                r == Err::<Vec<LayoutDetection<LayoutLabel>>, LayoutError>(
                    LayoutError::UnsupportedImageSize {
                        expected: super::model::MODEL_IMAGE_SIZE,
                        actual: self.chosen().image_size,
                    },
                )
            } else {
                super::model::is_detect_result(
                    *image,
                    self.chosen().confidence_threshold,
                    self.chosen().iou_threshold,
                    self.runs(),
                    r,
                )
            },
    {
        let ghost infer = self.model;
        assert(infer == self.runs());
        assert forall|input: Vec<F32>, shape: Vec<usize>, values: Vec<F32>|
            #[trigger] call_ensures(infer, (input,), Ok((shape, values))) && shape@
                == seq![1usize, 300, 6] implies super::model::confidences_are_numbers(values@) by {
            assert(call_ensures(self.runs(), (input,), Ok((shape, values))));
        }
        match validate_page_image(image) {
            Err(error) => Err(error),
            Ok(()) => detect(
                image,
                self.options.confidence_threshold,
                self.options.iou_threshold,
                self.options.image_size,
                &self.model,
            ),
        }
    }
}

/// Borrow a rendered page image as the detector's input.
pub fn page_image(page: &LayoutPageImage) -> (r: PageImage<'_>)
    ensures
        r.rgb@ == page.rgb_bytes@,
        r.width == page.width,
        r.height == page.height,
        r.page_width == page.page_width,
        r.page_height == page.page_height,
        r.dpi == page.dpi,
{
    PageImage {
        rgb: page.rgb_bytes.as_slice(),
        width: page.width,
        height: page.height,
        page_width: page.page_width,
        page_height: page.page_height,
        dpi: page.dpi,
    }
}

/// Whether a block is a detection under an id.
pub open spec fn is_block_of(block: LayoutBlock, detection: LayoutDetection<LayoutLabel>, id: int) -> bool {
    block.id == id && block.label@ == detection.label.name() && block.confidence
        == detection.confidence && block.x == detection.x && block.y == detection.y && block.width
        == detection.width && block.height == detection.height
}

/// Convert YOLO detections into stable page-local layout blocks, in reading order.
pub fn detections_to_blocks(detections: Vec<LayoutDetection<LayoutLabel>>) -> (r: Vec<LayoutBlock>)
    ensures
        r@.len() == detections@.len(),
        forall|i: int|
            0 <= i < r@.len() ==> is_block_of(
                #[trigger] r@[i],
                crate::layout_order::reading_order(detections@)[i],
                i,
            ),
{
    proof {
        crate::layout_order::reading_order_permutes(detections@);
    }
    let ordered: Vec<LayoutDetection<LayoutLabel>> = order_layout_detections_xy_cut(detections);
    let mut blocks: Vec<LayoutBlock> = Vec::new();
    let mut id: usize = 0;
    while id < ordered.len()
        invariant
            id <= ordered@.len(),
            blocks@.len() == id,
            forall|i: int| 0 <= i < id ==> is_block_of(#[trigger] blocks@[i], ordered@[i], i),
        decreases ordered@.len() - id,
    {
        let detection: &LayoutDetection<LayoutLabel> = &ordered[id];
        blocks.push(
            LayoutBlock {
                id,
                label: String::from(detection.label),
                confidence: detection.confidence,
                x: detection.x,
                y: detection.y,
                width: detection.width,
                height: detection.height,
            },
        );
        id = id + 1;
    }
    blocks
}

} // verus!
