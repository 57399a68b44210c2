//! Shared input and output data types.
use crate::float::F32;
use crate::layout_order::{xy_cut, Placed, PlacedValue};
use crate::sorting::{Key, Keyed, KeyedValue};
use crate::types::Rect;
use vstd::prelude::*;

verus! {

/// Borrowed page image input and corresponding PDF page dimensions.
///
/// The RGB buffer must be tightly packed as `width * height * 3` bytes. Page
/// dimensions are in PDF points and are used when detections are restored from
/// rendered pixels back into parser coordinates.
#[derive(Clone, Copy, Debug)]
pub struct PageImage<'a> {
    /// Tightly packed RGB pixels in row-major order.
    pub rgb: &'a [u8],
    /// Rendered image width in pixels.
    pub width: u32,
    /// Rendered image height in pixels.
    pub height: u32,
    /// PDF page width in points.
    pub page_width: F32,
    /// PDF page height in points.
    pub page_height: F32,
    /// Render DPI used to map pixels back into page coordinates.
    pub dpi: F32,
}

/// Page-space layout detection returned by the YOLO detector.
///
/// Coordinates use the same top-left-origin PDF point space as text
/// items, making detections directly comparable with extracted text boxes.
#[derive(Debug)]
pub struct LayoutDetection<L> {
    /// Layout class predicted by the YOLO model.
    pub label: L,
    /// Model confidence score for the predicted label.
    pub confidence: F32,
    /// Left position in PDF page coordinates.
    pub x: F32,
    /// Top position in PDF page coordinates.
    pub y: F32,
    /// Detection width in PDF page coordinates.
    pub width: F32,
    /// Detection height in PDF page coordinates.
    pub height: F32,
}

/// Where no cut is found, detections are ordered from the top, then from the left.
impl<L> Keyed for LayoutDetection<L> {
    open spec fn key(self) -> Key {
        Key { first: self.y.rank() as i64, second: self.x.rank() as i64, third: 0 }
    }
}

impl<L> KeyedValue for LayoutDetection<L> {
    fn key_of(&self) -> (k: Key) {
        Key { first: self.y.total_rank(), second: self.x.total_rank(), third: 0 }
    }
}

impl<L> Placed for LayoutDetection<L> {
    open spec fn place(self) -> Rect {
        Rect { x: self.x, y: self.y, width: self.width, height: self.height }
    }
}

impl<L> PlacedValue for LayoutDetection<L> {
    fn place_of(&self) -> (r: Rect) {
        Rect { x: self.x, y: self.y, width: self.width, height: self.height }
    }
}

/// Sort YOLO detections using a recursive XY-cut over their page-space boxes.
///
/// The returned order is intended to approximate human reading order for
/// layout regions. In particular, multi-column pages should read a full left
/// column before moving to the right column.
pub fn order_layout_detections_xy_cut<L>(detections: Vec<LayoutDetection<L>>) -> (r: Vec<
    LayoutDetection<L>,
>)
    ensures
        r@ == crate::layout_order::reading_order(detections@),
{
    xy_cut(detections)
}

} // verus!
