//! Error types returned by layout detection stages.
use crate::text::to_decimal;
use vstd::prelude::*;
use vstd::string::*;

verus! {

/// Errors returned by YOLO layout preprocessing, inference, and decoding.
#[derive(Debug)]
pub enum LayoutError {
    /// RGB input length does not match `width * height * 3`.
    InvalidImageBuffer { expected: usize, actual: usize },
    /// The embedded model artifact was not generated into the build output.
    ModelUnavailable,
    /// The caller requested an input size that the embedded model does not support.
    UnsupportedImageSize { expected: u32, actual: u32 },
    /// The model output shape or tensor values could not be decoded.
    InvalidModelOutput(String),
}

impl LayoutError {
    /// The text that describes the error.
    pub open spec fn description(self) -> Seq<char> {
        match self {
            LayoutError::InvalidImageBuffer { expected, actual } =>
                "invalid RGB buffer length: expected "@ + crate::text::decimal(expected as nat)
                    + ", got "@ + crate::text::decimal(actual as nat),
            LayoutError::ModelUnavailable =>
                "layout model is not available; export the ONNX model and rebuild with model assets"@,
            LayoutError::UnsupportedImageSize { expected, actual } =>
                "unsupported YOLO layout image size: expected "@ + crate::text::decimal(
                    expected as nat,
                ) + ", got "@ + crate::text::decimal(actual as nat),
            LayoutError::InvalidModelOutput(text) => "invalid YOLO output tensor: "@ + text@,
        }
    }

    /// The text that describes the error.
    pub fn message(&self) -> (r: String)
        ensures
            r@ == self.description(),
    {
        match self {
            LayoutError::InvalidImageBuffer { expected, actual } => expected_got(
                "invalid RGB buffer length: expected ",
                *expected as u64,
                *actual as u64,
            ),
            LayoutError::ModelUnavailable =>
                "layout model is not available; export the ONNX model and rebuild with model assets".to_owned(),
            LayoutError::UnsupportedImageSize { expected, actual } => expected_got(
                "unsupported YOLO layout image size: expected ",
                *expected as u64,
                *actual as u64,
            ),
            LayoutError::InvalidModelOutput(text) => {
                let mut r: String = "invalid YOLO output tensor: ".to_owned();
                r.append(text.as_str());
                r
            },
        }
    }
}

/// A text that ends in what was expected and what came.
fn expected_got(head: &str, expected: u64, actual: u64) -> (r: String)
    ensures
        r@ == head@ + crate::text::decimal(expected as nat) + ", got "@ + crate::text::decimal(
            actual as nat,
        ),
{
    let mut r: String = head.to_owned();
    let e: String = to_decimal(expected);
    r.append(e.as_str());
    r.append(", got ");
    let a: String = to_decimal(actual);
    r.append(a.as_str());
    r
}

} // verus!
