//! Document layout detection: labels, image preparation, decoding of the model's output.
pub mod build_support;
pub mod detector;
pub mod error;
pub mod labels;
pub mod model;
pub mod postprocess;
pub mod preprocess;
pub mod types;
