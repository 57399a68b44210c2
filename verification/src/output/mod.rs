//! The formats that a parsed document can be written in.
pub mod json;
pub mod markdown;
