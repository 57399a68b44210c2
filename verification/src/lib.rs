pub mod config;
pub mod error;
pub mod float;
pub mod layout;
pub mod layout_annotate;
pub mod layout_bands;
pub mod layout_merge;
pub mod layout_order;
pub mod markdown_layout;
pub mod output;
pub mod parser;
pub mod pattern;
pub mod permutations;
pub mod sorting;
pub mod text;
pub mod types;
pub mod yolo;
