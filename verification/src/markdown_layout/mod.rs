//! The structure of a page: tables, and the hints that layout detection gives.
pub mod blocks;
pub mod borderless;
pub mod cells;
pub mod components;
pub mod hints;
pub mod merge;
pub mod recover;
pub mod ruled;
pub mod rules;
