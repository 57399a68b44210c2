//! The blocks that a page is made of.
use vstd::prelude::*;

verus! {

/// A block of a page.
#[derive(Debug)]
pub enum Block {
    Heading { level: u8, text: String },
    Paragraph { text: String, bold: bool, italic: bool },
    ListItem { text: String },
    Code { lines: Vec<String> },
    Table { header: Option<Vec<String>>, rows: Vec<Vec<String>> },
    /// What looks like a table, but not enough to be trusted as one.
    GridFallback { lines: Vec<String> },
    HorizontalRule,
    Figure { id: String },
}

/// What a block holds.
pub enum Content {
    Heading { level: u8, text: Seq<char> },
    Paragraph { text: Seq<char>, bold: bool, italic: bool },
    ListItem { text: Seq<char> },
    Code { lines: Seq<Seq<char>> },
    Table { header: Option<Seq<Seq<char>>>, rows: Seq<Seq<Seq<char>>> },
    GridFallback { lines: Seq<Seq<char>> },
    HorizontalRule,
    Figure { id: Seq<char> },
}

impl View for Block {
    type V = Content;

    open spec fn view(&self) -> Content {
        match *self {
            Block::Heading { level, text } => Content::Heading { level, text: text@ },
            Block::Paragraph { text, bold, italic } => Content::Paragraph {
                text: text@,
                bold,
                italic,
            },
            Block::ListItem { text } => Content::ListItem { text: text@ },
            Block::Code { lines } => Content::Code { lines: crate::text::texts(lines@) },
            Block::Table { header, rows } => Content::Table {
                header: match header {
                    Some(h) => Some(crate::text::texts(h@)),
                    None => None,
                },
                rows: crate::text::text_rows(rows@),
            },
            Block::GridFallback { lines } => Content::GridFallback {
                lines: crate::text::texts(lines@),
            },
            Block::HorizontalRule => Content::HorizontalRule,
            Block::Figure { id } => Content::Figure { id: id@ },
        }
    }
}

/// A contiguous tabular run: line indices `[start, end)` plus the block that they make up.
#[derive(Debug)]
pub struct TableRun {
    pub start: usize,
    pub end: usize,
    pub block: Block,
}

/// What a run holds.
pub struct Run {
    pub start: int,
    pub end: int,
    pub block: Content,
}

impl View for TableRun {
    type V = Run;

    open spec fn view(&self) -> Run {
        Run { start: self.start as int, end: self.end as int, block: self.block@ }
    }
}

/// What the runs hold.
pub open spec fn runs_of(runs: Seq<TableRun>) -> Seq<Run> {
    Seq::new(runs.len(), |i: int| runs[i]@)
}

/// The rows of a table with its header, where it has one, before them.
pub open spec fn rows_with_header(block: Content) -> Seq<Seq<Seq<char>>> {
    match block {
        Content::Table { header: Some(h), rows } => seq![h] + rows,
        Content::Table { header: None, rows } => rows,
        _ => Seq::empty(),
    }
}

} // verus!
