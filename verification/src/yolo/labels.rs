//! Typed model labels and label conversion helpers.
use crate::text::{same_text, to_decimal};
use std::str::FromStr;
use vstd::prelude::*;
use vstd::string::*;

verus! {

/// Strongly typed YOLO document layout label.
#[derive(Clone, Copy, Debug, PartialEq, Eq, Hash, Structural)]
pub enum LayoutLabel {
    /// Text describing another page element.
    Caption,
    /// Footnote text near the page bottom.
    Footnote,
    /// Mathematical formula region.
    Formula,
    /// Bullet, numbered, or otherwise list-like item.
    ListItem,
    /// Repeated footer region.
    PageFooter,
    /// Repeated header region.
    PageHeader,
    /// Figure, image, chart, or other picture region.
    Picture,
    /// Section heading below the document title level.
    SectionHeader,
    /// Tabular region.
    Table,
    /// Main body text region.
    Text,
    /// Document or page title region.
    Title,
}

/// YOLO document layout labels in model class-id order.
pub const LAYOUT_LABELS: [LayoutLabel; 11] = [
    LayoutLabel::Caption,
    LayoutLabel::Footnote,
    LayoutLabel::Formula,
    LayoutLabel::ListItem,
    LayoutLabel::PageFooter,
    LayoutLabel::PageHeader,
    LayoutLabel::Picture,
    LayoutLabel::SectionHeader,
    LayoutLabel::Table,
    LayoutLabel::Text,
    LayoutLabel::Title,
];

/// Error returned when converting an unknown value into a layout label.
#[derive(Clone, Debug, PartialEq, Eq)]
pub enum LayoutLabelError {
    /// Class id is outside the model label table.
    UnknownClassId(usize),
    /// Label string does not match one of the public PascalCase names.
    UnknownLabel(String),
}

impl LayoutLabelError {
    /// The text that describes the error.
    pub open spec fn description(self) -> Seq<char> {
        match self {
            LayoutLabelError::UnknownClassId(id) => "unknown YOLO layout class id: "@
                + crate::text::decimal(id as nat),
            LayoutLabelError::UnknownLabel(label) => "unknown YOLO layout label: "@ + label@,
        }
    }

    /// The text that describes the error.
    pub fn message(&self) -> (r: String)
        ensures
            r@ == self.description(),
    {
        match self {
            LayoutLabelError::UnknownClassId(id) => {
                let mut r: String = "unknown YOLO layout class id: ".to_owned();
                let n: String = to_decimal(*id as u64);
                r.append(n.as_str());
                r
            },
            LayoutLabelError::UnknownLabel(label) => {
                let mut r: String = "unknown YOLO layout label: ".to_owned();
                r.append(label.as_str());
                r
            },
        }
    }
}

impl LayoutLabel {
    /// The class id that the model gives the label.
    pub open spec fn class_id(self) -> int {
        match self {
            LayoutLabel::Caption => 0,
            LayoutLabel::Footnote => 1,
            LayoutLabel::Formula => 2,
            LayoutLabel::ListItem => 3,
            LayoutLabel::PageFooter => 4,
            LayoutLabel::PageHeader => 5,
            LayoutLabel::Picture => 6,
            LayoutLabel::SectionHeader => 7,
            LayoutLabel::Table => 8,
            LayoutLabel::Text => 9,
            LayoutLabel::Title => 10,
        }
    }

    /// The public name of the label.
    pub open spec fn name(self) -> Seq<char> {
        match self {
            LayoutLabel::Caption => "Caption"@,
            LayoutLabel::Footnote => "Footnote"@,
            LayoutLabel::Formula => "Formula"@,
            LayoutLabel::ListItem => "ListItem"@,
            LayoutLabel::PageFooter => "PageFooter"@,
            LayoutLabel::PageHeader => "PageHeader"@,
            LayoutLabel::Picture => "Picture"@,
            LayoutLabel::SectionHeader => "SectionHeader"@,
            LayoutLabel::Table => "Table"@,
            LayoutLabel::Text => "Text"@,
            LayoutLabel::Title => "Title"@,
        }
    }

    /// Return the number of layout classes emitted by the YOLO model.
    pub fn class_count() -> (r: usize)
        ensures
            r == 11,
            r == LAYOUT_LABELS@.len(),
    {
        LAYOUT_LABELS.len()
    }

    /// Return the stable string representation used by the YOLO model.
    pub fn as_str(self) -> (r: &'static str)
        ensures
            r@ == self.name(),
    {
        match self {
            LayoutLabel::Caption => "Caption",
            LayoutLabel::Footnote => "Footnote",
            LayoutLabel::Formula => "Formula",
            LayoutLabel::ListItem => "ListItem",
            LayoutLabel::PageFooter => "PageFooter",
            LayoutLabel::PageHeader => "PageHeader",
            LayoutLabel::Picture => "Picture",
            LayoutLabel::SectionHeader => "SectionHeader",
            LayoutLabel::Table => "Table",
            LayoutLabel::Text => "Text",
            LayoutLabel::Title => "Title",
        }
    }

    /// The color that marks the label in debug output.
    pub open spec fn debug_color(self) -> Seq<u8> {
        match self {
            LayoutLabel::Caption => seq![0x2Au8, 0x9D, 0x8F, 255],
            LayoutLabel::Footnote => seq![0xF4u8, 0x43, 0x36, 255],
            LayoutLabel::Formula => seq![0xABu8, 0x47, 0xBC, 255],
            LayoutLabel::ListItem => seq![0x03u8, 0xA9, 0xF4, 255],
            LayoutLabel::PageFooter => seq![0x8Du8, 0x6E, 0x63, 255],
            LayoutLabel::PageHeader => seq![0xFFu8, 0x8F, 0x00, 255],
            LayoutLabel::Picture => seq![0x9Eu8, 0x9E, 0x9E, 255],
            LayoutLabel::SectionHeader => seq![0x8Eu8, 0x24, 0xAA, 255],
            LayoutLabel::Table => seq![0x00u8, 0x96, 0x88, 255],
            LayoutLabel::Text => seq![0x43u8, 0xA0, 0x47, 255],
            LayoutLabel::Title => seq![0x7Cu8, 0x4D, 0xFF, 255],
        }
    }

    /// Return the deterministic debug RGBA color for this layout label.
    pub fn debug_color_rgba(self) -> (r: [u8; 4])
        ensures
            r@ == self.debug_color(),
    {
        let r: [u8; 4] = match self {
            LayoutLabel::Caption => [0x2A, 0x9D, 0x8F, 255],
            LayoutLabel::Footnote => [0xF4, 0x43, 0x36, 255],
            LayoutLabel::Formula => [0xAB, 0x47, 0xBC, 255],
            LayoutLabel::ListItem => [0x03, 0xA9, 0xF4, 255],
            LayoutLabel::PageFooter => [0x8D, 0x6E, 0x63, 255],
            LayoutLabel::PageHeader => [0xFF, 0x8F, 0x00, 255],
            LayoutLabel::Picture => [0x9E, 0x9E, 0x9E, 255],
            LayoutLabel::SectionHeader => [0x8E, 0x24, 0xAA, 255],
            LayoutLabel::Table => [0x00, 0x96, 0x88, 255],
            LayoutLabel::Text => [0x43, 0xA0, 0x47, 255],
            LayoutLabel::Title => [0x7C, 0x4D, 0xFF, 255],
        };
        assert(r@ =~= self.debug_color());
        r
    }

    /// The label with a class id.
    pub open spec fn of_class(id: int) -> Option<LayoutLabel> {
        if 0 <= id < 11 {
            Some(LAYOUT_LABELS@[id])
        } else {
            None
        }
    }

    /// Whether a text is the public name of some label.
    pub open spec fn is_name(text: Seq<char>) -> bool {
        exists|label: LayoutLabel| #[trigger] label.name() == text
    }

    /// Parse a public PascalCase layout label into a typed layout label.
    pub fn from_name(value: &str) -> (r: Result<LayoutLabel, LayoutLabelError>)
        ensures
            match r {
                Ok(label) => label.name() == value@,
                Err(error) => !LayoutLabel::is_name(value@)
                    && (error matches LayoutLabelError::UnknownLabel(text) && text@ == value@),
            },
    {
        let mut i: usize = 0;
        while i < 11
            invariant
                i <= 11,
                forall|k: int| 0 <= k < i ==> (#[trigger] LAYOUT_LABELS@[k]).name() != value@,
            decreases 11 - i,
        {
            let label: LayoutLabel = LAYOUT_LABELS[i];
            if same_text(label.as_str(), value) {
                return Ok(label);
            }
            i = i + 1;
        }
        assert forall|label: LayoutLabel| #[trigger] label.name() != value@ by {
            class_ids_round_trip(label);
        }
        Err(LayoutLabelError::UnknownLabel(value.to_owned()))
    }
}

/// The label of a label's class id is the label.
pub proof fn class_ids_round_trip(label: LayoutLabel)
    ensures
        0 <= label.class_id() < 11,
        LAYOUT_LABELS@[label.class_id()] == label,
        LayoutLabel::of_class(label.class_id()) == Some(label),
{
}

/// Different labels have different names.
pub proof fn names_are_distinct(a: LayoutLabel, b: LayoutLabel)
    requires
        a.name() == b.name(),
    ensures
        a == b,
{
    reveal_strlit("Caption");
    reveal_strlit("Footnote");
    reveal_strlit("Formula");
    reveal_strlit("ListItem");
    reveal_strlit("PageFooter");
    reveal_strlit("PageHeader");
    reveal_strlit("Picture");
    reveal_strlit("SectionHeader");
    reveal_strlit("Table");
    reveal_strlit("Text");
    reveal_strlit("Title");
    assert("Caption"@.len() == 7);
    assert("Footnote"@.len() == 8);
    assert("Formula"@.len() == 7);
    assert("ListItem"@.len() == 8);
    assert("PageFooter"@.len() == 10);
    assert("PageHeader"@.len() == 10);
    assert("Picture"@.len() == 7);
    assert("SectionHeader"@.len() == 13);
    assert("Table"@.len() == 5);
    assert("Text"@.len() == 4);
    assert("Title"@.len() == 5);
    assert("Caption"@[0] == 'C');
    assert("Formula"@[0] == 'F');
    assert("Picture"@[0] == 'P');
    assert("Footnote"@[0] == 'F');
    assert("ListItem"@[0] == 'L');
    assert("PageFooter"@[4] == 'F');
    assert("PageHeader"@[4] == 'H');
    assert("Table"@[1] == 'a');
    assert("Title"@[1] == 'i');
    let x = a.name();
    let y = b.name();
    assert(x.len() == y.len() && x[0] == y[0] && x[1] == y[1] && x[4] == y[4]);
}

impl TryFrom<usize> for LayoutLabel {
    type Error = LayoutLabelError;

    /// Convert a model class id into a typed layout label.
    fn try_from(value: usize) -> (r: Result<Self, Self::Error>) {
        if value < 11 {
            Ok(LAYOUT_LABELS[value])
        } else {
            Err(LayoutLabelError::UnknownClassId(value))
        }
    }
}

impl vstd::std_specs::convert::TryFromSpecImpl<usize> for LayoutLabel {
    open spec fn obeys_try_from_spec() -> bool {
        true
    }

    open spec fn try_from_spec(v: usize) -> Result<Self, Self::Error> {
        match LayoutLabel::of_class(v as int) {
            Some(label) => Ok(label),
            None => Err(LayoutLabelError::UnknownClassId(v)),
        }
    }
}

impl FromStr for LayoutLabel {
    type Err = LayoutLabelError;

    /// Parse a public PascalCase layout label into a typed layout label.
    fn from_str(value: &str) -> (r: Result<Self, Self::Err>)
        ensures
            match r {
                Ok(label) => label.name() == value@,
                Err(error) => !LayoutLabel::is_name(value@)
                    && (error matches LayoutLabelError::UnknownLabel(text) && text@ == value@),
            },
    {
        LayoutLabel::from_name(value)
    }
}

impl<'a> TryFrom<&'a str> for LayoutLabel {
    type Error = LayoutLabelError;

    /// Convert a model label string into a typed layout label.
    fn try_from(value: &'a str) -> (r: Result<Self, Self::Error>)
        ensures
            match r {
                Ok(label) => label.name() == value@,
                Err(error) => !LayoutLabel::is_name(value@)
                    && (error matches LayoutLabelError::UnknownLabel(text) && text@ == value@),
            },
    {
        LayoutLabel::from_name(value)
    }
}

impl<'a> vstd::std_specs::convert::TryFromSpecImpl<&'a str> for LayoutLabel {
    open spec fn obeys_try_from_spec() -> bool {
        false
    }

    open spec fn try_from_spec(v: &'a str) -> Result<Self, Self::Error> {
        arbitrary()
    }
}

impl From<LayoutLabel> for String {
    /// Convert a typed layout label into the public string representation.
    fn from(value: LayoutLabel) -> (r: String)
        ensures
            r@ == value.name(),
    {
        value.as_str().to_owned()
    }
}

impl vstd::std_specs::convert::FromSpecImpl<LayoutLabel> for String {
    open spec fn obeys_from_spec() -> bool {
        false
    }

    open spec fn from_spec(v: LayoutLabel) -> String {
        arbitrary()
    }
}

} // verus!
