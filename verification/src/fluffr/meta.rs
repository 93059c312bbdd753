//! How the fields of a table are classified.

use vstd::prelude::*;

verus! {

/// The kind of a table field.
#[derive(PartialEq, Debug)]
pub enum FieldCategory {
    List(Box<FieldCategory>),
    Union,
    Table,
    FileBlob,
    String,
    Inline,
}

/// How much work a field of this kind takes to write: inline 0, table 1, union 2,
/// string and file blob 3, and a list 4 more than its element.
pub open spec fn complexity_of(c: FieldCategory) -> nat
    decreases c,
{
    match c {
        FieldCategory::Inline => 0,
        FieldCategory::Table => 1,
        FieldCategory::Union => 2,
        FieldCategory::String => 3,
        FieldCategory::FileBlob => 3,
        FieldCategory::List(inner) => 4 + complexity_of(*inner),
    }
}

impl FieldCategory {
    pub fn complexity(&self) -> (r: u32)
        requires
            complexity_of(*self) <= u32::MAX,
        ensures
            r == complexity_of(*self),
        decreases *self,
    {
        match self {
            FieldCategory::Inline => 0,
            FieldCategory::Table => 1,
            FieldCategory::Union => 2,
            FieldCategory::String => 3,
            FieldCategory::FileBlob => 3,
            FieldCategory::List(inner) => 4 + inner.complexity(),
        }
    }

    /// Whether the field is stored behind an offset (everything but inline).
    pub fn is_indirect(&self) -> (r: bool)
        ensures
            r == !(*self is Inline),
    {
        !matches!(self, FieldCategory::Inline)
    }

    /// Whether the field can serve as a key: inline values and strings.
    pub fn can_key(&self) -> (r: bool)
        ensures
            r == (*self is Inline || *self is String),
    {
        matches!(self, FieldCategory::Inline | FieldCategory::String)
    }
}

} // verus!
