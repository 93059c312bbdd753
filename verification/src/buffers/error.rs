use vstd::prelude::*;

verus! {

/// Failures of the buffer writer and of the bounds-checked reader.
#[derive(Debug, Clone, Copy, PartialEq, Eq, Structural)]
pub enum Error {
    InsufficientSpace,
    OutOfBounds,
    Misaligned,
    InvalidUtf8,
    InvalidPivot,
}

pub type Result<T> = core::result::Result<T, Error>;

impl Error {
    /// Human-readable description of the failure.
    pub fn message(&self) -> (r: &'static str)
        ensures
            r@ == spec_error_message(*self),
    {
        match self {
            Error::InsufficientSpace => "Insufficient space available in the buffer",
            Error::OutOfBounds => "Pointer exceeds the bounds",
            Error::Misaligned => "Pointer is Misaligned",
            Error::InvalidUtf8 => "Invalid UTF8",
            Error::InvalidPivot => "Table Pivot Value is invalid",
        }
    }
}

pub open spec fn spec_error_message(e: Error) -> Seq<char> {
    match e {
        Error::InsufficientSpace => "Insufficient space available in the buffer"@,
        Error::OutOfBounds => "Pointer exceeds the bounds"@,
        Error::Misaligned => "Pointer is Misaligned"@,
        Error::InvalidUtf8 => "Invalid UTF8"@,
        Error::InvalidPivot => "Table Pivot Value is invalid"@,
    }
}

} // verus!
