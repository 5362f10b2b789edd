//! Decode errors for the memory-map sections and sub-sections.

use vstd::prelude::*;

verus! {

/// Why a span could not be decoded.
#[derive(Debug, PartialEq, Eq, Clone, Copy)]
pub enum ParserError {
    /// A section header span could not be decoded.
    InvalidMemoryMapSection,
    /// A sub-section record span could not be decoded.
    InvalidMemoryMapSubSection,
}

impl ParserError {
    /// A short description of the error.
    pub fn message(&self) -> (r: &'static str)
        ensures
            *self is InvalidMemoryMapSection ==> r@ == "Invalid memory map section"@,
            *self is InvalidMemoryMapSubSection ==> r@ == "Invalid memory map sub-section"@,
    {
        match self {
            ParserError::InvalidMemoryMapSection => "Invalid memory map section",
            ParserError::InvalidMemoryMapSubSection => "Invalid memory map sub-section",
        }
    }
}

} // verus!
