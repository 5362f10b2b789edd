//! Decoder for the textual memory-map report emitted by a linker.
//!
//! The crate splits a map document into its named top-level sections, decodes
//! the "Linker script and memory map" section into segments and records, and
//! rolls record sizes up by originating object file.  All parsing is done by
//! small named pattern matchers over character sequences, each verified
//! against a specification-level grammar.

pub mod driver;
pub mod entry;
pub mod errors;
pub mod fill;
pub mod grammar;
pub mod lex;
pub mod object;
pub mod section;
pub mod segment;
pub mod subsection;

pub use driver::Parser;
pub use driver::Section;
pub use errors::ParserError;
