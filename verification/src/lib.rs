//! Style-driven conversion of DOCX documents to Markdown.
//!
//! The structure of a document is taken from what the DOCX file says of it, not
//! guessed from its text:
//!
//! - a heading is a paragraph whose style is named `heading N` in `styles.xml`, with
//!   N from 1 to 9;
//! - a list is followed from the `numPr` of a paragraph, or of its style, through
//!   `num` to the levels of an `abstractNum` in `numbering.xml`;
//! - the number of a list item or heading comes from counters that are kept for
//!   each list and level while the document is walked, and that fill in the
//!   placeholders `%1` to `%9` of the level's `lvlText`;
//! - a table becomes a Markdown table.

pub mod archive;
pub mod convert;
pub mod counters;
pub mod numbering;
pub mod numerals;
pub mod paragraph;
pub mod styles;
pub mod subtree;
pub mod table;
pub mod text;
pub mod xml;

pub use crate::convert::{convert_bytes, convert_xml, ConvertError, ConvertOptions};
