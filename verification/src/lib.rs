//! Huon: an indentation-structured, human-readable document format.
//!
//! A document is a sequence of `key:` lines. Behind a key stands a scalar or
//! a bracketed list on the same line, or a nested block on lines of its own,
//! indented one unit deeper.
//!
//! - [`tokenizer`] scans text into tokens, and says what the text of tokens
//!   is.
//! - [`parser`] builds the tree of values from the tokens. Its grammar is a
//!   set of functions on sequences of tokens; the parser is proved to compute
//!   them, and they are proved to read well-formed documents as what they
//!   hold, whatever the width of the indent unit.
//! - [`de`] hands the values of a tree to a record, shape by shape.
//! - [`ser`] writes the text of a document, key by key and value by value.
//! - [`round_trip`] proves that what is written is read back.

use vstd::prelude::*;

pub mod de;
pub mod parser;
pub mod round_trip;
pub mod ser;
pub mod tokenizer;

verus! {

/// How the entries of a list are separated when a list is written.
#[derive(Debug, Clone, Copy, PartialEq, Eq, PartialOrd, Ord, Hash)]
pub enum ListCommaStyle {
    /// No commas at all
    NoCommas,
    /// Basic, in between every entry
    Basic,
    /// In between every entry and at the end
    Trailing,
}

/// What governs the writing of a document.
#[derive(Debug, Clone, Copy, PartialEq, Eq, PartialOrd, Ord, Hash)]
pub struct EncoderOptions {
    /// The number of spaces of one nesting level.
    pub indent: u8,
    pub list_comma_style: ListCommaStyle,
}

impl Default for EncoderOptions {
    fn default() -> (options: Self)
        ensures
            options.indent == 4,
            options.list_comma_style == ListCommaStyle::NoCommas,
    {
        Self { list_comma_style: ListCommaStyle::NoCommas, indent: 4 }
    }
}

/// What governs the reading of a document.
#[derive(Debug, Clone, Copy, PartialEq, Eq, PartialOrd, Ord, Hash)]
pub struct DecoderOptions {
    /// The number of spaces of one nesting level; at least one.
    pub indent: u8,
}

impl Default for DecoderOptions {
    fn default() -> (options: Self)
        ensures
            options.indent == 4,
    {
        Self { indent: 4 }
    }
}

} // verus!
