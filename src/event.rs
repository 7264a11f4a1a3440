//! The structural events that a YAML parser reports.

use vstd::prelude::*;

verus! {

/// How a scalar was written in the source.
#[derive(Debug, PartialEq, Eq)]
pub enum ScalarStyle {
    Plain,
    SingleQuoted,
    DoubleQuoted,
    /// A `|` block.
    Literal,
    /// A `>` block.
    Folded,
}

/// An explicit tag: a handle and a suffix.
#[derive(Debug, PartialEq, Eq)]
pub struct Tag {
    pub handle: String,
    pub suffix: String,
}

/// One structural signal of the event stream. Anchor ids are positive; 0 means "not anchored".
#[derive(Debug, PartialEq, Eq)]
pub enum Event {
    Nothing,
    StreamStart,
    StreamEnd,
    DocumentStart,
    DocumentEnd,
    /// A reference to an earlier anchor.
    Alias(usize),
    /// Text, style, anchor id and tag.
    Scalar(String, ScalarStyle, usize, Option<Tag>),
    /// Anchor id.
    SequenceStart(usize),
    SequenceEnd,
    /// Anchor id.
    MappingStart(usize),
    MappingEnd,
}

} // verus!
