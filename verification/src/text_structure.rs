//! Kinds of markdown spans that editor commands look for around the cursor.
use vstd::prelude::*;

verus! {

/// The kind of a markdown span in a note.
#[derive(Debug, Clone, Copy, PartialEq, Eq, Structural)]
pub enum SpanKind {
    Paragraph,
    Heading,
    Bold,
    Emphasis,
    Strike,
    CodeBlock,
    List,
    ListItem,
    TaskMarker,
    Text,
}

} // verus!
