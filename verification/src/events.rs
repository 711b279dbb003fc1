//! Structural events: the input to the renderer.  An external event
//! source produces an ordered, properly nested sequence of these from
//! document text; the renderer consumes them once, in order.

use vstd::prelude::*;

verus! {

/// The kind of a block or inline construct that opens and closes.
#[derive(Debug)]
pub enum BlockKind {
    /// A heading with its level.
    Heading(u32),
    /// A paragraph of prose.
    Paragraph,
    /// A list; `Some(n)` for an ordered list starting at `n`, `None`
    /// for an unordered list.
    List(Option<u64>),
    /// One item of the innermost open list.
    ListItem,
    /// A blockquote.
    Blockquote,
    /// A fenced code block with its language tag, empty for none.
    CodeBlock(String),
    /// Strong emphasis.
    Strong,
    /// Emphasis.
    Emphasis,
    /// Strikethrough.
    Strikethrough,
    /// A link with its destination.
    Link(String),
    /// An image with its destination and title.
    Image(String, String),
}

/// One structural event.
#[derive(Debug)]
pub enum MdEvent {
    /// A construct opens.
    Start(BlockKind),
    /// A construct closes.
    End(BlockKind),
    /// Inline text, or verbatim content inside a code block.
    Text(String),
    /// An inline code span.
    InlineCode(String),
    /// Raw markup passed through verbatim on a block of its own.
    RawMarkup(String),
    /// An incidental source line break.
    SoftBreak,
    /// An explicit author-requested line break.
    HardBreak,
    /// A thematic break.
    Rule,
    /// A task-list marker, checked or not.
    TaskMarker(bool),
}

} // verus!
