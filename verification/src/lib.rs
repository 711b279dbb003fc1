//! A canonicalizing renderer for structured markdown event streams.
//!
//! The crate walks a sequence of structural events (headings, lists,
//! emphasis, code blocks, ...) and emits normalized markup with
//! deterministic spacing, indentation and line wrapping.  The rendering
//! engine is verified: every public function carries a contract relating
//! its result to a mathematical model of the formatter.

pub mod api;
pub mod events;
pub mod formatter;
pub mod inline;
pub mod laws;
pub mod options;
pub mod parser;
pub mod paths;
pub mod reflow;
pub mod text;

pub use formatter::Formatter;
pub use options::{OrderedListMode, WrapMode};
pub use parser::{extract_frontmatter, parse_markdown};
