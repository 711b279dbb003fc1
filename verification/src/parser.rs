//! The boundary to the structural event source, and front-matter
//! handling.
//!
//! `parse_markdown` turns document text into the crate's structural
//! events through pulldown-cmark; what that parser returns is named by
//! the uninterpreted function [`events_of`], so every caller's contract
//! is stated over it.  `extract_frontmatter` is the crate's own logic
//! and fully verified.

use pulldown_cmark::{CodeBlockKind, Event, Tag};
use vstd::prelude::*;
use vstd::string::StringExecFns;
use crate::events::{BlockKind, MdEvent};
use crate::text::{chars_vec, string_of, subvec};

verus! {

/// The opening front-matter delimiter, a line of three dashes.
pub open spec fn fm_open() -> Seq<char> {
    seq!['-', '-', '-', '\n']
}

/// The closing front-matter delimiter with the newline that precedes it.
pub open spec fn fm_close() -> Seq<char> {
    seq!['\n', '-', '-', '-', '\n']
}

/// The first position at or after `i` where the closing delimiter
/// starts, or -1 when there is none.
pub open spec fn fm_find(s: Seq<char>, i: int) -> int
    decreases s.len() - i,
{
    if i < 0 || i + 5 > s.len() {
        -1
    } else if s.subrange(i, i + 5) == fm_close() {
        i
    } else {
        fm_find(s, i + 1)
    }
}

/// The document starts with a front-matter block: the opening
/// delimiter, then a closing delimiter somewhere after it.
pub open spec fn has_frontmatter(s: Seq<char>) -> bool {
    s.len() >= 4 && s.subrange(0, 4) == fm_open() && fm_find(s, 4) >= 0
}

/// The front-matter block as it is reattached: everything up to the
/// closing delimiter, the delimiter itself, and one blank line.
pub open spec fn frontmatter_of(s: Seq<char>) -> Seq<char> {
    s.subrange(0, fm_find(s, 4)) + seq!['\n', '-', '-', '-', '\n', '\n']
}

/// The document body that follows the front-matter block.
pub open spec fn body_of(s: Seq<char>) -> Seq<char> {
    s.subrange(fm_find(s, 4) + 5, s.len() as int)
}

/// Splits an optional front-matter block from the document body.  The
/// block is returned verbatim with its delimiters and a trailing blank
/// line; without one, the whole input is the body.
pub fn extract_frontmatter(input: &str) -> (r: (Option<String>, String))
    ensures
        has_frontmatter(input@) ==> (match r.0 {
            Some(fm) => fm@ == frontmatter_of(input@),
            None => false,
        }) && r.1@ == body_of(input@),
        !has_frontmatter(input@) ==> r.0 is None && r.1@ == input@,
{
    let cs = chars_vec(input);
    if cs.len() < 4 || cs[0] != '-' || cs[1] != '-' || cs[2] != '-' || cs[3] != '\n' {
        proof {
            if input@.len() >= 4 {
                assert(input@.subrange(0, 4) != fm_open()) by {
                    if input@.subrange(0, 4) == fm_open() {
                        assert(input@.subrange(0, 4)[0] == '-');
                        assert(input@.subrange(0, 4)[1] == '-');
                        assert(input@.subrange(0, 4)[2] == '-');
                        assert(input@.subrange(0, 4)[3] == '\n');
                    }
                }
            }
        }
        return (None, String::from_str(input));
    }
    proof {
        assert(input@.subrange(0, 4) =~= fm_open());
    }
    let mut j: usize = 4;
    while j < cs.len() && cs.len() - j >= 5
        invariant
            4 <= j,
            j <= cs@.len() + 5,
            cs@ == input@,
            input@.subrange(0, 4) == fm_open(),
            fm_find(input@, 4) == fm_find(input@, j as int),
        decreases cs@.len() - j,
    {
        let hit = cs[j] == '\n' && cs[j + 1] == '-' && cs[j + 2] == '-' && cs[j + 3] == '-'
            && cs[j + 4] == '\n';
        proof {
            if hit {
                assert(input@.subrange(j as int, j + 5) =~= fm_close());
            } else {
                assert(input@.subrange(j as int, j + 5) != fm_close()) by {
                    if input@.subrange(j as int, j + 5) == fm_close() {
                        assert(input@.subrange(j as int, j + 5)[0] == '\n');
                        assert(input@.subrange(j as int, j + 5)[1] == '-');
                        assert(input@.subrange(j as int, j + 5)[2] == '-');
                        assert(input@.subrange(j as int, j + 5)[3] == '-');
                        assert(input@.subrange(j as int, j + 5)[4] == '\n');
                    }
                }
            }
        }
        if hit {
            let mut fmv = subvec(&cs, 0, j);
            fmv.push('\n');
            fmv.push('-');
            fmv.push('-');
            fmv.push('-');
            fmv.push('\n');
            fmv.push('\n');
            let body = subvec(&cs, j + 5, cs.len());
            proof {
                assert(fm_find(input@, j as int) == j);
                assert(input@.subrange(0, 4) == fm_open());
                assert(has_frontmatter(input@));
                assert(fmv@ =~= frontmatter_of(input@));
                assert(body@ =~= body_of(input@));
            }
            return (Some(string_of(&fmv)), string_of(&body));
        }
        j += 1;
    }
    proof {
        assert(fm_find(input@, j as int) == -1);
        assert(!has_frontmatter(input@));
    }
    (None, String::from_str(input))
}

/// What the structural event source produces for a document: the
/// result depends on the text alone.
pub uninterp spec fn events_of(s: Seq<char>) -> Seq<MdEvent>;

/// Relies on pulldown_cmark::Parser: tokenizes markdown text into a
/// properly nested event stream, a pure function of the text.  The
/// stream is carried over into the crate's own events; constructs the
/// renderer leaves unchanged (footnotes, tables) are dropped.
#[verifier::external_body]
pub fn parse_markdown(input: &str) -> (r: Vec<MdEvent>)
    ensures
        r@ == events_of(input@),
{
    pulldown_cmark::Parser::new(input).filter_map(md_event_of).collect()
}

#[verifier::external_type_specification]
#[verifier::external_body]
pub struct ExEvent<'a>(pulldown_cmark::Event<'a>);

#[verifier::external_type_specification]
#[verifier::external_body]
pub struct ExTag<'a>(pulldown_cmark::Tag<'a>);

#[verifier::external_type_specification]
#[verifier::external_body]
pub struct ExCodeBlockKind<'a>(pulldown_cmark::CodeBlockKind<'a>);

/// Relies on pulldown_cmark::Event: one arm per variant, moving the
/// payload into the crate's own event type.
#[verifier::external_body]
fn md_event_of(e: Event) -> (r: Option<MdEvent>) {
    match e {
        Event::Start(t) => kind_of(t).map(MdEvent::Start),
        Event::End(t) => kind_of(t).map(MdEvent::End),
        Event::Text(s) => Some(MdEvent::Text(s.to_string())),
        Event::Code(s) => Some(MdEvent::InlineCode(s.to_string())),
        Event::Html(s) => Some(MdEvent::RawMarkup(s.to_string())),
        Event::SoftBreak => Some(MdEvent::SoftBreak),
        Event::HardBreak => Some(MdEvent::HardBreak),
        Event::Rule => Some(MdEvent::Rule),
        Event::TaskListMarker(b) => Some(MdEvent::TaskMarker(b)),
        Event::FootnoteReference(_) => None,
    }
}

/// Relies on pulldown_cmark::Tag: one arm per block-level variant,
/// moving fields; inline variants are handed on.
#[verifier::external_body]
fn kind_of(t: Tag) -> (r: Option<BlockKind>) {
    match t {
        Tag::Paragraph => Some(BlockKind::Paragraph),
        Tag::Heading(l, _, _) => Some(BlockKind::Heading(l as u32)),
        Tag::BlockQuote => Some(BlockKind::Blockquote),
        Tag::CodeBlock(k) => Some(BlockKind::CodeBlock(lang_of(k))),
        Tag::List(n) => Some(BlockKind::List(n)),
        Tag::Item => Some(BlockKind::ListItem),
        other => inline_kind_of(other),
    }
}

/// Relies on pulldown_cmark::Tag: one arm per inline-level variant,
/// moving fields; constructs the renderer ignores become `None`.
#[verifier::external_body]
fn inline_kind_of(t: Tag) -> (r: Option<BlockKind>) {
    match t {
        Tag::Emphasis => Some(BlockKind::Emphasis),
        Tag::Strong => Some(BlockKind::Strong),
        Tag::Strikethrough => Some(BlockKind::Strikethrough),
        Tag::Link(_, url, _) => Some(BlockKind::Link(url.to_string())),
        Tag::Image(_, url, title) => Some(BlockKind::Image(url.to_string(), title.to_string())),
        _ => None,
    }
}

/// Relies on pulldown_cmark::CodeBlockKind: the fence's language tag,
/// empty for an indented block.
#[verifier::external_body]
fn lang_of(k: CodeBlockKind) -> (r: String) {
    match k {
        CodeBlockKind::Fenced(l) => l.to_string(),
        CodeBlockKind::Indented => String::new(),
    }
}

} // verus!
