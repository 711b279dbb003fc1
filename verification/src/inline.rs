//! The inline accumulator: inline-level events are buffered as
//! [`InlineElement`]s while a block is open, then linearized into typed
//! segments — runs of annotated text separated by hard or soft breaks —
//! that the reflow engine consumes.

use vstd::prelude::*;
use vstd::string::StrSliceExecFns;
use crate::options::WrapMode;
use crate::text::push_str_chars;

verus! {

/// One buffered inline-level item.
#[derive(Debug)]
pub enum InlineElement {
    /// Plain text.
    Text(String),
    /// An inline code span.
    Code(String),
    /// Start of emphasis (`*`).
    EmphasisStart,
    /// End of emphasis (`*`).
    EmphasisEnd,
    /// Start of strong emphasis (`**`).
    StrongStart,
    /// End of strong emphasis (`**`).
    StrongEnd,
    /// Start of strikethrough (`~~`).
    StrikethroughStart,
    /// End of strikethrough (`~~`).
    StrikethroughEnd,
    /// Start of a link (`[`).
    LinkStart,
    /// End of a link, carrying its destination.
    LinkEnd(String),
    /// Start of an image (`![`).
    ImageStart,
    /// End of an image, carrying destination and optional title.
    ImageEnd { url: String, title: String },
    /// An explicit author-requested line break.
    HardBreak,
    /// An incidental source line break.
    SoftBreak,
}

/// The mathematical value of an inline element.
pub enum ElemView {
    Text(Seq<char>),
    Code(Seq<char>),
    EmphasisStart,
    EmphasisEnd,
    StrongStart,
    StrongEnd,
    StrikethroughStart,
    StrikethroughEnd,
    LinkStart,
    LinkEnd(Seq<char>),
    ImageStart,
    ImageEnd { url: Seq<char>, title: Seq<char> },
    HardBreak,
    SoftBreak,
}

impl View for InlineElement {
    type V = ElemView;

    open spec fn view(&self) -> ElemView {
        match self {
            InlineElement::Text(s) => ElemView::Text(s@),
            InlineElement::Code(s) => ElemView::Code(s@),
            InlineElement::EmphasisStart => ElemView::EmphasisStart,
            InlineElement::EmphasisEnd => ElemView::EmphasisEnd,
            InlineElement::StrongStart => ElemView::StrongStart,
            InlineElement::StrongEnd => ElemView::StrongEnd,
            InlineElement::StrikethroughStart => ElemView::StrikethroughStart,
            InlineElement::StrikethroughEnd => ElemView::StrikethroughEnd,
            InlineElement::LinkStart => ElemView::LinkStart,
            InlineElement::LinkEnd(url) => ElemView::LinkEnd(url@),
            InlineElement::ImageStart => ElemView::ImageStart,
            InlineElement::ImageEnd { url, title } => ElemView::ImageEnd {
                url: url@,
                title: title@,
            },
            InlineElement::HardBreak => ElemView::HardBreak,
            InlineElement::SoftBreak => ElemView::SoftBreak,
        }
    }
}

/// The views of a buffered block.
pub open spec fn elems_view(v: Seq<InlineElement>) -> Seq<ElemView> {
    v.map_values(|e: InlineElement| e@)
}

/// What ends a linearized segment.
#[derive(Debug, Clone, Copy)]
pub enum BreakKind {
    /// An explicit hard break followed the segment.
    Hard,
    /// A preserved soft break followed the segment.
    Soft,
    /// Nothing followed: this is the block's final segment.
    Terminal,
}

/// A run of linearized text together with the break that ends it.
#[derive(Debug)]
pub struct Segment {
    pub text: Vec<char>,
    pub brk: BreakKind,
}

/// The mathematical value of a segment.
#[verifier::ext_equal]
pub struct SegView {
    pub text: Seq<char>,
    pub brk: BreakKind,
}

impl View for Segment {
    type V = SegView;

    open spec fn view(&self) -> SegView {
        SegView { text: self.text@, brk: self.brk }
    }
}

/// The views of a vector of segments.
pub open spec fn segs_view(v: Seq<Segment>) -> Seq<SegView> {
    v.map_values(|s: Segment| s@)
}

/// The characters an inline element contributes to its segment.
/// Breaks contribute none: they end segments instead.
pub open spec fn elem_chars(e: ElemView, wrap: WrapMode) -> Seq<char> {
    match e {
        ElemView::Text(s) => s,
        ElemView::Code(s) => seq!['`'] + s + seq!['`'],
        ElemView::EmphasisStart => seq!['*'],
        ElemView::EmphasisEnd => seq!['*'],
        ElemView::StrongStart => seq!['*', '*'],
        ElemView::StrongEnd => seq!['*', '*'],
        ElemView::StrikethroughStart => seq!['~', '~'],
        ElemView::StrikethroughEnd => seq!['~', '~'],
        ElemView::LinkStart => seq!['['],
        ElemView::LinkEnd(url) => seq![']', '('] + url + seq![')'],
        ElemView::ImageStart => seq!['!', '['],
        ElemView::ImageEnd { url, title } => seq![']', '('] + url + (if title.len() > 0 {
            seq![' ', '"'] + title + seq!['"']
        } else {
            Seq::empty()
        }) + seq![')'],
        ElemView::HardBreak => Seq::empty(),
        ElemView::SoftBreak => if wrap == WrapMode::Preserve {
            Seq::empty()
        } else {
            seq![' ']
        },
    }
}

/// Whether an element ends the current segment under this wrap policy,
/// and with which break.
pub open spec fn elem_break(e: ElemView, wrap: WrapMode) -> Option<BreakKind> {
    match e {
        ElemView::HardBreak => Some(BreakKind::Hard),
        ElemView::SoftBreak => if wrap == WrapMode::Preserve {
            Some(BreakKind::Soft)
        } else {
            None
        },
        _ => None,
    }
}

/// Linearization of the buffer from element `i` on, with the segments
/// finished so far and the text of the open segment.
pub open spec fn lin_from(
    buf: Seq<ElemView>,
    wrap: WrapMode,
    i: int,
    segs: Seq<SegView>,
    cur: Seq<char>,
) -> Seq<SegView>
    decreases buf.len() - i,
{
    if i < 0 || i >= buf.len() {
        segs.push(SegView { text: cur, brk: BreakKind::Terminal })
    } else {
        match elem_break(buf[i], wrap) {
            Some(b) => lin_from(
                buf,
                wrap,
                i + 1,
                segs.push(SegView { text: cur, brk: b }),
                Seq::empty(),
            ),
            None => lin_from(buf, wrap, i + 1, segs, cur + elem_chars(buf[i], wrap)),
        }
    }
}

/// The typed segments of a buffered block: its flat annotated text,
/// split at hard breaks (and, under Preserve, at soft breaks).
pub open spec fn linearize(buf: Seq<ElemView>, wrap: WrapMode) -> Seq<SegView> {
    lin_from(buf, wrap, 0, Seq::empty(), Seq::empty())
}

/// Appends the markup for one non-breaking inline element to `cur`.
fn push_elem_chars(cur: &mut Vec<char>, e: &InlineElement, wrap: WrapMode)
    requires
        elem_break(e@, wrap) is None,
    ensures
        final(cur)@ == old(cur)@ + elem_chars(e@, wrap),
{
    match e {
        InlineElement::Text(s) => {
            push_str_chars(cur, s.as_str());
        },
        InlineElement::Code(s) => {
            cur.push('`');
            push_str_chars(cur, s.as_str());
            cur.push('`');
        },
        InlineElement::EmphasisStart => {
            cur.push('*');
        },
        InlineElement::EmphasisEnd => {
            cur.push('*');
        },
        InlineElement::StrongStart => {
            cur.push('*');
            cur.push('*');
        },
        InlineElement::StrongEnd => {
            cur.push('*');
            cur.push('*');
        },
        InlineElement::StrikethroughStart => {
            cur.push('~');
            cur.push('~');
        },
        InlineElement::StrikethroughEnd => {
            cur.push('~');
            cur.push('~');
        },
        InlineElement::LinkStart => {
            cur.push('[');
        },
        InlineElement::LinkEnd(url) => {
            cur.push(']');
            cur.push('(');
            push_str_chars(cur, url.as_str());
            cur.push(')');
        },
        InlineElement::ImageStart => {
            cur.push('!');
            cur.push('[');
        },
        InlineElement::ImageEnd { url, title } => {
            cur.push(']');
            cur.push('(');
            push_str_chars(cur, url.as_str());
            if title.as_str().unicode_len() > 0 {
                cur.push(' ');
                cur.push('"');
                push_str_chars(cur, title.as_str());
                cur.push('"');
            }
            cur.push(')');
        },
        InlineElement::HardBreak => {
        },
        InlineElement::SoftBreak => {
            cur.push(' ');
        },
    }
    proof {
        assert(final(cur)@ =~= old(cur)@ + elem_chars(e@, wrap));
    }
}

/// Linearizes a buffered block into its typed segments.
pub fn linearize_elems(buf: &Vec<InlineElement>, wrap: WrapMode) -> (r: Vec<Segment>)
    ensures
        segs_view(r@) == linearize(elems_view(buf@), wrap),
{
    let ghost bv = elems_view(buf@);
    let mut segs: Vec<Segment> = Vec::new();
    let mut cur: Vec<char> = Vec::new();
    proof {
        assert(segs_view(segs@) =~= Seq::<SegView>::empty());
    }
    let mut i: usize = 0;
    while i < buf.len()
        invariant
            i <= buf@.len(),
            bv == elems_view(buf@),
            bv.len() == buf@.len(),
            linearize(bv, wrap) == lin_from(bv, wrap, i as int, segs_view(segs@), cur@),
        decreases buf@.len() - i,
    {
        let e = &buf[i];
        proof {
            assert(bv[i as int] == e@);
        }
        let is_hard = matches!(e, InlineElement::HardBreak);
        let is_soft = matches!(e, InlineElement::SoftBreak);
        if is_hard || (is_soft && wrap == WrapMode::Preserve) {
            let b = if is_hard {
                BreakKind::Hard
            } else {
                BreakKind::Soft
            };
            let t = cur;
            cur = Vec::new();
            let ghost segs_pre = segs_view(segs@);
            segs.push(Segment { text: t, brk: b });
            proof {
                assert(segs_view(segs@) =~= segs_pre.push(SegView { text: t@, brk: b }));
            }
        } else {
            push_elem_chars(&mut cur, e, wrap);
        }
        i += 1;
    }
    let ghost segs_pre = segs_view(segs@);
    segs.push(Segment { text: cur, brk: BreakKind::Terminal });
    proof {
        assert(segs_view(segs@) =~= segs_pre.push(segs@.last()@));
    }
    segs
}

} // verus!
