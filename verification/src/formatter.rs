//! The block state machine and top-level renderer.  A [`Formatter`]
//! walks the event sequence once, buffering inline events, flushing
//! them through the reflow engine at block boundaries, and keeping a
//! context stack for nesting, list numbering and link payloads.
//!
//! The whole machine is modelled by the spec state [`FmtState`] and the
//! transition function [`step`]; `format` returns exactly the text of
//! the model run.

use vstd::prelude::*;
use vstd::pervasive::VecAdditionalExecFns;
use vstd::string::StrSliceExecFns;
use vstd::string::StringExecFns;
use crate::events::{BlockKind, MdEvent};
use crate::inline::{
    BreakKind, ElemView, InlineElement, SegView, Segment, elems_view, linearize, linearize_elems,
    segs_view,
};
use crate::options::{OrderedListMode, WrapMode};
use crate::reflow::{wrap_text, wrap_text_spec};
use crate::text::{
    dec_digits, push_chars, push_dec, push_repeat, push_str_chars, repeat_seq, string_of,
    trim_end_chars, trim_end_spec, ws_only, ws_only_exec,
};

verus! {

/// One open construct on the context stack.
#[derive(Debug)]
pub enum Context {
    Paragraph,
    Heading { level: u32 },
    /// An open list: whether it is ordered, and the number its next
    /// item gets under ascending numbering.
    List { ordered: bool, next: u64 },
    ListItem,
    Blockquote,
    CodeBlock,
    Strong,
    Emphasis,
    Strikethrough,
    Link { url: String },
    Image { url: String, title: String },
}

/// The mathematical value of a stack entry.
pub enum CtxView {
    Paragraph,
    Heading { level: u32 },
    List { ordered: bool, next: u64 },
    ListItem,
    Blockquote,
    CodeBlock,
    Strong,
    Emphasis,
    Strikethrough,
    Link { url: Seq<char> },
    Image { url: Seq<char>, title: Seq<char> },
}

impl View for Context {
    type V = CtxView;

    open spec fn view(&self) -> CtxView {
        match self {
            Context::Paragraph => CtxView::Paragraph,
            Context::Heading { level } => CtxView::Heading { level: *level },
            Context::List { ordered, next } => CtxView::List { ordered: *ordered, next: *next },
            Context::ListItem => CtxView::ListItem,
            Context::Blockquote => CtxView::Blockquote,
            Context::CodeBlock => CtxView::CodeBlock,
            Context::Strong => CtxView::Strong,
            Context::Emphasis => CtxView::Emphasis,
            Context::Strikethrough => CtxView::Strikethrough,
            Context::Link { url } => CtxView::Link { url: url@ },
            Context::Image { url, title } => CtxView::Image { url: url@, title: title@ },
        }
    }
}

/// The views of the context stack.
pub open spec fn ctxs_view(v: Seq<Context>) -> Seq<CtxView> {
    v.map_values(|c: Context| c@)
}

/// The full state of a render in progress.
#[verifier::ext_equal]
pub struct FmtState {
    /// Target line width for `Always` wrapping.
    pub width: nat,
    /// The wrap policy.
    pub wrap: WrapMode,
    /// The ordered-list numbering policy.
    pub olm: OrderedListMode,
    /// Everything emitted so far.
    pub out: Seq<char>,
    /// The inline elements buffered for the open block.
    pub buf: Seq<ElemView>,
    /// The open constructs, outermost first.
    pub stack: Seq<CtxView>,
    /// How many lists are open.
    pub list_depth: nat,
    /// How many blockquotes are open.
    pub bq_depth: nat,
    /// Whether a code block is open.
    pub in_code: bool,
}

/// A fresh state with the given configuration and nothing rendered.
pub open spec fn init_state(width: nat, wrap: WrapMode, olm: OrderedListMode) -> FmtState {
    FmtState {
        width,
        wrap,
        olm,
        out: Seq::empty(),
        buf: Seq::empty(),
        stack: Seq::empty(),
        list_depth: 0,
        bq_depth: 0,
        in_code: false,
    }
}

/// Increment that stops at the machine limit.
pub open spec fn sat_inc(n: nat) -> nat {
    if n < usize::MAX as nat {
        n + 1
    } else {
        n
    }
}

/// Decrement that stops at zero.
pub open spec fn sat_dec(n: nat) -> nat {
    if n > 0 {
        (n - 1) as nat
    } else {
        n
    }
}

/// Counter increment that stops at the counter's limit.
pub open spec fn sat_inc_u64(n: u64) -> u64 {
    if n < u64::MAX {
        (n + 1) as u64
    } else {
        n
    }
}

/// The quote marker put before every line inside `bq` blockquotes.
pub open spec fn line_prefix(bq: nat) -> Seq<char> {
    repeat_seq(seq!['>', ' '], bq)
}

/// The prefix of wrapped continuation lines: quote markers, then two
/// spaces per open list level beyond the first — the same indent the
/// item marker carries.
pub open spec fn cont_prefix(bq: nat, list_depth: nat) -> Seq<char> {
    line_prefix(bq) + repeat_seq(seq![' ', ' '], sat_dec(list_depth))
}

/// `out` extended so that it ends with a blank line — unless nothing
/// has been emitted yet.
pub open spec fn ensure_blank(out: Seq<char>) -> Seq<char> {
    if out.len() == 0 {
        out
    } else if out.len() >= 2 && out[out.len() - 1] == '\n' && out[out.len() - 2] == '\n' {
        out
    } else if out[out.len() - 1] == '\n' {
        out + seq!['\n']
    } else {
        out + seq!['\n', '\n']
    }
}

/// A linearized block that renders to nothing: no breaks and only
/// whitespace text.  Such a block is dropped instead of flushed.
pub open spec fn is_blank_segs(segs: Seq<SegView>) -> bool {
    segs.len() <= 1 && (segs.len() == 0 || ws_only(segs[0].text))
}

/// Flushing the inline buffer: linearize it, and unless it is blank,
/// reflow it with the current prefixes and append it to the output.
pub open spec fn flush_st(st: FmtState) -> FmtState {
    if st.buf.len() == 0 {
        st
    } else {
        let segs = linearize(st.buf, st.wrap);
        if is_blank_segs(segs) {
            FmtState { buf: Seq::empty(), ..st }
        } else {
            FmtState {
                out: st.out + wrap_text_spec(
                    segs,
                    line_prefix(st.bq_depth),
                    cont_prefix(st.bq_depth, st.list_depth),
                    st.width as int,
                    st.wrap,
                ),
                buf: Seq::empty(),
                ..st
            }
        }
    }
}

/// `flush_st` followed by `ensure_blank` on the output.
pub open spec fn ensure_blank_st(st: FmtState) -> FmtState {
    FmtState { out: ensure_blank(st.out), ..st }
}

/// The stack with its top removed; unchanged when empty.
pub open spec fn stack_pop(s: Seq<CtxView>) -> Seq<CtxView> {
    if s.len() > 0 {
        s.drop_last()
    } else {
        s
    }
}

/// The index of the innermost open list, or -1 when none is open.
pub open spec fn last_list_index(s: Seq<CtxView>) -> int
    decreases s.len(),
{
    if s.len() == 0 {
        -1
    } else if s.last() is List {
        s.len() - 1
    } else {
        last_list_index(s.drop_last())
    }
}

/// The effect of a list-item start: finish the open block, move to a
/// fresh line, emit quote markers, nesting indent and the item marker,
/// and advance the innermost ordered list's counter when ascending.
pub open spec fn start_item_st(st: FmtState) -> FmtState {
    let st1 = flush_st(st);
    let out1 = if st1.out.len() > 0 && st1.out.last() != '\n' {
        st1.out + seq!['\n']
    } else {
        st1.out
    };
    let indent = if st1.list_depth > 1 {
        repeat_seq(seq![' ', ' '], (st1.list_depth - 1) as nat)
    } else {
        Seq::<char>::empty()
    };
    let out2 = out1 + line_prefix(st1.bq_depth) + indent;
    let idx = last_list_index(st1.stack);
    let is_ordered = 0 <= idx < st1.stack.len() && (match st1.stack[idx] {
        CtxView::List { ordered, next } => ordered,
        _ => false,
    });
    if is_ordered {
        let n = match st1.stack[idx] {
            CtxView::List { ordered, next } => next,
            _ => 1u64,
        };
        let shown: u64 = if st1.olm == OrderedListMode::One {
            1u64
        } else {
            n
        };
        let stack2 = if st1.olm == OrderedListMode::Ascending {
            st1.stack.update(idx, CtxView::List { ordered: true, next: sat_inc_u64(n) })
        } else {
            st1.stack
        };
        FmtState {
            out: out2 + dec_digits(shown as nat) + seq!['.', ' '],
            stack: stack2.push(CtxView::ListItem),
            ..st1
        }
    } else {
        FmtState {
            out: out2 + seq!['-', ' '],
            stack: st1.stack.push(CtxView::ListItem),
            ..st1
        }
    }
}

/// The effect of a start event.
pub open spec fn start_block(st: FmtState, k: BlockKind) -> FmtState {
    match k {
        BlockKind::Heading(level) => {
            let st1 = ensure_blank_st(flush_st(st));
            FmtState {
                out: st1.out + repeat_seq(seq!['#'], level as nat) + seq![' '],
                stack: st1.stack.push(CtxView::Heading { level }),
                ..st1
            }
        },
        BlockKind::Paragraph => {
            let st1 = flush_st(st);
            let st2 = if st1.stack.len() > 0 && st1.stack.last() is ListItem {
                st1
            } else {
                ensure_blank_st(st1)
            };
            FmtState { stack: st2.stack.push(CtxView::Paragraph), ..st2 }
        },
        BlockKind::List(start) => {
            let st1 = flush_st(st);
            let st2 = if st1.stack.len() > 0 && st1.stack.last() is ListItem {
                st1
            } else {
                ensure_blank_st(st1)
            };
            let first = match start {
                Some(n) => n,
                None => 1u64,
            };
            FmtState {
                list_depth: sat_inc(st2.list_depth),
                stack: st2.stack.push(CtxView::List { ordered: start is Some, next: first }),
                ..st2
            }
        },
        BlockKind::ListItem => start_item_st(st),
        BlockKind::Blockquote => {
            let st1 = ensure_blank_st(flush_st(st));
            FmtState {
                bq_depth: sat_inc(st1.bq_depth),
                stack: st1.stack.push(CtxView::Blockquote),
                ..st1
            }
        },
        BlockKind::CodeBlock(lang) => {
            let st1 = ensure_blank_st(flush_st(st));
            FmtState {
                out: st1.out + seq!['`', '`', '`'] + lang@ + seq!['\n'],
                in_code: true,
                stack: st1.stack.push(CtxView::CodeBlock),
                ..st1
            }
        },
        BlockKind::Strong => FmtState {
            buf: st.buf.push(ElemView::StrongStart),
            stack: st.stack.push(CtxView::Strong),
            ..st
        },
        BlockKind::Emphasis => FmtState {
            buf: st.buf.push(ElemView::EmphasisStart),
            stack: st.stack.push(CtxView::Emphasis),
            ..st
        },
        BlockKind::Strikethrough => FmtState {
            buf: st.buf.push(ElemView::StrikethroughStart),
            stack: st.stack.push(CtxView::Strikethrough),
            ..st
        },
        BlockKind::Link(url) => FmtState {
            buf: st.buf.push(ElemView::LinkStart),
            stack: st.stack.push(CtxView::Link { url: url@ }),
            ..st
        },
        BlockKind::Image(url, title) => FmtState {
            buf: st.buf.push(ElemView::ImageStart),
            stack: st.stack.push(CtxView::Image { url: url@, title: title@ }),
            ..st
        },
    }
}

/// The output with a newline appended unless it already ends in one.
pub open spec fn close_line(out: Seq<char>) -> Seq<char> {
    if out.len() > 0 && out.last() == '\n' {
        out
    } else {
        out + seq!['\n']
    }
}

/// The effect of an end event.
pub open spec fn end_block(st: FmtState, k: BlockKind) -> FmtState {
    match k {
        BlockKind::Heading(level) => {
            let st1 = flush_st(st);
            FmtState { out: st1.out + seq!['\n'], stack: stack_pop(st1.stack), ..st1 }
        },
        BlockKind::Paragraph => {
            let st1 = flush_st(st);
            FmtState { out: st1.out + seq!['\n'], stack: stack_pop(st1.stack), ..st1 }
        },
        BlockKind::List(start) => {
            let st1 = flush_st(st);
            FmtState {
                out: close_line(st1.out),
                list_depth: sat_dec(st1.list_depth),
                stack: stack_pop(st1.stack),
                ..st1
            }
        },
        BlockKind::ListItem => {
            let st1 = flush_st(st);
            FmtState { stack: stack_pop(st1.stack), ..st1 }
        },
        BlockKind::Blockquote => {
            let st1 = flush_st(st);
            FmtState {
                out: close_line(st1.out),
                bq_depth: sat_dec(st1.bq_depth),
                stack: stack_pop(st1.stack),
                ..st1
            }
        },
        BlockKind::CodeBlock(lang) => FmtState {
            out: st.out + seq!['`', '`', '`', '\n'],
            in_code: false,
            stack: stack_pop(st.stack),
            ..st
        },
        BlockKind::Strong => FmtState {
            buf: st.buf.push(ElemView::StrongEnd),
            stack: stack_pop(st.stack),
            ..st
        },
        BlockKind::Emphasis => FmtState {
            buf: st.buf.push(ElemView::EmphasisEnd),
            stack: stack_pop(st.stack),
            ..st
        },
        BlockKind::Strikethrough => FmtState {
            buf: st.buf.push(ElemView::StrikethroughEnd),
            stack: stack_pop(st.stack),
            ..st
        },
        BlockKind::Link(url) => {
            let buf2 = if st.stack.len() > 0 && st.stack.last() is Link {
                st.buf.push(
                    ElemView::LinkEnd(
                        match st.stack.last() {
                            CtxView::Link { url: u } => u,
                            _ => Seq::empty(),
                        },
                    ),
                )
            } else {
                st.buf
            };
            FmtState { buf: buf2, stack: stack_pop(st.stack), ..st }
        },
        BlockKind::Image(url, title) => {
            let buf2 = if st.stack.len() > 0 && st.stack.last() is Image {
                st.buf.push(
                    match st.stack.last() {
                        CtxView::Image { url: u, title: t } => ElemView::ImageEnd {
                            url: u,
                            title: t,
                        },
                        _ => ElemView::ImageStart,
                    },
                )
            } else {
                st.buf
            };
            FmtState { buf: buf2, stack: stack_pop(st.stack), ..st }
        },
    }
}

/// The effect of one event on the state.
pub open spec fn step(st: FmtState, ev: MdEvent) -> FmtState {
    match ev {
        MdEvent::Start(k) => start_block(st, k),
        MdEvent::End(k) => end_block(st, k),
        MdEvent::Text(t) => if st.in_code {
            FmtState { out: st.out + t@, ..st }
        } else {
            FmtState { buf: st.buf.push(ElemView::Text(t@)), ..st }
        },
        MdEvent::InlineCode(c) => FmtState { buf: st.buf.push(ElemView::Code(c@)), ..st },
        MdEvent::RawMarkup(h) => {
            let st1 = ensure_blank_st(flush_st(st));
            let nl: Seq<char> = if h@.len() > 0 && h@.last() == '\n' {
                Seq::empty()
            } else {
                seq!['\n']
            };
            FmtState { out: st1.out + h@ + nl, ..st1 }
        },
        MdEvent::SoftBreak => if st.in_code {
            st
        } else {
            FmtState { buf: st.buf.push(ElemView::SoftBreak), ..st }
        },
        MdEvent::HardBreak => FmtState { buf: st.buf.push(ElemView::HardBreak), ..st },
        MdEvent::Rule => {
            let st1 = ensure_blank_st(flush_st(st));
            FmtState { out: st1.out + seq!['-', '-', '-', '\n'], ..st1 }
        },
        MdEvent::TaskMarker(checked) => {
            let marker: Seq<char> = if checked {
                seq!['[', 'x', ']', ' ']
            } else {
                seq!['[', ' ', ']', ' ']
            };
            FmtState { buf: st.buf.push(ElemView::Text(marker)), ..st }
        },
    }
}

/// The state after running the events from index `i` on.
pub open spec fn run_from(st: FmtState, events: Seq<MdEvent>, i: int) -> FmtState
    decreases events.len() - i,
{
    if i < 0 || i >= events.len() {
        st
    } else {
        run_from(step(st, events[i]), events, i + 1)
    }
}

/// Closing a render: flush what is buffered, trim trailing whitespace,
/// and end with exactly one newline — or nothing for an empty render.
pub open spec fn finish_st(st: FmtState) -> Seq<char> {
    let t = trim_end_spec(flush_st(st).out);
    if t.len() == 0 {
        t
    } else {
        t + seq!['\n']
    }
}

/// The text a state renders for an event sequence.
pub open spec fn spec_render(st: FmtState, events: Seq<MdEvent>) -> Seq<char> {
    finish_st(run_from(st, events, 0))
}

proof fn lemma_ctxs_push(s: Seq<Context>, c: Context)
    ensures
        ctxs_view(s.push(c)) == ctxs_view(s).push(c@),
{
    assert(ctxs_view(s.push(c)) =~= ctxs_view(s).push(c@));
}

proof fn lemma_ctxs_drop(s: Seq<Context>)
    requires
        s.len() > 0,
    ensures
        ctxs_view(s.drop_last()) == ctxs_view(s).drop_last(),
{
    assert(ctxs_view(s.drop_last()) =~= ctxs_view(s).drop_last());
}

proof fn lemma_ctxs_update(s: Seq<Context>, i: int, c: Context)
    requires
        0 <= i < s.len(),
    ensures
        ctxs_view(s.update(i, c)) == ctxs_view(s).update(i, c@),
{
    assert(ctxs_view(s.update(i, c)) =~= ctxs_view(s).update(i, c@));
}

proof fn lemma_elems_push(s: Seq<InlineElement>, e: InlineElement)
    ensures
        elems_view(s.push(e)) == elems_view(s).push(e@),
{
    assert(elems_view(s.push(e)) =~= elems_view(s).push(e@));
}

/// Linearizing always yields at least the final segment.
proof fn lemma_lin_from_len(buf: Seq<ElemView>, wrap: WrapMode, i: int, segs: Seq<SegView>, cur: Seq<char>)
    ensures
        crate::inline::lin_from(buf, wrap, i, segs, cur).len() > segs.len(),
    decreases buf.len() - i,
{
    if 0 <= i < buf.len() {
        match crate::inline::elem_break(buf[i], wrap) {
            Some(b) => {
                lemma_lin_from_len(
                    buf,
                    wrap,
                    i + 1,
                    segs.push(SegView { text: cur, brk: b }),
                    Seq::empty(),
                );
            },
            None => {
                lemma_lin_from_len(buf, wrap, i + 1, segs, cur + crate::inline::elem_chars(buf[i], wrap));
            },
        }
    }
}

/// A two-character vector.
fn pair_vec(a: char, b: char) -> (r: Vec<char>)
    ensures
        r@ == seq![a, b],
{
    let mut v: Vec<char> = Vec::new();
    v.push(a);
    v.push(b);
    proof {
        assert(v@ =~= seq![a, b]);
    }
    v
}

/// Finds the innermost open list on the stack.
fn find_last_list(stack: &Vec<Context>) -> (r: Option<usize>)
    ensures
        match r {
            Some(i) => i < stack@.len() && i as int == last_list_index(ctxs_view(stack@)),
            None => last_list_index(ctxs_view(stack@)) == -1,
        },
{
    let ghost sv = ctxs_view(stack@);
    proof {
        assert(sv.take(stack@.len() as int) =~= sv);
    }
    let mut j: usize = stack.len();
    while j > 0
        invariant
            j <= stack@.len(),
            sv == ctxs_view(stack@),
            sv.len() == stack@.len(),
            last_list_index(sv) == last_list_index(sv.take(j as int)),
        decreases j,
    {
        j -= 1;
        let is_list = matches!(&stack[j], Context::List { .. });
        proof {
            assert(sv[j as int] == stack@[j as int]@);
            assert(sv.take(j + 1).last() == sv[j as int]);
        }
        if is_list {
            proof {
                assert(sv[j as int] is List);
                assert(last_list_index(sv.take(j + 1)) == j);
            }
            return Some(j);
        }
        proof {
            assert(!(sv[j as int] is List));
            assert(sv.take(j + 1).drop_last() =~= sv.take(j as int));
        }
    }
    proof {
        assert(sv.take(0) =~= Seq::<CtxView>::empty());
    }
    None
}

/// The top-level renderer.
pub struct Formatter {
    /// Everything emitted so far.
    output: Vec<char>,
    /// Target line width for `Always` wrapping.
    line_width: usize,
    /// The wrap policy.
    wrap_mode: WrapMode,
    /// The ordered-list numbering policy.
    ordered_list_mode: OrderedListMode,
    /// Inline elements buffered for the open block.
    inline_buffer: Vec<InlineElement>,
    /// The open constructs, outermost first.
    context_stack: Vec<Context>,
    /// How many lists are open.
    list_depth: usize,
    /// How many blockquotes are open.
    blockquote_depth: usize,
    /// Whether a code block is open.
    in_code_block: bool,
}

impl View for Formatter {
    type V = FmtState;

    closed spec fn view(&self) -> FmtState {
        FmtState {
            width: self.line_width as nat,
            wrap: self.wrap_mode,
            olm: self.ordered_list_mode,
            out: self.output@,
            buf: elems_view(self.inline_buffer@),
            stack: ctxs_view(self.context_stack@),
            list_depth: self.list_depth as nat,
            bq_depth: self.blockquote_depth as nat,
            in_code: self.in_code_block,
        }
    }
}

impl Formatter {
    /// A formatter with the given line width and the default policies.
    pub fn new(line_width: usize) -> (r: Self)
        ensures
            r@ == init_state(line_width as nat, WrapMode::Preserve, OrderedListMode::Ascending),
    {
        Self::with_wrap_mode(line_width, WrapMode::default())
    }

    /// A formatter with the given line width and wrap policy.
    pub fn with_wrap_mode(line_width: usize, wrap_mode: WrapMode) -> (r: Self)
        ensures
            r@ == init_state(line_width as nat, wrap_mode, OrderedListMode::Ascending),
    {
        Self::with_options(line_width, wrap_mode, OrderedListMode::default())
    }

    /// A formatter with the given line width and both policies.
    pub fn with_options(
        line_width: usize,
        wrap_mode: WrapMode,
        ordered_list_mode: OrderedListMode,
    ) -> (r: Self)
        ensures
            r@ == init_state(line_width as nat, wrap_mode, ordered_list_mode),
    {
        let f = Formatter {
            output: Vec::new(),
            line_width,
            wrap_mode,
            ordered_list_mode,
            inline_buffer: Vec::new(),
            context_stack: Vec::new(),
            list_depth: 0,
            blockquote_depth: 0,
            in_code_block: false,
        };
        proof {
            assert(f@ =~= init_state(line_width as nat, wrap_mode, ordered_list_mode));
        }
        f
    }

    /// The quote markers that prefix every line at the current depth.
    fn get_line_prefix(&self) -> (r: Vec<char>)
        ensures
            r@ == line_prefix(self@.bq_depth),
    {
        let mut v: Vec<char> = Vec::new();
        let m = pair_vec('>', ' ');
        push_repeat(&mut v, &m, self.blockquote_depth);
        proof {
            assert(v@ =~= line_prefix(self@.bq_depth));
        }
        v
    }

    /// The prefix for wrapped continuation lines: quote markers plus
    /// two spaces per open list level beyond the first.
    fn get_continuation_indent(&self) -> (r: Vec<char>)
        ensures
            r@ == cont_prefix(self@.bq_depth, self@.list_depth),
    {
        let mut v = self.get_line_prefix();
        if self.list_depth > 0 {
            let sp = pair_vec(' ', ' ');
            push_repeat(&mut v, &sp, self.list_depth - 1);
        }
        proof {
            assert(v@ =~= cont_prefix(self@.bq_depth, self@.list_depth));
        }
        v
    }

    /// Ensures a blank line separates the next block from what came
    /// before; emits nothing at the very start of the document.
    fn ensure_blank_line(&mut self)
        ensures
            final(self)@ == ensure_blank_st(old(self)@),
    {
        let n = self.output.len();
        if n == 0 {
            return ;
        }
        if n >= 2 && self.output[n - 1] == '\n' && self.output[n - 2] == '\n' {
        } else if self.output[n - 1] == '\n' {
            self.output.push('\n');
        } else {
            self.output.push('\n');
            self.output.push('\n');
            proof {
                assert(self.output@ =~= old(self).output@ + seq!['\n', '\n']);
            }
        }
        proof {
            assert(self@ =~= ensure_blank_st(old(self)@));
        }
    }

    /// Linearizes the buffered inline elements into typed segments.
    fn render_inline_buffer(&self) -> (r: Vec<Segment>)
        ensures
            segs_view(r@) == linearize(self@.buf, self@.wrap),
    {
        linearize_elems(&self.inline_buffer, self.wrap_mode)
    }

    /// Flushes the buffered inline block through the reflow engine.
    fn flush_inline_buffer(&mut self)
        ensures
            final(self)@ == flush_st(old(self)@),
    {
        if self.inline_buffer.len() == 0 {
            return ;
        }
        let segs = self.render_inline_buffer();
        proof {
            lemma_lin_from_len(
                elems_view(self.inline_buffer@),
                self.wrap_mode,
                0,
                Seq::empty(),
                Seq::empty(),
            );
            assert(segs_view(segs@).len() == segs@.len());
        }
        let blank = segs.len() == 1 && ws_only_exec(&segs[0].text);
        proof {
            assert(segs_view(segs@)[0] == segs@[0]@);
            assert(blank == is_blank_segs(linearize(old(self)@.buf, old(self)@.wrap)));
        }
        if blank {
            self.inline_buffer.clear();
            proof {
                assert(elems_view(self.inline_buffer@) =~= Seq::<ElemView>::empty());
                assert(self@ =~= flush_st(old(self)@));
            }
            return ;
        }
        let first = self.get_line_prefix();
        let cont = self.get_continuation_indent();
        let wrapped = wrap_text(&segs, &first, &cont, self.line_width, self.wrap_mode);
        push_chars(&mut self.output, &wrapped);
        self.inline_buffer.clear();
        proof {
            assert(elems_view(self.inline_buffer@) =~= Seq::<ElemView>::empty());
            assert(self@ =~= flush_st(old(self)@));
        }
    }

    /// Handles a start event.
    fn handle_start_tag(&mut self, kind: &BlockKind)
        ensures
            final(self)@ == start_block(old(self)@, *kind),
    {
        match kind {
            BlockKind::Heading(level) => {
                self.flush_inline_buffer();
                self.ensure_blank_line();
                let ghost st1 = self@;
                let mut hash: Vec<char> = Vec::new();
                hash.push('#');
                push_repeat(&mut self.output, &hash, (*level) as usize);
                self.output.push(' ');
                proof {
                    assert(hash@ =~= seq!['#']);
                    assert(self.output@ =~= st1.out + repeat_seq(seq!['#'], *level as nat)
                        + seq![' ']);
                    lemma_ctxs_push(
                        self.context_stack@,
                        Context::Heading { level: *level },
                    );
                }
                self.context_stack.push(Context::Heading { level: *level });
                proof {
                    assert(self@ =~= start_block(old(self)@, *kind));
                }
            },
            BlockKind::Paragraph => {
                self.flush_inline_buffer();
                let mut in_item = false;
                if self.context_stack.len() > 0 {
                    in_item = matches!(
                        &self.context_stack[self.context_stack.len() - 1],
                        Context::ListItem
                    );
                    proof {
                        assert(self@.stack.last() == self.context_stack@.last()@);
                    }
                }
                if !in_item {
                    self.ensure_blank_line();
                }
                proof {
                    lemma_ctxs_push(self.context_stack@, Context::Paragraph);
                }
                self.context_stack.push(Context::Paragraph);
                proof {
                    assert(self@ =~= start_block(old(self)@, *kind));
                }
            },
            BlockKind::List(start) => {
                self.flush_inline_buffer();
                let mut in_item = false;
                if self.context_stack.len() > 0 {
                    in_item = matches!(
                        &self.context_stack[self.context_stack.len() - 1],
                        Context::ListItem
                    );
                    proof {
                        assert(self@.stack.last() == self.context_stack@.last()@);
                    }
                }
                if !in_item {
                    self.ensure_blank_line();
                }
                if self.list_depth < usize::MAX {
                    self.list_depth = self.list_depth + 1;
                }
                let first: u64 = match start {
                    Some(n) => *n,
                    None => 1,
                };
                proof {
                    lemma_ctxs_push(
                        self.context_stack@,
                        Context::List { ordered: start.is_some(), next: first },
                    );
                }
                self.context_stack.push(
                    Context::List { ordered: start.is_some(), next: first },
                );
                proof {
                    assert(self@ =~= start_block(old(self)@, *kind));
                }
            },
            BlockKind::ListItem => {
                self.handle_item_start();
            },
            BlockKind::Blockquote => {
                self.flush_inline_buffer();
                self.ensure_blank_line();
                if self.blockquote_depth < usize::MAX {
                    self.blockquote_depth = self.blockquote_depth + 1;
                }
                proof {
                    lemma_ctxs_push(self.context_stack@, Context::Blockquote);
                }
                self.context_stack.push(Context::Blockquote);
                proof {
                    assert(self@ =~= start_block(old(self)@, *kind));
                }
            },
            BlockKind::CodeBlock(lang) => {
                self.flush_inline_buffer();
                self.ensure_blank_line();
                let ghost st1 = self@;
                self.output.push('`');
                self.output.push('`');
                self.output.push('`');
                push_str_chars(&mut self.output, lang.as_str());
                self.output.push('\n');
                self.in_code_block = true;
                proof {
                    assert(self.output@ =~= st1.out + seq!['`', '`', '`'] + lang@ + seq!['\n']);
                    lemma_ctxs_push(self.context_stack@, Context::CodeBlock);
                }
                self.context_stack.push(Context::CodeBlock);
                proof {
                    assert(self@ =~= start_block(old(self)@, *kind));
                }
            },
            BlockKind::Strong => {
                proof {
                    lemma_elems_push(self.inline_buffer@, InlineElement::StrongStart);
                    lemma_ctxs_push(self.context_stack@, Context::Strong);
                }
                self.inline_buffer.push(InlineElement::StrongStart);
                self.context_stack.push(Context::Strong);
                proof {
                    assert(self@ =~= start_block(old(self)@, *kind));
                }
            },
            BlockKind::Emphasis => {
                proof {
                    lemma_elems_push(self.inline_buffer@, InlineElement::EmphasisStart);
                    lemma_ctxs_push(self.context_stack@, Context::Emphasis);
                }
                self.inline_buffer.push(InlineElement::EmphasisStart);
                self.context_stack.push(Context::Emphasis);
                proof {
                    assert(self@ =~= start_block(old(self)@, *kind));
                }
            },
            BlockKind::Strikethrough => {
                proof {
                    lemma_elems_push(self.inline_buffer@, InlineElement::StrikethroughStart);
                    lemma_ctxs_push(self.context_stack@, Context::Strikethrough);
                }
                self.inline_buffer.push(InlineElement::StrikethroughStart);
                self.context_stack.push(Context::Strikethrough);
                proof {
                    assert(self@ =~= start_block(old(self)@, *kind));
                }
            },
            BlockKind::Link(url) => {
                proof {
                    lemma_elems_push(self.inline_buffer@, InlineElement::LinkStart);
                    lemma_ctxs_push(
                        self.context_stack@,
                        Context::Link { url: *url },
                    );
                }
                self.inline_buffer.push(InlineElement::LinkStart);
                self.context_stack.push(Context::Link { url: url.clone() });
                proof {
                    assert(self@ =~= start_block(old(self)@, *kind));
                }
            },
            BlockKind::Image(url, title) => {
                proof {
                    lemma_elems_push(self.inline_buffer@, InlineElement::ImageStart);
                    lemma_ctxs_push(
                        self.context_stack@,
                        Context::Image { url: *url, title: *title },
                    );
                }
                self.inline_buffer.push(InlineElement::ImageStart);
                self.context_stack.push(
                    Context::Image { url: url.clone(), title: title.clone() },
                );
                proof {
                    assert(self@ =~= start_block(old(self)@, *kind));
                }
            },
        }
    }

    /// Handles a list-item start: fresh line, prefixes, marker, counter.
    #[verifier::rlimit(100)]
    fn handle_item_start(&mut self)
        ensures
            final(self)@ == start_item_st(old(self)@),
    {
        self.flush_inline_buffer();
        let n = self.output.len();
        if n > 0 && self.output[n - 1] != '\n' {
            self.output.push('\n');
        }
        let pfx = self.get_line_prefix();
        push_chars(&mut self.output, &pfx);
        if self.list_depth > 1 {
            let sp = pair_vec(' ', ' ');
            push_repeat(&mut self.output, &sp, self.list_depth - 1);
        }
        proof {
            let st1 = flush_st(old(self)@);
            let out1 = if st1.out.len() > 0 && st1.out.last() != '\n' {
                st1.out + seq!['\n']
            } else {
                st1.out
            };
            let indent = if st1.list_depth > 1 {
                repeat_seq(seq![' ', ' '], (st1.list_depth - 1) as nat)
            } else {
                Seq::<char>::empty()
            };
            assert(self.output@ =~= out1 + line_prefix(st1.bq_depth) + indent);
        }
        let found = find_last_list(&self.context_stack);
        let mut is_ordered = false;
        let mut counter: u64 = 1;
        let mut idx: usize = 0;
        match found {
            Some(i) => {
                idx = i;
                match &self.context_stack[i] {
                    Context::List { ordered, next } => {
                        is_ordered = *ordered;
                        counter = *next;
                    },
                    _ => {
                    },
                }
            },
            None => {
            },
        }
        if is_ordered {
            let shown: u64 = if matches!(self.ordered_list_mode, OrderedListMode::One) {
                1
            } else {
                counter
            };
            push_dec(&mut self.output, shown);
            self.output.push('.');
            self.output.push(' ');
            if matches!(self.ordered_list_mode, OrderedListMode::Ascending) {
                let bumped: u64 = if counter < u64::MAX {
                    counter + 1
                } else {
                    counter
                };
                proof {
                    lemma_ctxs_update(
                        self.context_stack@,
                        idx as int,
                        Context::List { ordered: true, next: bumped },
                    );
                }
                self.context_stack.set(idx, Context::List { ordered: true, next: bumped });
            }
        } else {
            self.output.push('-');
            self.output.push(' ');
        }
        proof {
            lemma_ctxs_push(self.context_stack@, Context::ListItem);
        }
        self.context_stack.push(Context::ListItem);
        proof {
            assert(self@ =~= start_item_st(old(self)@));
        }
    }

    /// Handles an end event.
    fn handle_end_tag(&mut self, kind: &BlockKind)
        ensures
            final(self)@ == end_block(old(self)@, *kind),
    {
        match kind {
            BlockKind::Heading(..) | BlockKind::Paragraph => {
                self.flush_inline_buffer();
                self.output.push('\n');
                self.pop_context();
                proof {
                    assert(self@ =~= end_block(old(self)@, *kind));
                }
            },
            BlockKind::List(..) => {
                self.flush_inline_buffer();
                let n = self.output.len();
                if !(n > 0 && self.output[n - 1] == '\n') {
                    self.output.push('\n');
                }
                if self.list_depth > 0 {
                    self.list_depth = self.list_depth - 1;
                }
                self.pop_context();
                proof {
                    assert(self@ =~= end_block(old(self)@, *kind));
                }
            },
            BlockKind::ListItem => {
                self.flush_inline_buffer();
                self.pop_context();
                proof {
                    assert(self@ =~= end_block(old(self)@, *kind));
                }
            },
            BlockKind::Blockquote => {
                self.flush_inline_buffer();
                let n = self.output.len();
                if !(n > 0 && self.output[n - 1] == '\n') {
                    self.output.push('\n');
                }
                if self.blockquote_depth > 0 {
                    self.blockquote_depth = self.blockquote_depth - 1;
                }
                self.pop_context();
                proof {
                    assert(self@ =~= end_block(old(self)@, *kind));
                }
            },
            BlockKind::CodeBlock(..) => {
                self.output.push('`');
                self.output.push('`');
                self.output.push('`');
                self.output.push('\n');
                self.in_code_block = false;
                self.pop_context();
                proof {
                    assert(self.output@ =~= old(self)@.out + seq!['`', '`', '`', '\n']);
                    assert(self@ =~= end_block(old(self)@, *kind));
                }
            },
            BlockKind::Strong => {
                proof {
                    lemma_elems_push(self.inline_buffer@, InlineElement::StrongEnd);
                }
                self.inline_buffer.push(InlineElement::StrongEnd);
                self.pop_context();
                proof {
                    assert(self@ =~= end_block(old(self)@, *kind));
                }
            },
            BlockKind::Emphasis => {
                proof {
                    lemma_elems_push(self.inline_buffer@, InlineElement::EmphasisEnd);
                }
                self.inline_buffer.push(InlineElement::EmphasisEnd);
                self.pop_context();
                proof {
                    assert(self@ =~= end_block(old(self)@, *kind));
                }
            },
            BlockKind::Strikethrough => {
                proof {
                    lemma_elems_push(self.inline_buffer@, InlineElement::StrikethroughEnd);
                }
                self.inline_buffer.push(InlineElement::StrikethroughEnd);
                self.pop_context();
                proof {
                    assert(self@ =~= end_block(old(self)@, *kind));
                }
            },
            BlockKind::Link(..) => {
                proof {
                    if self.context_stack@.len() > 0 {
                        lemma_ctxs_drop(self.context_stack@);
                        assert(self@.stack.last() == self.context_stack@.last()@);
                    }
                }
                match self.context_stack.pop() {
                    Some(Context::Link { url }) => {
                        proof {
                            lemma_elems_push(
                                self.inline_buffer@,
                                InlineElement::LinkEnd(url),
                            );
                        }
                        self.inline_buffer.push(InlineElement::LinkEnd(url));
                    },
                    _ => {
                    },
                }
                proof {
                    assert(self@ =~= end_block(old(self)@, *kind));
                }
            },
            BlockKind::Image(..) => {
                proof {
                    if self.context_stack@.len() > 0 {
                        lemma_ctxs_drop(self.context_stack@);
                        assert(self@.stack.last() == self.context_stack@.last()@);
                    }
                }
                match self.context_stack.pop() {
                    Some(Context::Image { url, title }) => {
                        proof {
                            lemma_elems_push(
                                self.inline_buffer@,
                                InlineElement::ImageEnd { url: url, title: title },
                            );
                        }
                        self.inline_buffer.push(InlineElement::ImageEnd { url, title });
                    },
                    _ => {
                    },
                }
                proof {
                    assert(self@ =~= end_block(old(self)@, *kind));
                }
            },
        }
    }

    /// Pops the top context; does nothing on an empty stack.
    fn pop_context(&mut self)
        ensures
            final(self)@ == (FmtState { stack: stack_pop(old(self)@.stack), ..old(self)@ }),
    {
        proof {
            if self.context_stack@.len() > 0 {
                lemma_ctxs_drop(self.context_stack@);
            }
        }
        let _ = self.context_stack.pop();
        proof {
            assert(self@ =~= (FmtState { stack: stack_pop(old(self)@.stack), ..old(self)@ }));
        }
    }

    /// Handles a text event: verbatim inside code blocks, buffered
    /// otherwise.
    fn handle_text(&mut self, text: &String)
        ensures
            final(self)@ == step(old(self)@, MdEvent::Text(*text)),
    {
        if self.in_code_block {
            push_str_chars(&mut self.output, text.as_str());
        } else {
            proof {
                lemma_elems_push(self.inline_buffer@, InlineElement::Text(*text));
            }
            self.inline_buffer.push(InlineElement::Text(text.clone()));
        }
        proof {
            assert(self@ =~= step(old(self)@, MdEvent::Text(*text)));
        }
    }

    /// Handles an inline code span.
    fn handle_inline_code(&mut self, code: &String)
        ensures
            final(self)@ == step(old(self)@, MdEvent::InlineCode(*code)),
    {
        proof {
            lemma_elems_push(self.inline_buffer@, InlineElement::Code(*code));
        }
        self.inline_buffer.push(InlineElement::Code(code.clone()));
        proof {
            assert(self@ =~= step(old(self)@, MdEvent::InlineCode(*code)));
        }
    }

    /// Handles raw markup: passed through verbatim on its own block.
    fn handle_raw_markup(&mut self, html: &String)
        ensures
            final(self)@ == step(old(self)@, MdEvent::RawMarkup(*html)),
    {
        self.flush_inline_buffer();
        self.ensure_blank_line();
        let ghost st1 = self@;
        push_str_chars(&mut self.output, html.as_str());
        let n = html.as_str().unicode_len();
        let ends_nl = n > 0 && html.as_str().get_char(n - 1) == '\n';
        if !ends_nl {
            self.output.push('\n');
        }
        proof {
            assert(self@ =~= step(old(self)@, MdEvent::RawMarkup(*html)));
        }
    }

    /// Handles a soft break: a breakable point between words.
    fn handle_soft_break(&mut self)
        ensures
            final(self)@ == step(old(self)@, MdEvent::SoftBreak),
    {
        if !self.in_code_block {
            proof {
                lemma_elems_push(self.inline_buffer@, InlineElement::SoftBreak);
            }
            self.inline_buffer.push(InlineElement::SoftBreak);
        }
        proof {
            assert(self@ =~= step(old(self)@, MdEvent::SoftBreak));
        }
    }

    /// Handles a hard break: kept in every wrap policy.
    fn handle_hard_break(&mut self)
        ensures
            final(self)@ == step(old(self)@, MdEvent::HardBreak),
    {
        proof {
            lemma_elems_push(self.inline_buffer@, InlineElement::HardBreak);
        }
        self.inline_buffer.push(InlineElement::HardBreak);
        proof {
            assert(self@ =~= step(old(self)@, MdEvent::HardBreak));
        }
    }

    /// Handles a thematic break.
    fn handle_rule(&mut self)
        ensures
            final(self)@ == step(old(self)@, MdEvent::Rule),
    {
        self.flush_inline_buffer();
        self.ensure_blank_line();
        let ghost st1 = self@;
        self.output.push('-');
        self.output.push('-');
        self.output.push('-');
        self.output.push('\n');
        proof {
            assert(self.output@ =~= st1.out + seq!['-', '-', '-', '\n']);
            assert(self@ =~= step(old(self)@, MdEvent::Rule));
        }
    }

    /// Handles a task-list marker: rendered as a literal checkbox
    /// fragment before the item's text.
    fn handle_task_list_marker(&mut self, checked: bool)
        ensures
            final(self)@ == step(old(self)@, MdEvent::TaskMarker(checked)),
    {
        let s = if checked {
            String::from_str("[x] ")
        } else {
            String::from_str("[ ] ")
        };
        proof {
            reveal_strlit("[x] ");
            reveal_strlit("[ ] ");
            if checked {
                assert(s@ =~= seq!['[', 'x', ']', ' ']);
            } else {
                assert(s@ =~= seq!['[', ' ', ']', ' ']);
            }
            lemma_elems_push(self.inline_buffer@, InlineElement::Text(s));
        }
        self.inline_buffer.push(InlineElement::Text(s));
        proof {
            assert(self@ =~= step(old(self)@, MdEvent::TaskMarker(checked)));
        }
    }

    /// Dispatches one event to its handler.
    fn process_event(&mut self, ev: &MdEvent)
        ensures
            final(self)@ == step(old(self)@, *ev),
    {
        match ev {
            MdEvent::Start(kind) => self.handle_start_tag(kind),
            MdEvent::End(kind) => self.handle_end_tag(kind),
            MdEvent::Text(text) => self.handle_text(text),
            MdEvent::InlineCode(code) => self.handle_inline_code(code),
            MdEvent::RawMarkup(html) => self.handle_raw_markup(html),
            MdEvent::SoftBreak => self.handle_soft_break(),
            MdEvent::HardBreak => self.handle_hard_break(),
            MdEvent::Rule => self.handle_rule(),
            MdEvent::TaskMarker(checked) => self.handle_task_list_marker(*checked),
        }
    }

    /// Renders an event sequence: the returned text is exactly what the
    /// model run of the state machine produces, trimmed of trailing
    /// whitespace and ended with one newline (empty for an empty render).
    pub fn format(&mut self, events: Vec<MdEvent>) -> (r: String)
        ensures
            r@ == spec_render(old(self)@, events@),
    {
        let ghost evs = events@;
        let mut i: usize = 0;
        while i < events.len()
            invariant
                i <= events@.len(),
                evs == events@,
                run_from(old(self)@, evs, 0) == run_from(self@, evs, i as int),
            decreases events@.len() - i,
        {
            self.process_event(&events[i]);
            i += 1;
        }
        proof {
            assert(run_from(self@, evs, evs.len() as int) == self@);
        }
        self.flush_inline_buffer();
        trim_end_chars(&mut self.output);
        if self.output.len() == 0 {
            String::new()
        } else {
            self.output.push('\n');
            let r = string_of(&self.output);
            proof {
                assert(r@ =~= spec_render(old(self)@, events@));
            }
            r
        }
    }
}

} // verus!
