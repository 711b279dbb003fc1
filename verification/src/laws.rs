//! The guarantees the renderer gives beyond its per-function
//! contracts, proved of the same spec functions those contracts use.

use vstd::prelude::*;
use crate::inline::{BreakKind, ElemView, SegView, lin_from, linearize};
use crate::events::{BlockKind, MdEvent};
use crate::formatter::{
    close_line, cont_prefix, CtxView, ensure_blank, flush_st, FmtState, init_state, is_blank_segs,
    last_list_index, line_prefix, run_from, spec_render, start_item_st, step,
};
use crate::options::{OrderedListMode, WrapMode};
use crate::reflow::{
    break_chars, pack_rest, pack_words, wrap_always_from, wrap_always_spec, wrap_never_from,
    wrap_never_spec, wrap_preserve_from, wrap_preserve_spec, wrap_text_spec,
};
use crate::text::{
    contains_seq, dec_digits, good_word, is_prefix_of, is_ws, lemma_contains_extend,
    lemma_contains_shift, lemma_normalize_clean, lemma_prefix_concat, lemma_prefix_trans,
    lemma_normalize_idempotent, lemma_trim_end_keeps_prefix, lemma_words_from_wf,
    lemma_ws_only_no_words, nl_free, normalize_ws, repeat_seq, trim_end_spec, words_of, ws_only,
};

verus! {

/// The two trailing spaces and newline that mark a hard break.
pub open spec fn hard_marker() -> Seq<char> {
    seq![' ', ' ', '\n']
}

proof fn lemma_contains_self(s: Seq<char>)
    ensures
        contains_seq(s, s),
{
    assert(s.subrange(0, 0 + s.len() as int) =~= s);
}

proof fn lemma_wp_from_hard(segs: Seq<SegView>, i: int, pfx: Seq<char>, cont: Seq<char>)
    requires
        0 <= i,
        exists|j: int| i <= j < segs.len() && (#[trigger] segs[j].brk) is Hard,
    ensures
        contains_seq(wrap_preserve_from(segs, i, pfx, cont), hard_marker()),
    decreases segs.len() - i,
{
    let j = choose|j: int| i <= j < segs.len() && (#[trigger] segs[j].brk) is Hard;
    let head = pfx + normalize_ws(segs[i].text) + break_chars(segs[i].brk);
    let rest = wrap_preserve_from(segs, i + 1, cont, cont);
    assert(wrap_preserve_from(segs, i, pfx, cont) == head + rest);
    if segs[i].brk is Hard {
        lemma_contains_self(hard_marker());
        lemma_contains_shift(pfx + normalize_ws(segs[i].text), hard_marker(), hard_marker());
        assert(head =~= (pfx + normalize_ws(segs[i].text)) + hard_marker());
        lemma_contains_extend(head, rest, hard_marker());
    } else {
        assert(j > i);
        lemma_wp_from_hard(segs, i + 1, cont, cont);
        lemma_contains_shift(head, rest, hard_marker());
    }
}

proof fn lemma_wn_from_hard(segs: Seq<SegView>, i: int, first: Seq<char>)
    requires
        0 <= i,
        exists|j: int| i <= j < segs.len() && (#[trigger] segs[j].brk) is Hard,
    ensures
        contains_seq(wrap_never_from(segs, i, first), hard_marker()),
    decreases segs.len() - i,
{
    let j = choose|j: int| i <= j < segs.len() && (#[trigger] segs[j].brk) is Hard;
    let term: Seq<char> = if segs[i].brk is Terminal {
        Seq::<char>::empty()
    } else {
        seq![' ', ' ', '\n'] + first
    };
    let head = normalize_ws(segs[i].text) + term;
    let rest = wrap_never_from(segs, i + 1, first);
    assert(wrap_never_from(segs, i, first) == head + rest);
    if segs[i].brk is Hard {
        lemma_contains_self(hard_marker());
        lemma_contains_extend(hard_marker(), first, hard_marker());
        lemma_contains_shift(normalize_ws(segs[i].text), term, hard_marker());
        lemma_contains_extend(head, rest, hard_marker());
    } else {
        assert(j > i);
        lemma_wn_from_hard(segs, i + 1, first);
        lemma_contains_shift(head, rest, hard_marker());
    }
}

proof fn lemma_wa_from_hard(
    segs: Seq<SegView>,
    i: int,
    width: int,
    pfx: Seq<char>,
    cont: Seq<char>,
)
    requires
        0 <= i,
        exists|j: int| i <= j < segs.len() && (#[trigger] segs[j].brk) is Hard,
    ensures
        contains_seq(wrap_always_from(segs, i, width, pfx, cont), hard_marker()),
    decreases segs.len() - i,
{
    let j = choose|j: int| i <= j < segs.len() && (#[trigger] segs[j].brk) is Hard;
    let packed = pack_words(words_of(segs[i].text), width, pfx, cont);
    let term: Seq<char> = if segs[i].brk is Terminal {
        Seq::<char>::empty()
    } else {
        seq![' ', ' ', '\n']
    };
    let head = packed + term;
    let rest = wrap_always_from(segs, i + 1, width, cont, cont);
    assert(wrap_always_from(segs, i, width, pfx, cont) == head + rest);
    if segs[i].brk is Hard {
        lemma_contains_self(hard_marker());
        lemma_contains_shift(packed, hard_marker(), hard_marker());
        lemma_contains_extend(head, rest, hard_marker());
    } else {
        assert(j > i);
        lemma_wa_from_hard(segs, i + 1, width, cont, cont);
        lemma_contains_shift(head, rest, hard_marker());
    }
}

/// Hard-break preservation at the reflow engine: whatever the wrap
/// policy, a block holding a hard break renders with a line that ends
/// in exactly two spaces before its newline.
pub proof fn lemma_hard_break_preserved(
    segs: Seq<SegView>,
    first: Seq<char>,
    cont: Seq<char>,
    width: int,
    wrap: WrapMode,
)
    requires
        exists|j: int| 0 <= j < segs.len() && (#[trigger] segs[j].brk) is Hard,
    ensures
        contains_seq(wrap_text_spec(segs, first, cont, width, wrap), hard_marker()),
{
    match wrap {
        WrapMode::Preserve => {
            lemma_wp_from_hard(segs, 0, first, cont);
        },
        WrapMode::Never => {
            lemma_wn_from_hard(segs, 0, first);
            lemma_contains_shift(first, wrap_never_from(segs, 0, first), hard_marker());
        },
        WrapMode::Always => {
            lemma_wa_from_hard(segs, 0, width, first, cont);
        },
    }
}

proof fn lemma_lin_from_hard(
    buf: Seq<ElemView>,
    wrap: WrapMode,
    i: int,
    segs: Seq<SegView>,
    cur: Seq<char>,
)
    requires
        0 <= i,
        (exists|m: int| i <= m < buf.len() && (#[trigger] buf[m]) is HardBreak) || (exists|j: int|
            0 <= j < segs.len() && (#[trigger] segs[j].brk) is Hard),
    ensures
        exists|j: int|
            0 <= j < lin_from(buf, wrap, i, segs, cur).len() && (#[trigger] lin_from(
                buf,
                wrap,
                i,
                segs,
                cur,
            )[j].brk) is Hard,
    decreases buf.len() - i,
{
    if i >= buf.len() {
        let j = choose|j: int| 0 <= j < segs.len() && (#[trigger] segs[j].brk) is Hard;
        let out = lin_from(buf, wrap, i, segs, cur);
        assert(out == segs.push(SegView { text: cur, brk: BreakKind::Terminal }));
        assert(out[j] == segs[j]);
        assert(out[j].brk is Hard);
    } else {
        match crate::inline::elem_break(buf[i], wrap) {
            Some(b) => {
                let segs2 = segs.push(SegView { text: cur, brk: b });
                assert(lin_from(buf, wrap, i, segs, cur) == lin_from(
                    buf,
                    wrap,
                    i + 1,
                    segs2,
                    Seq::empty(),
                ));
                if buf[i] is HardBreak {
                    assert(segs2[segs.len() as int].brk is Hard);
                    lemma_lin_from_hard(buf, wrap, i + 1, segs2, Seq::empty());
                } else {
                    if exists|m: int| i <= m < buf.len() && (#[trigger] buf[m]) is HardBreak {
                        let m = choose|m: int|
                            i <= m < buf.len() && (#[trigger] buf[m]) is HardBreak;
                        assert(m > i);
                    } else {
                        let j = choose|j: int|
                            0 <= j < segs.len() && (#[trigger] segs[j].brk) is Hard;
                        assert(segs2[j].brk is Hard);
                    }
                    lemma_lin_from_hard(buf, wrap, i + 1, segs2, Seq::empty());
                }
                let out = lin_from(buf, wrap, i, segs, cur);
                let j0 = choose|j0: int|
                    0 <= j0 < lin_from(buf, wrap, i + 1, segs2, Seq::empty()).len() && (
                    #[trigger] lin_from(buf, wrap, i + 1, segs2, Seq::empty())[j0].brk) is Hard;
                assert(out[j0].brk is Hard);
            },
            None => {
                let cur2 = cur + crate::inline::elem_chars(buf[i], wrap);
                assert(lin_from(buf, wrap, i, segs, cur) == lin_from(buf, wrap, i + 1, segs, cur2));
                if exists|m: int| i <= m < buf.len() && (#[trigger] buf[m]) is HardBreak {
                    let m = choose|m: int| i <= m < buf.len() && (#[trigger] buf[m]) is HardBreak;
                    assert(m > i);
                }
                lemma_lin_from_hard(buf, wrap, i + 1, segs, cur2);
                let out = lin_from(buf, wrap, i, segs, cur);
                let j0 = choose|j0: int|
                    0 <= j0 < lin_from(buf, wrap, i + 1, segs, cur2).len() && (#[trigger] lin_from(
                        buf,
                        wrap,
                        i + 1,
                        segs,
                        cur2,
                    )[j0].brk) is Hard;
                assert(out[j0].brk is Hard);
            },
        }
    }
}

proof fn lemma_lin_from_last_terminal(
    buf: Seq<ElemView>,
    wrap: WrapMode,
    i: int,
    segs: Seq<SegView>,
    cur: Seq<char>,
)
    requires
        forall|j: int| 0 <= j < segs.len() ==> !((#[trigger] segs[j].brk) is Terminal),
    ensures
        lin_from(buf, wrap, i, segs, cur).len() > segs.len(),
        lin_from(buf, wrap, i, segs, cur).last().brk is Terminal,
        forall|j: int|
            0 <= j < lin_from(buf, wrap, i, segs, cur).len() - 1 ==> !((#[trigger] lin_from(
                buf,
                wrap,
                i,
                segs,
                cur,
            )[j].brk) is Terminal),
    decreases buf.len() - i,
{
    if i < 0 || i >= buf.len() {
        let out = lin_from(buf, wrap, i, segs, cur);
        assert(out == segs.push(SegView { text: cur, brk: BreakKind::Terminal }));
        assert(forall|j: int| 0 <= j < out.len() - 1 ==> out[j] == segs[j]);
    } else {
        match crate::inline::elem_break(buf[i], wrap) {
            Some(b) => {
                let segs2 = segs.push(SegView { text: cur, brk: b });
                assert(forall|j: int| 0 <= j < segs.len() ==> segs2[j] == segs[j]);
                assert(!(segs2[segs.len() as int].brk is Terminal));
                lemma_lin_from_last_terminal(buf, wrap, i + 1, segs2, Seq::empty());
            },
            None => {
                lemma_lin_from_last_terminal(
                    buf,
                    wrap,
                    i + 1,
                    segs,
                    cur + crate::inline::elem_chars(buf[i], wrap),
                );
            },
        }
    }
}

/// Hard-break preservation at the block machine: flushing a block whose
/// buffer holds a hard break emits the hard-break line ending, in every
/// wrap policy.  (At the very end of a document a trailing marker can
/// still fall to the final whitespace trim.)
pub proof fn lemma_hard_break_flushed(st: FmtState)
    requires
        exists|m: int| 0 <= m < st.buf.len() && (#[trigger] st.buf[m]) is HardBreak,
    ensures
        contains_seq(flush_st(st).out, hard_marker()),
{
    let segs = linearize(st.buf, st.wrap);
    lemma_lin_from_hard(st.buf, st.wrap, 0, Seq::empty(), Seq::empty());
    lemma_lin_from_last_terminal(st.buf, st.wrap, 0, Seq::empty(), Seq::empty());
    let j = choose|j: int| 0 <= j < segs.len() && (#[trigger] segs[j].brk) is Hard;
    assert(j < segs.len() - 1);
    assert(!is_blank_segs(segs));
    lemma_hard_break_preserved(
        segs,
        line_prefix(st.bq_depth),
        cont_prefix(st.bq_depth, st.list_depth),
        st.width as int,
        st.wrap,
    );
    lemma_contains_shift(
        st.out,
        wrap_text_spec(
            segs,
            line_prefix(st.bq_depth),
            cont_prefix(st.bq_depth, st.list_depth),
            st.width as int,
            st.wrap,
        ),
        hard_marker(),
    );
}

proof fn lemma_pack_rest_clean(
    ws: Seq<Seq<char>>,
    k: int,
    width: int,
    cont: Seq<char>,
    cur: Seq<char>,
)
    requires
        forall|m: int| 0 <= m < ws.len() ==> good_word(#[trigger] ws[m]),
        nl_free(cont),
        nl_free(cur),
        cur.len() > 0,
        !is_ws(cur.last()),
    ensures
        pack_rest(ws, k, width, cont, cur).len() > 0,
        !is_ws(pack_rest(ws, k, width, cont, cur).last()),
        forall|i: int|
            0 <= i < pack_rest(ws, k, width, cont, cur).len() && #[trigger] pack_rest(
                ws,
                k,
                width,
                cont,
                cur,
            )[i] == '\n' ==> i > 0 && !is_ws(pack_rest(ws, k, width, cont, cur)[i - 1]),
    decreases ws.len() - k,
{
    if 0 <= k < ws.len() {
        let w = ws[k];
        assert(good_word(w));
        if cur.len() + 1 + w.len() > width {
            let cur2 = cont + w;
            assert(cur2.len() > 0);
            assert(cur2.last() == w.last());
            assert(nl_free(cur2)) by {
                assert forall|i: int| 0 <= i < cur2.len() implies #[trigger] cur2[i] != '\n' by {
                    if i >= cont.len() {
                        assert(cur2[i] == w[i - cont.len()]);
                        assert(!is_ws(w[i - cont.len()]));
                    }
                }
            }
            lemma_pack_rest_clean(ws, k + 1, width, cont, cur2);
            let rest = pack_rest(ws, k + 1, width, cont, cur2);
            let out = pack_rest(ws, k, width, cont, cur);
            assert(out == cur + seq!['\n'] + rest);
            assert(out.last() == rest.last()) by {
                assert(rest.len() > 0);
            }
            assert forall|i: int|
                0 <= i < out.len() && #[trigger] out[i] == '\n' implies i > 0 && !is_ws(
                out[i - 1],
            ) by {
                if i < cur.len() {
                    assert(out[i] == cur[i]);
                } else if i == cur.len() {
                    assert(out[i - 1] == cur.last());
                } else {
                    let p = i - cur.len() - 1;
                    assert(out[i] == rest[p]);
                    assert(p > 0);
                    assert(out[i - 1] == rest[p - 1]);
                }
            }
        } else {
            let cur2 = cur + seq![' '] + w;
            assert(cur2.last() == w.last());
            assert(nl_free(cur2)) by {
                assert forall|i: int| 0 <= i < cur2.len() implies #[trigger] cur2[i] != '\n' by {
                    if i < cur.len() {
                        assert(cur2[i] == cur[i]);
                    } else if i == cur.len() {
                        assert(cur2[i] == ' ');
                    } else {
                        assert(cur2[i] == w[i - cur.len() - 1]);
                        assert(!is_ws(w[i - cur.len() - 1]));
                    }
                }
            }
            lemma_pack_rest_clean(ws, k + 1, width, cont, cur2);
        }
    }
}

/// No spurious hard breaks under Always: when width-wrapping reflows a
/// block that holds no hard break, every newline it inserts is plain —
/// the character before it is never whitespace, so no line ends with
/// the hard-break marker.
pub proof fn lemma_no_spurious_hard_breaks(
    segs: Seq<SegView>,
    width: int,
    first: Seq<char>,
    cont: Seq<char>,
)
    requires
        segs.len() == 1,
        segs[0].brk is Terminal,
        nl_free(first),
        nl_free(cont),
    ensures
        forall|i: int|
            0 <= i < wrap_always_spec(segs, width, first, cont).len() && #[trigger] wrap_always_spec(
                segs,
                width,
                first,
                cont,
            )[i] == '\n' ==> i > 0 && !is_ws(wrap_always_spec(segs, width, first, cont)[i - 1]),
        !contains_seq(wrap_always_spec(segs, width, first, cont), hard_marker()),
{
    let ws = words_of(segs[0].text);
    lemma_words_from_wf(segs[0].text, 0);
    let packed = pack_words(ws, width, first, cont);
    let out = wrap_always_spec(segs, width, first, cont);
    assert(wrap_always_from(segs, 1, width, cont, cont) == Seq::<char>::empty());
    assert(out =~= packed);
    if ws.len() == 0 {
        assert(packed == first);
    } else {
        let cur0 = first + ws[0];
        assert(good_word(ws[0]));
        assert(cur0.last() == ws[0].last());
        assert(nl_free(cur0)) by {
            assert forall|i: int| 0 <= i < cur0.len() implies #[trigger] cur0[i] != '\n' by {
                if i >= first.len() {
                    assert(cur0[i] == ws[0][i - first.len()]);
                    assert(!is_ws(ws[0][i - first.len()]));
                }
            }
        }
        lemma_pack_rest_clean(ws, 1, width, cont, cur0);
    }
    assert(!contains_seq(out, hard_marker())) by {
        if contains_seq(out, hard_marker()) {
            let p = choose|p: int|
                0 <= p && p + 3 <= out.len() && #[trigger] out.subrange(p, p + 3) == hard_marker();
            assert(out.subrange(p, p + 3)[2] == out[p + 2]);
            assert(out.subrange(p, p + 3)[1] == out[p + 1]);
            assert(out[p + 2] == '\n');
            assert(out[p + 1] == ' ');
            assert(is_ws(out[p + 1]));
        }
    }
}


/// Every newline in `s` is either its final character or is followed
/// immediately by the continuation prefix `cont`.
pub open spec fn lines_cont(s: Seq<char>, cont: Seq<char>) -> bool {
    forall|i: int|
        0 <= i < s.len() && #[trigger] s[i] == '\n' ==> i == s.len() - 1 || (i + 1 + cont.len()
            <= s.len() && s.subrange(i + 1, i + 1 + cont.len() as int) == cont)
}

proof fn lemma_lines_cont_concat(a: Seq<char>, b: Seq<char>, cont: Seq<char>)
    requires
        lines_cont(a, cont),
        lines_cont(b, cont),
        a.len() > 0 && a.last() == '\n' ==> b.len() == 0 || is_prefix_of(cont, b),
    ensures
        lines_cont(a + b, cont),
{
    let s = a + b;
    assert forall|i: int|
        0 <= i < s.len() && #[trigger] s[i] == '\n' implies i == s.len() - 1 || (i + 1
            + cont.len() <= s.len() && s.subrange(i + 1, i + 1 + cont.len() as int) == cont) by {
        if i < a.len() {
            assert(a[i] == '\n');
            if i == a.len() - 1 {
                if b.len() > 0 {
                    assert(s.subrange(i + 1, i + 1 + cont.len() as int) =~= b.subrange(
                        0,
                        cont.len() as int,
                    ));
                }
            } else {
                assert(s.subrange(i + 1, i + 1 + cont.len() as int) =~= a.subrange(
                    i + 1,
                    i + 1 + cont.len() as int,
                ));
            }
        } else {
            let p = i - a.len();
            assert(b[p] == '\n');
            if p < b.len() - 1 {
                assert(s.subrange(i + 1, i + 1 + cont.len() as int) =~= b.subrange(
                    p + 1,
                    p + 1 + cont.len() as int,
                ));
            }
        }
    }
}

proof fn lemma_pack_rest_prefix(ws: Seq<Seq<char>>, k: int, width: int, cont: Seq<char>, cur: Seq<char>)
    ensures
        is_prefix_of(cur, pack_rest(ws, k, width, cont, cur)),
    decreases ws.len() - k,
{
    let out = pack_rest(ws, k, width, cont, cur);
    if k < 0 || k >= ws.len() {
        assert(out.subrange(0, cur.len() as int) =~= cur);
    } else if cur.len() + 1 + ws[k].len() > width {
        lemma_prefix_concat(cur, seq!['\n'] + pack_rest(ws, k + 1, width, cont, cont + ws[k]));
        assert(out =~= cur + (seq!['\n'] + pack_rest(ws, k + 1, width, cont, cont + ws[k])));
    } else {
        lemma_pack_rest_prefix(ws, k + 1, width, cont, cur + seq![' '] + ws[k]);
        lemma_prefix_concat(cur, seq![' '] + ws[k]);
        assert(cur + seq![' '] + ws[k] =~= cur + (seq![' '] + ws[k]));
        lemma_prefix_trans(
            cur,
            cur + seq![' '] + ws[k],
            pack_rest(ws, k + 1, width, cont, cur + seq![' '] + ws[k]),
        );
    }
}

proof fn lemma_pack_words_prefix(ws: Seq<Seq<char>>, width: int, pfx: Seq<char>, cont: Seq<char>)
    ensures
        is_prefix_of(pfx, pack_words(ws, width, pfx, cont)),
{
    if ws.len() == 0 {
        assert(pack_words(ws, width, pfx, cont).subrange(0, pfx.len() as int) =~= pfx);
    } else {
        lemma_pack_rest_prefix(ws, 1, width, cont, pfx + ws[0]);
        lemma_prefix_concat(pfx, ws[0]);
        lemma_prefix_trans(pfx, pfx + ws[0], pack_rest(ws, 1, width, cont, pfx + ws[0]));
    }
}

proof fn lemma_pack_rest_lines(ws: Seq<Seq<char>>, k: int, width: int, cont: Seq<char>, cur: Seq<char>)
    requires
        forall|m: int| 0 <= m < ws.len() ==> good_word(#[trigger] ws[m]),
        nl_free(cont),
        nl_free(cur),
        cur.len() > 0,
    ensures
        lines_cont(pack_rest(ws, k, width, cont, cur), cont),
    decreases ws.len() - k,
{
    let out = pack_rest(ws, k, width, cont, cur);
    if k < 0 || k >= ws.len() {
    } else if cur.len() + 1 + ws[k].len() > width {
        let w = ws[k];
        let cur2 = cont + w;
        assert(good_word(w));
        assert(nl_free(cur2)) by {
            assert forall|i: int| 0 <= i < cur2.len() implies #[trigger] cur2[i] != '\n' by {
                if i >= cont.len() {
                    assert(cur2[i] == w[i - cont.len()]);
                    assert(!is_ws(w[i - cont.len()]));
                }
            }
        }
        lemma_pack_rest_lines(ws, k + 1, width, cont, cur2);
        let rest = pack_rest(ws, k + 1, width, cont, cur2);
        lemma_pack_rest_prefix(ws, k + 1, width, cont, cur2);
        lemma_prefix_concat(cont, w);
        lemma_prefix_trans(cont, cur2, rest);
        let a = cur + seq!['\n'];
        assert(lines_cont(a, cont)) by {
            assert(forall|i: int| 0 <= i < cur.len() ==> #[trigger] a[i] == cur[i]);
        }
        lemma_lines_cont_concat(a, rest, cont);
        assert(out =~= a + rest);
    } else {
        let w = ws[k];
        let cur2 = cur + seq![' '] + w;
        assert(good_word(w));
        assert(nl_free(cur2)) by {
            assert forall|i: int| 0 <= i < cur2.len() implies #[trigger] cur2[i] != '\n' by {
                if i < cur.len() {
                    assert(cur2[i] == cur[i]);
                } else if i == cur.len() {
                    assert(cur2[i] == ' ');
                } else {
                    assert(cur2[i] == w[i - cur.len() - 1]);
                    assert(!is_ws(w[i - cur.len() - 1]));
                }
            }
        }
        lemma_pack_rest_lines(ws, k + 1, width, cont, cur2);
    }
}

/// The greedy packer's output: begins with the given prefix, and every
/// newline it inserts is followed by the continuation prefix.
proof fn lemma_pack_words_lines(ws: Seq<Seq<char>>, width: int, pfx: Seq<char>, cont: Seq<char>)
    requires
        forall|m: int| 0 <= m < ws.len() ==> good_word(#[trigger] ws[m]),
        nl_free(cont),
        nl_free(pfx),
    ensures
        lines_cont(pack_words(ws, width, pfx, cont), cont),
        ws.len() > 0 ==> pack_words(ws, width, pfx, cont).len() > 0 && !is_ws(
            pack_words(ws, width, pfx, cont).last(),
        ),
{
    if ws.len() == 0 {
    } else {
        let w = ws[0];
        assert(good_word(w));
        let cur0 = pfx + w;
        assert(nl_free(cur0)) by {
            assert forall|i: int| 0 <= i < cur0.len() implies #[trigger] cur0[i] != '\n' by {
                if i >= pfx.len() {
                    assert(cur0[i] == w[i - pfx.len()]);
                    assert(!is_ws(w[i - pfx.len()]));
                }
            }
        }
        assert(cur0.last() == w.last());
        lemma_pack_rest_lines(ws, 1, width, cont, cur0);
        lemma_pack_rest_clean(ws, 1, width, cont, cur0);
    }
}

proof fn lemma_wa_from_lines(segs: Seq<SegView>, i: int, width: int, pfx: Seq<char>, cont: Seq<char>)
    requires
        0 <= i,
        nl_free(pfx),
        nl_free(cont),
    ensures
        lines_cont(wrap_always_from(segs, i, width, pfx, cont), cont),
        wrap_always_from(segs, i, width, pfx, cont).len() == 0 || is_prefix_of(
            pfx,
            wrap_always_from(segs, i, width, pfx, cont),
        ),
    decreases segs.len() - i,
{
    if i >= segs.len() {
    } else {
        let ws = words_of(segs[i].text);
        lemma_words_from_wf(segs[i].text, 0);
        let packed = pack_words(ws, width, pfx, cont);
        let term: Seq<char> = if segs[i].brk is Terminal {
            Seq::<char>::empty()
        } else {
            seq![' ', ' ', '\n']
        };
        let rest = wrap_always_from(segs, i + 1, width, cont, cont);
        let out = wrap_always_from(segs, i, width, pfx, cont);
        assert(out == packed + term + rest);
        lemma_pack_words_lines(ws, width, pfx, cont);
        lemma_wa_from_lines(segs, i + 1, width, cont, cont);
        let head = packed + term;
        assert(lines_cont(head, cont)) by {
            assert forall|p: int|
                0 <= p < head.len() && #[trigger] head[p] == '\n' implies p == head.len() - 1 || (p
                + 1 + cont.len() <= head.len() && head.subrange(p + 1, p + 1 + cont.len() as int)
                == cont) by {
                if p < packed.len() {
                    assert(packed[p] == '\n');
                    if p == packed.len() - 1 {
                        if ws.len() > 0 {
                            assert(!is_ws(packed.last()));
                            assert(is_ws('\n'));
                        } else {
                            assert(packed == pfx);
                        }
                    } else {
                        assert(head.subrange(p + 1, p + 1 + cont.len() as int) =~= packed.subrange(
                            p + 1,
                            p + 1 + cont.len() as int,
                        ));
                    }
                } else {
                    assert(head[p] == term[p - packed.len()]);
                    assert(p == head.len() - 1);
                }
            }
        }
        lemma_pack_words_prefix(words_of(segs[i + 1].text), width, cont, cont);
        if rest.len() > 0 {
            assert(is_prefix_of(cont, rest)) by {
                assert(rest == pack_words(words_of(segs[i + 1].text), width, cont, cont) + (
                if segs[i + 1].brk is Terminal {
                    Seq::<char>::empty()
                } else {
                    seq![' ', ' ', '\n']
                }) + wrap_always_from(segs, i + 2, width, cont, cont));
                lemma_prefix_concat(
                    pack_words(words_of(segs[i + 1].text), width, cont, cont),
                    (if segs[i + 1].brk is Terminal {
                        Seq::<char>::empty()
                    } else {
                        seq![' ', ' ', '\n']
                    }) + wrap_always_from(segs, i + 2, width, cont, cont),
                );
                assert(rest =~= pack_words(words_of(segs[i + 1].text), width, cont, cont) + ((
                if segs[i + 1].brk is Terminal {
                    Seq::<char>::empty()
                } else {
                    seq![' ', ' ', '\n']
                }) + wrap_always_from(segs, i + 2, width, cont, cont)));
                lemma_prefix_trans(
                    cont,
                    pack_words(words_of(segs[i + 1].text), width, cont, cont),
                    rest,
                );
            }
        }
        lemma_lines_cont_concat(head, rest, cont);
        assert(out =~= head + rest);
        lemma_pack_words_prefix(ws, width, pfx, cont);
        assert(is_prefix_of(pfx, out)) by {
            lemma_prefix_concat(packed, term + rest);
            assert(out =~= packed + (term + rest));
            lemma_prefix_trans(pfx, packed, out);
        }
    }
}

proof fn lemma_wp_from_lines(segs: Seq<SegView>, i: int, pfx: Seq<char>, cont: Seq<char>)
    requires
        0 <= i,
        nl_free(pfx),
        nl_free(cont),
    ensures
        lines_cont(wrap_preserve_from(segs, i, pfx, cont), cont),
        wrap_preserve_from(segs, i, pfx, cont).len() == 0 || is_prefix_of(
            pfx,
            wrap_preserve_from(segs, i, pfx, cont),
        ),
    decreases segs.len() - i,
{
    let out = wrap_preserve_from(segs, i, pfx, cont);
    if i >= segs.len() {
    } else if i == segs.len() - 1 && segs[i].brk is Terminal && segs[i].text.len() == 0 {
    } else {
        let norm = normalize_ws(segs[i].text);
        lemma_normalize_clean(segs[i].text);
        let term = break_chars(segs[i].brk);
        let rest = wrap_preserve_from(segs, i + 1, cont, cont);
        let head = pfx + norm + term;
        assert(out == head + rest);
        lemma_wp_from_lines(segs, i + 1, cont, cont);
        assert(lines_cont(head, cont)) by {
            assert forall|p: int|
                0 <= p < head.len() && #[trigger] head[p] == '\n' implies p == head.len() - 1 || (p
                + 1 + cont.len() <= head.len() && head.subrange(p + 1, p + 1 + cont.len() as int)
                == cont) by {
                if p < pfx.len() {
                    assert(head[p] == pfx[p]);
                } else if p < pfx.len() + norm.len() {
                    assert(head[p] == norm[p - pfx.len()]);
                } else {
                    assert(head[p] == term[p - pfx.len() - norm.len()]);
                    assert(p - pfx.len() - norm.len() == term.len() - 1);
                }
            }
        }
        lemma_lines_cont_concat(head, rest, cont);
        assert(out =~= head + rest);
        assert(is_prefix_of(pfx, out)) by {
            lemma_prefix_concat(pfx, norm + term + rest);
            assert(out =~= pfx + (norm + term + rest));
        }
    }
}

proof fn lemma_wn_from_lines(segs: Seq<SegView>, i: int, first: Seq<char>)
    requires
        0 <= i,
        nl_free(first),
    ensures
        lines_cont(wrap_never_from(segs, i, first), first),
    decreases segs.len() - i,
{
    let out = wrap_never_from(segs, i, first);
    if i >= segs.len() {
    } else {
        let norm = normalize_ws(segs[i].text);
        lemma_normalize_clean(segs[i].text);
        let term: Seq<char> = if segs[i].brk is Terminal {
            Seq::<char>::empty()
        } else {
            seq![' ', ' ', '\n'] + first
        };
        let head = norm + term;
        let rest = wrap_never_from(segs, i + 1, first);
        assert(out == head + rest);
        lemma_wn_from_lines(segs, i + 1, first);
        assert(lines_cont(head, first)) by {
            assert forall|p: int|
                0 <= p < head.len() && #[trigger] head[p] == '\n' implies p == head.len() - 1 || (p
                + 1 + first.len() <= head.len() && head.subrange(p + 1, p + 1 + first.len() as int)
                == first) by {
                if p < norm.len() {
                    assert(head[p] == norm[p]);
                } else {
                    let q = p - norm.len();
                    assert(head[p] == term[q]);
                    if !(segs[i].brk is Terminal) {
                        if q < 3 {
                            assert(q == 2);
                            assert(head.subrange(p + 1, p + 1 + first.len() as int) =~= first);
                        } else {
                            assert(term[q] == first[q - 3]);
                        }
                    }
                }
            }
        }
        if head.len() > 0 && head.last() == '\n' {
            assert(first.len() == 0) by {
                if first.len() > 0 {
                    if segs[i].brk is Terminal {
                        assert(head.last() == norm.last());
                        assert(norm[norm.len() - 1] != '\n');
                    } else {
                        assert(head.last() == term.last());
                        assert(term.last() == first.last());
                        assert(first[first.len() - 1] != '\n');
                    }
                }
            }
            if rest.len() > 0 {
                assert(is_prefix_of(first, rest)) by {
                    assert(rest.subrange(0, first.len() as int) =~= first);
                }
            }
        }
        lemma_lines_cont_concat(head, rest, first);
        assert(out =~= head + rest);
    }
}


proof fn lemma_repeat_nl_free(s: Seq<char>, n: nat)
    requires
        nl_free(s),
    ensures
        nl_free(repeat_seq(s, n)),
    decreases n,
{
    if n > 0 {
        lemma_repeat_nl_free(s, (n - 1) as nat);
        let r = repeat_seq(s, n);
        let p = repeat_seq(s, (n - 1) as nat);
        assert(r == p + s);
        assert forall|i: int| 0 <= i < r.len() implies #[trigger] r[i] != '\n' by {
            if i < p.len() {
                assert(r[i] == p[i]);
            } else {
                assert(r[i] == s[i - p.len()]);
            }
        }
    }
}

proof fn lemma_prefixes_nl_free(bq: nat, ld: nat)
    ensures
        nl_free(line_prefix(bq)),
        nl_free(cont_prefix(bq, ld)),
{
    assert(nl_free(seq!['>', ' ']));
    assert(nl_free(seq![' ', ' ']));
    lemma_repeat_nl_free(seq!['>', ' '], bq);
    lemma_repeat_nl_free(seq![' ', ' '], crate::formatter::sat_dec(ld));
    let a = line_prefix(bq);
    let b = repeat_seq(seq![' ', ' '], crate::formatter::sat_dec(ld));
    let c = cont_prefix(bq, ld);
    assert(c == a + b);
    assert forall|i: int| 0 <= i < c.len() implies #[trigger] c[i] != '\n' by {
        if i < a.len() {
            assert(c[i] == a[i]);
        } else {
            assert(c[i] == b[i - a.len()]);
        }
    }
}

/// Blockquote and list prefixing: a reflowed block's first physical
/// line begins with the quote markers for the open blockquote depth,
/// and every later line begins with them too — under Preserve and
/// Always followed by the two-space indent per open list level, under
/// Never with the quote markers alone.
pub proof fn lemma_lines_prefixed(st: FmtState)
    ensures
        ({
            let lp = line_prefix(st.bq_depth);
            let cp = cont_prefix(st.bq_depth, st.list_depth);
            let w = wrap_text_spec(
                linearize(st.buf, st.wrap),
                lp,
                cp,
                st.width as int,
                st.wrap,
            );
            (w.len() == 0 || is_prefix_of(lp, w)) && lines_cont(
                w,
                if st.wrap is Never {
                    lp
                } else {
                    cp
                },
            ) && forall|i: int|
                0 <= i < w.len() && #[trigger] w[i] == '\n' ==> i == w.len() - 1 || (i + 1
                    + lp.len() <= w.len() && w.subrange(i + 1, i + 1 + lp.len() as int) == lp)
        }),
{
    let lp = line_prefix(st.bq_depth);
    let cp = cont_prefix(st.bq_depth, st.list_depth);
    let segs = linearize(st.buf, st.wrap);
    let w = wrap_text_spec(segs, lp, cp, st.width as int, st.wrap);
    lemma_prefixes_nl_free(st.bq_depth, st.list_depth);
    match st.wrap {
        WrapMode::Preserve => {
            lemma_wp_from_lines(segs, 0, lp, cp);
        },
        WrapMode::Always => {
            lemma_wa_from_lines(segs, 0, st.width as int, lp, cp);
        },
        WrapMode::Never => {
            lemma_wn_from_lines(segs, 0, lp);
            if segs.len() > 0 {
                let body = wrap_never_from(segs, 0, lp);
                assert(w == lp + body);
                assert(lines_cont(lp, lp)) by {
                    assert(forall|i: int| 0 <= i < lp.len() ==> #[trigger] lp[i] != '\n');
                }
                lemma_lines_cont_concat(lp, body, lp);
                lemma_prefix_concat(lp, body);
            }
        },
    }
    let cc = if st.wrap is Never {
        lp
    } else {
        cp
    };
    assert(is_prefix_of(lp, cc)) by {
        if st.wrap is Never {
            assert(cc.subrange(0, lp.len() as int) =~= lp);
        } else {
            lemma_prefix_concat(lp, repeat_seq(seq![' ', ' '], crate::formatter::sat_dec(st.list_depth)));
        }
    }
    assert forall|i: int|
        0 <= i < w.len() && #[trigger] w[i] == '\n' implies i == w.len() - 1 || (i + 1 + lp.len()
        <= w.len() && w.subrange(i + 1, i + 1 + lp.len() as int) == lp) by {
        if i < w.len() - 1 {
            assert(i + 1 + cc.len() <= w.len() && w.subrange(i + 1, i + 1 + cc.len() as int)
                == cc);
            assert(w.subrange(i + 1, i + 1 + lp.len() as int) =~= w.subrange(
                i + 1,
                i + 1 + cc.len() as int,
            ).subrange(0, lp.len() as int));
        }
    }
}


proof fn lemma_prefix_refl(a: Seq<char>)
    ensures
        is_prefix_of(a, a),
{
    assert(a.subrange(0, a.len() as int) =~= a);
}

proof fn lemma_flush_extends(st: FmtState)
    ensures
        is_prefix_of(st.out, flush_st(st).out),
{
    if flush_st(st).out == st.out {
        lemma_prefix_refl(st.out);
    } else {
        let segs = linearize(st.buf, st.wrap);
        lemma_prefix_concat(
            st.out,
            wrap_text_spec(
                segs,
                line_prefix(st.bq_depth),
                cont_prefix(st.bq_depth, st.list_depth),
                st.width as int,
                st.wrap,
            ),
        );
    }
}

proof fn lemma_ensure_blank_extends(o: Seq<char>)
    ensures
        is_prefix_of(o, ensure_blank(o)),
{
    if ensure_blank(o) == o {
        lemma_prefix_refl(o);
    } else {
        assert(ensure_blank(o).subrange(0, o.len() as int) =~= o);
    }
}

proof fn lemma_close_line_extends(o: Seq<char>)
    ensures
        is_prefix_of(o, close_line(o)),
{
    if close_line(o) == o {
        lemma_prefix_refl(o);
    } else {
        assert(close_line(o).subrange(0, o.len() as int) =~= o);
    }
}

/// Every transition only appends to the output.
proof fn lemma_step_extends(st: FmtState, ev: MdEvent)
    ensures
        is_prefix_of(st.out, step(st, ev).out),
{
    let st1 = flush_st(st);
    lemma_flush_extends(st);
    lemma_ensure_blank_extends(st1.out);
    let eb = ensure_blank(st1.out);
    lemma_prefix_trans(st.out, st1.out, eb);
    let out2 = step(st, ev).out;
    match ev {
        MdEvent::Start(k) => {
            match k {
                BlockKind::Heading(level) => {
                    assert(out2.subrange(0, eb.len() as int) =~= eb);
                    lemma_prefix_trans(st.out, eb, out2);
                },
                BlockKind::Paragraph => {
                    if st1.stack.len() > 0 && st1.stack.last() is ListItem {
                        lemma_prefix_refl(st1.out);
                        lemma_prefix_trans(st.out, st1.out, out2);
                    } else {
                        lemma_prefix_refl(eb);
                        lemma_prefix_trans(st.out, eb, out2);
                    }
                },
                BlockKind::List(..) => {
                    if st1.stack.len() > 0 && st1.stack.last() is ListItem {
                        lemma_prefix_refl(st1.out);
                        lemma_prefix_trans(st.out, st1.out, out2);
                    } else {
                        lemma_prefix_refl(eb);
                        lemma_prefix_trans(st.out, eb, out2);
                    }
                },
                BlockKind::ListItem => {
                    let o1 = if st1.out.len() > 0 && st1.out.last() != '\n' {
                        st1.out + seq!['\n']
                    } else {
                        st1.out
                    };
                    assert(o1.subrange(0, st1.out.len() as int) =~= st1.out);
                    assert(out2.subrange(0, o1.len() as int) =~= o1);
                    lemma_prefix_trans(st1.out, o1, out2);
                    lemma_prefix_trans(st.out, st1.out, out2);
                },
                BlockKind::Blockquote => {
                    lemma_prefix_refl(eb);
                    lemma_prefix_trans(st.out, eb, out2);
                },
                BlockKind::CodeBlock(..) => {
                    assert(out2.subrange(0, eb.len() as int) =~= eb);
                    lemma_prefix_trans(st.out, eb, out2);
                },
                _ => {
                    lemma_prefix_refl(st.out);
                },
            }
        },
        MdEvent::End(k) => {
            match k {
                BlockKind::Heading(..) | BlockKind::Paragraph => {
                    assert(out2.subrange(0, st1.out.len() as int) =~= st1.out);
                    lemma_prefix_trans(st.out, st1.out, out2);
                },
                BlockKind::List(..) | BlockKind::Blockquote => {
                    lemma_close_line_extends(st1.out);
                    lemma_prefix_trans(st.out, st1.out, out2);
                },
                BlockKind::ListItem => {
                    lemma_prefix_refl(st1.out);
                    lemma_prefix_trans(st.out, st1.out, out2);
                },
                BlockKind::CodeBlock(..) => {
                    assert(out2.subrange(0, st.out.len() as int) =~= st.out);
                },
                _ => {
                    lemma_prefix_refl(st.out);
                },
            }
        },
        MdEvent::Text(t) => {
            if st.in_code {
                lemma_prefix_concat(st.out, t@);
            } else {
                lemma_prefix_refl(st.out);
            }
        },
        MdEvent::RawMarkup(h) => {
            assert(out2.subrange(0, eb.len() as int) =~= eb);
            lemma_prefix_trans(st.out, eb, out2);
        },
        MdEvent::Rule => {
            assert(out2.subrange(0, eb.len() as int) =~= eb);
            lemma_prefix_trans(st.out, eb, out2);
        },
        _ => {
            lemma_prefix_refl(st.out);
        },
    }
}

/// A whole run only appends to the output.
proof fn lemma_run_extends(st: FmtState, events: Seq<MdEvent>, i: int)
    ensures
        is_prefix_of(st.out, run_from(st, events, i).out),
    decreases events.len() - i,
{
    if i < 0 || i >= events.len() {
        lemma_prefix_refl(st.out);
    } else {
        lemma_step_extends(st, events[i]);
        lemma_run_extends(step(st, events[i]), events, i + 1);
        lemma_prefix_trans(st.out, step(st, events[i]).out, run_from(st, events, i).out);
    }
}

proof fn lemma_run_drop_first(st: FmtState, s: Seq<MdEvent>, i: int)
    requires
        0 <= i,
        s.len() > 0,
    ensures
        run_from(st, s, i + 1) == run_from(st, s.drop_first(), i),
    decreases s.len() - i,
{
    if i + 1 >= s.len() {
    } else {
        assert(s.drop_first()[i] == s[i + 1]);
        lemma_run_drop_first(step(st, s[i + 1]), s, i + 1);
    }
}

/// Running a concatenation is running the parts in turn.
proof fn lemma_run_concat(st: FmtState, a: Seq<MdEvent>, b: Seq<MdEvent>)
    ensures
        run_from(st, a + b, 0) == run_from(run_from(st, a, 0), b, 0),
    decreases a.len(),
{
    if a.len() == 0 {
        assert(a + b =~= b);
    } else {
        let s = a + b;
        assert(s[0] == a[0]);
        let st2 = step(st, a[0]);
        assert(run_from(st, s, 0) == run_from(st2, s, 1));
        lemma_run_drop_first(st2, s, 0);
        assert(s.drop_first() =~= a.drop_first() + b);
        lemma_run_concat(st2, a.drop_first(), b);
        lemma_run_drop_first(st2, a, 0);
        assert(run_from(st, a, 0) == run_from(st2, a, 1));
    }
}

/// The concatenated content of the text events in `[i, j)`.
pub open spec fn texts_cat(events: Seq<MdEvent>, i: int, j: int) -> Seq<char>
    decreases j - i,
{
    if i < 0 || i >= j {
        Seq::empty()
    } else {
        (match events[i] {
            MdEvent::Text(t) => t@,
            _ => Seq::<char>::empty(),
        }) + texts_cat(events, i + 1, j)
    }
}

/// A run of text events inside an open code block appends exactly
/// their concatenated content, and the block stays open.
proof fn lemma_text_run(st: FmtState, events: Seq<MdEvent>, i: int, j: int)
    requires
        0 <= i <= j <= events.len(),
        forall|m: int| i <= m < j ==> (#[trigger] events[m]) is Text,
        st.in_code,
    ensures
        run_from(st, events.subrange(i, j), 0).out == st.out + texts_cat(events, i, j),
        run_from(st, events.subrange(i, j), 0).in_code,
    decreases j - i,
{
    let sl = events.subrange(i, j);
    if i >= j {
        assert(sl =~= Seq::<MdEvent>::empty());
        assert(run_from(st, sl, 0) == st);
        assert(st.out + texts_cat(events, i, j) =~= st.out);
    } else {
        assert(sl[0] == events[i]);
        assert(events[i] is Text);
        let st1 = step(st, sl[0]);
        let chunk = match events[i] {
            MdEvent::Text(t) => t@,
            _ => Seq::<char>::empty(),
        };
        assert(st1.out == st.out + chunk);
        assert(st1.in_code);
        assert(run_from(st, sl, 0) == run_from(st1, sl, 1));
        lemma_run_drop_first(st1, sl, 0);
        assert(sl.drop_first() =~= events.subrange(i + 1, j));
        lemma_text_run(st1, events, i + 1, j);
        assert(st.out + texts_cat(events, i, j) =~= (st.out + chunk) + texts_cat(
            events,
            i + 1,
            j,
        ));
    }
}

/// Verbatim code regions: the text events of an open code block go to
/// the output byte for byte, in order, and — with the closing fence
/// right after them — their concatenation survives the final trim into
/// the rendered document.
pub proof fn lemma_code_block_verbatim(
    st0: FmtState,
    events: Seq<MdEvent>,
    i: int,
    j: int,
    lang: String,
)
    requires
        0 <= i <= j < events.len(),
        forall|m: int| i <= m < j ==> (#[trigger] events[m]) is Text,
        events[j] == MdEvent::End(BlockKind::CodeBlock(lang)),
        run_from(st0, events.take(i), 0).in_code,
    ensures
        contains_seq(spec_render(st0, events), texts_cat(events, i, j)),
{
    let pre = events.take(i);
    let post = events.skip(i);
    assert(pre + post =~= events);
    lemma_run_concat(st0, pre, post);
    let sti = run_from(st0, pre, 0);
    let c = texts_cat(events, i, j);
    let texts_part = events.subrange(i, j);
    let rest = events.skip(j);
    assert(post =~= texts_part + rest);
    lemma_run_concat(sti, texts_part, rest);
    lemma_text_run(sti, events, i, j);
    let stm = run_from(sti, texts_part, 0);
    assert(stm.out == sti.out + c);
    assert(stm.in_code);
    assert(rest[0] == events[j]);
    let st2 = step(stm, rest[0]);
    assert(st2.out == stm.out + seq!['`', '`', '`', '\n']);
    assert(run_from(stm, rest, 0) == run_from(st2, rest, 1));
    lemma_run_extends(st2, rest, 1);
    let stf = run_from(st2, rest, 1);
    assert(run_from(st0, events, 0) == stf) by {
        assert(run_from(st0, pre + post, 0) == run_from(st0, events, 0));
        assert(run_from(sti, texts_part + rest, 0) == run_from(sti, post, 0));
    }
    lemma_flush_extends(stf);
    let out_all = flush_st(stf).out;
    lemma_prefix_trans(st2.out, stf.out, out_all);
    let q = sti.out.len() as int;
    let p = q + c.len();
    assert(st2.out[p] == '`') by {
        assert(st2.out == (sti.out + c) + seq!['`', '`', '`', '\n']);
    }
    assert(out_all[p] == '`') by {
        assert(out_all.subrange(0, st2.out.len() as int) == st2.out);
        assert(out_all.subrange(0, st2.out.len() as int)[p] == out_all[p]);
    }
    assert(!is_ws('`'));
    lemma_trim_end_keeps_prefix(out_all, p);
    let t = trim_end_spec(out_all);
    assert(contains_seq(t, c)) by {
        assert(t.subrange(q, q + c.len() as int) =~= c) by {
            assert forall|x: int| 0 <= x < c.len() implies t.subrange(q, q + c.len() as int)[x]
                == c[x] by {
                assert(t.subrange(q, q + c.len() as int)[x] == t[q + x]);
                assert(t[q + x] == out_all[q + x]) by {
                    assert(t == out_all.take(t.len() as int));
                }
                assert(out_all[q + x] == st2.out[q + x]) by {
                    assert(out_all.subrange(0, st2.out.len() as int) == st2.out);
                    assert(out_all.subrange(0, st2.out.len() as int)[q + x] == out_all[q + x]);
                }
                assert(st2.out[q + x] == c[x]) by {
                    assert(st2.out == (sti.out + c) + seq!['`', '`', '`', '\n']);
                    assert((sti.out + c)[q + x] == c[x]);
                }
            }
        }
    }
    assert(t.len() > 0);
    assert(spec_render(st0, events) == t + seq!['\n']);
    lemma_contains_extend(t, seq!['\n'], c);
}

/// `needle` occurs in `hay` with a non-whitespace character right
/// after it — so it cannot fall to the final whitespace trim.
pub open spec fn contains_before_word(hay: Seq<char>, needle: Seq<char>) -> bool {
    exists|p: int|
        0 <= p && p + needle.len() < hay.len() && #[trigger] hay.subrange(
            p,
            p + needle.len() as int,
        ) == needle && !is_ws(hay[p + needle.len()])
}

proof fn lemma_contains_before_word_mono(a: Seq<char>, b: Seq<char>, needle: Seq<char>)
    requires
        contains_before_word(a, needle),
        is_prefix_of(a, b),
    ensures
        contains_before_word(b, needle),
{
    let p = choose|p: int|
        0 <= p && p + needle.len() < a.len() && #[trigger] a.subrange(p, p + needle.len() as int)
            == needle && !is_ws(a[p + needle.len()]);
    assert(b.subrange(p, p + needle.len() as int) =~= a.subrange(p, p + needle.len() as int)) by {
        assert(b.subrange(0, a.len() as int) == a);
        assert(forall|x: int|
            0 <= x < a.len() ==> #[trigger] b.subrange(0, a.len() as int)[x] == b[x]);
    }
    assert(b[p + needle.len()] == a[p + needle.len()]) by {
        assert(b.subrange(0, a.len() as int)[p + needle.len()] == b[p + needle.len()]);
    }
}

/// The item marker for counter value `n`.
pub open spec fn marker_chars(n: u64) -> Seq<char> {
    dec_digits(n as nat) + seq!['.', ' ']
}

/// The number an item's marker shows for counter value `v`: the
/// counter under the ascending policy, always 1 under constant-one.
pub open spec fn shown_number(olm: OrderedListMode, v: u64) -> u64 {
    if olm == OrderedListMode::One {
        1u64
    } else {
        v
    }
}

/// The events of one plain list item.
pub open spec fn item_events(text: String) -> Seq<MdEvent> {
    seq![
        MdEvent::Start(BlockKind::ListItem),
        MdEvent::Text(text),
        MdEvent::End(BlockKind::ListItem),
    ]
}

/// The events of the items from index `i` on.
pub open spec fn items_events(texts: Seq<String>, i: int) -> Seq<MdEvent>
    decreases texts.len() - i,
{
    if i < 0 || i >= texts.len() {
        Seq::empty()
    } else {
        item_events(texts[i]) + items_events(texts, i + 1)
    }
}

/// A whole ordered list declared to start at `k`, one item per text.
pub open spec fn ordered_list_events(k: u64, texts: Seq<String>) -> Seq<MdEvent> {
    seq![MdEvent::Start(BlockKind::List(Some(k)))] + items_events(texts, 0) + seq![
        MdEvent::End(BlockKind::List(Some(k))),
    ]
}

/// A state in the middle of rendering one flat ordered list whose
/// counter stands at `n`.
pub open spec fn in_list_state(st: FmtState, n: u64) -> bool {
    st.stack == seq![CtxView::List { ordered: true, next: n }] && st.buf == Seq::<
        ElemView,
    >::empty() && !st.in_code && st.list_depth == 1 && st.bq_depth == 0
}

proof fn lemma_single_seg_wrap_starts_word(t: Seq<char>, width: int, cont: Seq<char>, wrap: WrapMode)
    requires
        words_of(t).len() > 0,
    ensures
        ({
            let out = wrap_text_spec(
                seq![SegView { text: t, brk: BreakKind::Terminal }],
                Seq::empty(),
                cont,
                width,
                wrap,
            );
            out.len() > 0 && !is_ws(out[0])
        }),
{
    let segs = seq![SegView { text: t, brk: BreakKind::Terminal }];
    let norm = normalize_ws(t);
    lemma_normalize_clean(t);
    lemma_words_from_wf(t, 0);
    let ws = words_of(t);
    assert(t.len() > 0);
    match wrap {
        WrapMode::Preserve => {
            let out = wrap_preserve_spec(segs, Seq::empty(), cont);
            assert(wrap_preserve_from(segs, 1, cont, cont) == Seq::<char>::empty());
            assert(out =~= norm);
            assert(out[0] == norm.first());
        },
        WrapMode::Never => {
            let out = wrap_never_spec(segs, Seq::empty());
            assert(wrap_never_from(segs, 1, Seq::empty()) == Seq::<char>::empty());
            assert(out =~= norm);
            assert(out[0] == norm.first());
        },
        WrapMode::Always => {
            let out = wrap_always_spec(segs, width, Seq::empty(), cont);
            assert(wrap_always_from(segs, 1, width, cont, cont) == Seq::<char>::empty());
            let packed = pack_words(ws, width, Seq::empty(), cont);
            assert(out =~= packed);
            let cur0 = Seq::empty() + ws[0];
            assert(cur0 =~= ws[0]);
            lemma_pack_rest_prefix(ws, 1, width, cont, cur0);
            assert(good_word(ws[0]));
            assert(packed[0] == ws[0][0]) by {
                assert(packed.subrange(0, cur0.len() as int)[0] == packed[0]);
            }
        },
    }
}

/// One item of a flat ordered list: its marker is the counter under
/// the ascending policy and `1` under the constant-one policy; the
/// counter advances only under the ascending policy.
proof fn lemma_one_item(st: FmtState, t: String, n: u64)
    requires
        in_list_state(st, n),
        n < u64::MAX,
        words_of(t@).len() > 0,
    ensures
        ({
            let st2 = run_from(st, item_events(t), 0);
            let shown: u64 = if st.olm == OrderedListMode::One {
                1u64
            } else {
                n
            };
            let n2: u64 = if st.olm == OrderedListMode::Ascending {
                (n + 1) as u64
            } else {
                n
            };
            in_list_state(st2, n2) && st2.width == st.width && st2.wrap == st.wrap && st2.olm
                == st.olm && is_prefix_of(st.out, st2.out) && contains_before_word(
                st2.out,
                marker_chars(shown),
            )
        }),
{
    let evs = item_events(t);
    let shown: u64 = if st.olm == OrderedListMode::One {
        1u64
    } else {
        n
    };
    let st1 = step(st, evs[0]);
    assert(st1 == start_item_st(st));
    assert(last_list_index(st.stack) == 0);
    let o1 = if st.out.len() > 0 && st.out.last() != '\n' {
        st.out + seq!['\n']
    } else {
        st.out
    };
    assert(line_prefix(0) == Seq::<char>::empty());
    let out_marker = o1 + Seq::<char>::empty() + Seq::<char>::empty() + dec_digits(
        shown as nat,
    ) + seq!['.', ' '];
    assert(st1.out == out_marker);
    assert(st1.stack =~= seq![
        CtxView::List {
            ordered: true,
            next: if st.olm == OrderedListMode::Ascending {
                (n + 1) as u64
            } else {
                n
            },
        },
        CtxView::ListItem,
    ]) by {
        if st.olm == OrderedListMode::Ascending {
            assert(st.stack.update(0, CtxView::List { ordered: true, next: (n + 1) as u64 })
                =~= seq![CtxView::List { ordered: true, next: (n + 1) as u64 }]);
        }
    }
    let st2 = step(st1, evs[1]);
    assert(st2.buf =~= seq![ElemView::Text(t@)]);
    assert(st2.out == st1.out);
    let st3 = step(st2, evs[2]);
    let segs = linearize(st2.buf, st.wrap);
    assert(segs =~= seq![SegView { text: t@, brk: BreakKind::Terminal }]) by {
        assert(lin_from(st2.buf, st.wrap, 1, Seq::empty(), Seq::empty() + t@) == Seq::<
            SegView,
        >::empty().push(SegView { text: Seq::empty() + t@, brk: BreakKind::Terminal }));
        assert(Seq::empty() + t@ =~= t@);
    }
    assert(!is_blank_segs(segs)) by {
        if ws_only(t@) {
            lemma_ws_only_no_words(t@, 0);
        }
    }
    assert(line_prefix(st2.bq_depth) == Seq::<char>::empty());
    let w = wrap_text_spec(
        segs,
        Seq::empty(),
        cont_prefix(st2.bq_depth, st2.list_depth),
        st.width as int,
        st.wrap,
    );
    lemma_single_seg_wrap_starts_word(
        t@,
        st.width as int,
        cont_prefix(st2.bq_depth, st2.list_depth),
        st.wrap,
    );
    assert(st3.out == st2.out + w);
    assert(st3.stack =~= seq![
        CtxView::List {
            ordered: true,
            next: if st.olm == OrderedListMode::Ascending {
                (n + 1) as u64
            } else {
                n
            },
        },
    ]);
    assert(contains_before_word(st3.out, marker_chars(shown))) by {
        let m = marker_chars(shown);
        let p = o1.len() as int;
        assert(st3.out.subrange(p, p + m.len() as int) =~= m) by {
            assert(st1.out =~= o1 + m);
            assert(forall|x: int|
                0 <= x < m.len() ==> #[trigger] st3.out[p + x] == st1.out[p + x]);
            assert(forall|x: int| 0 <= x < m.len() ==> #[trigger] st1.out[p + x] == m[x]);
        }
        assert(st3.out[p + m.len()] == w[0]);
    }
    assert(run_from(st, evs, 0) == st3) by {
        assert(run_from(st, evs, 0) == run_from(st1, evs, 1));
        assert(run_from(st1, evs, 1) == run_from(st2, evs, 2));
        assert(run_from(st2, evs, 2) == run_from(st3, evs, 3));
    }
    assert(is_prefix_of(st.out, st3.out)) by {
        lemma_step_extends(st, evs[0]);
        lemma_prefix_refl(st1.out);
        lemma_prefix_concat(st2.out, w);
        lemma_prefix_trans(st.out, st1.out, st2.out);
        lemma_prefix_trans(st.out, st2.out, st3.out);
    }
}

/// The items of a flat ordered list in sequence: item `idx` (0-based,
/// counted from `j`) renders the marker for counter `n + idx - j`
/// under the ascending policy, and `1` under the constant-one policy.
proof fn lemma_items_trace(texts: Seq<String>, j: int, st: FmtState, n: u64)
    requires
        0 <= j <= texts.len(),
        in_list_state(st, n),
        n + texts.len() - j <= u64::MAX,
        forall|i: int| 0 <= i < texts.len() ==> words_of((#[trigger] texts[i])@).len() > 0,
    ensures
        ({
            let st2 = run_from(st, items_events(texts, j), 0);
            let n2: u64 = if st.olm == OrderedListMode::Ascending {
                (n + texts.len() - j) as u64
            } else {
                n
            };
            in_list_state(st2, n2) && st2.width == st.width && st2.wrap == st.wrap && st2.olm
                == st.olm && is_prefix_of(st.out, st2.out) && forall|idx: int|
                j <= idx < texts.len() ==> contains_before_word(
                    st2.out,
                    marker_chars(#[trigger] shown_number(st.olm, (n + idx - j) as u64)),
                )
        }),
    decreases texts.len() - j,
{
    let evs = items_events(texts, j);
    if j >= texts.len() {
        assert(evs == Seq::<MdEvent>::empty());
        assert(run_from(st, evs, 0) == st);
        lemma_prefix_refl(st.out);
    } else {
        assert(evs == item_events(texts[j]) + items_events(texts, j + 1));
        lemma_run_concat(st, item_events(texts[j]), items_events(texts, j + 1));
        lemma_one_item(st, texts[j], n);
        let stm = run_from(st, item_events(texts[j]), 0);
        let nm: u64 = if st.olm == OrderedListMode::Ascending {
            (n + 1) as u64
        } else {
            n
        };
        lemma_items_trace(texts, j + 1, stm, nm);
        let st2 = run_from(stm, items_events(texts, j + 1), 0);
        assert(run_from(st, evs, 0) == st2);
        lemma_prefix_trans(st.out, stm.out, st2.out);
        let shown0: u64 = if st.olm == OrderedListMode::One {
            1u64
        } else {
            n
        };
        assert forall|idx: int|
            j <= idx < texts.len() implies contains_before_word(
            st2.out,
            marker_chars(#[trigger] shown_number(st.olm, (n + idx - j) as u64)),
        ) by {
            if idx == j {
                lemma_contains_before_word_mono(stm.out, st2.out, marker_chars(shown0));
                assert(shown_number(st.olm, (n + idx - j) as u64) == shown0);
            } else {
                assert(contains_before_word(
                    st2.out,
                    marker_chars(shown_number(st.olm, (nm + idx - (j + 1)) as u64)),
                ));
                assert(shown_number(st.olm, (nm + idx - (j + 1)) as u64) == shown_number(
                    st.olm,
                    (n + idx - j) as u64,
                ));
            }
        }
    }
}

/// List numbering: rendering one flat ordered list of items whose
/// texts hold at least one word each, declared to start at `k`, puts
/// into the document, for every item index `idx` (0-based), the marker
/// `k+idx. ` under the ascending policy and the marker `1. ` under the
/// constant-one policy.
pub proof fn lemma_ordered_list_numbering(
    k: u64,
    texts: Seq<String>,
    width: nat,
    wrap: WrapMode,
    olm: OrderedListMode,
    idx: int,
)
    requires
        0 <= idx < texts.len(),
        k + texts.len() <= u64::MAX,
        forall|i: int| 0 <= i < texts.len() ==> words_of((#[trigger] texts[i])@).len() > 0,
    ensures
        contains_seq(
            spec_render(init_state(width, wrap, olm), ordered_list_events(k, texts)),
            marker_chars(shown_number(olm, (k + idx) as u64)),
        ),
{
    let st0 = init_state(width, wrap, olm);
    let evs = ordered_list_events(k, texts);
    let head = seq![MdEvent::Start(BlockKind::List(Some(k)))];
    let mid = items_events(texts, 0);
    let last = seq![MdEvent::End(BlockKind::List(Some(k)))];
    assert(evs =~= head + (mid + last));
    lemma_run_concat(st0, head, mid + last);
    let st1 = run_from(st0, head, 0);
    assert(st1 == step(st0, head[0])) by {
        assert(run_from(st0, head, 0) == run_from(step(st0, head[0]), head, 1));
        assert(run_from(step(st0, head[0]), head, 1) == step(st0, head[0]));
    }
    assert(in_list_state(st1, k)) by {
        assert(st1.stack =~= seq![CtxView::List { ordered: true, next: k }]);
        assert(st1.buf =~= Seq::<ElemView>::empty());
    }
    lemma_run_concat(st1, mid, last);
    lemma_items_trace(texts, 0, st1, k);
    let st2 = run_from(st1, mid, 0);
    let stf = run_from(st2, last, 0);
    assert(stf == step(st2, last[0])) by {
        assert(run_from(st2, last, 0) == run_from(step(st2, last[0]), last, 1));
        assert(run_from(step(st2, last[0]), last, 1) == step(st2, last[0]));
    }
    lemma_step_extends(st2, last[0]);
    let m = marker_chars(shown_number(olm, (k + idx) as u64));
    assert(st1.olm == olm);
    assert(contains_before_word(st2.out, marker_chars(shown_number(st1.olm, (k + idx - 0) as u64))));
    assert(shown_number(st1.olm, (k + idx - 0) as u64) == shown_number(olm, (k + idx) as u64));
    assert(contains_before_word(st2.out, m));
    lemma_contains_before_word_mono(st2.out, stf.out, m);
    assert(run_from(st0, evs, 0) == stf) by {
        assert(run_from(st0, head + (mid + last), 0) == run_from(st0, evs, 0));
        assert(run_from(st1, mid + last, 0) == run_from(st2, last, 0));
    }
    assert(flush_st(stf) == stf);
    let p = choose|p: int|
        0 <= p && p + m.len() < stf.out.len() && #[trigger] stf.out.subrange(p, p + m.len() as int)
            == m && !is_ws(stf.out[p + m.len()]);
    lemma_trim_end_keeps_prefix(stf.out, p + m.len());
    let t = trim_end_spec(stf.out);
    assert(contains_seq(t, m)) by {
        assert(t.subrange(p, p + m.len() as int) =~= stf.out.subrange(p, p + m.len() as int)) by {
            assert(t == stf.out.take(t.len() as int));
            assert(forall|x: int|
                0 <= x < m.len() ==> #[trigger] t.subrange(p, p + m.len() as int)[x] == t[p + x]);
        }
    }
    assert(t.len() > 0);
    assert(spec_render(st0, evs) == t + seq!['\n']);
    lemma_contains_extend(t, seq!['\n'], m);
}


/// The stable core of idempotence: a block that already carries
/// normalized text reflows, under Preserve with no prefixes, to
/// exactly that text — formatting formatted prose is a no-op.
pub proof fn lemma_preserve_reflow_stable(t: Seq<char>)
    ensures
        wrap_preserve_spec(
            seq![SegView { text: normalize_ws(t), brk: BreakKind::Terminal }],
            Seq::empty(),
            Seq::empty(),
        ) == normalize_ws(t),
{
    let n = normalize_ws(t);
    let segs = seq![SegView { text: n, brk: BreakKind::Terminal }];
    lemma_normalize_idempotent(t);
    if n.len() == 0 {
        assert(wrap_preserve_spec(segs, Seq::empty(), Seq::empty()) == Seq::<char>::empty());
    } else {
        assert(wrap_preserve_from(segs, 1, Seq::empty(), Seq::empty()) == Seq::<char>::empty());
        assert(wrap_preserve_spec(segs, Seq::empty(), Seq::empty()) =~= normalize_ws(n));
    }
}


/// Nested lists keep independent counters: entering a list item
/// touches at most the innermost open list's entry on the context
/// stack — every outer context, outer list counters included, is
/// carried over unchanged, with the new item pushed on top.
pub proof fn lemma_item_keeps_outer_counters(st: FmtState)
    ensures
        start_item_st(st).stack.len() == st.stack.len() + 1,
        start_item_st(st).stack.last() is ListItem,
        forall|m: int|
            0 <= m < st.stack.len() && m != last_list_index(st.stack) ==> start_item_st(
                st,
            ).stack[m] == #[trigger] st.stack[m],
{
    assert(flush_st(st).stack == st.stack);
    let st2 = start_item_st(st);
    let idx = last_list_index(st.stack);
    assert forall|m: int|
        0 <= m < st.stack.len() && m != idx implies st2.stack[m] == #[trigger] st.stack[m] by {
        if 0 <= idx < st.stack.len() {
            assert(st.stack.update(
                idx,
                CtxView::List {
                    ordered: true,
                    next: crate::formatter::sat_inc_u64(
                        match st.stack[idx] {
                            CtxView::List { ordered, next } => next,
                            _ => 1u64,
                        },
                    ),
                },
            )[m] == st.stack[m]);
        }
    }
}


/// `[a, b)` is one physical line of `s`: newline-bounded on both
/// sides, none inside.
pub open spec fn line_span(s: Seq<char>, a: int, b: int) -> bool {
    0 <= a <= b <= s.len() && (a == 0 || s[a - 1] == '\n') && (b == s.len() || s[b] == '\n')
        && forall|x: int| a <= x < b ==> #[trigger] s[x] != '\n'
}

/// No physical line of `s` is longer than `width`.
pub open spec fn lines_at_most(s: Seq<char>, width: int) -> bool {
    forall|a: int, b: int| #[trigger] line_span(s, a, b) ==> b - a <= width
}

proof fn lemma_nl_free_lines_at_most(s: Seq<char>, width: int)
    requires
        nl_free(s),
        s.len() <= width,
    ensures
        lines_at_most(s, width),
{
    assert forall|a: int, b: int| #[trigger] line_span(s, a, b) implies b - a <= width by {
        if line_span(s, a, b) {
        }
    }
}

proof fn lemma_pack_rest_width(ws: Seq<Seq<char>>, k: int, width: int, cont: Seq<char>, cur: Seq<char>)
    requires
        forall|m: int| 0 <= m < ws.len() ==> good_word(#[trigger] ws[m]),
        nl_free(cont),
        nl_free(cur),
        cur.len() <= width,
        forall|m: int| k <= m < ws.len() ==> cont.len() + (#[trigger] ws[m]).len() <= width,
    ensures
        lines_at_most(pack_rest(ws, k, width, cont, cur), width),
    decreases ws.len() - k,
{
    let out = pack_rest(ws, k, width, cont, cur);
    if k < 0 || k >= ws.len() {
        lemma_nl_free_lines_at_most(cur, width);
    } else if cur.len() + 1 + ws[k].len() > width {
        let w = ws[k];
        let cur2 = cont + w;
        assert(good_word(w));
        assert(nl_free(cur2)) by {
            assert forall|i: int| 0 <= i < cur2.len() implies #[trigger] cur2[i] != '\n' by {
                if i >= cont.len() {
                    assert(cur2[i] == w[i - cont.len()]);
                    assert(!is_ws(w[i - cont.len()]));
                }
            }
        }
        lemma_pack_rest_width(ws, k + 1, width, cont, cur2);
        let rest = pack_rest(ws, k + 1, width, cont, cur2);
        lemma_pack_rest_prefix(ws, k + 1, width, cont, cur2);
        assert(rest.len() >= cur2.len());
        assert(rest.len() > 0);
        assert(out == cur + seq!['\n'] + rest);
        assert forall|a: int, b: int| #[trigger] line_span(out, a, b) implies b - a <= width by {
            if line_span(out, a, b) {
                let cl = cur.len() as int;
                if b <= cl {
                    assert(b == cl || out[b] == '\n');
                    assert(forall|x: int| 0 <= x < cl ==> #[trigger] out[x] == cur[x]);
                    assert(b == cl);
                    assert(a == 0);
                } else if a >= cl + 1 {
                    let a2 = a - cl - 1;
                    let b2 = b - cl - 1;
                    assert(line_span(rest, a2, b2)) by {
                        assert(forall|x: int|
                            0 <= x < rest.len() ==> #[trigger] rest[x] == out[cl + 1 + x]);
                        if a2 > 0 {
                            assert(rest[a2 - 1] == out[a - 1]);
                        }
                        if b2 < rest.len() {
                            assert(rest[b2] == out[b]);
                        }
                        assert forall|x: int| a2 <= x < b2 implies #[trigger] rest[x] != '\n' by {
                            assert(rest[x] == out[cl + 1 + x]);
                        }
                    }
                    assert(b2 - a2 <= width);
                } else {
                    assert(a <= cl < b);
                    assert(out[cl] == '\n');
                }
            }
        }
    } else {
        let w = ws[k];
        let cur2 = cur + seq![' '] + w;
        assert(good_word(w));
        assert(nl_free(cur2)) by {
            assert forall|i: int| 0 <= i < cur2.len() implies #[trigger] cur2[i] != '\n' by {
                if i < cur.len() {
                    assert(cur2[i] == cur[i]);
                } else if i == cur.len() {
                    assert(cur2[i] == ' ');
                } else {
                    assert(cur2[i] == w[i - cur.len() - 1]);
                    assert(!is_ws(w[i - cur.len() - 1]));
                }
            }
        }
        lemma_pack_rest_width(ws, k + 1, width, cont, cur2);
    }
}

/// Width obedience under Always: a block with no hard break whose
/// every word fits the width beside its prefix reflows with no
/// physical line longer than the width — only an unbreakable word
/// longer than the width could force one past it.
pub proof fn lemma_always_width_bound(
    segs: Seq<SegView>,
    width: int,
    first: Seq<char>,
    cont: Seq<char>,
)
    requires
        segs.len() == 1,
        segs[0].brk is Terminal,
        nl_free(first),
        nl_free(cont),
        words_of(segs[0].text).len() == 0 ==> first.len() <= width,
        words_of(segs[0].text).len() > 0 ==> first.len() + words_of(segs[0].text)[0].len()
            <= width,
        forall|m: int|
            1 <= m < words_of(segs[0].text).len() ==> cont.len() + (#[trigger] words_of(
                segs[0].text,
            )[m]).len() <= width,
    ensures
        lines_at_most(wrap_always_spec(segs, width, first, cont), width),
{
    let ws = words_of(segs[0].text);
    lemma_words_from_wf(segs[0].text, 0);
    let out = wrap_always_spec(segs, width, first, cont);
    assert(wrap_always_from(segs, 1, width, cont, cont) == Seq::<char>::empty());
    let packed = pack_words(ws, width, first, cont);
    assert(out =~= packed);
    if ws.len() == 0 {
        lemma_nl_free_lines_at_most(first, width);
        assert(lines_at_most(out, width)) by {
            assert forall|a: int, b: int| #[trigger] line_span(out, a, b) implies b - a
                <= width by {
                assert(line_span(first, a, b) == line_span(out, a, b));
            }
        }
    } else {
        let cur0 = first + ws[0];
        assert(good_word(ws[0]));
        assert(nl_free(cur0)) by {
            assert forall|i: int| 0 <= i < cur0.len() implies #[trigger] cur0[i] != '\n' by {
                if i >= first.len() {
                    assert(cur0[i] == ws[0][i - first.len()]);
                    assert(!is_ws(ws[0][i - first.len()]));
                }
            }
        }
        lemma_pack_rest_width(ws, 1, width, cont, cur0);
        assert(lines_at_most(out, width)) by {
            assert forall|a: int, b: int| #[trigger] line_span(out, a, b) implies b - a
                <= width by {
                assert(line_span(packed, a, b) == line_span(out, a, b));
            }
        }
    }
}


/// Prefix carry-over for any prefix pair: whenever both the first-line
/// and continuation prefixes begin with `lp` (as the quote markers do
/// at every blockquote depth), every physical line of the reflowed
/// block begins with `lp`, under every wrap policy.
pub proof fn lemma_wrap_lines_quoted(
    segs: Seq<SegView>,
    first: Seq<char>,
    cont: Seq<char>,
    width: int,
    wrap: WrapMode,
    lp: Seq<char>,
)
    requires
        nl_free(first),
        nl_free(cont),
        is_prefix_of(lp, first),
        is_prefix_of(lp, cont),
    ensures
        ({
            let out = wrap_text_spec(segs, first, cont, width, wrap);
            (out.len() == 0 || is_prefix_of(lp, out)) && forall|i: int|
                0 <= i < out.len() && #[trigger] out[i] == '\n' ==> i == out.len() - 1 || (i + 1
                    + lp.len() <= out.len() && out.subrange(i + 1, i + 1 + lp.len() as int) == lp)
        }),
{
    let out = wrap_text_spec(segs, first, cont, width, wrap);
    let cc = if wrap is Never {
        first
    } else {
        cont
    };
    match wrap {
        WrapMode::Preserve => {
            lemma_wp_from_lines(segs, 0, first, cont);
        },
        WrapMode::Always => {
            lemma_wa_from_lines(segs, 0, width, first, cont);
        },
        WrapMode::Never => {
            lemma_wn_from_lines(segs, 0, first);
            if segs.len() > 0 {
                let body = wrap_never_from(segs, 0, first);
                assert(out == first + body);
                assert(lines_cont(first, first)) by {
                    assert(forall|i: int| 0 <= i < first.len() ==> #[trigger] first[i] != '\n');
                }
                lemma_lines_cont_concat(first, body, first);
                lemma_prefix_concat(first, body);
            }
        },
    }
    if out.len() > 0 {
        lemma_prefix_trans(lp, first, out);
    }
    assert forall|i: int|
        0 <= i < out.len() && #[trigger] out[i] == '\n' implies i == out.len() - 1 || (i + 1
        + lp.len() <= out.len() && out.subrange(i + 1, i + 1 + lp.len() as int) == lp) by {
        if i < out.len() - 1 {
            assert(i + 1 + cc.len() <= out.len() && out.subrange(i + 1, i + 1 + cc.len() as int)
                == cc);
            assert(out.subrange(i + 1, i + 1 + lp.len() as int) =~= out.subrange(
                i + 1,
                i + 1 + cc.len() as int,
            ).subrange(0, lp.len() as int));
            assert(cc.subrange(0, lp.len() as int) == lp);
        }
    }
}

} // verus!
