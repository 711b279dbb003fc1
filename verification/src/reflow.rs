//! The reflow engine: turns a block's linearized segments into final
//! physical lines, with the block's first-line prefix on the first line
//! and the continuation prefix on every following line.
//!
//! Three policies: `Preserve` keeps the source's break placement,
//! `Never` collapses each segment to one line, `Always` packs words
//! greedily up to the target width.  Hard breaks always terminate their
//! line with two spaces before the newline; width-wrapping inserts only
//! plain newlines.

use vstd::prelude::*;
use crate::inline::{BreakKind, SegView, Segment, segs_view};
use crate::options::WrapMode;
use crate::text::{
    normalize_ws, push_chars, push_normalized, split_words, vecs_view, words_of,
};

verus! {

/// The characters that end a segment's last line: the hard-break marker,
/// a plain newline, or nothing for the block's final segment.
pub open spec fn break_chars(b: BreakKind) -> Seq<char> {
    match b {
        BreakKind::Hard => seq![' ', ' ', '\n'],
        BreakKind::Soft => seq!['\n'],
        BreakKind::Terminal => Seq::empty(),
    }
}

/// Preserve-mode output from segment `i` on.  `pfx` prefixes the next
/// emitted line; later lines get `cont`.  A final segment with no text
/// emits nothing (its break already ended the previous line).
pub open spec fn wrap_preserve_from(
    segs: Seq<SegView>,
    i: int,
    pfx: Seq<char>,
    cont: Seq<char>,
) -> Seq<char>
    decreases segs.len() - i,
{
    if i < 0 || i >= segs.len() {
        Seq::empty()
    } else if i == segs.len() - 1 && segs[i].brk is Terminal && segs[i].text.len() == 0 {
        Seq::empty()
    } else {
        pfx + normalize_ws(segs[i].text) + break_chars(segs[i].brk) + wrap_preserve_from(
            segs,
            i + 1,
            cont,
            cont,
        )
    }
}

/// Preserve mode: one physical line per source segment, whitespace
/// normalized inside each, hard breaks kept as `"  \n"`.
pub open spec fn wrap_preserve_spec(segs: Seq<SegView>, first: Seq<char>, cont: Seq<char>) -> Seq<
    char,
> {
    wrap_preserve_from(segs, 0, first, cont)
}

/// Never-mode output from segment `i` on: each segment collapsed to one
/// line; every line after a break starts with the block's line prefix.
pub open spec fn wrap_never_from(segs: Seq<SegView>, i: int, first: Seq<char>) -> Seq<char>
    decreases segs.len() - i,
{
    if i < 0 || i >= segs.len() {
        Seq::empty()
    } else {
        normalize_ws(segs[i].text) + (if segs[i].brk is Terminal {
            Seq::<char>::empty()
        } else {
            seq![' ', ' ', '\n'] + first
        }) + wrap_never_from(segs, i + 1, first)
    }
}

/// Never mode: the whole block on one line per hard-break segment.
pub open spec fn wrap_never_spec(segs: Seq<SegView>, first: Seq<char>) -> Seq<char> {
    if segs.len() == 0 {
        Seq::empty()
    } else {
        first + wrap_never_from(segs, 0, first)
    }
}

/// Greedy packing of the words from `k` on, with `cur` the open line.
/// A word that would push the line past `width` (counting one joining
/// space) closes the line with a plain newline and opens a new one with
/// the continuation prefix.
pub open spec fn pack_rest(
    ws: Seq<Seq<char>>,
    k: int,
    width: int,
    cont: Seq<char>,
    cur: Seq<char>,
) -> Seq<char>
    decreases ws.len() - k,
{
    if k < 0 || k >= ws.len() {
        cur
    } else if cur.len() + 1 + ws[k].len() > width {
        cur + seq!['\n'] + pack_rest(ws, k + 1, width, cont, cont + ws[k])
    } else {
        pack_rest(ws, k + 1, width, cont, cur + seq![' '] + ws[k])
    }
}

/// Greedy packing of a whole segment's words.
pub open spec fn pack_words(
    ws: Seq<Seq<char>>,
    width: int,
    pfx: Seq<char>,
    cont: Seq<char>,
) -> Seq<char> {
    if ws.len() == 0 {
        pfx
    } else {
        pack_rest(ws, 1, width, cont, pfx + ws[0])
    }
}

/// Always-mode output from segment `i` on: each hard-break segment
/// reflows independently; segments are joined by the hard-break marker.
pub open spec fn wrap_always_from(
    segs: Seq<SegView>,
    i: int,
    width: int,
    pfx: Seq<char>,
    cont: Seq<char>,
) -> Seq<char>
    decreases segs.len() - i,
{
    if i < 0 || i >= segs.len() {
        Seq::empty()
    } else {
        pack_words(words_of(segs[i].text), width, pfx, cont) + (if segs[i].brk is Terminal {
            Seq::<char>::empty()
        } else {
            seq![' ', ' ', '\n']
        }) + wrap_always_from(segs, i + 1, width, cont, cont)
    }
}

/// Always mode: greedy reflow to the target width.
pub open spec fn wrap_always_spec(
    segs: Seq<SegView>,
    width: int,
    first: Seq<char>,
    cont: Seq<char>,
) -> Seq<char> {
    wrap_always_from(segs, 0, width, first, cont)
}

/// The reflowed block under the selected policy.
pub open spec fn wrap_text_spec(
    segs: Seq<SegView>,
    first: Seq<char>,
    cont: Seq<char>,
    width: int,
    wrap: WrapMode,
) -> Seq<char> {
    match wrap {
        WrapMode::Preserve => wrap_preserve_spec(segs, first, cont),
        WrapMode::Never => wrap_never_spec(segs, first),
        WrapMode::Always => wrap_always_spec(segs, width, first, cont),
    }
}

/// Preserve mode, executable.
pub fn wrap_text_preserve(segs: &Vec<Segment>, first: &Vec<char>, cont: &Vec<char>) -> (r: Vec<
    char,
>)
    ensures
        r@ == wrap_preserve_spec(segs_view(segs@), first@, cont@),
{
    let ghost sv = segs_view(segs@);
    let mut out: Vec<char> = Vec::new();
    let mut i: usize = 0;
    while i < segs.len()
        invariant
            i <= segs@.len(),
            sv == segs_view(segs@),
            sv.len() == segs@.len(),
            wrap_preserve_spec(sv, first@, cont@) == out@ + wrap_preserve_from(
                sv,
                i as int,
                if i == 0 {
                    first@
                } else {
                    cont@
                },
                cont@,
            ),
        decreases segs@.len() - i,
    {
        let seg = &segs[i];
        proof {
            assert(sv[i as int] == seg@);
        }
        let last = i == segs.len() - 1;
        if last && matches!(seg.brk, BreakKind::Terminal) && seg.text.len() == 0 {
            i += 1;
        } else {
            let ghost pre = out@;
            let ghost pfx = if i == 0 {
                first@
            } else {
                cont@
            };
            if i == 0 {
                push_chars(&mut out, first);
            } else {
                push_chars(&mut out, cont);
            }
            push_normalized(&mut out, &seg.text);
            match seg.brk {
                BreakKind::Hard => {
                    out.push(' ');
                    out.push(' ');
                    out.push('\n');
                },
                BreakKind::Soft => {
                    out.push('\n');
                },
                BreakKind::Terminal => {
                },
            }
            proof {
                assert(out@ =~= pre + (pfx + normalize_ws(seg@.text) + break_chars(seg@.brk)));
                assert(pre + (pfx + normalize_ws(seg@.text) + break_chars(seg@.brk))
                    + wrap_preserve_from(sv, i + 1, cont@, cont@) =~= pre + wrap_preserve_from(
                    sv,
                    i as int,
                    pfx,
                    cont@,
                ));
            }
            i += 1;
        }
    }
    proof {
        assert(out@ + wrap_preserve_from(sv, i as int, cont@, cont@) =~= out@);
        if segs@.len() == 0 {
            assert(out@ =~= wrap_preserve_spec(sv, first@, cont@));
        }
    }
    out
}

/// Never mode, executable.
pub fn wrap_text_never(segs: &Vec<Segment>, first: &Vec<char>) -> (r: Vec<char>)
    ensures
        r@ == wrap_never_spec(segs_view(segs@), first@),
{
    let ghost sv = segs_view(segs@);
    let mut out: Vec<char> = Vec::new();
    if segs.len() == 0 {
        return out;
    }
    push_chars(&mut out, first);
    let mut i: usize = 0;
    while i < segs.len()
        invariant
            i <= segs@.len(),
            sv == segs_view(segs@),
            sv.len() == segs@.len(),
            sv.len() > 0,
            wrap_never_spec(sv, first@) == out@ + wrap_never_from(sv, i as int, first@),
        decreases segs@.len() - i,
    {
        let seg = &segs[i];
        proof {
            assert(sv[i as int] == seg@);
        }
        let ghost pre = out@;
        push_normalized(&mut out, &seg.text);
        if !matches!(seg.brk, BreakKind::Terminal) {
            out.push(' ');
            out.push(' ');
            out.push('\n');
            push_chars(&mut out, first);
        }
        proof {
            let piece = normalize_ws(seg@.text) + (if seg@.brk is Terminal {
                Seq::<char>::empty()
            } else {
                seq![' ', ' ', '\n'] + first@
            });
            assert(out@ =~= pre + piece);
            assert(pre + piece + wrap_never_from(sv, i + 1, first@) =~= pre + wrap_never_from(
                sv,
                i as int,
                first@,
            ));
        }
        i += 1;
    }
    proof {
        assert(out@ + wrap_never_from(sv, i as int, first@) =~= out@);
    }
    out
}

/// Greedy packing of one segment's words, executable.
fn pack_words_exec(ws: &Vec<Vec<char>>, width: usize, pfx: &Vec<char>, cont: &Vec<char>) -> (r:
    Vec<char>)
    ensures
        r@ == pack_words(vecs_view(ws@), width as int, pfx@, cont@),
{
    let ghost wv = vecs_view(ws@);
    let mut out: Vec<char> = Vec::new();
    if ws.len() == 0 {
        push_chars(&mut out, pfx);
        return out;
    }
    let mut cur: Vec<char> = Vec::new();
    push_chars(&mut cur, pfx);
    push_chars(&mut cur, &ws[0]);
    proof {
        assert(wv[0] == ws@[0]@);
    }
    let mut k: usize = 1;
    while k < ws.len()
        invariant
            1 <= k <= ws@.len(),
            wv == vecs_view(ws@),
            wv.len() == ws@.len(),
            pack_words(wv, width as int, pfx@, cont@) == out@ + pack_rest(
                wv,
                k as int,
                width as int,
                cont@,
                cur@,
            ),
        decreases ws@.len() - k,
    {
        let w = &ws[k];
        proof {
            assert(wv[k as int] == w@);
        }
        let ghost out_pre = out@;
        let ghost cur_pre = cur@;
        let too_long = (cur.len() as u128) + 1 + (w.len() as u128) > (width as u128);
        if too_long {
            push_chars(&mut out, &cur);
            out.push('\n');
            cur.clear();
            push_chars(&mut cur, cont);
            push_chars(&mut cur, w);
            proof {
                assert(out@ =~= out_pre + (cur_pre + seq!['\n']));
                assert(cur@ =~= cont@ + wv[k as int]);
                assert(out_pre + (cur_pre + seq!['\n']) + pack_rest(
                    wv,
                    k + 1,
                    width as int,
                    cont@,
                    cont@ + wv[k as int],
                ) =~= out_pre + pack_rest(wv, k as int, width as int, cont@, cur_pre));
            }
        } else {
            cur.push(' ');
            push_chars(&mut cur, w);
            proof {
                assert(cur@ =~= cur_pre + seq![' '] + wv[k as int]);
            }
        }
        k += 1;
    }
    push_chars(&mut out, &cur);
    proof {
        assert(pack_rest(wv, k as int, width as int, cont@, cur@) == cur@);
    }
    out
}

/// Always mode, executable.
pub fn wrap_text_always(
    segs: &Vec<Segment>,
    width: usize,
    first: &Vec<char>,
    cont: &Vec<char>,
) -> (r: Vec<char>)
    ensures
        r@ == wrap_always_spec(segs_view(segs@), width as int, first@, cont@),
{
    let ghost sv = segs_view(segs@);
    let mut out: Vec<char> = Vec::new();
    let mut i: usize = 0;
    while i < segs.len()
        invariant
            i <= segs@.len(),
            sv == segs_view(segs@),
            sv.len() == segs@.len(),
            wrap_always_spec(sv, width as int, first@, cont@) == out@ + wrap_always_from(
                sv,
                i as int,
                width as int,
                if i == 0 {
                    first@
                } else {
                    cont@
                },
                cont@,
            ),
        decreases segs@.len() - i,
    {
        let seg = &segs[i];
        proof {
            assert(sv[i as int] == seg@);
        }
        let ghost pre = out@;
        let ghost pfx = if i == 0 {
            first@
        } else {
            cont@
        };
        let words = split_words(&seg.text);
        let packed = if i == 0 {
            pack_words_exec(&words, width, first, cont)
        } else {
            pack_words_exec(&words, width, cont, cont)
        };
        push_chars(&mut out, &packed);
        if !matches!(seg.brk, BreakKind::Terminal) {
            out.push(' ');
            out.push(' ');
            out.push('\n');
        }
        proof {
            let piece = pack_words(words_of(seg@.text), width as int, pfx, cont@) + (
            if seg@.brk is Terminal {
                Seq::<char>::empty()
            } else {
                seq![' ', ' ', '\n']
            });
            assert(out@ =~= pre + piece);
            assert(pre + piece + wrap_always_from(sv, i + 1, width as int, cont@, cont@) =~= pre
                + wrap_always_from(sv, i as int, width as int, pfx, cont@));
        }
        i += 1;
    }
    proof {
        assert(out@ + wrap_always_from(sv, i as int, width as int, cont@, cont@) =~= out@);
        if segs@.len() == 0 {
            assert(out@ =~= wrap_always_spec(sv, width as int, first@, cont@));
        }
    }
    out
}

/// Reflows a linearized block under the selected policy.
pub fn wrap_text(
    segs: &Vec<Segment>,
    first: &Vec<char>,
    cont: &Vec<char>,
    width: usize,
    wrap: WrapMode,
) -> (r: Vec<char>)
    ensures
        r@ == wrap_text_spec(segs_view(segs@), first@, cont@, width as int, wrap),
{
    match wrap {
        WrapMode::Preserve => wrap_text_preserve(segs, first, cont),
        WrapMode::Never => wrap_text_never(segs, first),
        WrapMode::Always => wrap_text_always(segs, width, first, cont),
    }
}

} // verus!
