//! Content preservation of the wrap engine.
//!
//! Wrapping moves graphemes; it never invents, reorders or restyles them.
//! The only graphemes that may go missing are whitespace (trimmed at row
//! edges or consumed at a break) and graphemes too wide to ever fit. This
//! module states that as a relation between the concatenated output rows and
//! the input line, and proves it of [`spec_wrap`].

use vstd::prelude::*;

use crate::grapheme::GraphemeModel;
use crate::grapheme::lemma_spec_width_nonneg;
use crate::grapheme::spec_width;
use crate::wrap::WrapState;
use crate::wrap::discard_ws;
use crate::wrap::lemma_emitted_props;
use crate::wrap::lemma_flushed_inv;
use crate::wrap::lemma_wrap_fold_inv;
use crate::wrap::spec_wrap;
use crate::wrap::wrap_emitted;
use crate::wrap::wrap_end;
use crate::wrap::wrap_flushed;
use crate::wrap::wrap_fold;
use crate::wrap::wrap_inv;
use crate::wrap::wrap_step;

verus! {

/// Whether `g` may be dropped by wrapping to `max` columns: only whitespace
/// and graphemes that could never fit are.
pub open spec fn droppable<S>(g: GraphemeModel<S>, max: int) -> bool {
    g.is_whitespace() || g.width > max
}

/// Whether every grapheme of `s` is droppable.
pub open spec fn all_droppable<S>(s: Seq<GraphemeModel<S>>, max: int) -> bool {
    forall|j: int| 0 <= j < s.len() ==> droppable(#[trigger] s[j], max)
}

/// Whether every grapheme of `s` is whitespace.
pub open spec fn all_whitespace<S>(s: Seq<GraphemeModel<S>>) -> bool {
    forall|j: int| 0 <= j < s.len() ==> (#[trigger] s[j]).is_whitespace()
}

/// `out` reconstructs `inp` when it is `inp` with some graphemes removed,
/// each removed one being whitespace or wider than `max`. Styles ride with
/// the graphemes, so this is style preservation as well.
pub open spec fn reconstructs<S>(out: Seq<GraphemeModel<S>>, inp: Seq<GraphemeModel<S>>, max: int) -> bool
    decreases inp.len(),
{
    if inp.len() == 0 {
        out.len() == 0
    } else {
        ||| (out.len() > 0 && out[0] == inp[0] && reconstructs(
            out.drop_first(),
            inp.drop_first(),
            max,
        ))
        ||| (droppable(inp[0], max) && reconstructs(out, inp.drop_first(), max))
    }
}

pub(crate) proof fn lemma_reconstructs_refl<S>(s: Seq<GraphemeModel<S>>, max: int)
    ensures
        reconstructs(s, s, max),
    decreases s.len(),
{
    if s.len() > 0 {
        lemma_reconstructs_refl(s.drop_first(), max);
    }
}

pub(crate) proof fn lemma_reconstructs_push_drop<S>(
    out: Seq<GraphemeModel<S>>,
    inp: Seq<GraphemeModel<S>>,
    g: GraphemeModel<S>,
    max: int,
)
    requires
        reconstructs(out, inp, max),
        droppable(g, max),
    ensures
        reconstructs(out, inp.push(g), max),
    decreases inp.len(),
{
    if inp.len() == 0 {
        assert(inp.push(g)[0] == g);
        assert(inp.push(g).drop_first() =~= inp);
    } else {
        assert(inp.push(g)[0] == inp[0]);
        assert(inp.push(g).drop_first() =~= inp.drop_first().push(g));
        if out.len() > 0 && out[0] == inp[0] && reconstructs(
            out.drop_first(),
            inp.drop_first(),
            max,
        ) {
            lemma_reconstructs_push_drop(out.drop_first(), inp.drop_first(), g, max);
        } else {
            lemma_reconstructs_push_drop(out, inp.drop_first(), g, max);
        }
    }
}

pub(crate) proof fn lemma_reconstructs_push_match<S>(
    out: Seq<GraphemeModel<S>>,
    inp: Seq<GraphemeModel<S>>,
    g: GraphemeModel<S>,
    max: int,
)
    requires
        reconstructs(out, inp, max),
    ensures
        reconstructs(out.push(g), inp.push(g), max),
    decreases inp.len(),
{
    if inp.len() == 0 {
        assert(out.len() == 0);
        assert(inp.push(g)[0] == g);
        assert(out.push(g)[0] == g);
        assert(out.push(g).drop_first() =~= out);
        assert(inp.push(g).drop_first() =~= inp);
    } else {
        assert(inp.push(g)[0] == inp[0]);
        assert(inp.push(g).drop_first() =~= inp.drop_first().push(g));
        if out.len() > 0 && out[0] == inp[0] && reconstructs(
            out.drop_first(),
            inp.drop_first(),
            max,
        ) {
            assert(out.push(g)[0] == out[0]);
            assert(out.push(g).drop_first() =~= out.drop_first().push(g));
            lemma_reconstructs_push_match(out.drop_first(), inp.drop_first(), g, max);
        } else {
            lemma_reconstructs_push_match(out, inp.drop_first(), g, max);
        }
    }
}

/// Transitivity of reconstruction.
pub(crate) proof fn lemma_reconstructs_trans<S>(
    x: Seq<GraphemeModel<S>>,
    y: Seq<GraphemeModel<S>>,
    z: Seq<GraphemeModel<S>>,
    max: int,
)
    requires
        reconstructs(x, y, max),
        reconstructs(y, z, max),
    ensures
        reconstructs(x, z, max),
    decreases z.len(),
{
    if z.len() == 0 {
    } else {
        if y.len() > 0 && y[0] == z[0] && reconstructs(y.drop_first(), z.drop_first(), max) {
            if x.len() > 0 && x[0] == y[0] && reconstructs(x.drop_first(), y.drop_first(), max) {
                lemma_reconstructs_trans(x.drop_first(), y.drop_first(), z.drop_first(), max);
            } else {
                assert(droppable(y[0], max) && reconstructs(x, y.drop_first(), max));
                lemma_reconstructs_trans(x, y.drop_first(), z.drop_first(), max);
            }
        } else {
            assert(droppable(z[0], max) && reconstructs(y, z.drop_first(), max));
            lemma_reconstructs_trans(x, y, z.drop_first(), max);
        }
    }
}

/// A droppable run in the middle may be removed.
pub(crate) proof fn lemma_reconstructs_drop_mid<S>(
    a: Seq<GraphemeModel<S>>,
    w: Seq<GraphemeModel<S>>,
    b: Seq<GraphemeModel<S>>,
    max: int,
)
    requires
        all_droppable(w, max),
    ensures
        reconstructs(a + b, a + w + b, max),
    decreases a.len(), w.len(),
{
    if a.len() == 0 {
        if w.len() == 0 {
            assert(a + w + b =~= b);
            assert(a + b =~= b);
            lemma_reconstructs_refl(b, max);
        } else {
            assert((a + w + b)[0] == w[0]);
            assert((a + w + b).drop_first() =~= a + w.drop_first() + b);
            assert(all_droppable(w.drop_first(), max)) by {
                assert(forall|j: int|
                    0 <= j < w.drop_first().len() ==> w.drop_first()[j] == w[j + 1]);
            }
            lemma_reconstructs_drop_mid(a, w.drop_first(), b, max);
            assert(droppable((a + w + b)[0], max));
        }
    } else {
        assert((a + w + b)[0] == a[0]);
        assert((a + b)[0] == a[0]);
        assert((a + w + b).drop_first() =~= a.drop_first() + w + b);
        assert((a + b).drop_first() =~= a.drop_first() + b);
        lemma_reconstructs_drop_mid(a.drop_first(), w, b, max);
    }
}

/// Everything the engine currently holds, in output order.
pub open spec fn gathered<S>(st: WrapState<S>) -> Seq<GraphemeModel<S>> {
    st.rows.flatten() + st.line + st.ws + st.word
}

proof fn lemma_rows_flatten_push<S>(s: Seq<Seq<GraphemeModel<S>>>, x: Seq<GraphemeModel<S>>)
    ensures
        s.push(x).flatten() == s.flatten() + x,
    decreases s.len(),
{
    if s.len() == 0 {
        assert(s.push(x).drop_first() =~= Seq::<Seq<GraphemeModel<S>>>::empty());
        assert(s.push(x).flatten() == x + Seq::<Seq<GraphemeModel<S>>>::empty().flatten());
        assert(s.flatten() + x =~= x + Seq::<GraphemeModel<S>>::empty());
        assert(x + Seq::<GraphemeModel<S>>::empty() =~= x);
    } else {
        assert(s.push(x)[0] == s[0]);
        assert(s.push(x).drop_first() =~= s.drop_first().push(x));
        lemma_rows_flatten_push(s.drop_first(), x);
        assert(s.push(x).flatten() == s[0] + (s.drop_first().flatten() + x));
        assert(s[0] + (s.drop_first().flatten() + x) =~= (s[0] + s.drop_first().flatten()) + x);
    }
}

/// The discarded whitespace is a prefix; what stays is a suffix.
proof fn lemma_discard_ws_suffix<S>(ws: Seq<GraphemeModel<S>>, remaining: int)
    ensures
        exists|k: int|
            0 <= k <= ws.len() && discard_ws(ws, remaining) == ws.subrange(
                k,
                ws.len() as int,
            ),
    decreases ws.len(),
{
    if ws.len() == 0 {
        assert(discard_ws(ws, remaining) == ws.subrange(0, ws.len() as int)) by {
            assert(ws.subrange(0, ws.len() as int) =~= ws);
        }
    } else if ws[0].width <= remaining {
        lemma_discard_ws_suffix(ws.drop_first(), remaining - ws[0].width);
        let k0 = choose|k0: int|
            0 <= k0 <= ws.drop_first().len() && discard_ws(
                ws.drop_first(),
                remaining - ws[0].width,
            ) == ws.drop_first().subrange(k0, ws.drop_first().len() as int);
        assert(ws.drop_first().subrange(k0, ws.drop_first().len() as int) =~= ws.subrange(
            k0 + 1,
            ws.len() as int,
        ));
        assert(discard_ws(ws, remaining) == ws.subrange(k0 + 1, ws.len() as int));
    } else {
        assert(discard_ws(ws, remaining) == ws.subrange(0, ws.len() as int)) by {
            assert(ws.subrange(0, ws.len() as int) =~= ws);
        }
    }
}

/// The content invariant of one scan: what the engine holds reconstructs the
/// prefix scanned so far, pending whitespace really is whitespace, and a
/// pending word means the last grapheme was part of it.
pub open spec fn content_inv<S>(
    st: WrapState<S>,
    inp: Seq<GraphemeModel<S>>,
    k: int,
    max: int,
) -> bool {
    &&& reconstructs(gathered(st), inp.subrange(0, k), max)
    &&& all_whitespace(st.ws)
    &&& st.word.len() > 0 ==> st.prev_word
}

proof fn lemma_wrap_step_content<S>(
    st: WrapState<S>,
    inp: Seq<GraphemeModel<S>>,
    k: int,
    max: int,
    trim: bool,
)
    requires
        max >= 1,
        0 <= k < inp.len(),
        wrap_inv(st, max),
        content_inv(st, inp, k, max),
    ensures
        content_inv(wrap_step(st, inp[k], max, trim), inp, k + 1, max),
{
    let g = inp[k];
    let prefix = inp.subrange(0, k);
    let prefix1 = inp.subrange(0, k + 1);
    assert(prefix1 =~= prefix.push(g));
    if g.width > max {
        lemma_reconstructs_push_drop(gathered(st), prefix, g, max);
    } else {
        let is_ws = g.is_whitespace();
        let word_found = st.prev_word && is_ws;
        let trimmed_overflow = st.line.len() == 0 && trim && spec_width(st.word) + g.width > max;
        let whitespace_overflow = st.line.len() == 0 && trim && spec_width(st.ws) + g.width > max;
        let untrimmed_overflow = st.line.len() == 0 && !trim && spec_width(st.word) + spec_width(
            st.ws,
        ) + g.width > max;
        let flush = word_found || trimmed_overflow || whitespace_overflow || untrimmed_overflow;
        let st1 = if flush {
            wrap_flushed(st, trim)
        } else {
            st
        };
        if flush {
            lemma_flushed_inv(st, max, trim);
            if st.line.len() > 0 || !trim {
                assert(gathered(st1) =~= gathered(st));
            } else {
                // the pending whitespace is dropped while the row is empty
                assert(gathered(st) =~= (st.rows.flatten() + st.line) + st.ws + st.word);
                assert(gathered(st1) =~= (st.rows.flatten() + st.line) + st.word);
                assert(all_droppable(st.ws, max));
                lemma_reconstructs_drop_mid(st.rows.flatten() + st.line, st.ws, st.word, max);
                lemma_reconstructs_trans(gathered(st1), gathered(st), prefix, max);
            }
        }
        assert(wrap_inv(st1, max));
        assert(reconstructs(gathered(st1), prefix, max));
        assert(all_whitespace(st1.ws));
        let line_full = spec_width(st1.line) >= max;
        let word_overflow = g.width > 0 && spec_width(st1.line) + spec_width(st1.ws) + spec_width(
            st1.word,
        ) + g.width > max;
        let closed = line_full || word_overflow;
        let st2 = if closed {
            wrap_emitted(st1, max)
        } else {
            st1
        };
        if closed {
            lemma_emitted_props(st1, max);
            let remaining = if max >= spec_width(st1.line) {
                max - spec_width(st1.line)
            } else {
                0
            };
            lemma_rows_flatten_push(st1.rows, st1.line);
            lemma_discard_ws_suffix(st1.ws, remaining);
            let k0 = choose|k0: int|
                0 <= k0 <= st1.ws.len() && discard_ws(st1.ws, remaining) == st1.ws.subrange(
                    k0,
                    st1.ws.len() as int,
                );
            let dropped = st1.ws.subrange(0, k0);
            let kept = st1.ws.subrange(k0, st1.ws.len() as int);
            assert(st1.ws =~= dropped + kept);
            assert(all_droppable(dropped, max)) by {
                assert(forall|j: int| 0 <= j < dropped.len() ==> dropped[j] == st1.ws[j]);
            }
            assert(all_whitespace(kept)) by {
                assert(forall|j: int| 0 <= j < kept.len() ==> kept[j] == st1.ws[j + k0]);
            }
            assert(gathered(st1) =~= (st1.rows.flatten() + st1.line) + dropped + (kept
                + st1.word));
            assert(gathered(st2) =~= (st1.rows.flatten() + st1.line) + (kept + st1.word));
            lemma_reconstructs_drop_mid(
                st1.rows.flatten() + st1.line,
                dropped,
                kept + st1.word,
                max,
            );
            lemma_reconstructs_trans(gathered(st2), gathered(st1), prefix, max);
            assert(st2.ws.len() == 0);
        }
        assert(reconstructs(gathered(st2), prefix, max));
        assert(all_whitespace(st2.ws));
        let hard_break = closed && !is_ws && st2.line.len() == 0 && st2.word.len() > 0
            && spec_width(st2.word) + g.width > max;
        let st3 = if hard_break {
            WrapState {
                rows: st2.rows.push(st2.word),
                line: st2.line,
                ws: st2.ws,
                word: Seq::<GraphemeModel<S>>::empty(),
                prev_word: st2.prev_word,
            }
        } else {
            st2
        };
        if hard_break {
            lemma_rows_flatten_push(st2.rows, st2.word);
            assert(st2.ws.len() == 0);
            assert(gathered(st3) =~= gathered(st2));
        }
        assert(reconstructs(gathered(st3), prefix, max));
        assert(all_whitespace(st3.ws));
        let res = wrap_step(st, g, max, trim);
        if closed && is_ws && st3.ws.len() == 0 {
            assert(res == st3);
            lemma_reconstructs_push_drop(gathered(st3), prefix, g, max);
        } else if is_ws {
            // the pending word is empty here: a whitespace grapheme after a
            // word always flushes first
            assert(st3.word.len() == 0) by {
                if flush {
                } else {
                    if st.word.len() > 0 {
                        assert(st.prev_word);
                        assert(word_found);
                    }
                }
            }
            assert(gathered(res) =~= gathered(st3).push(g));
            lemma_reconstructs_push_match(gathered(st3), prefix, g, max);
            assert(all_whitespace(st3.ws.push(g))) by {
                assert(forall|j: int|
                    0 <= j < st3.ws.len() ==> st3.ws.push(g)[j] == st3.ws[j]);
            }
        } else {
            assert(gathered(res) =~= gathered(st3).push(g));
            lemma_reconstructs_push_match(gathered(st3), prefix, g, max);
        }
    }
}

proof fn lemma_wrap_fold_content<S>(inp: Seq<GraphemeModel<S>>, k: int, max: int, trim: bool)
    requires
        max >= 1,
        0 <= k <= inp.len(),
    ensures
        content_inv(wrap_fold(inp, k, max, trim), inp, k, max),
    decreases k,
{
    if k == 0 {
        let st = wrap_fold(inp, 0, max, trim);
        assert(gathered(st) =~= Seq::<GraphemeModel<S>>::empty());
        assert(inp.subrange(0, 0) =~= Seq::<GraphemeModel<S>>::empty());
    } else {
        lemma_wrap_fold_content(inp, k - 1, max, trim);
        lemma_wrap_fold_inv(inp, k - 1, max, trim);
        lemma_wrap_step_content(wrap_fold(inp, k - 1, max, trim), inp, k - 1, max, trim);
    }
}

/// Style and content preservation: the concatenation of all rows that
/// wrapping emits is the input line with only whitespace and over-wide
/// graphemes removed — every kept grapheme, with its style, in its original
/// order.
pub proof fn lemma_wrap_content<S>(inp: Seq<GraphemeModel<S>>, max: int, trim: bool)
    requires
        max >= 1,
    ensures
        reconstructs(spec_wrap(inp, max, trim).flatten(), inp, max),
{
    let n = inp.len() as int;
    lemma_wrap_fold_content(inp, n, max, trim);
    lemma_wrap_fold_inv(inp, n, max, trim);
    let st = wrap_fold(inp, n, max, trim);
    assert(inp.subrange(0, n) =~= inp);
    let with_ws = if st.line.len() > 0 || !trim {
        st.line + st.ws
    } else {
        st.line
    };
    let full = with_ws + st.word;
    let rows = if full.len() > 0 {
        st.rows.push(full)
    } else {
        st.rows
    };
    if full.len() > 0 {
        lemma_rows_flatten_push(st.rows, full);
        if st.line.len() > 0 || !trim {
            assert(rows.flatten() =~= gathered(st));
            assert(reconstructs(rows.flatten(), inp, max));
        } else {
            assert(rows.flatten() =~= (st.rows.flatten() + st.line) + st.word);
            assert(gathered(st) =~= (st.rows.flatten() + st.line) + st.ws + st.word);
            assert(all_droppable(st.ws, max));
            lemma_reconstructs_drop_mid(st.rows.flatten() + st.line, st.ws, st.word, max);
            lemma_reconstructs_trans(rows.flatten(), gathered(st), inp, max);
        }
    } else {
        assert(with_ws.len() == 0 && st.word.len() == 0);
        if st.line.len() > 0 || !trim {
            assert(st.line.len() == 0 && st.ws.len() == 0);
            assert(rows.flatten() =~= gathered(st));
            assert(reconstructs(rows.flatten(), inp, max));
        } else {
            assert(rows.flatten() + st.ws =~= gathered(st));
            assert(all_droppable(st.ws, max));
            assert(rows.flatten() =~= rows.flatten() + Seq::<GraphemeModel<S>>::empty());
            assert(rows.flatten() + st.ws =~= rows.flatten() + st.ws + Seq::<
                GraphemeModel<S>,
            >::empty());
            lemma_reconstructs_drop_mid(
                rows.flatten(),
                st.ws,
                Seq::<GraphemeModel<S>>::empty(),
                max,
            );
            assert(reconstructs(
                rows.flatten() + Seq::<GraphemeModel<S>>::empty(),
                rows.flatten() + st.ws + Seq::<GraphemeModel<S>>::empty(),
                max,
            ));
            lemma_reconstructs_trans(rows.flatten(), gathered(st), inp, max);
        }
    }
    if rows.len() == 0 {
        lemma_rows_flatten_push(rows, Seq::<GraphemeModel<S>>::empty());
        assert(spec_wrap(inp, max, trim).flatten() =~= rows.flatten());
    } else {
        assert(spec_wrap(inp, max, trim) == rows);
    }
}

/// The width of a middle piece, via splitting a range in two.
pub(crate) proof fn lemma_width_split<S>(inp: Seq<GraphemeModel<S>>, a: int, b: int, c: int)
    requires
        0 <= a <= b <= c <= inp.len(),
    ensures
        spec_width(inp.subrange(a, c)) == spec_width(inp.subrange(a, b)) + spec_width(
            inp.subrange(b, c),
        ),
{
    assert(inp.subrange(a, c) =~= inp.subrange(a, b) + inp.subrange(b, c));
    crate::grapheme::lemma_spec_width_concat(inp.subrange(a, b), inp.subrange(b, c));
}

/// A line already in layout: it fits the target width, none of its
/// whitespace is zero-width, and with trimming on it does not start with
/// whitespace.
pub open spec fn already_wrapped<S>(inp: Seq<GraphemeModel<S>>, max: int, trim: bool) -> bool {
    &&& spec_width(inp) <= max
    &&& forall|j: int|
        0 <= j < inp.len() ==> ((#[trigger] inp[j]).is_whitespace() ==> inp[j].width >= 1)
    &&& (trim && inp.len() > 0) ==> !inp[0].is_whitespace()
}

/// The engine state while scanning a line that is its own layout: nothing
/// emitted, and the three accumulators partition the scanned prefix at `s`
/// and `m`, whitespace run in the middle, word run at the end.
pub open spec fn fix_inv_at<S>(
    st: WrapState<S>,
    inp: Seq<GraphemeModel<S>>,
    k: int,
    s: int,
    m: int,
) -> bool {
    &&& 0 <= s <= m <= k <= inp.len()
    &&& st.rows.len() == 0
    &&& st.line == inp.subrange(0, s)
    &&& st.ws == inp.subrange(s, m)
    &&& st.word == inp.subrange(m, k)
    &&& forall|j: int| s <= j < m ==> (#[trigger] inp[j]).is_whitespace()
    &&& forall|j: int| m <= j < k ==> !(#[trigger] inp[j]).is_whitespace()
    &&& st.prev_word == (k > 0 && !inp[k - 1].is_whitespace())
    &&& s > 0 ==> !inp[s - 1].is_whitespace()
    &&& s > 0 ==> m > s
}

pub open spec fn fix_inv<S>(st: WrapState<S>, inp: Seq<GraphemeModel<S>>, k: int) -> bool {
    exists|s: int, m: int| fix_inv_at(st, inp, k, s, m)
}

proof fn lemma_fix_step<S>(
    st: WrapState<S>,
    inp: Seq<GraphemeModel<S>>,
    k: int,
    s: int,
    m: int,
    max: int,
    trim: bool,
)
    requires
        max >= 1,
        already_wrapped(inp, max, trim),
        0 <= k < inp.len(),
        fix_inv_at(st, inp, k, s, m),
    ensures
        fix_inv(wrap_step(st, inp[k], max, trim), inp, k + 1),
{
    let n = inp.len() as int;
    let g = inp[k];
    assert(inp.subrange(0, n) =~= inp);
    lemma_width_split(inp, 0, k, n);
    lemma_width_split(inp, k, k + 1, n);
    lemma_spec_width_nonneg(inp.subrange(k + 1, n));
    lemma_spec_width_nonneg(inp.subrange(0, k));
    assert(inp.subrange(k, k + 1) =~= seq![g]);
    assert(seq![g].drop_first() =~= Seq::<GraphemeModel<S>>::empty());
    assert(seq![g][0] == g);
    assert(spec_width(Seq::<GraphemeModel<S>>::empty()) == 0);
    assert(spec_width(seq![g]) == g.width);
    // every grapheme fits inside the line's total width
    assert(g.width <= max);
    assert(spec_width(inp.subrange(0, k)) + g.width <= max);
    lemma_width_split(inp, 0, s, k);
    lemma_width_split(inp, s, m, k);
    let lw = spec_width(st.line);
    let wsw = spec_width(st.ws);
    let www = spec_width(st.word);
    assert(lw + wsw + www == spec_width(inp.subrange(0, k)));
    lemma_spec_width_nonneg(st.line);
    lemma_spec_width_nonneg(st.ws);
    lemma_spec_width_nonneg(st.word);
    // with trimming, an empty row means no whitespace is pending
    if trim && s == 0 && m > 0 {
        assert(inp[0].is_whitespace());
        assert(false);
    }
    // the row under assembly always sits strictly inside the width
    if s > 0 {
        assert(inp[s].is_whitespace());
        assert(inp[s].width >= 1);
        lemma_width_split(inp, s, s + 1, m);
        assert(inp.subrange(s, s + 1) =~= seq![inp[s]]);
        assert(seq![inp[s]].drop_first() =~= Seq::<GraphemeModel<S>>::empty());
        assert(seq![inp[s]][0] == inp[s]);
        assert(spec_width(seq![inp[s]]) == inp[s].width);
        lemma_spec_width_nonneg(inp.subrange(s + 1, m));
        assert(wsw >= 1);
    }
    assert(lw < max);
    let is_ws = g.is_whitespace();
    let word_found = st.prev_word && is_ws;
    // none of the overflow flushes can fire on a fitting line
    assert(!(st.line.len() == 0 && trim && www + g.width > max));
    assert(!(st.line.len() == 0 && trim && wsw + g.width > max));
    assert(!(st.line.len() == 0 && !trim && www + wsw + g.width > max));
    let st1 = if word_found {
        wrap_flushed(st, trim)
    } else {
        st
    };
    assert(st1 == if word_found || false || false || false {
        wrap_flushed(st, trim)
    } else {
        st
    });
    if word_found {
        // the flush gathers exactly the scanned prefix into the row
        if st.line.len() > 0 || !trim {
            assert(st1.line =~= inp.subrange(0, k));
        } else {
            assert(s == 0 && m == 0);
            assert(st.ws.len() == 0);
            assert(st1.line =~= inp.subrange(0, k));
        }
        assert(g.width >= 1);
        assert(spec_width(st1.line) == spec_width(inp.subrange(0, k)));
        assert(spec_width(st1.line) < max);
    } else {
        assert(spec_width(st1.line) < max);
    }
    // no row is ever closed
    assert(spec_width(st1.line) + spec_width(st1.ws) + spec_width(st1.word) + g.width <= max);
    assert(!(spec_width(st1.line) >= max));
    let res = wrap_step(st, g, max, trim);
    if word_found {
        let s2 = k;
        let m2 = k + 1;
        assert(res.ws == st1.ws.push(g));
        assert(st1.ws.push(g) =~= inp.subrange(k, k + 1));
        assert(res.line == st1.line);
        assert(res.word =~= inp.subrange(k + 1, k + 1));
        assert(fix_inv_at(res, inp, k + 1, s2, m2));
    } else if is_ws {
        // word run is empty: a pending word would mean the previous
        // grapheme was part of it
        if m < k {
            assert(!inp[k - 1].is_whitespace());
            assert(st.prev_word);
            assert(false);
        }
        assert(res.ws == st.ws.push(g));
        assert(st.ws.push(g) =~= inp.subrange(s, k + 1));
        assert(res.word =~= inp.subrange(k + 1, k + 1));
        assert(fix_inv_at(res, inp, k + 1, s, k + 1));
    } else {
        assert(res.word == st.word.push(g));
        assert(st.word.push(g) =~= inp.subrange(m, k + 1));
        assert(fix_inv_at(res, inp, k + 1, s, m));
    }
}

proof fn lemma_fix_fold<S>(inp: Seq<GraphemeModel<S>>, k: int, max: int, trim: bool)
    requires
        max >= 1,
        already_wrapped(inp, max, trim),
        0 <= k <= inp.len(),
    ensures
        fix_inv(wrap_fold(inp, k, max, trim), inp, k),
    decreases k,
{
    if k == 0 {
        let st = wrap_fold(inp, 0, max, trim);
        assert(st.line =~= inp.subrange(0, 0));
        assert(st.ws =~= inp.subrange(0, 0));
        assert(st.word =~= inp.subrange(0, 0));
        assert(fix_inv_at(st, inp, 0, 0, 0));
    } else {
        let km = k - 1;
        lemma_fix_fold(inp, km, max, trim);
        let st = wrap_fold(inp, km, max, trim);
        let (s, m) = choose|s: int, m: int| fix_inv_at(st, inp, km, s, m);
        lemma_fix_step(st, inp, km, s, m, max, trim);
    }
}

/// Idempotence: a line that is already laid out — it fits the width, has no
/// zero-width whitespace, and (with trimming) does not begin with
/// whitespace — wraps to exactly itself, as its one row. Wrapping the rows
/// of such a layout again therefore reproduces them unchanged.
pub proof fn lemma_wrap_fixpoint<S>(inp: Seq<GraphemeModel<S>>, max: int, trim: bool)
    requires
        max >= 1,
        already_wrapped(inp, max, trim),
    ensures
        spec_wrap(inp, max, trim) == seq![inp],
{
    let n = inp.len() as int;
    lemma_fix_fold(inp, n, max, trim);
    let st = wrap_fold(inp, n, max, trim);
    let (s, m) = choose|s: int, m: int| fix_inv_at(st, inp, n, s, m);
    if trim && s == 0 && m > 0 {
        assert(inp[0].is_whitespace());
        assert(false);
    }
    let with_ws = if st.line.len() > 0 || !trim {
        st.line + st.ws
    } else {
        st.line
    };
    let full = with_ws + st.word;
    assert(full =~= inp) by {
        if st.line.len() > 0 || !trim {
        } else {
            assert(s == 0 && m == 0);
            assert(st.ws.len() == 0);
        }
    }
    if full.len() > 0 {
        assert(spec_wrap(inp, max, trim) =~= seq![inp]);
    } else {
        assert(inp.len() == 0);
        assert(spec_wrap(inp, max, trim) =~= seq![inp]);
    }
}

} // verus!
