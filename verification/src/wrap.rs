//! The greedy, word-preserving wrap engine.
//!
//! The layout of one logical line is specified by [`spec_wrap`], a fold of
//! [`wrap_step`] over the line's graphemes followed by [`wrap_end`]. The
//! executable [`wrap_line`] is verified to produce exactly that layout.
//!
//! One pass keeps four accumulators: the rows already laid out, the row being
//! assembled, and the pending whitespace and word runs currently being
//! scanned. A word boundary (or one of three overflow conditions while the
//! row is still empty) flushes the pending runs into the row; a full row, or
//! a pending word that would no longer fit beside it, closes the row.
//! Whitespace that would spill past a closed row is discarded so that a break
//! never charges overflowing blanks to the next row.

use vstd::prelude::*;

use crate::grapheme::GraphemeModel;
use crate::grapheme::StyledGrapheme;
use crate::grapheme::lemma_spec_width_concat;
use crate::grapheme::lemma_spec_width_nonneg;
use crate::grapheme::lemma_spec_width_prefix;
use crate::grapheme::lemma_spec_width_push;
use crate::grapheme::models;
use crate::grapheme::spec_width;

verus! {

/// The largest total display width of a logical line that the engine
/// accepts; keeps all internal width arithmetic inside a machine word.
pub const MAX_TOTAL_WIDTH: u64 = 0x1000_0000_0000_0000;

/// The wrap engine's accumulators while scanning one logical line.
pub struct WrapState<S> {
    /// Rows already laid out, oldest first.
    pub rows: Seq<Seq<GraphemeModel<S>>>,
    /// The row currently being assembled.
    pub line: Seq<GraphemeModel<S>>,
    /// The run of whitespace graphemes currently being scanned.
    pub ws: Seq<GraphemeModel<S>>,
    /// The run of word (non-whitespace) graphemes currently being scanned.
    pub word: Seq<GraphemeModel<S>>,
    /// Whether the previously scanned grapheme was part of a word.
    pub prev_word: bool,
}

pub open spec fn wrap_init<S>() -> WrapState<S> {
    WrapState {
        rows: Seq::empty(),
        line: Seq::empty(),
        ws: Seq::empty(),
        word: Seq::empty(),
        prev_word: false,
    }
}

/// Drops whitespace graphemes from the front of `ws` as long as they fit in
/// the `remaining` columns, so that blanks spilling past a closed row are
/// consumed rather than carried over.
pub open spec fn discard_ws<S>(ws: Seq<GraphemeModel<S>>, remaining: int) -> Seq<GraphemeModel<S>>
    decreases ws.len(),
{
    if ws.len() == 0 {
        ws
    } else if ws[0].width <= remaining {
        discard_ws(ws.drop_first(), remaining - ws[0].width)
    } else {
        ws
    }
}

/// Moves the pending whitespace and word runs into the row being assembled.
/// With trimming on, whitespace is dropped instead while the row is empty.
pub open spec fn wrap_flushed<S>(st: WrapState<S>, trim: bool) -> WrapState<S> {
    let with_ws = if st.line.len() > 0 || !trim {
        st.line + st.ws
    } else {
        st.line
    };
    WrapState {
        rows: st.rows,
        line: with_ws + st.word,
        ws: Seq::empty(),
        word: Seq::empty(),
        prev_word: st.prev_word,
    }
}

/// Closes the row being assembled: appends it to the finished rows and
/// discards pending whitespace up to the columns that remained unused.
pub open spec fn wrap_emitted<S>(st: WrapState<S>, max: int) -> WrapState<S> {
    let remaining = if max >= spec_width(st.line) {
        max - spec_width(st.line)
    } else {
        0
    };
    WrapState {
        rows: st.rows.push(st.line),
        line: Seq::empty(),
        ws: discard_ws(st.ws, remaining),
        word: st.word,
        prev_word: st.prev_word,
    }
}

/// One scan step of the wrap engine: how the accumulators change when the
/// grapheme `g` of the logical line is taken in.
///
/// A grapheme wider than `max` columns is dropped outright. Otherwise a word
/// boundary, or a pending run that can no longer fit while the row is empty,
/// flushes the pending runs into the row; a row that is full, or that the
/// still-growing word would overflow, is closed. If closing the row leaves a
/// pending word that together with `g` already exceeds `max`, that word is
/// closed as a row of its own (the hard break of an over-long word). A
/// whitespace grapheme arriving exactly at a break, with no blanks left
/// pending, is dropped so it is not charged to the next row.
pub open spec fn wrap_step<S>(
    st: WrapState<S>,
    g: GraphemeModel<S>,
    max: int,
    trim: bool,
) -> WrapState<S> {
    if g.width > max {
        st
    } else {
        let is_ws = g.is_whitespace();
        let word_found = st.prev_word && is_ws;
        let trimmed_overflow = st.line.len() == 0 && trim && spec_width(st.word) + g.width > max;
        let whitespace_overflow = st.line.len() == 0 && trim && spec_width(st.ws) + g.width > max;
        let untrimmed_overflow = st.line.len() == 0 && !trim && spec_width(st.word) + spec_width(
            st.ws,
        ) + g.width > max;
        let st1 = if word_found || trimmed_overflow || whitespace_overflow || untrimmed_overflow {
            wrap_flushed(st, trim)
        } else {
            st
        };
        let line_full = spec_width(st1.line) >= max;
        let word_overflow = g.width > 0 && spec_width(st1.line) + spec_width(st1.ws) + spec_width(
            st1.word,
        ) + g.width > max;
        let st2 = if line_full || word_overflow {
            wrap_emitted(st1, max)
        } else {
            st1
        };
        let st3 = if (line_full || word_overflow) && !is_ws && st2.line.len() == 0
            && st2.word.len() > 0 && spec_width(st2.word) + g.width > max {
            WrapState {
                rows: st2.rows.push(st2.word),
                line: st2.line,
                ws: st2.ws,
                word: Seq::empty(),
                prev_word: st2.prev_word,
            }
        } else {
            st2
        };
        if (line_full || word_overflow) && is_ws && st3.ws.len() == 0 {
            st3
        } else if is_ws {
            WrapState {
                rows: st3.rows,
                line: st3.line,
                ws: st3.ws.push(g),
                word: st3.word,
                prev_word: false,
            }
        } else {
            WrapState {
                rows: st3.rows,
                line: st3.line,
                ws: st3.ws,
                word: st3.word.push(g),
                prev_word: true,
            }
        }
    }
}

/// The accumulator state after scanning the first `k` graphemes of `input`.
pub open spec fn wrap_fold<S>(
    input: Seq<GraphemeModel<S>>,
    k: int,
    max: int,
    trim: bool,
) -> WrapState<S>
    decreases k,
{
    if k <= 0 {
        wrap_init()
    } else {
        wrap_step(wrap_fold(input, k - 1, max, trim), input[k - 1], max, trim)
    }
}

/// The end of a logical line: pending runs join the row being assembled
/// (whitespace only when trimming allows), a non-empty row is kept, and a
/// logical line that produced no row at all still yields one empty row, so
/// no logical line ever disappears from the output.
pub open spec fn wrap_end<S>(st: WrapState<S>, trim: bool) -> Seq<Seq<GraphemeModel<S>>> {
    let with_ws = if st.line.len() > 0 || !trim {
        st.line + st.ws
    } else {
        st.line
    };
    let full = with_ws + st.word;
    let rows = if full.len() > 0 {
        st.rows.push(full)
    } else {
        st.rows
    };
    if rows.len() == 0 {
        rows.push(Seq::empty())
    } else {
        rows
    }
}

/// The rows that wrapping one logical line to `max` columns produces.
pub open spec fn spec_wrap<S>(
    input: Seq<GraphemeModel<S>>,
    max: int,
    trim: bool,
) -> Seq<Seq<GraphemeModel<S>>> {
    wrap_end(wrap_fold(input, input.len() as int, max, trim), trim)
}

/// The models of a sequence of laid-out rows.
pub open spec fn row_models<S>(rows: Seq<Vec<StyledGrapheme<S>>>) -> Seq<Seq<GraphemeModel<S>>> {
    rows.map_values(|v: Vec<StyledGrapheme<S>>| models(v@))
}

pub proof fn lemma_models_push<S>(s: Seq<StyledGrapheme<S>>, g: StyledGrapheme<S>)
    ensures
        models(s.push(g)) == models(s).push(g@),
{
    assert(models(s.push(g)) =~= models(s).push(g@));
}

pub proof fn lemma_models_concat<S>(a: Seq<StyledGrapheme<S>>, b: Seq<StyledGrapheme<S>>)
    ensures
        models(a + b) == models(a) + models(b),
{
    assert(models(a + b) =~= models(a) + models(b));
}

pub proof fn lemma_models_drop_first<S>(s: Seq<StyledGrapheme<S>>)
    requires
        s.len() > 0,
    ensures
        models(s.drop_first()) == models(s).drop_first(),
{
    assert(models(s.drop_first()) =~= models(s).drop_first());
}

proof fn lemma_row_models_push<S>(rows: Seq<Vec<StyledGrapheme<S>>>, v: Vec<StyledGrapheme<S>>)
    ensures
        row_models(rows.push(v)) == row_models(rows).push(models(v@)),
{
    assert(row_models(rows.push(v)) =~= row_models(rows).push(models(v@)));
}

/// Discarding whitespace from the front never increases its width.
proof fn lemma_discard_ws_le<S>(ws: Seq<GraphemeModel<S>>, remaining: int)
    ensures
        spec_width(discard_ws(ws, remaining)) <= spec_width(ws),
    decreases ws.len(),
{
    if ws.len() > 0 && ws[0].width <= remaining {
        lemma_discard_ws_le(ws.drop_first(), remaining - ws[0].width);
        assert(spec_width(ws) == ws[0].width + spec_width(ws.drop_first()));
    }
}

/// Whether every grapheme of `s` fits in `max` columns on its own.
pub open spec fn all_widths_le<S>(s: Seq<GraphemeModel<S>>, max: int) -> bool {
    forall|j: int| 0 <= j < s.len() ==> (#[trigger] s[j]).width <= max
}

/// Whether every row fits in `max` columns and holds no over-wide grapheme.
pub open spec fn rows_fit<S>(rows: Seq<Seq<GraphemeModel<S>>>, max: int) -> bool {
    forall|j: int|
        0 <= j < rows.len() ==> spec_width(#[trigger] rows[j]) <= max && all_widths_le(
            rows[j],
            max,
        )
}

/// The engine's width invariant: finished rows fit, and the pending
/// accumulators together never hold more than `max` columns.
pub open spec fn wrap_inv<S>(st: WrapState<S>, max: int) -> bool {
    &&& rows_fit(st.rows, max)
    &&& all_widths_le(st.line, max)
    &&& all_widths_le(st.ws, max)
    &&& all_widths_le(st.word, max)
    &&& spec_width(st.line) + spec_width(st.ws) + spec_width(st.word) <= max
}

proof fn lemma_all_widths_le_concat<S>(a: Seq<GraphemeModel<S>>, b: Seq<GraphemeModel<S>>, max: int)
    requires
        all_widths_le(a, max),
        all_widths_le(b, max),
    ensures
        all_widths_le(a + b, max),
{
    assert forall|j: int| 0 <= j < (a + b).len() implies (#[trigger] (a + b)[j]).width
        <= max by {
        if j < a.len() {
            assert((a + b)[j] == a[j]);
        } else {
            assert((a + b)[j] == b[j - a.len()]);
        }
    }
}

/// Whitespace discarded down to a remainder it fits into is discarded whole.
proof fn lemma_discard_ws_all<S>(ws: Seq<GraphemeModel<S>>, remaining: int)
    requires
        spec_width(ws) <= remaining,
    ensures
        discard_ws(ws, remaining).len() == 0,
    decreases ws.len(),
{
    if ws.len() > 0 {
        lemma_spec_width_nonneg(ws.drop_first());
        assert(ws[0].width <= remaining);
        lemma_discard_ws_all(ws.drop_first(), remaining - ws[0].width);
    }
}

/// Discarding keeps a suffix, so no grapheme grows wider.
proof fn lemma_discard_ws_all_le<S>(ws: Seq<GraphemeModel<S>>, remaining: int, max: int)
    requires
        all_widths_le(ws, max),
    ensures
        all_widths_le(discard_ws(ws, remaining), max),
    decreases ws.len(),
{
    if ws.len() > 0 && ws[0].width <= remaining {
        assert(all_widths_le(ws.drop_first(), max));
        lemma_discard_ws_all_le(ws.drop_first(), remaining - ws[0].width, max);
    }
}

/// Flushing pending runs into the row keeps the width invariant.
pub(crate) proof fn lemma_flushed_inv<S>(st: WrapState<S>, max: int, trim: bool)
    requires
        max >= 1,
        wrap_inv(st, max),
    ensures
        wrap_inv(wrap_flushed(st, trim), max),
{
    let with_ws = if st.line.len() > 0 || !trim {
        st.line + st.ws
    } else {
        st.line
    };
    if st.line.len() > 0 || !trim {
        lemma_spec_width_concat(st.line, st.ws);
        lemma_all_widths_le_concat(st.line, st.ws, max);
    }
    lemma_spec_width_concat(with_ws, st.word);
    lemma_all_widths_le_concat(with_ws, st.word, max);
    lemma_spec_width_nonneg(st.line);
    lemma_spec_width_nonneg(st.ws);
    lemma_spec_width_nonneg(st.word);
}

/// Closing a row under the width invariant discards the pending whitespace
/// whole and keeps the invariant.
pub(crate) proof fn lemma_emitted_props<S>(st: WrapState<S>, max: int)
    requires
        max >= 1,
        wrap_inv(st, max),
    ensures
        wrap_inv(wrap_emitted(st, max), max),
        wrap_emitted(st, max).ws.len() == 0,
{
    lemma_spec_width_nonneg(st.line);
    lemma_spec_width_nonneg(st.ws);
    lemma_spec_width_nonneg(st.word);
    let remaining = if max >= spec_width(st.line) {
        max - spec_width(st.line)
    } else {
        0
    };
    lemma_discard_ws_all(st.ws, remaining);
    lemma_discard_ws_all_le(st.ws, remaining, max);
}

/// One engine step preserves the width invariant.
proof fn lemma_wrap_step_inv<S>(st: WrapState<S>, g: GraphemeModel<S>, max: int, trim: bool)
    requires
        max >= 1,
        wrap_inv(st, max),
    ensures
        wrap_inv(wrap_step(st, g, max, trim), max),
{
    lemma_spec_width_nonneg(st.line);
    lemma_spec_width_nonneg(st.ws);
    lemma_spec_width_nonneg(st.word);
    if g.width > max {
    } else {
        let is_ws = g.is_whitespace();
        let word_found = st.prev_word && is_ws;
        let trimmed_overflow = st.line.len() == 0 && trim && spec_width(st.word) + g.width > max;
        let whitespace_overflow = st.line.len() == 0 && trim && spec_width(st.ws) + g.width > max;
        let untrimmed_overflow = st.line.len() == 0 && !trim && spec_width(st.word) + spec_width(
            st.ws,
        ) + g.width > max;
        let st1 = if word_found || trimmed_overflow || whitespace_overflow || untrimmed_overflow {
            wrap_flushed(st, trim)
        } else {
            st
        };
        if st1 != st {
            let with_ws = if st.line.len() > 0 || !trim {
                st.line + st.ws
            } else {
                st.line
            };
            if st.line.len() > 0 || !trim {
                lemma_spec_width_concat(st.line, st.ws);
                lemma_all_widths_le_concat(st.line, st.ws, max);
            }
            lemma_spec_width_concat(with_ws, st.word);
            lemma_all_widths_le_concat(with_ws, st.word, max);
        }
        assert(wrap_inv(st1, max));
        assert(spec_width(st1.line) + spec_width(st1.ws) + spec_width(st1.word) <= max);
        lemma_spec_width_nonneg(st1.line);
        lemma_spec_width_nonneg(st1.ws);
        lemma_spec_width_nonneg(st1.word);
        let line_full = spec_width(st1.line) >= max;
        let word_overflow = g.width > 0 && spec_width(st1.line) + spec_width(st1.ws) + spec_width(
            st1.word,
        ) + g.width > max;
        let st2 = if line_full || word_overflow {
            wrap_emitted(st1, max)
        } else {
            st1
        };
        if line_full || word_overflow {
            let remaining = if max >= spec_width(st1.line) {
                max - spec_width(st1.line)
            } else {
                0
            };
            lemma_discard_ws_all(st1.ws, remaining);
            lemma_discard_ws_all_le(st1.ws, remaining, max);
            assert(st2.ws.len() == 0);
        }
        assert(wrap_inv(st2, max));
        let st3 = if (line_full || word_overflow) && !is_ws && st2.line.len() == 0
            && st2.word.len() > 0 && spec_width(st2.word) + g.width > max {
            WrapState {
                rows: st2.rows.push(st2.word),
                line: st2.line,
                ws: st2.ws,
                word: Seq::<GraphemeModel<S>>::empty(),
                prev_word: st2.prev_word,
            }
        } else {
            st2
        };
        assert(wrap_inv(st3, max));
        let res = wrap_step(st, g, max, trim);
        if (line_full || word_overflow) && is_ws && st3.ws.len() == 0 {
        } else if is_ws {
            assert(res.ws == st3.ws.push(g));
            lemma_spec_width_push(st3.ws, g);
            assert(all_widths_le(st3.ws.push(g), max));
        } else {
            assert(res.word == st3.word.push(g));
            lemma_spec_width_push(st3.word, g);
            assert(all_widths_le(st3.word.push(g), max));
        }
    }
}

/// Scanning any prefix keeps the width invariant.
pub(crate) proof fn lemma_wrap_fold_inv<S>(input: Seq<GraphemeModel<S>>, k: int, max: int, trim: bool)
    requires
        max >= 1,
    ensures
        wrap_inv(wrap_fold(input, k, max, trim), max),
    decreases k,
{
    if k <= 0 {
    } else {
        lemma_wrap_fold_inv(input, k - 1, max, trim);
        lemma_wrap_step_inv(wrap_fold(input, k - 1, max, trim), input[k - 1], max, trim);
    }
}

/// Every row the wrap engine emits fits in `max` columns, no emitted
/// grapheme is wider than `max` on its own, and every logical line yields
/// at least one row.
pub proof fn lemma_wrap_width_bounds<S>(input: Seq<GraphemeModel<S>>, max: int, trim: bool)
    requires
        max >= 1,
    ensures
        rows_fit(spec_wrap(input, max, trim), max),
        spec_wrap(input, max, trim).len() >= 1,
{
    let k = input.len() as int;
    lemma_wrap_fold_inv(input, k, max, trim);
    let st = wrap_fold(input, k, max, trim);
    let with_ws = if st.line.len() > 0 || !trim {
        st.line + st.ws
    } else {
        st.line
    };
    if st.line.len() > 0 || !trim {
        lemma_spec_width_concat(st.line, st.ws);
        lemma_all_widths_le_concat(st.line, st.ws, max);
    }
    lemma_spec_width_concat(with_ws, st.word);
    lemma_all_widths_le_concat(with_ws, st.word, max);
    lemma_spec_width_nonneg(st.line);
    lemma_spec_width_nonneg(st.ws);
    lemma_spec_width_nonneg(st.word);
    let full = with_ws + st.word;
    let rows = if full.len() > 0 {
        st.rows.push(full)
    } else {
        st.rows
    };
    assert(rows_fit(rows, max));
    if rows.len() == 0 {
        assert(spec_width(Seq::<GraphemeModel<S>>::empty()) == 0);
        assert(rows_fit(rows.push(Seq::<GraphemeModel<S>>::empty()), max));
    }
}

/// Lays out one logical line as rows of at most `max_width` columns,
/// trimming whitespace at row edges when `trim` is set.
///
/// The result is exactly the layout that [`spec_wrap`] describes.
#[verifier::rlimit(100)]
pub fn wrap_line<S>(input: Vec<StyledGrapheme<S>>, max_width: u16, trim: bool) -> (rows: Vec<
    Vec<StyledGrapheme<S>>,
>)
    requires
        max_width >= 1,
        spec_width(models(input@)) <= MAX_TOTAL_WIDTH,
    ensures
        row_models(rows@) == spec_wrap(models(input@), max_width as int, trim),
{
    let ghost full = models(input@);
    let ghost n = full.len() as int;
    let ghost max = max_width as int;
    let max_w: u64 = max_width as u64;

    let mut rest = input;
    let mut out: Vec<Vec<StyledGrapheme<S>>> = Vec::new();
    let mut line: Vec<StyledGrapheme<S>> = Vec::new();
    let mut ws: Vec<StyledGrapheme<S>> = Vec::new();
    let mut word: Vec<StyledGrapheme<S>> = Vec::new();
    let mut lw: u64 = 0;
    let mut wsw: u64 = 0;
    let mut www: u64 = 0;
    let mut prev_word: bool = false;
    let ghost mut i: int = 0;

    proof {
        assert(models(rest@) =~= full.subrange(0, n));
        assert(full.subrange(0, 0) =~= Seq::<GraphemeModel<S>>::empty());
        assert(row_models(out@) =~= Seq::<Seq<GraphemeModel<S>>>::empty());
        assert(models(line@) =~= Seq::<GraphemeModel<S>>::empty());
        assert(models(ws@) =~= Seq::<GraphemeModel<S>>::empty());
        assert(models(word@) =~= Seq::<GraphemeModel<S>>::empty());
    }

    while rest.len() > 0
        invariant
            0 <= i <= n,
            n == full.len(),
            max == max_width as int,
            max_w == max_width as u64,
            max_width >= 1,
            spec_width(full) <= MAX_TOTAL_WIDTH,
            models(rest@) == full.subrange(i, n),
            row_models(out@) == wrap_fold(full, i, max, trim).rows,
            models(line@) == wrap_fold(full, i, max, trim).line,
            models(ws@) == wrap_fold(full, i, max, trim).ws,
            models(word@) == wrap_fold(full, i, max, trim).word,
            prev_word == wrap_fold(full, i, max, trim).prev_word,
            lw == spec_width(models(line@)),
            wsw == spec_width(models(ws@)),
            www == spec_width(models(word@)),
            lw + wsw + www <= spec_width(full.subrange(0, i)),
        decreases n - i,
    {
        let ghost st = wrap_fold(full, i, max, trim);
        let ghost prefix = full.subrange(0, i);
        proof {
            lemma_spec_width_prefix(full, i);
            lemma_spec_width_nonneg(prefix);
            assert(models(rest@).len() == rest@.len());
            assert(rest@.len() == n - i);
            assert(full.subrange(i, n)[0] == full[i]);
            assert(models(rest@)[0] == full[i]);
            assert(full.subrange(i, n).drop_first() =~= full.subrange(i + 1, n));
            assert(full.subrange(0, i + 1) =~= prefix.push(full[i]));
            lemma_spec_width_push(prefix, full[i]);
        }
        let ghost rest0 = rest@;
        let g = rest.remove(0);
        let ghost gm = g@;
        proof {
            lemma_models_drop_first(rest0);
            assert(rest0.remove(0) =~= rest0.drop_first());
            assert(gm == full[i]);
            assert(models(rest@) =~= full.subrange(i + 1, n));
        }
        let sw: u64 = g.width as u64;
        if sw > max_w {
            proof {
                assert(wrap_step(st, gm, max, trim) == st);
                i = i + 1;
            }
        } else {
            let is_ws_g = g.is_whitespace();
            let word_found = prev_word && is_ws_g;
            let trimmed_overflow = line.is_empty() && trim && www + sw > max_w;
            let whitespace_overflow = line.is_empty() && trim && wsw + sw > max_w;
            let untrimmed_overflow = !trim && line.is_empty() && www + wsw + sw > max_w;
            let flush = word_found || trimmed_overflow || whitespace_overflow
                || untrimmed_overflow;
            if flush {
                if line.len() > 0 || !trim {
                    proof {
                        lemma_models_concat(line@, ws@);
                        lemma_spec_width_concat(models(line@), models(ws@));
                    }
                    line.append(&mut ws);
                    lw = lw + wsw;
                } else {
                    ws.clear();
                }
                wsw = 0;
                proof {
                    lemma_models_concat(line@, word@);
                    lemma_spec_width_concat(models(line@), models(word@));
                }
                line.append(&mut word);
                lw = lw + www;
                www = 0;
                proof {
                    assert(models(ws@) =~= Seq::<GraphemeModel<S>>::empty());
                    assert(models(word@) =~= Seq::<GraphemeModel<S>>::empty());
                }
            }
            let ghost st1 = if flush {
                wrap_flushed(st, trim)
            } else {
                st
            };
            proof {
                if flush && !(st.line.len() > 0 || !trim) {
                    assert(st.line + st.word =~= st.word);
                    assert(st1.line == st.word);
                }
                assert(models(line@) == st1.line);
                assert(models(ws@) == st1.ws);
                assert(models(word@) == st1.word);
                assert(lw == spec_width(st1.line));
                assert(lw + wsw + www <= spec_width(prefix));
            }
            let line_full = lw >= max_w;
            let word_overflow = sw > 0 && lw + wsw + www + sw > max_w;
            let closed = line_full || word_overflow;
            if closed {
                let mut remaining: u64 = if max_w >= lw {
                    max_w - lw
                } else {
                    0
                };
                let ghost remaining0 = remaining as int;
                let ghost out0 = out@;
                let ghost line_row = line;
                out.push(line);
                line = Vec::new();
                lw = 0;
                proof {
                    lemma_row_models_push(out0, line_row);
                    assert(models(line@) =~= Seq::<GraphemeModel<S>>::empty());
                }
                let ghost ws_target = discard_ws(st1.ws, remaining0);
                while ws.len() > 0 && (ws[0].width as u64) <= remaining
                    invariant
                        wsw == spec_width(models(ws@)),
                        remaining >= 0,
                        discard_ws(models(ws@), remaining as int) == ws_target,
                    decreases ws.len(),
                {
                    let fw = ws[0].width as u64;
                    let ghost ws_before = ws@;
                    proof {
                        assert(models(ws_before)[0] == ws_before[0]@);
                        lemma_spec_width_nonneg(models(ws_before).drop_first());
                        assert(spec_width(models(ws_before)) == models(ws_before)[0].width
                            + spec_width(models(ws_before).drop_first()));
                        lemma_models_drop_first(ws_before);
                    }
                    let _dropped = ws.remove(0);
                    wsw = wsw - fw;
                    remaining = remaining - fw;
                    proof {
                        assert(ws_before.remove(0) =~= ws_before.drop_first());
                        assert(models(ws@) == models(ws_before).drop_first());
                    }
                }
                proof {
                    if ws.len() == 0 {
                        assert(models(ws@) =~= Seq::<GraphemeModel<S>>::empty());
                        assert(discard_ws(models(ws@), remaining as int) == models(ws@));
                    } else {
                        assert(models(ws@)[0].width > remaining);
                        assert(discard_ws(models(ws@), remaining as int) == models(ws@));
                    }
                    assert(models(ws@) == ws_target);
                }
            }
            let ghost st2 = if closed {
                wrap_emitted(st1, max)
            } else {
                st1
            };
            proof {
                if closed {
                    let rem = if max >= spec_width(st1.line) {
                        max - spec_width(st1.line)
                    } else {
                        0
                    };
                    lemma_discard_ws_le(st1.ws, rem);
                }
                assert(row_models(out@) == st2.rows);
                assert(models(line@) == st2.line);
                assert(models(ws@) == st2.ws);
                assert(models(word@) == st2.word);
                assert(lw == spec_width(st2.line));
                assert(lw + wsw + www <= spec_width(prefix));
            }
            let hard_break = closed && !is_ws_g && line.is_empty() && word.len() > 0 && www + sw
                > max_w;
            if hard_break {
                let ghost out0 = out@;
                let ghost word_row = word;
                out.push(word);
                word = Vec::new();
                www = 0;
                proof {
                    lemma_row_models_push(out0, word_row);
                    assert(models(word@) =~= Seq::<GraphemeModel<S>>::empty());
                }
            }
            let ghost st3 = if hard_break {
                WrapState {
                    rows: st2.rows.push(st2.word),
                    line: st2.line,
                    ws: st2.ws,
                    word: Seq::<GraphemeModel<S>>::empty(),
                    prev_word: st2.prev_word,
                }
            } else {
                st2
            };
            let skip = closed && is_ws_g && ws.is_empty();
            if skip {
            } else if is_ws_g {
                proof {
                    lemma_models_push(ws@, g);
                    lemma_spec_width_push(models(ws@), gm);
                }
                ws.push(g);
                wsw = wsw + sw;
                prev_word = false;
            } else {
                proof {
                    lemma_models_push(word@, g);
                    lemma_spec_width_push(models(word@), gm);
                }
                word.push(g);
                www = www + sw;
                prev_word = true;
            }
            proof {
                let stepped = wrap_step(st, gm, max, trim);
                assert(row_models(out@) == stepped.rows);
                assert(models(line@) == stepped.line);
                assert(models(ws@) == stepped.ws);
                assert(models(word@) == stepped.word);
                assert(prev_word == stepped.prev_word);
                i = i + 1;
            }
        }
        proof {
            assert(wrap_fold(full, i, max, trim) == wrap_step(st, full[i - 1], max, trim));
        }
    }
    proof {
        assert(i == n);
        assert(full.subrange(0, n) =~= full);
    }
    let ghost st_end = wrap_fold(full, n, max, trim);
    if line.len() > 0 || !trim {
        proof {
            lemma_models_concat(line@, ws@);
        }
        line.append(&mut ws);
    }
    proof {
        lemma_models_concat(line@, word@);
        if !(st_end.line.len() > 0 || !trim) {
            assert(st_end.line + st_end.word =~= st_end.word);
        }
    }
    line.append(&mut word);
    if line.len() > 0 {
        let ghost out0 = out@;
        let ghost line_row = line;
        out.push(line);
        proof {
            lemma_row_models_push(out0, line_row);
        }
    }
    if out.len() == 0 {
        let ghost out0 = out@;
        let empty_row: Vec<StyledGrapheme<S>> = Vec::new();
        let ghost empty_snap = empty_row;
        out.push(empty_row);
        proof {
            lemma_row_models_push(out0, empty_snap);
            assert(models(empty_snap@) =~= Seq::<GraphemeModel<S>>::empty());
        }
    }
    proof {
        assert(row_models(out@) == spec_wrap(full, max, trim));
    }
    out
}

} // verus!
