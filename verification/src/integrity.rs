//! Word integrity of the wrap engine.
//!
//! With trimming on, when no grapheme is wider than the target and every
//! word fits in it, the engine never splits a word across two rows: every
//! emitted row begins at a word boundary of the input. This module states
//! that as a covering relation — each row accounts for a stretch of the
//! input, stretches only ever skip whitespace, and each stretch starts
//! beside whitespace — and proves it of [`spec_wrap`].

use vstd::prelude::*;

use crate::grapheme::GraphemeModel;
use crate::grapheme::lemma_spec_width_nonneg;
use crate::grapheme::spec_width;
use crate::laws::all_droppable;
use crate::laws::all_whitespace;
use crate::laws::droppable;
use crate::laws::lemma_reconstructs_drop_mid;
use crate::laws::lemma_reconstructs_push_match;
use crate::laws::lemma_reconstructs_refl;
use crate::laws::lemma_reconstructs_trans;
use crate::laws::reconstructs;
use crate::wrap::WrapState;
use crate::wrap::lemma_emitted_props;
use crate::wrap::lemma_flushed_inv;
use crate::wrap::lemma_wrap_fold_inv;
use crate::wrap::spec_wrap;
use crate::wrap::wrap_emitted;
use crate::wrap::wrap_flushed;
use crate::wrap::wrap_fold;
use crate::wrap::wrap_inv;
use crate::wrap::wrap_step;

verus! {

/// Whether position `a` of `inp` is a word boundary: the edge of the line,
/// or whitespace on at least one side of the position.
pub open spec fn word_boundary_at<S>(inp: Seq<GraphemeModel<S>>, a: int) -> bool {
    ||| a <= 0
    ||| a >= inp.len()
    ||| inp[a - 1].is_whitespace()
    ||| inp[a].is_whitespace()
}

/// Whether `inp[a..b)` holds no whitespace.
pub open spec fn nonws_range<S>(inp: Seq<GraphemeModel<S>>, a: int, b: int) -> bool {
    forall|j: int| a <= j < b ==> !(#[trigger] inp[j]).is_whitespace()
}

/// Whether every word of `inp` — every contiguous whitespace-free stretch —
/// fits in `max` columns.
pub open spec fn words_fit<S>(inp: Seq<GraphemeModel<S>>, max: int) -> bool {
    forall|a: int, b: int|
        0 <= a <= b <= inp.len() && nonws_range(inp, a, b) ==> spec_width(
            #[trigger] inp.subrange(a, b),
        ) <= max
}

/// The rows lay out `inp[from..upto)` in order without splitting words:
/// each row reconstructs one stretch of the input, the skipped graphemes
/// between stretches are droppable, and every stretch begins at a word
/// boundary — so no row ever starts in the middle of a word.
pub open spec fn rows_cover<S>(
    rows: Seq<Seq<GraphemeModel<S>>>,
    inp: Seq<GraphemeModel<S>>,
    from: int,
    upto: int,
    max: int,
) -> bool
    decreases rows.len(),
{
    if rows.len() == 0 {
        all_droppable(inp.subrange(from, upto), max)
    } else {
        exists|a: int, b: int|
            {
                &&& from <= a <= b <= upto
                &&& all_droppable(#[trigger] inp.subrange(from, a), max)
                &&& word_boundary_at(inp, a)
                &&& reconstructs(rows[0], #[trigger] inp.subrange(a, b), max)
                &&& rows_cover(rows.drop_first(), inp, b, upto, max)
            }
    }
}

proof fn lemma_all_droppable_concat_range<S>(inp: Seq<GraphemeModel<S>>, a: int, b: int, c: int, max: int)
    requires
        0 <= a <= b <= c <= inp.len(),
        all_droppable(inp.subrange(a, b), max),
        all_droppable(inp.subrange(b, c), max),
    ensures
        all_droppable(inp.subrange(a, c), max),
{
    assert forall|j: int| 0 <= j < inp.subrange(a, c).len() implies droppable(
        #[trigger] inp.subrange(a, c)[j],
        max,
    ) by {
        if j < b - a {
            assert(inp.subrange(a, c)[j] == inp.subrange(a, b)[j]);
        } else {
            assert(inp.subrange(a, c)[j] == inp.subrange(b, c)[j - (b - a)]);
        }
    }
}

/// A covering may run further over droppable input.
proof fn lemma_rows_cover_extend<S>(
    rows: Seq<Seq<GraphemeModel<S>>>,
    inp: Seq<GraphemeModel<S>>,
    from: int,
    upto: int,
    upto2: int,
    max: int,
)
    requires
        0 <= from <= upto <= upto2 <= inp.len(),
        rows_cover(rows, inp, from, upto, max),
        all_droppable(inp.subrange(upto, upto2), max),
    ensures
        rows_cover(rows, inp, from, upto2, max),
    decreases rows.len(),
{
    if rows.len() == 0 {
        lemma_all_droppable_concat_range(inp, from, upto, upto2, max);
    } else {
        let (a, b) = choose|a: int, b: int|
            {
                &&& from <= a <= b <= upto
                &&& all_droppable(#[trigger] inp.subrange(from, a), max)
                &&& word_boundary_at(inp, a)
                &&& reconstructs(rows[0], #[trigger] inp.subrange(a, b), max)
                &&& rows_cover(rows.drop_first(), inp, b, upto, max)
            };
        lemma_rows_cover_extend(rows.drop_first(), inp, b, upto, upto2, max);
        assert(rows_cover(rows, inp, from, upto2, max)) by {
            assert(all_droppable(inp.subrange(from, a), max) && word_boundary_at(inp, a)
                && reconstructs(rows[0], inp.subrange(a, b), max) && rows_cover(
                rows.drop_first(),
                inp,
                b,
                upto2,
                max,
            ));
        }
    }
}

/// A new row appended at the end extends a covering, provided it starts at
/// a word boundary.
proof fn lemma_rows_cover_push<S>(
    rows: Seq<Seq<GraphemeModel<S>>>,
    inp: Seq<GraphemeModel<S>>,
    from: int,
    upto: int,
    row: Seq<GraphemeModel<S>>,
    a: int,
    b: int,
    max: int,
)
    requires
        0 <= from <= upto <= a <= b <= inp.len(),
        rows_cover(rows, inp, from, upto, max),
        all_droppable(inp.subrange(upto, a), max),
        word_boundary_at(inp, a),
        reconstructs(row, inp.subrange(a, b), max),
    ensures
        rows_cover(rows.push(row), inp, from, b, max),
    decreases rows.len(),
{
    if rows.len() == 0 {
        lemma_all_droppable_concat_range(inp, from, upto, a, max);
        assert(rows.push(row)[0] == row);
        assert(rows.push(row).drop_first() =~= Seq::<Seq<GraphemeModel<S>>>::empty());
        assert(inp.subrange(b, b) =~= Seq::<GraphemeModel<S>>::empty());
        assert(all_droppable(inp.subrange(b, b), max));
        assert(rows_cover(rows.push(row).drop_first(), inp, b, b, max));
        assert(rows_cover(rows.push(row), inp, from, b, max)) by {
            assert(all_droppable(inp.subrange(from, a), max) && word_boundary_at(inp, a)
                && reconstructs(rows.push(row)[0], inp.subrange(a, b), max) && rows_cover(
                rows.push(row).drop_first(),
                inp,
                b,
                b,
                max,
            ));
        }
    } else {
        let (a0, b0) = choose|a0: int, b0: int|
            {
                &&& from <= a0 <= b0 <= upto
                &&& all_droppable(#[trigger] inp.subrange(from, a0), max)
                &&& word_boundary_at(inp, a0)
                &&& reconstructs(rows[0], #[trigger] inp.subrange(a0, b0), max)
                &&& rows_cover(rows.drop_first(), inp, b0, upto, max)
            };
        lemma_rows_cover_push(rows.drop_first(), inp, b0, upto, row, a, b, max);
        assert(rows.push(row)[0] == rows[0]);
        assert(rows.push(row).drop_first() =~= rows.drop_first().push(row));
        assert(rows_cover(rows.push(row), inp, from, b, max)) by {
            assert(all_droppable(inp.subrange(from, a0), max) && word_boundary_at(inp, a0)
                && reconstructs(rows.push(row)[0], inp.subrange(a0, b0), max) && rows_cover(
                rows.push(row).drop_first(),
                inp,
                b0,
                b,
                max,
            ));
        }
    }
}

/// Reconstruction glues across concatenation.
proof fn lemma_reconstructs_concat<S>(
    x1: Seq<GraphemeModel<S>>,
    y1: Seq<GraphemeModel<S>>,
    x2: Seq<GraphemeModel<S>>,
    y2: Seq<GraphemeModel<S>>,
    max: int,
)
    requires
        reconstructs(x1, y1, max),
        reconstructs(x2, y2, max),
    ensures
        reconstructs(x1 + x2, y1 + y2, max),
    decreases y1.len(),
{
    if y1.len() == 0 {
        assert(x1.len() == 0);
        assert(x1 + x2 =~= x2);
        assert(y1 + y2 =~= y2);
    } else {
        assert((y1 + y2)[0] == y1[0]);
        assert((y1 + y2).drop_first() =~= y1.drop_first() + y2);
        if x1.len() > 0 && x1[0] == y1[0] && reconstructs(x1.drop_first(), y1.drop_first(), max) {
            assert((x1 + x2)[0] == x1[0]);
            assert((x1 + x2).drop_first() =~= x1.drop_first() + x2);
            lemma_reconstructs_concat(x1.drop_first(), y1.drop_first(), x2, y2, max);
        } else {
            assert(droppable(y1[0], max) && reconstructs(x1, y1.drop_first(), max));
            lemma_reconstructs_concat(x1, y1.drop_first(), x2, y2, max);
        }
    }
}

/// Droppable input reconstructs to nothing.
proof fn lemma_reconstructs_empty<S>(y: Seq<GraphemeModel<S>>, max: int)
    requires
        all_droppable(y, max),
    ensures
        reconstructs(Seq::<GraphemeModel<S>>::empty(), y, max),
    decreases y.len(),
{
    if y.len() > 0 {
        assert(all_droppable(y.drop_first(), max)) by {
            assert(forall|j: int| 0 <= j < y.drop_first().len() ==> y.drop_first()[j] == y[j + 1]);
        }
        lemma_reconstructs_empty(y.drop_first(), max);
    }
}

/// The engine's scan invariant for word integrity, at positions `lp` (start
/// of the row under assembly), `p` (its end), `q` (start of the pending
/// word): finished rows cover the input up to `lp` without splitting words;
/// the open row accounts for `inp[lp..p)` and starts at a word boundary;
/// the pending whitespace accounts for the droppable `inp[p..q)`; the
/// pending word is exactly `inp[q..k)`. A pending word that begins inside a
/// word — the hard case after a mid-word flush — forces the open row to be
/// exactly the first part of that same word, strictly narrower than the
/// target, so the row cannot close before the word rejoins it.
pub open spec fn wi_inv_at<S>(
    st: WrapState<S>,
    inp: Seq<GraphemeModel<S>>,
    k: int,
    lp: int,
    p: int,
    q: int,
    max: int,
) -> bool {
    &&& 0 <= lp <= p <= q <= k <= inp.len()
    &&& rows_cover(st.rows, inp, 0, lp, max)
    &&& word_boundary_at(inp, lp)
    &&& reconstructs(st.line, inp.subrange(lp, p), max)
    &&& reconstructs(st.ws, inp.subrange(p, q), max)
    &&& all_droppable(inp.subrange(p, q), max)
    &&& all_whitespace(st.ws)
    &&& st.word == inp.subrange(q, k)
    &&& nonws_range(inp, q, k)
    &&& (st.word.len() > 0 ==> st.prev_word)
    &&& (st.line.len() == 0 ==> lp == p)
    &&& (st.line.len() == 0 ==> spec_width(st.ws) <= max)
    &&& ((k > 0 && !inp[k - 1].is_whitespace()) ==> q < k)
    &&& ((q > 0 && q < k && !inp[q - 1].is_whitespace()) ==> (p == q && lp < q && st.line
        == inp.subrange(lp, q) && nonws_range(inp, lp, k) && spec_width(st.line) < max))
}

pub open spec fn wi_inv<S>(st: WrapState<S>, inp: Seq<GraphemeModel<S>>, k: int, max: int) -> bool {
    exists|lp: int, p: int, q: int| wi_inv_at(st, inp, k, lp, p, q, max)
}

#[verifier::rlimit(100)]
proof fn lemma_wi_step<S>(
    st: WrapState<S>,
    inp: Seq<GraphemeModel<S>>,
    k: int,
    lp: int,
    p: int,
    q: int,
    max: int,
)
    requires
        max >= 1,
        crate::wrap::all_widths_le(inp, max),
        words_fit(inp, max),
        0 <= k < inp.len(),
        wrap_inv(st, max),
        wi_inv_at(st, inp, k, lp, p, q, max),
    ensures
        wi_inv(wrap_step(st, inp[k], max, true), inp, k + 1, max),
{
    let n = inp.len() as int;
    let g = inp[k];
    let gw = g.width as int;
    assert(gw <= max);
    let is_ws = g.is_whitespace();
    let lw = spec_width(st.line);
    let wsw = spec_width(st.ws);
    let www = spec_width(st.word);
    lemma_spec_width_nonneg(st.line);
    lemma_spec_width_nonneg(st.ws);
    lemma_spec_width_nonneg(st.word);
    assert(spec_width(Seq::<GraphemeModel<S>>::empty()) == 0);
    assert(inp.subrange(q, k + 1) =~= inp.subrange(q, k).push(g));
    crate::grapheme::lemma_spec_width_push(inp.subrange(q, k), g);
    // a word together with the next non-whitespace grapheme still fits
    if !is_ws {
        assert(nonws_range(inp, q, k + 1));
        assert(spec_width(inp.subrange(q, k + 1)) <= max);
        assert(www + gw <= max);
    }
    // the pending whitespace stands for whitespace input
    assert forall|j: int| p <= j < q implies (#[trigger] inp[j]).is_whitespace() by {
        assert(inp.subrange(p, q)[j - p] == inp[j]);
        assert(droppable(inp.subrange(p, q)[j - p], max));
        assert(inp[j].width <= max);
    }
    // an empty pending word means the word region is empty, and conversely
    assert(st.word.len() == k - q);
    let word_found = st.prev_word && is_ws;
    let trimmed_overflow = st.line.len() == 0 && www + gw > max;
    let whitespace_overflow = st.line.len() == 0 && wsw + gw > max;
    let flush = word_found || trimmed_overflow || whitespace_overflow;
    if is_ws && st.word.len() > 0 {
        assert(word_found);
    }
    if !is_ws {
        assert(!trimmed_overflow);
    }
    let midrun = q > 0 && q < k && !inp[q - 1].is_whitespace();
    let st1 = if flush {
        wrap_flushed(st, true)
    } else {
        st
    };
    if flush {
        lemma_flushed_inv(st, max, true);
    }
    let lp1: int = if !flush {
        lp
    } else if st.line.len() > 0 {
        lp
    } else if st.word.len() > 0 {
        q
    } else {
        k
    };
    let p1: int = if flush {
        k
    } else {
        p
    };
    let q1: int = if flush {
        k
    } else {
        q
    };
    if flush {
        if st.line.len() > 0 {
            lemma_reconstructs_refl(st.word, max);
            lemma_reconstructs_concat(st.line, inp.subrange(lp, p), st.ws, inp.subrange(p, q), max);
            assert(inp.subrange(lp, p) + inp.subrange(p, q) =~= inp.subrange(lp, q));
            lemma_reconstructs_concat(
                st.line + st.ws,
                inp.subrange(lp, q),
                st.word,
                inp.subrange(q, k),
                max,
            );
            assert(inp.subrange(lp, q) + inp.subrange(q, k) =~= inp.subrange(lp, k));
            assert(st1.line == (st.line + st.ws) + st.word);
            assert(reconstructs(st1.line, inp.subrange(lp1, p1), max));
        } else {
            assert(lp == p);
            assert(st1.line == st.line + st.word);
            assert(st.line + st.word =~= st.word);
            if st.word.len() > 0 {
                assert(q < k);
                assert(word_boundary_at(inp, q)) by {
                    if q > 0 && !inp[q - 1].is_whitespace() {
                        assert(st.line == inp.subrange(lp, q) && lp < q);
                        assert(st.line.len() == 0);
                        assert(false);
                    }
                }
                lemma_reconstructs_refl(st.word, max);
                assert(st1.line == inp.subrange(q, k));
                assert(reconstructs(st1.line, inp.subrange(lp1, p1), max));
                assert(inp.subrange(lp, q) =~= inp.subrange(p, q));
                lemma_rows_cover_extend(st.rows, inp, 0, lp, q, max);
            } else {
                assert(q == k);
                assert(st1.line =~= Seq::<GraphemeModel<S>>::empty());
                assert(word_boundary_at(inp, k)) by {
                    if word_found {
                        assert(inp[k].is_whitespace());
                    } else {
                        assert(whitespace_overflow);
                        assert(q > p) by {
                            if q == p {
                                assert(st.ws.len() == 0) by {
                                    if st.ws.len() > 0 {
                                        assert(reconstructs(st.ws, inp.subrange(p, q), max));
                                        assert(inp.subrange(p, q).len() == 0);
                                        assert(false);
                                    }
                                }
                                assert(st.ws =~= Seq::<GraphemeModel<S>>::empty());
                                assert(wsw == 0);
                                assert(gw > max);
                                assert(false);
                            }
                        }
                        assert(inp[q - 1].is_whitespace());
                    }
                }
                assert(inp.subrange(lp, q) =~= inp.subrange(p, q));
                lemma_rows_cover_extend(st.rows, inp, 0, lp, k, max);
                assert(reconstructs(st1.line, inp.subrange(lp1, p1), max)) by {
                    assert(inp.subrange(k, k) =~= Seq::<GraphemeModel<S>>::empty());
                }
            }
        }
        assert(st1.ws =~= Seq::<GraphemeModel<S>>::empty());
        assert(st1.word =~= Seq::<GraphemeModel<S>>::empty());
    }
    assert(rows_cover(st1.rows, inp, 0, lp1, max));
    assert(word_boundary_at(inp, lp1));
    assert(reconstructs(st1.line, inp.subrange(lp1, p1), max));
    let lw1 = spec_width(st1.line);
    let wsw1 = spec_width(st1.ws);
    let www1 = spec_width(st1.word);
    lemma_spec_width_nonneg(st1.line);
    lemma_spec_width_nonneg(st1.ws);
    lemma_spec_width_nonneg(st1.word);
    let line_full = lw1 >= max;
    let word_overflow = gw > 0 && lw1 + wsw1 + www1 + gw > max;
    let closed = line_full || word_overflow;
    // an open row holding the first part of a pending word never closes
    if midrun && !flush {
        assert(p == q && st.line == inp.subrange(lp, q) && nonws_range(inp, lp, k) && lw < max);
        assert(!line_full);
        if word_overflow {
            assert(!is_ws) by {
                if is_ws {
                    assert(st.word.len() > 0);
                    assert(false);
                }
            }
            assert(nonws_range(inp, lp, k + 1));
            assert(spec_width(inp.subrange(lp, k + 1)) <= max);
            crate::laws::lemma_width_split(inp, lp, q, k + 1);
            assert(spec_width(inp.subrange(lp, q)) + spec_width(inp.subrange(q, k + 1)) <= max);
            assert(wsw == 0) by {
                assert(st.ws.len() == 0) by {
                    if st.ws.len() > 0 {
                        assert(reconstructs(st.ws, inp.subrange(p, q), max));
                        assert(inp.subrange(p, q).len() == 0);
                        assert(false);
                    }
                }
                assert(st.ws =~= Seq::<GraphemeModel<S>>::empty());
            }
            assert(lw1 + wsw1 + www1 + gw <= max);
            assert(false);
        }
        assert(!closed);
    }
    // a mid-word flush leaves a row too narrow to close
    if flush && st.line.len() == 0 && st.word.len() > 0 && !is_ws {
        assert(whitespace_overflow) by {
            assert(!word_found && !trimmed_overflow);
        }
        assert(gw >= 1) by {
            assert(wsw <= max);
            assert(wsw + gw > max);
        }
        assert(lw1 == www) by {
            assert(st1.line == inp.subrange(q, k));
        }
        assert(lw1 < max);
        assert(!line_full);
        assert(!word_overflow) by {
            assert(wsw1 == 0 && www1 == 0);
            assert(lw1 + gw <= max);
        }
        assert(!closed);
    }
    let st2 = if closed {
        wrap_emitted(st1, max)
    } else {
        st1
    };
    if closed {
        lemma_emitted_props(st1, max);
        assert(st2.ws.len() == 0);
        assert(st2.ws =~= Seq::<GraphemeModel<S>>::empty());
        assert(inp.subrange(lp1, lp1) =~= Seq::<GraphemeModel<S>>::empty());
        lemma_rows_cover_push(st1.rows, inp, 0, lp1, st1.line, lp1, p1, max);
        assert(rows_cover(st2.rows, inp, 0, p1, max));
        assert(word_boundary_at(inp, p1)) by {
            if flush {
                if is_ws {
                    assert(inp[k].is_whitespace());
                } else {
                    // only a whitespace overflow flushes here, and with no
                    // pending word (a mid-word flush cannot close the row)
                    assert(st.line.len() == 0) by {
                        if st.line.len() > 0 {
                            assert(word_found);
                            assert(false);
                        }
                    }
                    assert(st.word.len() == 0);
                    assert(q == k);
                    assert(whitespace_overflow);
                    assert(q > p) by {
                        if q == p {
                            assert(st.ws.len() == 0) by {
                                if st.ws.len() > 0 {
                                    assert(reconstructs(st.ws, inp.subrange(p, q), max));
                                    assert(inp.subrange(p, q).len() == 0);
                                    assert(false);
                                }
                            }
                            assert(st.ws =~= Seq::<GraphemeModel<S>>::empty());
                            assert(wsw == 0);
                            assert(false);
                        }
                    }
                    assert(inp[k - 1].is_whitespace());
                }
            } else {
                if q > p {
                    assert(inp[p].is_whitespace());
                } else {
                    if q < k {
                        assert(!midrun);
                        assert(q == 0 || inp[q - 1].is_whitespace());
                    } else {
                        if is_ws {
                            assert(inp[k].is_whitespace());
                        } else {
                            assert(k == 0 || inp[k - 1].is_whitespace()) by {
                                if k > 0 && !inp[k - 1].is_whitespace() {
                                    assert(q < k);
                                    assert(false);
                                }
                            }
                        }
                    }
                }
            }
        }
    }
    let res = wrap_step(st, g, max, true);
    // the engine's hard break never fires when every word fits
    assert(!(closed && !is_ws && st2.line.len() == 0 && st2.word.len() > 0 && spec_width(st2.word)
        + gw > max)) by {
        if closed && !is_ws && st2.word.len() > 0 {
            assert(st2.word == st1.word);
            assert(!flush);
            assert(st1.word == st.word);
            assert(spec_width(st2.word) + gw <= max);
        }
    }
    if closed && is_ws && st2.ws.len() == 0 {
        // the whitespace grapheme at the break is dropped
        assert(res == st2);
        assert(st2.word.len() == 0) by {
            if st2.word.len() > 0 {
                assert(!flush);
                assert(st.word.len() > 0);
                assert(word_found);
                assert(false);
            }
        }
        assert(all_droppable(inp.subrange(p1, k), max)) by {
            if !flush {
                assert(q == k) by {
                    if q < k {
                        assert(st.word.len() > 0);
                        assert(word_found);
                        assert(false);
                    }
                }
                assert(inp.subrange(p, q) =~= inp.subrange(p1, k));
            } else {
                assert(inp.subrange(p1, k).len() == 0);
            }
        }
        assert(all_droppable(inp.subrange(p1, k + 1), max)) by {
            assert(inp.subrange(k, k + 1) =~= seq![g]);
            assert(all_droppable(seq![g], max)) by {
                assert(seq![g][0] == g);
            }
            lemma_all_droppable_concat_range(inp, p1, k, k + 1, max);
        }
        lemma_reconstructs_empty(inp.subrange(p1, k + 1), max);
        assert(wi_inv_at(res, inp, k + 1, p1, p1, k + 1, max)) by {
            assert(res.line =~= Seq::<GraphemeModel<S>>::empty());
            assert(inp.subrange(p1, p1) =~= Seq::<GraphemeModel<S>>::empty());
            assert(reconstructs(res.line, inp.subrange(p1, p1), max));
            assert(res.word =~= inp.subrange(k + 1, k + 1));
            assert(spec_width(res.ws) == 0);
            assert((k + 1 > 0 && !inp[k].is_whitespace()) ==> false);
        }
    } else if is_ws {
        // push onto the pending whitespace; never right after a break
        assert(!closed);
        assert(res.ws == st1.ws.push(g));
        assert(res.line == st1.line && res.rows == st1.rows && res.word == st1.word);
        assert(st1.word.len() == 0) by {
            if st1.word.len() > 0 {
                assert(!flush);
                assert(st.word.len() > 0);
                assert(word_found);
                assert(false);
            }
        }
        assert(q1 == k) by {
            if !flush {
                assert(st.word.len() == 0);
            }
        }
        assert(reconstructs(st1.ws, inp.subrange(p1, k), max) && all_droppable(
            inp.subrange(p1, k),
            max,
        )) by {
            if flush {
                assert(st1.ws =~= Seq::<GraphemeModel<S>>::empty());
                assert(inp.subrange(k, k) =~= Seq::<GraphemeModel<S>>::empty());
            } else {
                assert(inp.subrange(p1, k) =~= inp.subrange(p, q));
            }
        }
        lemma_reconstructs_push_match(st1.ws, inp.subrange(p1, k), g, max);
        assert(inp.subrange(p1, k).push(g) =~= inp.subrange(p1, k + 1));
        assert(all_droppable(inp.subrange(p1, k + 1), max)) by {
            assert(inp.subrange(k, k + 1) =~= seq![g]);
            assert(all_droppable(seq![g], max)) by {
                assert(seq![g][0] == g);
            }
            lemma_all_droppable_concat_range(inp, p1, k, k + 1, max);
        }
        assert(all_whitespace(res.ws)) by {
            assert(forall|j: int| 0 <= j < st1.ws.len() ==> res.ws[j] == st1.ws[j]);
            assert(res.ws[st1.ws.len() as int] == g);
        }
        assert(wi_inv_at(res, inp, k + 1, lp1, p1, k + 1, max)) by {
            assert(res.word =~= inp.subrange(k + 1, k + 1));
            if res.line.len() == 0 {
                assert(lp1 == p1) by {
                    if flush {
                        assert(st1.line.len() == 0);
                        assert(st.word.len() == 0 || st1.line == inp.subrange(q, k));
                        if st.word.len() > 0 {
                            assert(inp.subrange(q, k).len() > 0);
                            assert(false);
                        }
                    }
                }
                assert(spec_width(res.ws) <= max) by {
                    crate::grapheme::lemma_spec_width_push(st1.ws, g);
                    if flush {
                        assert(spec_width(st1.ws) == 0);
                    } else {
                        assert(st.line.len() == 0);
                        assert(!whitespace_overflow);
                        assert(wsw + gw <= max);
                    }
                }
            }
            assert((k + 1 > 0 && !inp[k].is_whitespace()) ==> false);
        }
    } else {
        // push onto the pending word
        assert(res.word == st2.word.push(g));
        assert(res.line == st2.line && res.ws == st2.ws && res.rows == st2.rows);
        let word_was_empty = st2.word.len() == 0;
        let q3: int = if word_was_empty {
            k
        } else {
            q
        };
        assert(st2.word == inp.subrange(q3, k)) by {
            if word_was_empty {
                assert(st2.word =~= inp.subrange(k, k));
            } else {
                assert(!flush);
                assert(st2.word == st.word);
            }
        }
        assert(res.word =~= inp.subrange(q3, k + 1)) by {
            assert(inp.subrange(q3, k).push(g) =~= inp.subrange(q3, k + 1));
        }
        assert(nonws_range(inp, q3, k + 1)) by {
            if !word_was_empty {
                assert(nonws_range(inp, q, k));
            }
        }
        let lp3: int = if closed {
            p1
        } else {
            lp1
        };
        let p3: int = if closed {
            p1
        } else {
            p1
        };
        assert(q3 >= p3) by {
            if !word_was_empty {
                assert(!flush);
                assert(p3 == p || (closed && p3 == p1));
            }
        }
        assert(reconstructs(res.ws, inp.subrange(p3, q3), max) && all_droppable(
            inp.subrange(p3, q3),
            max,
        ) && all_whitespace(res.ws)) by {
            if closed {
                assert(res.ws =~= Seq::<GraphemeModel<S>>::empty());
                assert(all_droppable(inp.subrange(p3, q3), max)) by {
                    if word_was_empty {
                        if flush {
                            assert(inp.subrange(p3, q3).len() == 0);
                        } else {
                            assert(q == k);
                            assert(inp.subrange(p3, q3) =~= inp.subrange(p, q));
                        }
                    } else {
                        assert(!flush);
                        assert(inp.subrange(p3, q3) =~= inp.subrange(p, q));
                    }
                }
                lemma_reconstructs_empty(inp.subrange(p3, q3), max);
            } else {
                if flush {
                    assert(res.ws =~= Seq::<GraphemeModel<S>>::empty());
                    assert(q3 == k && p3 == k);
                    assert(inp.subrange(k, k) =~= Seq::<GraphemeModel<S>>::empty());
                } else {
                    assert(res.ws == st.ws);
                    assert(inp.subrange(p3, q3) =~= inp.subrange(p, q)) by {
                        if word_was_empty {
                            assert(q == k);
                        }
                    }
                }
            }
        }
        assert(wi_inv_at(res, inp, k + 1, lp3, p3, q3, max)) by {
            assert((k + 1 > 0 && !inp[k].is_whitespace()) ==> q3 < k + 1);
            // the mid-word case: the open row holds exactly the first part
            // of the word
            if q3 > 0 && q3 < k + 1 && !inp[q3 - 1].is_whitespace() {
                if !word_was_empty {
                    assert(q3 == q && midrun);
                    assert(!flush && !closed);
                    assert(res.line == st.line);
                    assert(p == q && lp < q && st.line == inp.subrange(lp, q) && nonws_range(
                        inp,
                        lp,
                        k,
                    ) && spec_width(st.line) < max);
                    assert(nonws_range(inp, lp3, k + 1));
                } else {
                    // the last grapheme was part of a word, so that word was
                    // pending; only a mid-word flush empties it here
                    assert(q3 == k);
                    assert(q < k) by {
                        assert(k > 0 && !inp[k - 1].is_whitespace());
                    }
                    assert(st.word.len() > 0);
                    assert(flush) by {
                        if !flush {
                            assert(st2.word == st.word);
                            assert(false);
                        }
                    }
                    assert(st.line.len() == 0) by {
                        if st.line.len() > 0 {
                            assert(word_found);
                            assert(false);
                        }
                    }
                    assert(!closed);
                    assert(res.line == st1.line);
                    assert(st1.line == inp.subrange(q, k));
                    assert(lp3 == q && p3 == k);
                    assert(res.line == inp.subrange(lp3, q3));
                    assert(lp3 < q3);
                    assert(p3 == q3);
                    assert(nonws_range(inp, lp3, k + 1)) by {
                        assert(nonws_range(inp, q, k));
                    }
                    assert(spec_width(res.line) < max) by {
                        assert(spec_width(st1.line) == www);
                        assert(gw >= 1) by {
                            assert(whitespace_overflow) by {
                                assert(!word_found && !trimmed_overflow);
                            }
                            assert(wsw <= max);
                        }
                        assert(www + gw <= max);
                    }
                }
            }
            assert(reconstructs(res.line, inp.subrange(lp3, p3), max)) by {
                if closed {
                    assert(res.line =~= Seq::<GraphemeModel<S>>::empty());
                    assert(inp.subrange(p1, p1) =~= Seq::<GraphemeModel<S>>::empty());
                }
            }
            assert(res.line.len() == 0 ==> lp3 == p3) by {
                if !closed && res.line.len() == 0 {
                    if flush {
                        assert(st1.line.len() == 0);
                        assert(st.word.len() == 0 || st1.line == inp.subrange(q, k));
                        if st.word.len() > 0 {
                            assert(inp.subrange(q, k).len() > 0);
                            assert(false);
                        }
                    }
                }
            }
            assert(res.line.len() == 0 ==> spec_width(res.ws) <= max) by {
                if res.line.len() == 0 {
                    if closed || flush {
                        assert(res.ws =~= Seq::<GraphemeModel<S>>::empty());
                    } else {
                        assert(res.ws == st.ws);
                        assert(st.line.len() == 0);
                    }
                }
            }
            assert(rows_cover(res.rows, inp, 0, lp3, max));
            assert(word_boundary_at(inp, lp3));
        }
    }
}

/// Scanning any prefix keeps the word-integrity invariant.
proof fn lemma_wi_fold<S>(inp: Seq<GraphemeModel<S>>, k: int, max: int)
    requires
        max >= 1,
        crate::wrap::all_widths_le(inp, max),
        words_fit(inp, max),
        0 <= k <= inp.len(),
    ensures
        wi_inv(wrap_fold(inp, k, max, true), inp, k, max),
    decreases k,
{
    if k == 0 {
        let st = wrap_fold(inp, 0, max, true);
        assert(wi_inv_at(st, inp, 0, 0, 0, 0, max)) by {
            assert(inp.subrange(0, 0) =~= Seq::<GraphemeModel<S>>::empty());
            assert(st.line =~= inp.subrange(0, 0));
            assert(reconstructs(st.line, inp.subrange(0, 0), max));
            assert(st.ws =~= inp.subrange(0, 0));
            assert(reconstructs(st.ws, inp.subrange(0, 0), max));
            assert(st.word =~= inp.subrange(0, 0));
            assert(spec_width(st.ws) == spec_width(Seq::<GraphemeModel<S>>::empty()));
            assert(spec_width(Seq::<GraphemeModel<S>>::empty()) == 0);
        }
    } else {
        let km = k - 1;
        lemma_wi_fold(inp, km, max);
        lemma_wrap_fold_inv(inp, km, max, true);
        let st = wrap_fold(inp, km, max, true);
        let (lp, p, q) = choose|lp: int, p: int, q: int| wi_inv_at(st, inp, km, lp, p, q, max);
        lemma_wi_step(st, inp, km, lp, p, q, max);
    }
}

/// Word integrity: with trimming on, when no grapheme is wider than the
/// target and every word fits in it, the rows the wrap engine emits cover
/// the input in order, skip only whitespace between rows, and every row
/// starts at a word boundary — no word is ever split across two rows.
pub proof fn lemma_wrap_words_intact<S>(inp: Seq<GraphemeModel<S>>, max: int)
    requires
        max >= 1,
        crate::wrap::all_widths_le(inp, max),
        words_fit(inp, max),
    ensures
        rows_cover(spec_wrap(inp, max, true), inp, 0, inp.len() as int, max),
{
    let n = inp.len() as int;
    lemma_wi_fold(inp, n, max);
    lemma_wrap_fold_inv(inp, n, max, true);
    let st = wrap_fold(inp, n, max, true);
    let (lp, p, q) = choose|lp: int, p: int, q: int| wi_inv_at(st, inp, n, lp, p, q, max);
    assert forall|j: int| p <= j < q implies (#[trigger] inp[j]).is_whitespace() by {
        assert(inp.subrange(p, q)[j - p] == inp[j]);
        assert(droppable(inp.subrange(p, q)[j - p], max));
        assert(inp[j].width <= max);
    }
    let with_ws = if st.line.len() > 0 {
        st.line + st.ws
    } else {
        st.line
    };
    let full = with_ws + st.word;
    let rows = if full.len() > 0 {
        st.rows.push(full)
    } else {
        st.rows
    };
    if st.line.len() > 0 {
        lemma_reconstructs_refl(st.word, max);
        lemma_reconstructs_concat(st.line, inp.subrange(lp, p), st.ws, inp.subrange(p, q), max);
        assert(inp.subrange(lp, p) + inp.subrange(p, q) =~= inp.subrange(lp, q));
        lemma_reconstructs_concat(
            st.line + st.ws,
            inp.subrange(lp, q),
            st.word,
            inp.subrange(q, n),
            max,
        );
        assert(inp.subrange(lp, q) + inp.subrange(q, n) =~= inp.subrange(lp, n));
        assert(full == (st.line + st.ws) + st.word);
        assert(full.len() > 0);
        assert(inp.subrange(lp, lp) =~= Seq::<GraphemeModel<S>>::empty());
        lemma_rows_cover_push(st.rows, inp, 0, lp, full, lp, n, max);
        assert(rows_cover(rows, inp, 0, n, max));
        assert(spec_wrap(inp, max, true) == rows);
    } else {
        assert(lp == p);
        assert(full =~= st.word);
        if st.word.len() > 0 {
            assert(q < n);
            assert(word_boundary_at(inp, q)) by {
                if q > 0 && !inp[q - 1].is_whitespace() {
                    assert(st.line == inp.subrange(lp, q) && lp < q);
                    assert(st.line.len() == 0);
                    assert(false);
                }
            }
            lemma_reconstructs_refl(st.word, max);
            assert(full == inp.subrange(q, n));
            assert(inp.subrange(lp, q) =~= inp.subrange(p, q));
            lemma_rows_cover_push(st.rows, inp, 0, lp, full, q, n, max);
            assert(rows_cover(rows, inp, 0, n, max));
            assert(spec_wrap(inp, max, true) == rows);
        } else {
            assert(q == n);
            assert(full.len() == 0);
            assert(rows == st.rows);
            assert(inp.subrange(lp, q) =~= inp.subrange(p, q));
            lemma_rows_cover_extend(st.rows, inp, 0, lp, n, max);
            assert(rows_cover(rows, inp, 0, n, max));
            if rows.len() == 0 {
                let empty_row = Seq::<GraphemeModel<S>>::empty();
                assert(spec_wrap(inp, max, true) == rows.push(empty_row));
                assert(all_droppable(inp.subrange(0, n), max));
                assert(inp.subrange(n, n) =~= Seq::<GraphemeModel<S>>::empty());
                assert(reconstructs(empty_row, inp.subrange(n, n), max));
                lemma_rows_cover_push(st.rows, inp, 0, n, empty_row, n, n, max);
                assert(rows_cover(rows.push(empty_row), inp, 0, n, max));
            } else {
                assert(spec_wrap(inp, max, true) == rows);
            }
        }
    }
}

} // verus!
