//! The truncation engine: at most one row per logical line, no reflow.
//!
//! A line is clipped to `max_width` columns; anything beyond is dropped.
//! Left-aligned lines may additionally skip a number of leading columns (a
//! horizontal scroll offset). When the offset ends inside a grapheme, a
//! boundary-safe trim removes only whole grapheme clusters from the front of
//! that grapheme's content, never slicing inside one.

use vstd::prelude::*;
use vstd::string::StringExecFns;

use crate::grapheme::GraphemeModel;
use crate::grapheme::StyledGrapheme;
use crate::grapheme::display_width_of;
use crate::grapheme::lemma_spec_width_nonneg;
use crate::grapheme::measure_width;
use crate::grapheme::models;
use crate::grapheme::spec_width;
use crate::wrap::lemma_models_drop_first;
use crate::wrap::lemma_models_push;

verus! {

/// The extended grapheme clusters of a string, in order; the result of
/// unicode_segmentation's split, a function of the characters alone.
pub uninterp spec fn graphemes_of(s: Seq<char>) -> Seq<Seq<char>>;

/// Relies on unicode_segmentation's `UnicodeSegmentation::graphemes`: splits
/// a string into its extended grapheme clusters, whose concatenation in
/// order is exactly the original string.
#[verifier::external_body]
fn split_graphemes(s: &str) -> (parts: Vec<String>)
    ensures
        parts@.map_values(|p: String| p@) == graphemes_of(s@),
        parts@.map_values(|p: String| p@).flatten() == s@,
{
    unicode_segmentation::UnicodeSegmentation::graphemes(s, true)
        .map(|g: &str| g.to_string())
        .collect()
}

/// Drops whole clusters from the front of `parts` as long as they fit in
/// `off` columns; the first cluster that does not fit is kept whole.
pub open spec fn trim_parts(parts: Seq<Seq<char>>, off: int) -> Seq<Seq<char>>
    decreases parts.len(),
{
    if parts.len() == 0 {
        parts
    } else if display_width_of(parts[0]) <= off {
        trim_parts(parts.drop_first(), off - display_width_of(parts[0]))
    } else {
        parts
    }
}

/// The content of a grapheme after a boundary-safe trim of `off` leading
/// columns: whole leading clusters that fit in `off` are removed and the
/// rest is kept verbatim.
pub open spec fn trimmed_symbol(s: Seq<char>, off: int) -> Seq<char> {
    trim_parts(graphemes_of(s), off).flatten()
}

/// The grapheme that remains when `off` leading columns of `g` are skipped:
/// the trimmed content, re-measured, with the style untouched.
pub open spec fn trimmed_grapheme<S>(g: GraphemeModel<S>, off: int) -> GraphemeModel<S> {
    GraphemeModel {
        symbol: trimmed_symbol(g.symbol, off),
        width: display_width_of(trimmed_symbol(g.symbol, off)),
        style: g.style,
    }
}

proof fn lemma_flatten_push(s: Seq<Seq<char>>, x: Seq<char>)
    ensures
        s.push(x).flatten() == s.flatten() + x,
    decreases s.len(),
{
    if s.len() == 0 {
        assert(s.push(x).drop_first() =~= Seq::<Seq<char>>::empty());
        assert(s.push(x).flatten() == x + Seq::<Seq<char>>::empty().flatten());
        assert(s.flatten() + x =~= x + Seq::<char>::empty());
        assert(x + Seq::<char>::empty() =~= x);
    } else {
        assert(s.push(x)[0] == s[0]);
        assert(s.push(x).drop_first() =~= s.drop_first().push(x));
        lemma_flatten_push(s.drop_first(), x);
        assert(s.push(x).flatten() == s[0] + (s.drop_first().flatten() + x));
        assert(s[0] + (s.drop_first().flatten() + x) =~= (s[0] + s.drop_first().flatten()) + x);
    }
}

/// Returns the suffix of `sym` that remains after skipping `offset` leading
/// columns, removing only whole grapheme clusters from the front; the first
/// cluster wider than the remaining offset is kept whole.
fn trim_offset(sym: &str, offset: u16) -> (r: String)
    ensures
        r@ == trimmed_symbol(sym@, offset as int),
{
    let parts = split_graphemes(sym);
    let ghost all = parts@.map_values(|p: String| p@);
    let n = parts.len();
    let mut i: usize = 0;
    let mut off: u16 = offset;
    let mut stop: bool = false;
    proof {
        assert(all.subrange(0, n as int) =~= all);
        assert(all.len() == n);
    }
    while !stop && i < n
        invariant
            all == parts@.map_values(|p: String| p@),
            all.len() == n,
            n == parts@.len(),
            0 <= i <= n,
            !stop ==> trim_parts(all, offset as int) == trim_parts(
                all.subrange(i as int, n as int),
                off as int,
            ),
            stop ==> trim_parts(all, offset as int) == all.subrange(i as int, n as int),
        decreases n - i, (if stop { 0int } else { 1int }),
    {
        let w = measure_width(parts[i].as_str());
        proof {
            assert(all[i as int] == parts@[i as int]@);
            assert(all.subrange(i as int, n as int)[0] == all[i as int]);
        }
        if w <= off {
            proof {
                assert(all.subrange(i as int, n as int).drop_first() =~= all.subrange(
                    i as int + 1,
                    n as int,
                ));
            }
            off = off - w;
            i = i + 1;
        } else {
            stop = true;
        }
    }
    proof {
        if !stop {
            assert(all.subrange(i as int, n as int).len() == 0);
            assert(trim_parts(all, offset as int) == all.subrange(i as int, n as int));
        }
    }
    let ghost kept = all.subrange(i as int, n as int);
    let mut out = String::new();
    let mut j: usize = i;
    proof {
        assert(kept.subrange(0, 0) =~= Seq::<Seq<char>>::empty());
        assert(out@ =~= kept.subrange(0, 0).flatten());
    }
    while j < n
        invariant
            all == parts@.map_values(|p: String| p@),
            all.len() == n,
            n == parts@.len(),
            0 <= i <= j <= n,
            kept == all.subrange(i as int, n as int),
            out@ == kept.subrange(0, j - i).flatten(),
        decreases n - j,
    {
        proof {
            assert(all[j as int] == parts@[j as int]@);
            assert(kept.subrange(0, j - i + 1) =~= kept.subrange(0, j - i).push(all[j as int]));
            lemma_flatten_push(kept.subrange(0, j - i), all[j as int]);
        }
        out.append(parts[j].as_str());
        j = j + 1;
    }
    proof {
        assert(kept.subrange(0, n - i as int) =~= kept);
        assert(out@ == trim_parts(all, offset as int).flatten());
        assert(graphemes_of(sym@) == all);
    }
    out
}

/// One clipping pass: the graphemes of a row truncated to `max` columns,
/// after skipping `off` leading columns. Over-wide graphemes are dropped;
/// the first grapheme that no longer fits ends the row; graphemes wholly
/// consumed by the offset are skipped, and one partially consumed is trimmed
/// cluster-by-cluster and re-measured.
pub open spec fn truncate_rec<S>(
    line: Seq<GraphemeModel<S>>,
    max: int,
    cur: int,
    off: int,
) -> Seq<GraphemeModel<S>>
    decreases line.len(),
{
    if line.len() == 0 {
        Seq::empty()
    } else {
        let g = line[0];
        if g.width > max {
            truncate_rec(line.drop_first(), max, cur, off)
        } else if cur + g.width > max {
            Seq::empty()
        } else if off <= 0 {
            seq![g] + truncate_rec(line.drop_first(), max, cur + g.width, 0)
        } else if g.width <= off {
            truncate_rec(line.drop_first(), max, cur, off - g.width)
        } else {
            let t = trimmed_grapheme(g, off);
            if t.width > max {
                truncate_rec(line.drop_first(), max, cur, 0)
            } else {
                seq![t] + truncate_rec(line.drop_first(), max, cur + t.width, 0)
            }
        }
    }
}

/// The row that truncating `line` to `max` columns with horizontal offset
/// `off` produces.
pub open spec fn spec_truncate<S>(line: Seq<GraphemeModel<S>>, max: int, off: int) -> Seq<
    GraphemeModel<S>,
> {
    truncate_rec(line, max, 0, off)
}

proof fn lemma_truncate_rec_width<S>(line: Seq<GraphemeModel<S>>, max: int, cur: int, off: int)
    requires
        0 <= cur <= max,
        off > 0 ==> cur == 0,
    ensures
        cur + spec_width(truncate_rec(line, max, cur, off)) <= max,
        spec_width(truncate_rec(line, max, cur, off)) >= 0,
    decreases line.len(),
{
    lemma_spec_width_nonneg(truncate_rec(line, max, cur, off));
    if line.len() == 0 {
        assert(spec_width(truncate_rec(line, max, cur, off)) == 0);
    } else {
        let g = line[0];
        if g.width > max {
            lemma_truncate_rec_width(line.drop_first(), max, cur, off);
        } else if cur + g.width > max {
            assert(spec_width(Seq::<GraphemeModel<S>>::empty()) == 0);
        } else if off <= 0 {
            lemma_truncate_rec_width(line.drop_first(), max, cur + g.width, 0);
            crate::grapheme::lemma_spec_width_concat(
                seq![g],
                truncate_rec(line.drop_first(), max, cur + g.width, 0),
            );
            assert(seq![g].drop_first() =~= Seq::<GraphemeModel<S>>::empty());
            assert(seq![g][0] == g);
            assert(spec_width(Seq::<GraphemeModel<S>>::empty()) == 0);
            assert(spec_width(seq![g]) == g.width);
        } else if g.width <= off {
            lemma_truncate_rec_width(line.drop_first(), max, cur, off - g.width);
        } else {
            let t = trimmed_grapheme(g, off);
            if t.width > max {
                lemma_truncate_rec_width(line.drop_first(), max, cur, 0);
            } else {
                lemma_truncate_rec_width(line.drop_first(), max, cur + t.width, 0);
                crate::grapheme::lemma_spec_width_concat(
                    seq![t],
                    truncate_rec(line.drop_first(), max, cur + t.width, 0),
                );
                assert(seq![t].drop_first() =~= Seq::<GraphemeModel<S>>::empty());
                assert(seq![t][0] == t);
                assert(spec_width(Seq::<GraphemeModel<S>>::empty()) == 0);
                assert(spec_width(seq![t]) == t.width);
            }
        }
    }
}

/// The truncation engine never exceeds the target width: the one row it
/// clips a logical line to is at most `max` columns wide.
pub proof fn lemma_truncate_width<S>(line: Seq<GraphemeModel<S>>, max: int, off: int)
    requires
        max >= 1,
    ensures
        spec_width(spec_truncate(line, max, off)) <= max,
{
    lemma_truncate_rec_width(line, max, 0, off);
}

/// The graphemes that remain of `line` once its `off` leading columns are
/// skipped: whole graphemes that fit inside the offset are removed, and one
/// the offset ends inside is trimmed cluster-by-cluster.
pub open spec fn skip_columns<S>(line: Seq<GraphemeModel<S>>, off: int) -> Seq<GraphemeModel<S>>
    decreases line.len(),
{
    if off <= 0 || line.len() == 0 {
        line
    } else if line[0].width <= off {
        skip_columns(line.drop_first(), off - line[0].width)
    } else {
        seq![trimmed_grapheme(line[0], off)] + line.drop_first()
    }
}

/// Horizontal-offset equivalence: for a line with no grapheme wider than the
/// target, truncating with offset `off` gives exactly what first removing
/// `off` leading columns and then truncating with offset zero gives.
pub proof fn lemma_truncate_offset_equiv<S>(line: Seq<GraphemeModel<S>>, max: int, off: int)
    requires
        max >= 1,
        off >= 0,
        crate::wrap::all_widths_le(line, max),
    ensures
        spec_truncate(line, max, off) == spec_truncate(skip_columns(line, off), max, 0),
    decreases line.len(),
{
    if off == 0 || line.len() == 0 {
    } else {
        let g = line[0];
        assert(g.width <= max);
        if g.width <= off {
            assert(crate::wrap::all_widths_le(line.drop_first(), max)) by {
                assert(forall|j: int|
                    0 <= j < line.drop_first().len() ==> line.drop_first()[j] == line[j + 1]);
            }
            lemma_truncate_offset_equiv(line.drop_first(), max, off - g.width);
            assert(skip_columns(line, off) == skip_columns(line.drop_first(), off - g.width));
            assert(spec_truncate(line, max, off) == spec_truncate(
                line.drop_first(),
                max,
                off - g.width,
            ));
        } else {
            let t = trimmed_grapheme(g, off);
            let skipped = seq![t] + line.drop_first();
            assert(skipped[0] == t);
            assert(skipped.drop_first() =~= line.drop_first());
            if t.width > max {
                assert(spec_truncate(line, max, off) == truncate_rec(
                    line.drop_first(),
                    max,
                    0,
                    0,
                ));
                assert(spec_truncate(skipped, max, 0) == truncate_rec(
                    line.drop_first(),
                    max,
                    0,
                    0,
                ));
            } else {
                assert(spec_truncate(line, max, off) == seq![t] + truncate_rec(
                    line.drop_first(),
                    max,
                    t.width as int,
                    0,
                ));
                assert(spec_truncate(skipped, max, 0) == seq![t] + truncate_rec(
                    line.drop_first(),
                    max,
                    t.width as int,
                    0,
                ));
            }
        }
    }
}

/// Truncates one logical line to at most `max_width` columns, skipping
/// `offset` leading columns first. Returns the clipped row and its width.
///
/// The result is exactly the row that [`spec_truncate`] describes.
pub fn truncate_line<S>(input: Vec<StyledGrapheme<S>>, max_width: u16, offset: u16) -> (r: (
    Vec<StyledGrapheme<S>>,
    u16,
))
    requires
        max_width >= 1,
    ensures
        models(r.0@) == spec_truncate(models(input@), max_width as int, offset as int),
        r.1 == spec_width(models(r.0@)),
        r.1 <= max_width,
{
    let ghost full = models(input@);
    let ghost max = max_width as int;
    let mut rest = input;
    let mut out: Vec<StyledGrapheme<S>> = Vec::new();
    let mut cur: u16 = 0;
    let mut off: u16 = offset;
    let mut done: bool = false;
    proof {
        assert(models(rest@) =~= full);
        assert(models(out@) =~= Seq::<GraphemeModel<S>>::empty());
    }
    while !done && rest.len() > 0
        invariant
            max == max_width as int,
            max_width >= 1,
            cur <= max_width,
            off > 0 ==> cur == 0,
            cur == spec_width(models(out@)),
            !done ==> spec_truncate(full, max, offset as int) == models(out@) + truncate_rec(
                models(rest@),
                max,
                cur as int,
                off as int,
            ),
            done ==> spec_truncate(full, max, offset as int) == models(out@),
        decreases rest@.len(), (if done { 0int } else { 1int }),
    {
        let ghost rest0 = rest@;
        let ghost rem = models(rest@);
        let g = rest.remove(0);
        let ghost gm = g@;
        proof {
            lemma_models_drop_first(rest0);
            assert(rest0.remove(0) =~= rest0.drop_first());
            assert(rem[0] == gm);
            assert(models(rest@) == rem.drop_first());
        }
        if g.width > max_width {
            // over-wide grapheme: dropped outright
        } else if cur as u32 + g.width as u32 > max_width as u32 {
            done = true;
        } else if off == 0 {
            proof {
                lemma_models_push(out@, g);
                crate::grapheme::lemma_spec_width_push(models(out@), gm);
                assert(seq![gm] + truncate_rec(rem.drop_first(), max, cur + gm.width, 0)
                    == truncate_rec(rem, max, cur as int, off as int));
                assert(models(out@) + (seq![gm] + truncate_rec(
                    rem.drop_first(),
                    max,
                    cur + gm.width,
                    0,
                )) =~= models(out@).push(gm) + truncate_rec(
                    rem.drop_first(),
                    max,
                    cur + gm.width,
                    0,
                ));
            }
            let w = g.width;
            out.push(g);
            cur = cur + w;
        } else if g.width <= off {
            off = off - g.width;
        } else {
            let trim_cols = off;
            let trimmed = trim_offset(g.symbol.as_str(), trim_cols);
            let w2 = measure_width(trimmed.as_str());
            off = 0;
            if w2 > max_width {
                // a re-measured remainder that would not fit is dropped, like
                // an over-wide grapheme
            } else {
                let ghost tm = trimmed_grapheme(gm, trim_cols as int);
                let ng = StyledGrapheme { symbol: trimmed, width: w2, style: g.style };
                proof {
                    assert(ng@ == tm);
                    lemma_models_push(out@, ng);
                    crate::grapheme::lemma_spec_width_push(models(out@), tm);
                    assert(models(out@) + (seq![tm] + truncate_rec(
                        rem.drop_first(),
                        max,
                        cur + tm.width,
                        0,
                    )) =~= models(out@).push(tm) + truncate_rec(
                        rem.drop_first(),
                        max,
                        cur + tm.width,
                        0,
                    ));
                }
                out.push(ng);
                cur = cur + w2;
            }
        }
    }
    proof {
        if !done {
            assert(models(rest@).len() == 0);
            assert(truncate_rec(models(rest@), max, cur as int, off as int) =~= Seq::<
                GraphemeModel<S>,
            >::empty());
            assert(models(out@) + truncate_rec(models(rest@), max, cur as int, off as int)
                =~= models(out@));
        }
    }
    (out, cur)
}

} // verus!
