//! The pull-based line composition interface and its two engines.
//!
//! A composer is built once over a finite run of logical lines and is pulled
//! row by row until exhausted; once exhausted it stays exhausted. The
//! [`WordWrapper`] reflows each logical line into as many rows as it needs;
//! the [`LineTruncator`] clips each logical line to a single row. Each pull
//! returns an owned row, trading a small copy for simple ownership.

use vstd::prelude::*;

use crate::grapheme::Alignment;
use crate::grapheme::GraphemeModel;
use crate::grapheme::LogicalLine;
use crate::grapheme::StyledGrapheme;
use crate::grapheme::lemma_spec_width_nonneg;
use crate::grapheme::lemma_spec_width_prefix;
use crate::grapheme::lemma_spec_width_push;
use crate::grapheme::models;
use crate::grapheme::spec_width;
use crate::truncate::spec_truncate;
use crate::truncate::truncate_line;
use crate::wrap::MAX_TOTAL_WIDTH;
use crate::wrap::lemma_wrap_width_bounds;
use crate::wrap::row_models;
use crate::wrap::rows_fit;
use crate::wrap::spec_wrap;
use crate::wrap::wrap_line;

verus! {

/// One physical row after layout: its graphemes, its total display width,
/// and the alignment inherited from the source logical line.
pub struct WrappedLine<S> {
    pub line: Vec<StyledGrapheme<S>>,
    pub width: u16,
    pub alignment: Alignment,
}

/// The rows, tagged with their alignment, that wrapping a run of logical
/// lines produces, in order.
pub open spec fn wrap_stream<S>(lines: Seq<LogicalLine<S>>, max: int, trim: bool) -> Seq<
    (Seq<GraphemeModel<S>>, Alignment),
>
    decreases lines.len(),
{
    if lines.len() == 0 {
        Seq::empty()
    } else {
        spec_wrap(models(lines[0].graphemes@), max, trim).map_values(
            |row: Seq<GraphemeModel<S>>| (row, lines[0].alignment),
        ) + wrap_stream(lines.drop_first(), max, trim)
    }
}

/// What a fresh word wrapper over `lines` will emit: nothing when the target
/// width is zero, otherwise every wrapped row of every line, in order.
pub open spec fn composed_rows<S>(lines: Seq<LogicalLine<S>>, max: int, trim: bool) -> Seq<
    (Seq<GraphemeModel<S>>, Alignment),
> {
    if max == 0 {
        Seq::empty()
    } else {
        wrap_stream(lines, max, trim)
    }
}

/// The horizontal offset that applies to a line: only left-aligned lines
/// take part in horizontal scrolling.
pub open spec fn effective_offset(alignment: Alignment, offset: int) -> int {
    if alignment == Alignment::Left {
        offset
    } else {
        0
    }
}

/// What a truncator over `lines` with horizontal offset `off` will emit:
/// nothing when the target width is zero, otherwise exactly one clipped row
/// per logical line.
pub open spec fn truncated_rows<S>(lines: Seq<LogicalLine<S>>, max: int, off: int) -> Seq<
    (Seq<GraphemeModel<S>>, Alignment),
> {
    if max == 0 {
        Seq::empty()
    } else {
        lines.map_values(
            |ll: LogicalLine<S>|
                (
                    spec_truncate(models(ll.graphemes@), max, effective_offset(ll.alignment, off)),
                    ll.alignment,
                ),
        )
    }
}

/// A lazy, finite, non-restartable source of physical lines. `remaining()`
/// is the exact run of rows, with widths and alignments, that repeated
/// pulls will deliver before the end marker.
pub trait LineComposer<S>: Sized {
    /// The composer's internal invariant.
    spec fn wf(&self) -> bool;

    /// The rows this composer has yet to emit, each with its alignment.
    spec fn remaining(&self) -> Seq<(Seq<GraphemeModel<S>>, Alignment)>;

    /// Produces the next physical line, or `None` once the source is
    /// exhausted (and forever after).
    fn next_line(&mut self) -> (r: Option<WrappedLine<S>>)
        requires
            old(self).wf(),
        ensures
            final(self).wf(),
            old(self).remaining().len() == 0 ==> r is None && final(self).remaining()
                == old(self).remaining(),
            old(self).remaining().len() > 0 ==> (r matches Some(w) && {
                &&& models(w.line@) == old(self).remaining()[0].0
                &&& w.width == spec_width(old(self).remaining()[0].0)
                &&& w.alignment == old(self).remaining()[0].1
                &&& final(self).remaining() == old(self).remaining().drop_first()
            }),
    ;
}

/// Sums the widths of a finished row.
fn row_width<S>(row: &Vec<StyledGrapheme<S>>) -> (w: u16)
    requires
        spec_width(models(row@)) <= u16::MAX,
    ensures
        w == spec_width(models(row@)),
{
    let ghost all = models(row@);
    let mut w: u16 = 0;
    let mut i: usize = 0;
    proof {
        assert(all.subrange(0, 0) =~= Seq::<GraphemeModel<S>>::empty());
    }
    while i < row.len()
        invariant
            all == models(row@),
            0 <= i <= row@.len(),
            all.len() == row@.len(),
            spec_width(all) <= u16::MAX,
            w == spec_width(all.subrange(0, i as int)),
        decreases row@.len() - i,
    {
        proof {
            assert(all[i as int] == row@[i as int]@);
            assert(all.subrange(0, i as int + 1) =~= all.subrange(0, i as int).push(
                all[i as int],
            ));
            lemma_spec_width_push(all.subrange(0, i as int), all[i as int]);
            lemma_spec_width_prefix(all, i as int + 1);
        }
        w = w + row[i].width;
        i = i + 1;
    }
    proof {
        assert(all.subrange(0, row@.len() as int) =~= all);
    }
    w
}

/// A state machine that wraps logical lines on word boundaries.
pub struct WordWrapper<S> {
    /// The logical lines not yet laid out.
    pub input: Vec<LogicalLine<S>>,
    /// The target width in columns.
    pub max_line_width: u16,
    /// Whether leading and trailing whitespace of each row is dropped.
    pub trim: bool,
    /// Rows of the logical line currently being emitted.
    pub queue: Vec<Vec<StyledGrapheme<S>>>,
    /// The alignment of the logical line currently being emitted.
    pub current_alignment: Alignment,
}

impl<S> WordWrapper<S> {
    /// Builds a wrapper over `lines` with the given target width and trim
    /// mode.
    pub fn new(lines: Vec<LogicalLine<S>>, max_line_width: u16, trim: bool) -> (c: WordWrapper<S>)
        requires
            forall|j: int|
                0 <= j < lines@.len() ==> spec_width(
                    models((#[trigger] lines@[j]).graphemes@),
                ) <= MAX_TOTAL_WIDTH,
        ensures
            c.wf(),
            c.remaining() == composed_rows(lines@, max_line_width as int, trim),
    {
        let c = WordWrapper {
            input: lines,
            max_line_width,
            trim,
            queue: Vec::new(),
            current_alignment: Alignment::Left,
        };
        proof {
            assert(c.queue@.map_values(
                |v: Vec<StyledGrapheme<S>>| (models(v@), c.current_alignment),
            ) =~= Seq::<(Seq<GraphemeModel<S>>, Alignment)>::empty());
            if c.max_line_width != 0 {
                assert(c.remaining() =~= composed_rows(c.input@, max_line_width as int, trim));
            }
        }
        c
    }
}

impl<S> LineComposer<S> for WordWrapper<S> {
    open spec fn wf(&self) -> bool {
        &&& forall|j: int|
            0 <= j < self.queue@.len() ==> spec_width(
                models((#[trigger] self.queue@[j])@),
            ) <= self.max_line_width
        &&& forall|j: int|
            0 <= j < self.input@.len() ==> spec_width(
                models((#[trigger] self.input@[j]).graphemes@),
            ) <= MAX_TOTAL_WIDTH
    }

    open spec fn remaining(&self) -> Seq<(Seq<GraphemeModel<S>>, Alignment)> {
        if self.max_line_width == 0 {
            Seq::empty()
        } else {
            self.queue@.map_values(
                |v: Vec<StyledGrapheme<S>>| (models(v@), self.current_alignment),
            ) + wrap_stream(self.input@, self.max_line_width as int, self.trim)
        }
    }

    fn next_line(&mut self) -> (r: Option<WrappedLine<S>>) {
        if self.max_line_width == 0 {
            return None;
        }
        let ghost max = self.max_line_width as int;
        let ghost trim = self.trim;
        let ghost rem0 = old(self).remaining();
        if self.queue.len() == 0 {
            if self.input.len() == 0 {
                proof {
                    assert(self.queue@.map_values(
                        |v: Vec<StyledGrapheme<S>>| (models(v@), self.current_alignment),
                    ) =~= Seq::<(Seq<GraphemeModel<S>>, Alignment)>::empty());
                    assert(self.remaining() =~= Seq::<(Seq<GraphemeModel<S>>, Alignment)>::empty());
                }
                return None;
            }
            let ghost input0 = self.input@;
            let ll = self.input.remove(0);
            let ghost lm = models(ll.graphemes@);
            proof {
                assert(input0[0] == ll);
                assert(input0.remove(0) =~= input0.drop_first());
            }
            self.current_alignment = ll.alignment;
            let rows = wrap_line(ll.graphemes, self.max_line_width, self.trim);
            proof {
                lemma_wrap_width_bounds(lm, max, trim);
            }
            self.queue = rows;
            proof {
                assert forall|j: int| 0 <= j < self.queue@.len() implies spec_width(
                    models((#[trigger] self.queue@[j])@),
                ) <= self.max_line_width by {
                    assert(row_models(self.queue@)[j] == models(self.queue@[j]@));
                    assert(rows_fit(row_models(self.queue@), max));
                    assert(spec_width(row_models(self.queue@)[j]) <= max);
                }
                assert forall|j: int| 0 <= j < self.input@.len() implies spec_width(
                    models((#[trigger] self.input@[j]).graphemes@),
                ) <= MAX_TOTAL_WIDTH by {
                    assert(self.input@[j] == input0[j + 1]);
                }
                let a = spec_wrap(lm, max, trim).map_values(
                    |row: Seq<GraphemeModel<S>>| (row, ll.alignment),
                );
                assert(wrap_stream(input0, max, trim) == a + wrap_stream(
                    input0.drop_first(),
                    max,
                    trim,
                ));
                assert(old(self).queue@.map_values(
                    |v: Vec<StyledGrapheme<S>>| (models(v@), old(self).current_alignment),
                ) =~= Seq::<(Seq<GraphemeModel<S>>, Alignment)>::empty());
                assert(rem0 =~= wrap_stream(input0, max, trim));
                assert(self.queue@.map_values(
                    |v: Vec<StyledGrapheme<S>>| (models(v@), self.current_alignment),
                ) =~= a);
                assert(self.remaining() =~= rem0);
            }
        }
        proof {
            assert(self.remaining() == rem0);
            assert(self.queue@.len() > 0);
        }
        let ghost queue0 = self.queue@;
        let ghost align0 = self.current_alignment;
        let ghost qmap = queue0.map_values(|v: Vec<StyledGrapheme<S>>| (models(v@), align0));
        let ghost stream_rest = wrap_stream(self.input@, max, trim);
        proof {
            assert(rem0 == qmap + stream_rest);
            assert(qmap.len() > 0);
        }
        let row = self.queue.remove(0);
        proof {
            assert(queue0.remove(0) =~= queue0.drop_first());
            assert(queue0[0] == row);
            assert(qmap[0] == (models(row@), align0));
            assert(rem0[0] == qmap[0]);
            lemma_spec_width_nonneg(models(row@));
            assert(spec_width(models(row@)) <= self.max_line_width);
        }
        let w = row_width(&row);
        proof {
            assert forall|j: int| 0 <= j < self.queue@.len() implies spec_width(
                models((#[trigger] self.queue@[j])@),
            ) <= self.max_line_width by {
                assert(self.queue@[j] == queue0[j + 1]);
            }
            assert(self.queue@.map_values(
                |v: Vec<StyledGrapheme<S>>| (models(v@), align0),
            ) =~= qmap.drop_first());
            assert((qmap + stream_rest).drop_first() =~= qmap.drop_first() + stream_rest);
            assert(self.remaining() =~= rem0.drop_first());
        }
        Some(WrappedLine { line: row, width: w, alignment: self.current_alignment })
    }
}

/// A state machine that clips each logical line to a single row.
pub struct LineTruncator<S> {
    /// The logical lines not yet clipped.
    pub input: Vec<LogicalLine<S>>,
    /// The target width in columns.
    pub max_line_width: u16,
    /// Leading columns to skip on left-aligned lines.
    pub horizontal_offset: u16,
}

impl<S> LineTruncator<S> {
    /// Builds a truncator over `lines` with the given target width.
    pub fn new(lines: Vec<LogicalLine<S>>, max_line_width: u16) -> (c: LineTruncator<S>)
        ensures
            c.wf(),
            c.remaining() == truncated_rows(lines@, max_line_width as int, 0),
    {
        LineTruncator { input: lines, max_line_width, horizontal_offset: 0 }
    }

    /// Sets the number of leading columns skipped on left-aligned lines.
    pub fn set_horizontal_offset(&mut self, horizontal_offset: u16)
        ensures
            final(self).wf(),
            final(self).remaining() == truncated_rows(
                old(self).input@,
                old(self).max_line_width as int,
                horizontal_offset as int,
            ),
    {
        self.horizontal_offset = horizontal_offset;
    }
}

impl<S> LineComposer<S> for LineTruncator<S> {
    open spec fn wf(&self) -> bool {
        true
    }

    open spec fn remaining(&self) -> Seq<(Seq<GraphemeModel<S>>, Alignment)> {
        truncated_rows(self.input@, self.max_line_width as int, self.horizontal_offset as int)
    }

    fn next_line(&mut self) -> (r: Option<WrappedLine<S>>) {
        if self.max_line_width == 0 {
            return None;
        }
        if self.input.len() == 0 {
            proof {
                assert(self.remaining() =~= Seq::<(Seq<GraphemeModel<S>>, Alignment)>::empty());
            }
            return None;
        }
        let ghost max = self.max_line_width as int;
        let ghost off = self.horizontal_offset as int;
        let ghost input0 = self.input@;
        let ghost old_remaining = self.remaining();
        let ll = self.input.remove(0);
        proof {
            assert(input0.remove(0) =~= input0.drop_first());
            assert(old_remaining[0] == (
                spec_truncate(models(ll.graphemes@), max, effective_offset(ll.alignment, off)),
                ll.alignment,
            ));
        }
        let eff = if ll.alignment == Alignment::Left {
            self.horizontal_offset
        } else {
            0
        };
        let alignment = ll.alignment;
        let (row, w) = truncate_line(ll.graphemes, self.max_line_width, eff);
        proof {
            assert(self.remaining() =~= old_remaining.drop_first());
        }
        Some(WrappedLine { line: row, width: w, alignment })
    }
}

} // verus!
