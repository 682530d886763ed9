//! The styled grapheme data model shared by both layout engines.
//!
//! A [`StyledGrapheme`] is one user-perceived character cluster together with
//! its display width in terminal columns and an opaque style payload. The
//! engines read only the width and the whitespace classification of a
//! grapheme; the style rides along unmodified.

use vstd::prelude::*;
use vstd::string::StrSliceExecFns;

verus! {

/// How a logical line is aligned inside its row. Wrapping and truncation
/// never alter it; every physical line inherits it from its source line.
#[derive(Clone, Copy, Debug, PartialEq, Eq, Structural)]
pub enum Alignment {
    Left,
    Center,
    Right,
}

/// The mathematical model of a styled grapheme: the cluster's characters,
/// its display width in columns, and its style payload.
pub struct GraphemeModel<S> {
    pub symbol: Seq<char>,
    pub width: u16,
    pub style: S,
}

/// One user-perceived character cluster (possibly several code points),
/// its display width in terminal columns, and an opaque style payload.
pub struct StyledGrapheme<S> {
    /// The textual content of the cluster.
    pub symbol: String,
    /// Display width in terminal columns (0 for combining or zero-width
    /// marks, 1 or 2 for ordinary content).
    pub width: u16,
    /// Style payload; never inspected by the layout engines.
    pub style: S,
}

impl<S> View for StyledGrapheme<S> {
    type V = GraphemeModel<S>;

    open spec fn view(&self) -> GraphemeModel<S> {
        GraphemeModel { symbol: self.symbol@, width: self.width, style: self.style }
    }
}

/// An unwrapped row of caller-supplied text: an ordered run of styled
/// graphemes plus the alignment every derived physical line inherits.
pub struct LogicalLine<S> {
    pub graphemes: Vec<StyledGrapheme<S>>,
    pub alignment: Alignment,
}

/// Whether `c` is a Unicode whitespace character (the White_Space property).
pub open spec fn is_white_char(c: char) -> bool {
    let u = c as u32;
    ||| u == 0x09
    ||| u == 0x0A
    ||| u == 0x0B
    ||| u == 0x0C
    ||| u == 0x0D
    ||| u == 0x20
    ||| u == 0x85
    ||| u == 0xA0
    ||| u == 0x1680
    ||| (0x2000 <= u && u <= 0x200A)
    ||| u == 0x2028
    ||| u == 0x2029
    ||| u == 0x202F
    ||| u == 0x205F
    ||| u == 0x3000
}

/// Whether the character sequence `s` is exactly the single character `c`.
pub open spec fn is_single(s: Seq<char>, c: char) -> bool {
    s.len() == 1 && s[0] == c
}

/// Whitespace classification of a grapheme's content. The zero-width space
/// always counts as a word boundary even though it occupies no columns, while
/// a lone non-breaking space is deliberately ordinary, non-boundary content.
/// Any other content counts as whitespace when all of its characters do.
pub open spec fn is_whitespace_symbol(s: Seq<char>) -> bool {
    ||| is_single(s, '\u{200b}')
    ||| ((forall|i: int| 0 <= i < s.len() ==> is_white_char(#[trigger] s[i])) && !is_single(
        s,
        '\u{a0}',
    ))
}

impl<S> GraphemeModel<S> {
    /// Whitespace classification of this grapheme.
    pub open spec fn is_whitespace(&self) -> bool {
        is_whitespace_symbol(self.symbol)
    }
}

/// The total display width of a run of graphemes, in columns.
pub open spec fn spec_width<S>(s: Seq<GraphemeModel<S>>) -> int
    decreases s.len(),
{
    if s.len() == 0 {
        0
    } else {
        s[0].width + spec_width(s.drop_first())
    }
}

/// The models of a run of concrete graphemes.
pub open spec fn models<S>(s: Seq<StyledGrapheme<S>>) -> Seq<GraphemeModel<S>> {
    s.map_values(|g: StyledGrapheme<S>| g@)
}

pub proof fn lemma_spec_width_nonneg<S>(s: Seq<GraphemeModel<S>>)
    ensures
        spec_width(s) >= 0,
    decreases s.len(),
{
    if s.len() > 0 {
        lemma_spec_width_nonneg(s.drop_first());
    }
}

pub proof fn lemma_spec_width_concat<S>(a: Seq<GraphemeModel<S>>, b: Seq<GraphemeModel<S>>)
    ensures
        spec_width(a + b) == spec_width(a) + spec_width(b),
    decreases a.len(),
{
    if a.len() == 0 {
        assert(a + b =~= b);
    } else {
        assert((a + b).len() > 0);
        assert((a + b)[0] == a[0]);
        assert((a + b).drop_first() =~= a.drop_first() + b);
        lemma_spec_width_concat(a.drop_first(), b);
    }
}

pub proof fn lemma_spec_width_push<S>(s: Seq<GraphemeModel<S>>, g: GraphemeModel<S>)
    ensures
        spec_width(s.push(g)) == spec_width(s) + g.width,
{
    let single = seq![g];
    assert(single.drop_first() =~= Seq::<GraphemeModel<S>>::empty());
    assert(spec_width(single.drop_first()) == 0);
    assert(spec_width(single) == g.width);
    assert(s.push(g) =~= s + single);
    lemma_spec_width_concat(s, single);
}

/// A prefix of a run is never wider than the whole run.
pub proof fn lemma_spec_width_prefix<S>(s: Seq<GraphemeModel<S>>, i: int)
    requires
        0 <= i <= s.len(),
    ensures
        spec_width(s.subrange(0, i)) <= spec_width(s),
{
    assert(s =~= s.subrange(0, i) + s.subrange(i, s.len() as int));
    lemma_spec_width_concat(s.subrange(0, i), s.subrange(i, s.len() as int));
    lemma_spec_width_nonneg(s.subrange(i, s.len() as int));
}

/// The display width of a string in terminal columns; the result of
/// unicode_width's measurement, a function of the characters alone.
pub uninterp spec fn display_width_of(s: Seq<char>) -> u16;

/// Relies on unicode_width's `UnicodeWidthStr::width`: the display width of a
/// string in terminal columns, determined by its characters alone; an empty
/// string has width zero.
#[verifier::external_body]
pub(crate) fn measure_width(s: &str) -> (w: u16)
    ensures
        w == display_width_of(s@),
        s@.len() == 0 ==> w == 0,
{
    unicode_width::UnicodeWidthStr::width(s) as u16
}

/// Whether `c` is a Unicode whitespace character.
fn char_is_white(c: char) -> (r: bool)
    ensures
        r == is_white_char(c),
{
    let u = c as u32;
    u == 0x09 || u == 0x0A || u == 0x0B || u == 0x0C || u == 0x0D || u == 0x20 || u == 0x85
        || u == 0xA0 || u == 0x1680 || (0x2000 <= u && u <= 0x200A) || u == 0x2028 || u == 0x2029
        || u == 0x202F || u == 0x205F || u == 0x3000
}

/// Whitespace classification of a grapheme's content; see
/// [`is_whitespace_symbol`].
pub fn is_whitespace_str(s: &str) -> (r: bool)
    ensures
        r == is_whitespace_symbol(s@),
{
    let n = s.unicode_len();
    if n == 1 {
        let c = s.get_char(0);
        if c == '\u{200b}' {
            return true;
        }
        if c == '\u{a0}' {
            return false;
        }
    }
    let mut i: usize = 0;
    while i < n
        invariant
            n == s@.len(),
            0 <= i <= n,
            forall|j: int| 0 <= j < i ==> is_white_char(#[trigger] s@[j]),
            !is_single(s@, '\u{200b}'),
        decreases n - i,
    {
        let c = s.get_char(i);
        if !char_is_white(c) {
            return false;
        }
        i += 1;
    }
    true
}

impl<S> StyledGrapheme<S> {
    /// Builds a grapheme from its content and style, measuring the display
    /// width of the content.
    pub fn new(symbol: String, style: S) -> (g: StyledGrapheme<S>)
        ensures
            g.symbol == symbol,
            g.width == display_width_of(symbol@),
            g.style == style,
    {
        let width = measure_width(symbol.as_str());
        StyledGrapheme { symbol, width, style }
    }

    /// Whitespace classification of this grapheme.
    pub fn is_whitespace(&self) -> (r: bool)
        ensures
            r == self@.is_whitespace(),
    {
        is_whitespace_str(self.symbol.as_str())
    }
}

impl<S> LogicalLine<S> {
    /// Builds a logical line from its graphemes and alignment.
    pub fn new(graphemes: Vec<StyledGrapheme<S>>, alignment: Alignment) -> (l: LogicalLine<S>)
        ensures
            l.graphemes == graphemes,
            l.alignment == alignment,
    {
        LogicalLine { graphemes, alignment }
    }
}

} // verus!
