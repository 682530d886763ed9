use o4t::Alignment;
use o4t::LineComposer;
use o4t::LineTruncator;
use o4t::LogicalLine;
use o4t::StyledGrapheme;
use o4t::WordWrapper;
use unicode_segmentation::UnicodeSegmentation;

/// Splits `text` into grapheme clusters, measuring each with unicode-width,
/// and tags every cluster with the same style.
fn graphemes(text: &str, style: u32) -> Vec<StyledGrapheme<u32>> {
    UnicodeSegmentation::graphemes(text, true)
        .map(|g| StyledGrapheme::new(g.to_string(), style))
        .collect()
}

fn line(text: &str, alignment: Alignment) -> LogicalLine<u32> {
    LogicalLine::new(graphemes(text, 0), alignment)
}

fn pull_all(wrapper: &mut WordWrapper<u32>) -> Vec<(String, u16, Alignment)> {
    let mut rows = Vec::new();
    while let Some(w) = wrapper.next_line() {
        let text: String = w.line.iter().map(|g| g.symbol.as_str()).collect();
        rows.push((text, w.width, w.alignment));
    }
    rows
}

#[test]
fn wrap_two_words_per_line() {
    let mut wrapper = WordWrapper::new(vec![line("the quick brown fox", Alignment::Left)], 10, true);
    let rows = pull_all(&mut wrapper);
    assert_eq!(rows.len(), 2);
    assert_eq!(rows[0].0, "the quick");
    assert_eq!(rows[1].0, "brown fox");
    assert!(rows[0].1 <= 10);
    assert!(rows[1].1 <= 10);
    assert_eq!(rows[0].2, Alignment::Left);
    assert_eq!(rows[1].2, Alignment::Left);
}

#[test]
fn wrap_hard_breaks_an_overlong_word() {
    let mut wrapper = WordWrapper::new(vec![line("abcdefghijklmno", Alignment::Left)], 10, true);
    let rows = pull_all(&mut wrapper);
    assert_eq!(rows.len(), 2);
    assert_eq!(rows[0].0, "abcdefghij");
    assert_eq!(rows[1].0, "klmno");
    assert_eq!(rows[0].1, 10);
    assert_eq!(rows[1].1, 5);
    let rebuilt = format!("{}{}", rows[0].0, rows[1].0);
    assert_eq!(rebuilt, "abcdefghijklmno");
}

#[test]
fn wrap_zero_width_emits_nothing() {
    let mut wrapper = WordWrapper::new(vec![line("anything at all", Alignment::Left)], 0, true);
    assert!(wrapper.next_line().is_none());
    assert!(wrapper.next_line().is_none());
}

#[test]
fn truncate_zero_width_emits_nothing() {
    let mut truncator = LineTruncator::new(vec![line("anything at all", Alignment::Left)], 0);
    assert!(truncator.next_line().is_none());
}

#[test]
fn wrap_whitespace_only_line_trimmed() {
    let mut wrapper = WordWrapper::new(vec![line("   ", Alignment::Left)], 10, true);
    let rows = pull_all(&mut wrapper);
    assert_eq!(rows.len(), 1);
    assert_eq!(rows[0].0, "");
    assert_eq!(rows[0].1, 0);
}

#[test]
fn wrap_whitespace_only_line_untrimmed() {
    let mut wrapper = WordWrapper::new(vec![line("   ", Alignment::Left)], 10, false);
    let rows = pull_all(&mut wrapper);
    assert_eq!(rows.len(), 1);
    assert_eq!(rows[0].0, "   ");
    assert_eq!(rows[0].1, 3);
}

#[test]
fn wrap_empty_line_still_yields_a_row() {
    let mut wrapper = WordWrapper::new(vec![line("", Alignment::Left)], 10, true);
    let rows = pull_all(&mut wrapper);
    assert_eq!(rows.len(), 1);
    assert_eq!(rows[0].0, "");
}

#[test]
fn truncate_clips_to_the_first_columns() {
    let mut truncator = LineTruncator::new(vec![line("hello world", Alignment::Left)], 5);
    let w = truncator.next_line().unwrap();
    let text: String = w.line.iter().map(|g| g.symbol.as_str()).collect();
    assert_eq!(text, "hello");
    assert_eq!(w.width, 5);
    assert!(truncator.next_line().is_none());
}

#[test]
fn truncate_never_splits_a_wide_grapheme() {
    // the third column would land inside the two-column CJK cluster, so
    // the row ends before it instead of slicing it
    let mut truncator = LineTruncator::new(vec![line("ab\u{6f22}x", Alignment::Left)], 3);
    let w = truncator.next_line().unwrap();
    let text: String = w.line.iter().map(|g| g.symbol.as_str()).collect();
    assert_eq!(text, "ab");
    assert_eq!(w.width, 2);
}

#[test]
fn truncate_one_row_per_logical_line() {
    let lines = vec![
        line("first line that is long", Alignment::Left),
        line("second line that is long", Alignment::Left),
    ];
    let mut truncator = LineTruncator::new(lines, 6);
    let first = truncator.next_line().unwrap();
    assert!(first.width <= 6);
    let second = truncator.next_line().unwrap();
    assert!(second.width <= 6);
    assert!(truncator.next_line().is_none());
}

#[test]
fn truncate_offset_skips_leading_columns() {
    let mut truncator = LineTruncator::new(vec![line("abcdef", Alignment::Left)], 3);
    truncator.set_horizontal_offset(2);
    let w = truncator.next_line().unwrap();
    let text: String = w.line.iter().map(|g| g.symbol.as_str()).collect();
    assert_eq!(text, "cde");
    assert_eq!(w.width, 3);
}

#[test]
fn truncate_offset_equals_removing_columns_first() {
    // offset 2 on "abcdef", then truncating, matches truncating "cdef"
    let mut with_offset = LineTruncator::new(vec![line("abcdef", Alignment::Left)], 3);
    with_offset.set_horizontal_offset(2);
    let a = with_offset.next_line().unwrap();
    let a_text: String = a.line.iter().map(|g| g.symbol.as_str()).collect();
    let mut pre_cut = LineTruncator::new(vec![line("cdef", Alignment::Left)], 3);
    let b = pre_cut.next_line().unwrap();
    let b_text: String = b.line.iter().map(|g| g.symbol.as_str()).collect();
    assert_eq!(a_text, b_text);
    assert_eq!(a.width, b.width);
}

#[test]
fn truncate_offset_inside_wide_grapheme_keeps_it_whole() {
    let mut truncator = LineTruncator::new(vec![line("a\u{6f22}b", Alignment::Left)], 3);
    truncator.set_horizontal_offset(2);
    let w = truncator.next_line().unwrap();
    let text: String = w.line.iter().map(|g| g.symbol.as_str()).collect();
    assert_eq!(text, "\u{6f22}b");
    assert_eq!(w.width, 3);
}

#[test]
fn truncate_offset_ignored_off_left_alignment() {
    let mut truncator = LineTruncator::new(vec![line("abcdef", Alignment::Right)], 3);
    truncator.set_horizontal_offset(2);
    let w = truncator.next_line().unwrap();
    let text: String = w.line.iter().map(|g| g.symbol.as_str()).collect();
    assert_eq!(text, "abc");
    assert_eq!(w.alignment, Alignment::Right);
}

#[test]
fn zero_width_space_is_a_break_point() {
    let mut wrapper = WordWrapper::new(vec![line("foo\u{200b}bar", Alignment::Left)], 3, true);
    let rows = pull_all(&mut wrapper);
    assert_eq!(rows.len(), 2);
    assert_eq!(rows[0].0, "foo");
    assert_eq!(rows[1].0, "bar");
}

#[test]
fn non_breaking_space_glues_words_together() {
    // five columns of content joined by a non-breaking space: no boundary,
    // so the run hard-breaks like a single over-long word
    let mut wrapper = WordWrapper::new(vec![line("xx\u{a0}yy", Alignment::Left)], 3, true);
    let rows = pull_all(&mut wrapper);
    assert_eq!(rows.len(), 2);
    assert_eq!(rows[0].0, "xx\u{a0}");
    assert_eq!(rows[1].0, "yy");
    // an ordinary space at the same position is a boundary
    let mut spaced = WordWrapper::new(vec![line("xx yy", Alignment::Left)], 3, true);
    let rows = pull_all(&mut spaced);
    assert_eq!(rows.len(), 2);
    assert_eq!(rows[0].0, "xx");
    assert_eq!(rows[1].0, "yy");
}

#[test]
fn rewrapping_wrapped_rows_changes_nothing() {
    let mut wrapper = WordWrapper::new(vec![line("the quick brown fox jumps", Alignment::Left)], 10, true);
    let first_pass = pull_all(&mut wrapper);
    let again: Vec<LogicalLine<u32>> = first_pass
        .iter()
        .map(|(text, _, a)| LogicalLine::new(graphemes(text, 0), *a))
        .collect();
    let mut rewrapper = WordWrapper::new(again, 10, true);
    let second_pass = pull_all(&mut rewrapper);
    assert_eq!(first_pass, second_pass);
}

#[test]
fn styles_ride_along_unchanged() {
    let mut styled: Vec<StyledGrapheme<u32>> = Vec::new();
    for (i, g) in UnicodeSegmentation::graphemes("one two three", true).enumerate() {
        styled.push(StyledGrapheme::new(g.to_string(), i as u32));
    }
    let mut wrapper = WordWrapper::new(vec![LogicalLine::new(styled, Alignment::Left)], 5, true);
    let mut seen: Vec<(String, u32)> = Vec::new();
    while let Some(w) = wrapper.next_line() {
        for g in &w.line {
            seen.push((g.symbol.clone(), g.style));
        }
    }
    // every emitted grapheme keeps the style of its position in the input;
    // only whitespace may be missing
    let input: Vec<(String, u32)> = UnicodeSegmentation::graphemes("one two three", true)
        .enumerate()
        .map(|(i, g)| (g.to_string(), i as u32))
        .collect();
    let mut input_iter = input.iter();
    for kept in &seen {
        loop {
            let next = input_iter.next().expect("emitted grapheme not found in input order");
            if next == kept {
                break;
            }
            assert_eq!(next.0, " ", "only whitespace may be dropped");
        }
    }
}

#[test]
fn overwide_grapheme_is_dropped() {
    let mut input = graphemes("ab", 0);
    input.insert(1, StyledGrapheme { symbol: "W".to_string(), width: 9, style: 0 });
    let mut wrapper = WordWrapper::new(vec![LogicalLine::new(input, Alignment::Left)], 4, true);
    let rows = pull_all(&mut wrapper);
    assert_eq!(rows.len(), 1);
    assert_eq!(rows[0].0, "ab");
    assert!(rows[0].1 <= 4);
}

#[test]
fn alignment_is_inherited_by_every_row() {
    let lines = vec![
        line("aaa bbb", Alignment::Center),
        line("ccc ddd", Alignment::Right),
    ];
    let mut wrapper = WordWrapper::new(lines, 3, true);
    let rows = pull_all(&mut wrapper);
    let expected = vec![
        ("aaa".to_string(), 3u16, Alignment::Center),
        ("bbb".to_string(), 3u16, Alignment::Center),
        ("ccc".to_string(), 3u16, Alignment::Right),
        ("ddd".to_string(), 3u16, Alignment::Right),
    ];
    assert_eq!(rows, expected);
}

#[test]
fn measured_widths_follow_unicode_width() {
    let narrow: StyledGrapheme<u32> = StyledGrapheme::new("a".to_string(), 0);
    assert_eq!(narrow.width, 1);
    let wide: StyledGrapheme<u32> = StyledGrapheme::new("\u{6f22}".to_string(), 0);
    assert_eq!(wide.width, 2);
    let zero: StyledGrapheme<u32> = StyledGrapheme::new("\u{200b}".to_string(), 0);
    assert_eq!(zero.width, 0);
    let empty: StyledGrapheme<u32> = StyledGrapheme::new(String::new(), 0);
    assert_eq!(empty.width, 0);
}

#[test]
fn wrapper_stays_exhausted() {
    let mut wrapper = WordWrapper::new(vec![line("ab", Alignment::Left)], 10, true);
    assert!(wrapper.next_line().is_some());
    assert!(wrapper.next_line().is_none());
    assert!(wrapper.next_line().is_none());
}
