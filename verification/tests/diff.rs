use luminatti::diff::{
    adjacent_changed_row, changed_row_indices, lexical_tokens, line_diff_document, source_document,
    visible_diff_indices, word_diff_spans, DiffRow, DiffSpan, StructuralChange,
};
use luminatti::diff_view::{
    dedupe_row_indices, diff_marker, gutter_numbers, rendered_content_width, rendered_diff_lines,
    selected_line_position, source_prefix, unified_occurrence, unified_row_line_count, UnifiedOccurrence, DiffMode, RenderedDiffLine,
};

fn rows(before: &str, after: &str) -> Vec<DiffRow> {
    line_diff_document(before, after).unwrap().rows
}

fn changed_text<'a>(text: &'a str, spans: &[DiffSpan]) -> Vec<&'a str> {
    spans
        .iter()
        .filter(|span| span.change.is_changed())
        .filter_map(|span| text.get(span.start..span.end))
        .collect()
}

fn row(index: usize) -> RenderedDiffLine {
    RenderedDiffLine::Row {
        row: index,
        occurrence: 0,
    }
}

fn replacement_scenario() {
    let rows = rows("a\nb\n", "a\nc\n");
    assert_eq!(rows.len(), 2);
    assert_eq!(rows[1].old_line, Some(2));
    assert_eq!(rows[1].new_line, Some(2));
    assert_eq!(rows[1].old_text, "b");
    assert_eq!(rows[1].new_text, "c");
    assert!(rows[1].old_changed);
    assert!(rows[1].new_changed);
}

fn bracket_scenario() {
    let rows = rows(
        "same\nold one\nold two\nbetween\nold three\nend\n",
        "same\nnew one\nnew two\nbetween\nnew three\nend\n",
    );

    assert_eq!(changed_row_indices(&rows), vec![1, 2, 4]);
    assert_eq!(adjacent_changed_row(&rows, 1, true), Some(2));
    assert_eq!(adjacent_changed_row(&rows, 2, true), Some(4));
    assert_eq!(adjacent_changed_row(&rows, 4, true), None);
    assert_eq!(adjacent_changed_row(&rows, 4, false), Some(2));
    assert_eq!(adjacent_changed_row(&rows, 2, false), Some(1));
    assert_eq!(adjacent_changed_row(&rows, 1, false), None);
    assert_eq!(adjacent_changed_row(&rows, 3, true), Some(4));
    assert_eq!(adjacent_changed_row(&rows, 3, false), Some(2));
}

fn same_code_scenario() {
    let rows = rows("same\nold\n", "same\nnew\n");
    assert_eq!(visible_diff_indices(&rows, false), vec![1]);
    assert_eq!(visible_diff_indices(&rows, true), vec![0, 1]);
    assert_eq!(
        rendered_diff_lines(&rows, false, DiffMode::Unified),
        vec![
            RenderedDiffLine::Row {
                row: 1,
                occurrence: 0
            },
            RenderedDiffLine::Row {
                row: 1,
                occurrence: 1
            },
        ]
    );
}

#[test]
fn tests_line_diff_aligns_replacements_and_tracks_line_numbers() {
    replacement_scenario();
}

#[test]
fn main_line_diff_aligns_replacements_and_tracks_line_numbers() {
    replacement_scenario();
}

#[test]
fn tests_bracket_navigation_visits_each_changed_row_including_adjacent_changes() {
    bracket_scenario();
}

#[test]
fn main_bracket_navigation_visits_each_changed_row_including_adjacent_changes() {
    bracket_scenario();
}

#[test]
fn tests_same_code_filter_can_hide_or_include_unchanged_rows() {
    same_code_scenario();
}

#[test]
fn main_same_code_filter_can_hide_or_include_unchanged_rows() {
    same_code_scenario();
}

#[test]
fn unchanged_rows_can_be_included_or_hidden() {
    let rows = rows("same\nold\n", "same\nnew\n");
    assert_eq!(visible_diff_indices(&rows, false), vec![1]);
    assert_eq!(visible_diff_indices(&rows, true), vec![0, 1]);
}

#[test]
fn changed_row_navigation_includes_adjacent_changes() {
    let rows = rows(
        "same\nold one\nold two\nbetween\nold three\nend\n",
        "same\nnew one\nnew two\nbetween\nnew three\nend\n",
    );

    let changed = changed_row_indices(&rows);
    assert!(changed.len() >= 3);
    assert_eq!(adjacent_changed_row(&rows, changed[0], true), Some(changed[1]));
    assert_eq!(adjacent_changed_row(&rows, changed[1], false), Some(changed[0]));
}

#[test]
fn line_diff_pairs_physical_lines_and_marks_changed_words() {
    let rows = rows(
        "const employee = oldEmployee;\nunchanged\n",
        "const employee = newEmployee;\nunchanged\n",
    );

    assert_eq!(rows.len(), 2);
    let changed = &rows[0];
    assert_eq!((changed.old_line, changed.new_line), (Some(1), Some(1)));
    assert_eq!(changed_text(&changed.old_text, &changed.old_spans), vec!["oldEmployee"]);
    assert_eq!(changed_text(&changed.new_text, &changed.new_spans), vec!["newEmployee"]);
}

#[test]
fn line_diff_keeps_extra_insertions_on_the_new_side() {
    let rows = rows("first\nlast\n", "first\nadded\nlast\n");
    let added = rows.iter().find(|row| row.new_text == "added").unwrap();

    assert_eq!(added.old_line, None);
    assert_eq!(added.new_line, Some(2));
    assert!(added.new_changed);
}

#[test]
fn unified_line_count_matches_materialized_lines() {
    let rows = rows("a\nb\nc\n", "a\nb2\nc\n");
    let lines = rendered_diff_lines(&rows, true, DiffMode::Unified);
    for (index, row) in rows.iter().enumerate() {
        let materialized = lines
            .iter()
            .filter(|line| line.row_index() == Some(index))
            .count();
        assert_eq!(unified_row_line_count(row), materialized);
    }
}

#[test]
fn split_view_groups_distant_changes_into_contextual_hunks() {
    let before = (1..=24)
        .map(|line| format!("line {line}"))
        .collect::<Vec<_>>()
        .join("\n");
    let after = before
        .replace("line 5", "changed 5")
        .replace("line 20", "changed 20");
    let rows = rows(&before, &after);

    let rendered = rendered_diff_lines(&rows, false, DiffMode::SideBySide);
    let mut expected: Vec<RenderedDiffLine> = (1..=7).map(row).collect();
    expected.push(RenderedDiffLine::Separator);
    expected.extend((16..=22).map(row));
    assert_eq!(rendered, expected);
}

#[test]
fn unified_view_separates_distant_change_hunks() {
    let rows = rows(
        "same\nold one\nbetween\nold two\nend\n",
        "same\nnew one\nbetween\nnew two\nend\n",
    );

    let rendered = rendered_diff_lines(&rows, false, DiffMode::Unified);
    assert_eq!(
        rendered
            .iter()
            .filter(|line| matches!(line, RenderedDiffLine::Separator))
            .count(),
        1
    );
}

#[test]
fn display_indices_skip_repeated_unified_rows() {
    let rows = rows("same\nold\n", "same\nnew\n");
    let lines = rendered_diff_lines(&rows, false, DiffMode::Unified);
    assert_eq!(
        lines,
        [
            RenderedDiffLine::Row {
                row: 1,
                occurrence: 0
            },
            RenderedDiffLine::Row {
                row: 1,
                occurrence: 1
            },
        ]
    );
    assert_eq!(dedupe_row_indices(&lines), vec![1]);
}

#[test]
fn identical_texts_have_no_changed_rows() {
    let rows = rows("one\ntwo\n", "one\ntwo\n");
    assert_eq!(rows.len(), 2);
    assert!(changed_row_indices(&rows).is_empty());
    assert!(rendered_diff_lines(&rows, false, DiffMode::SideBySide).is_empty());
    assert_eq!(rows[1].old_line, Some(2));
    assert_eq!(rows[1].new_line, Some(2));
}

#[test]
fn deletions_stay_on_the_old_side() {
    let rows = rows("first\nremoved\nlast\n", "first\nlast\n");
    let removed = rows.iter().find(|row| row.old_text == "removed").unwrap();
    assert_eq!(removed.old_line, Some(2));
    assert_eq!(removed.new_line, None);
    assert!(removed.old_changed);
    assert_eq!(removed.new_text, "");
}

#[test]
fn source_document_numbers_every_line_without_changes() {
    let rows = source_document("alpha\nbeta\n");
    assert_eq!(rows.len(), 2);
    assert_eq!(rows[0].new_line, Some(1));
    assert_eq!(rows[1].new_line, Some(2));
    assert_eq!(rows[1].new_text, "beta");
    assert!(rows.iter().all(|row| row.old_line == Some(row.new_line.unwrap())));
    assert!(changed_row_indices(&rows).is_empty());
    assert!(source_document("").is_empty());
}

#[test]
fn lexical_tokens_split_words_spaces_and_punctuation() {
    let text: Vec<char> = "let x1 = a+b;".chars().collect();
    let tokens: Vec<String> = lexical_tokens(&text)
        .into_iter()
        .map(|token| token.into_iter().collect())
        .collect();
    assert_eq!(tokens, vec!["let", " ", "x1", " ", "=", " ", "a", "+", "b", ";"]);
    assert_eq!(tokens.concat(), "let x1 = a+b;");
}

#[test]
fn word_spans_cover_both_lines() {
    let old: Vec<char> = "a b".chars().collect();
    let new: Vec<char> = "a c".chars().collect();
    let (old_spans, new_spans) = word_diff_spans(&old, &new);
    assert_eq!(old_spans.last().unwrap().end, 3);
    assert_eq!(new_spans.last().unwrap().end, 3);
    assert_eq!(changed_text("a b", &old_spans), vec!["b"]);
    assert_eq!(changed_text("a c", &new_spans), vec!["c"]);
    assert!(old_spans
        .iter()
        .any(|span| span.change == StructuralChange::Unchanged));
}

#[test]
fn selected_line_position_finds_the_first_rendered_line() {
    let lines = vec![RenderedDiffLine::Separator, row(3), row(4), row(4)];
    assert_eq!(selected_line_position(&lines, 4), 2);
    assert_eq!(selected_line_position(&lines, 9), 0);
}

#[test]
fn content_width_covers_the_widest_rendered_line() {
    let rows = rows("x\n", "wider line\n");
    let lines = rendered_diff_lines(&rows, true, DiffMode::SideBySide);
    assert_eq!(rendered_content_width(&rows, &lines, DiffMode::SideBySide), 7 + 10);
}

#[test]
fn gutter_shows_right_aligned_line_numbers() {
    assert_eq!(gutter_numbers([Some(7), Some(123)]), "    7   123 ");
    assert_eq!(gutter_numbers([None, Some(1)]), "          1 ");
    assert_eq!(gutter_numbers([Some(1234567), None]), "1234567       ");
    assert_eq!(diff_marker(true, true), '-');
    assert_eq!(diff_marker(true, false), '+');
    assert_eq!(diff_marker(false, true), ' ');
}

#[test]
fn both_sides_keep_every_line_in_order() {
    let rows = rows("a\nb\nc\n", "a\nx\nc\nd\n");
    let old: Vec<(u32, &str)> = rows
        .iter()
        .filter_map(|row| row.old_line.map(|line| (line, row.old_text.as_str())))
        .collect();
    let new: Vec<(u32, &str)> = rows
        .iter()
        .filter_map(|row| row.new_line.map(|line| (line, row.new_text.as_str())))
        .collect();
    assert_eq!(old, vec![(1, "a"), (2, "b"), (3, "c")]);
    assert_eq!(new, vec![(1, "a"), (2, "x"), (3, "c"), (4, "d")]);
}

#[test]
fn word_spans_cover_each_line_in_order() {
    let old: Vec<char> = "let x = 1;".chars().collect();
    let new: Vec<char> = "let yy = 12; // é".chars().collect();
    let (o, n) = word_diff_spans(&old, &new);
    for (spans, text) in [(&o, &old), (&n, &new)] {
        let total: usize = text.iter().map(|c| c.len_utf8()).sum();
        assert_eq!(spans[0].start, 0);
        assert_eq!(spans.last().unwrap().end, total);
        for pair in spans.windows(2) {
            assert_eq!(pair[0].end, pair[1].start);
        }
    }
}

#[test]
fn source_prefix_keeps_whole_graphemes_up_to_the_edge() {
    assert_eq!(source_prefix("hello", 3), "hel");
    assert_eq!(source_prefix("hello", usize::MAX), "hello");
    assert_eq!(source_prefix("hello", 0), "");
    assert_eq!(source_prefix("e\u{301}x", 1), "e\u{301}");
    assert_eq!(source_prefix("界a", 1), "界");
    assert_eq!(source_prefix("ab", 10), "ab");
}

#[test]
fn source_clipping_preserves_graphemes_at_the_viewport_edge() {
    assert_eq!(source_prefix("a界z", 2), "a界");
    assert_eq!(source_prefix("e\u{301}x", 1), "e\u{301}");
    assert_eq!(source_prefix("👩‍💻x", 2), "👩‍💻");
    assert_eq!(source_prefix("text", 0), "");
}

#[test]
fn source_prefix_counts_no_bytes_for_a_line_break() {
    assert_eq!(source_prefix("a\nb", 5), "a\n");
}

#[test]
fn unified_occurrence_selects_the_right_physical_line() {
    let rows = line_diff_document("old\n", "new\n").unwrap().rows;
    assert_eq!(
        unified_occurrence(&rows[0], 0),
        Some(UnifiedOccurrence { old_number: Some(1), new_number: None, marker: '-', deletion: true })
    );
    assert_eq!(
        unified_occurrence(&rows[0], 1),
        Some(UnifiedOccurrence { old_number: None, new_number: Some(1), marker: '+', deletion: false })
    );
    assert_eq!(unified_occurrence(&rows[0], 2), None);
    let same = line_diff_document("same\n", "same\n").unwrap().rows;
    assert_eq!(
        unified_occurrence(&same[0], 0),
        Some(UnifiedOccurrence { old_number: Some(1), new_number: Some(1), marker: ' ', deletion: false })
    );
}

#[test]
fn every_kind_of_line_ending_splits_lines() {
    let rows = line_diff_document("a\rb\r\nc\nd", "").unwrap().rows;
    assert_eq!(rows.len(), 4);
    assert!(rows.iter().all(|row| row.new_line.is_none()));
}
