use luminatti::diff::{line_diff_document, DiffRow};
use luminatti::diff_view::{dedupe_row_indices, DiffMode};
use luminatti::panels::{FilterTab, Focus, RightTab};
use luminatti::session::{
    accept_loaded, apply_loaded_diff, handle_key, handle_mouse, restore_selections, view_lines_of, InputKind, Key, KeyAction,
    KeyEnv, LoadVerdict, MouseEnv, rebuild_plan, RebuildPlan, MouseEvent, MouseKind, Notice, ViewState,
};
use luminatti::settings::ProjectSettings;

fn rows(before: &str, after: &str) -> Vec<DiffRow> {
    line_diff_document(before, after).unwrap().rows
}

/// A session showing a unified diff with the right panel focused.
fn preview(before: &str, after: &str) -> (ViewState, Vec<DiffRow>, Vec<DiffRow>) {
    let mut state = ViewState::new(ProjectSettings::new(DiffMode::Unified, false, 34));
    state.focus = Focus::Right;
    state.diff_selection_active = true;
    (state, rows(before, after), rows(after, after))
}

fn env() -> KeyEnv {
    KeyEnv {
        tree_len: 2,
        selected_file_index: Some(0),
        filter_count: 2,
        ignored_count: 2,
        comment_count: 2,
        viewport_height: 17,
        max_horizontal_scroll: 0,
        terminal_width: 100,
    }
}

fn press(state: &mut ViewState, key: Key, diff: &[DiffRow], source: &[DiffRow]) -> KeyAction {
    handle_key(state, key, env(), &[], diff, source).action
}

fn active_rows<'a>(state: &ViewState, diff: &'a [DiffRow], source: &'a [DiffRow]) -> &'a [DiffRow] {
    if state.final_view {
        source
    } else {
        diff
    }
}

fn final_toggle_scenario() {
    let (mut state, diff, source) = preview("first\nremoved\nlast\n", "first\nlast\n");
    state.selected_row = diff.iter().position(|row| row.new_line.is_none()).unwrap();
    let deleted = state.selected_row;
    press(&mut state, Key::Char('h'), &diff, &source);
    assert!(state.final_view);
    assert_eq!(state.focus, Focus::Right);
    let lines = view_lines_of(&state, &diff, &source);
    assert_eq!(dedupe_row_indices(&lines), vec![0, 1]);
    assert_eq!(
        active_rows(&state, &diff, &source)
            .iter()
            .map(|row| row.new_text.as_str())
            .collect::<Vec<_>>(),
        vec!["first", "last"]
    );
    assert_eq!(state.selected_row, 1);
    press(&mut state, Key::Char('i'), &diff, &source);
    assert!(!state.show_unchanged);
    press(&mut state, Key::Char('h'), &diff, &source);
    assert!(!state.final_view);
    assert_eq!(state.selected_row, deleted);
    assert!(!state.show_unchanged);
}

fn final_toggle_other_panel_scenario() {
    let (mut state, diff, source) = preview("old\n", "new\n");

    state.focus = Focus::Files;
    press(&mut state, Key::Char('h'), &diff, &source);
    assert!(state.final_view);
    assert_eq!(state.focus, Focus::Files);

    state.focus = Focus::Filters;
    press(&mut state, Key::Char('h'), &diff, &source);
    assert!(!state.final_view);
    assert_eq!(state.focus, Focus::Filters);
}

fn mouse_env() -> MouseEnv {
    MouseEnv {
        terminal_width: 100,
        filters_top: 15,
        filter_count: 0,
        ignored_count: 0,
        comment_count: 0,
        viewport_height: 17,
        max_horizontal_scroll: 0,
    }
}

fn final_navigation_scenario() {
    let (mut state, diff, source) = preview("first\nold\nlast\n", "first\nnew\nlast\n");
    state.show_unchanged = true;
    press(&mut state, Key::Char('h'), &diff, &source);
    press(&mut state, Key::Down, &diff, &source);
    assert_eq!(active_rows(&state, &diff, &source)[state.selected_row].new_text, "new");
    handle_mouse(
        &mut state,
        MouseEvent {
            kind: MouseKind::LeftDown,
            column: 50,
            row: 3,
        },
        mouse_env(),
        &[],
        &diff,
        &source,
    );
    assert_eq!(active_rows(&state, &diff, &source)[state.selected_row].new_text, "last");
    press(&mut state, Key::Char('h'), &diff, &source);
    assert_eq!(active_rows(&state, &diff, &source)[state.selected_row].new_line, Some(3));
    assert!(state.show_unchanged);
}

#[test]
fn tests_final_toggle_shows_complete_source_and_restores_deleted_selection() {
    final_toggle_scenario();
}

#[test]
fn main_final_toggle_shows_complete_source_and_restores_deleted_selection() {
    final_toggle_scenario();
}

#[test]
fn tests_final_toggle_is_available_when_another_panel_is_focused() {
    final_toggle_other_panel_scenario();
}

#[test]
fn main_final_toggle_is_available_when_another_panel_is_focused() {
    final_toggle_other_panel_scenario();
}

#[test]
fn tests_final_navigation_and_mouse_use_physical_source_lines() {
    final_navigation_scenario();
}

#[test]
fn main_final_navigation_and_mouse_use_physical_source_lines() {
    final_navigation_scenario();
}

#[test]
fn arrow_keys_move_only_the_focused_list_and_stop_at_its_boundaries() {
    let cases = [
        (Focus::Files, FilterTab::Filters),
        (Focus::Filters, FilterTab::Filters),
        (Focus::Filters, FilterTab::Ignored),
        (Focus::Right, FilterTab::Filters),
    ];
    for (focus, filter_tab) in cases {
        let (mut state, diff, source) = preview("old\n", "new\n");
        state.focus = focus;
        state.filter_tab = filter_tab;
        state.right_tab = RightTab::Comments;
        let active_index = match (focus, filter_tab) {
            (Focus::Files, _) => 0,
            (Focus::Filters, FilterTab::Filters) => 1,
            (Focus::Filters, FilterTab::Ignored) => 2,
            (Focus::Right, _) => 3,
        };
        for (key, selected) in [(Key::Up, 0), (Key::Down, 1), (Key::Down, 1), (Key::Up, 0)] {
            let outcome = handle_key(&mut state, key, env(), &[], &diff, &source);
            assert_ne!(outcome.action, KeyAction::Quit);
            let mut expected = [0; 4];
            expected[active_index] = selected;
            assert_eq!(
                [
                    state.selected_file,
                    state.selected_filter,
                    state.selected_ignored,
                    state.selected_comment
                ],
                expected,
                "{focus:?} / {filter_tab:?} / {key:?}"
            );
        }
    }
}

#[test]
fn horizontal_keys_move_both_split_columns_by_one_step() {
    let before = "shared-prefix-old-abcdefghijklmnopqrstuvwxyz\n";
    let after = "shared-prefix-new-abcdefghijklmnopqrstuvwxyz\n";
    let (mut state, diff, source) = preview(before, after);
    state.diff_mode = DiffMode::SideBySide;
    state.maximized_panel = Some(Focus::Right);
    let wide = KeyEnv {
        max_horizontal_scroll: 28,
        ..env()
    };
    handle_key(&mut state, Key::Right, wide, &[], &diff, &source);
    assert_eq!(state.diff_horizontal_scroll, 4);
    handle_key(&mut state, Key::Left, wide, &[], &diff, &source);
    assert_eq!(state.diff_horizontal_scroll, 0);
    state.diff_horizontal_scroll = 40;
    handle_key(&mut state, Key::Right, wide, &[], &diff, &source);
    assert_eq!(state.diff_horizontal_scroll, 28);
}

#[test]
fn help_overlay_takes_keys_until_closed() {
    let (mut state, diff, source) = preview("old\n", "new\n");
    assert_eq!(press(&mut state, Key::Char('?'), &diff, &source), KeyAction::Nothing);
    assert!(state.show_help);
    assert_eq!(press(&mut state, Key::Char('r'), &diff, &source), KeyAction::Nothing);
    assert!(state.show_help);
    assert_eq!(press(&mut state, Key::Char('q'), &diff, &source), KeyAction::Nothing);
    assert!(!state.show_help);
    assert_eq!(press(&mut state, Key::Char('q'), &diff, &source), KeyAction::Quit);
}

#[test]
fn delete_all_asks_for_confirmation() {
    let (mut state, diff, source) = preview("old\n", "new\n");
    state.right_tab = RightTab::Comments;
    press(&mut state, Key::Char('D'), &diff, &source);
    assert!(state.confirm_delete_all);
    assert_eq!(
        press(&mut state, Key::Esc, &diff, &source),
        KeyAction::Notice(Notice::DeleteCancelled)
    );
    assert!(!state.confirm_delete_all);
    press(&mut state, Key::Char('D'), &diff, &source);
    assert_eq!(press(&mut state, Key::Enter, &diff, &source), KeyAction::DeleteAllComments);
    assert_eq!(press(&mut state, Key::Char('d'), &diff, &source), KeyAction::DeleteSelectedComment);
}

#[test]
fn comment_prompt_submits_text_that_is_not_blank() {
    let (mut state, diff, source) = preview("old\n", "new\n");
    press(&mut state, Key::Char('c'), &diff, &source);
    assert_eq!(state.input.as_ref().unwrap().kind, InputKind::Comment);
    press(&mut state, Key::Char(' '), &diff, &source);
    assert_eq!(press(&mut state, Key::Enter, &diff, &source), KeyAction::Nothing);
    assert!(state.input.is_none());

    press(&mut state, Key::Char('c'), &diff, &source);
    for c in "nits".chars() {
        press(&mut state, Key::Char(c), &diff, &source);
    }
    press(&mut state, Key::Backspace, &diff, &source);
    let outcome = handle_key(&mut state, Key::Enter, env(), &[], &diff, &source);
    assert_eq!(outcome.action, KeyAction::SubmitComment);
    assert_eq!(outcome.text.iter().collect::<String>(), "nit");
}

#[test]
fn file_search_opens_the_selected_match() {
    let (mut state, diff, source) = preview("old\n", "new\n");
    press(&mut state, Key::Char('/'), &diff, &source);
    assert_eq!(state.input.as_ref().unwrap().kind, InputKind::FileSearch);
    handle_key(&mut state, Key::Char('m'), env(), &[4, 2], &diff, &source);
    let moved = handle_key(&mut state, Key::Down, env(), &[4, 2], &diff, &source);
    assert!(moved.reveal_scrollbars);
    let opened = handle_key(&mut state, Key::Enter, env(), &[4, 2], &diff, &source);
    assert_eq!(opened.action, KeyAction::SelectFile(2));
    assert!(state.input.is_none());
}

#[test]
fn bracket_keys_walk_changes_then_ask_for_the_next_file() {
    let (mut state, diff, source) = preview(
        "same\nold one\nold two\nbetween\nold three\nend\n",
        "same\nnew one\nnew two\nbetween\nnew three\nend\n",
    );
    state.selected_row = 1;
    state.focus = Focus::Files;
    assert_eq!(press(&mut state, Key::Char(']'), &diff, &source), KeyAction::Nothing);
    assert_eq!(state.selected_row, 2);
    assert_eq!(state.focus, Focus::Right);
    press(&mut state, Key::Char(']'), &diff, &source);
    assert_eq!(state.selected_row, 4);
    assert_eq!(
        press(&mut state, Key::Char(']'), &diff, &source),
        KeyAction::AdjacentFile {
            forward: true,
            from_change: true
        }
    );
    assert_eq!(state.selected_row, 4);
}

#[test]
fn hiding_common_lines_moves_a_hidden_selection_to_the_first_change() {
    let (mut state, diff, source) = preview("same\nold\n", "same\nnew\n");
    state.show_unchanged = true;
    state.selected_row = 0;
    state.diff_scroll = 3;
    let action = press(&mut state, Key::Char('i'), &diff, &source);
    assert_eq!(action, KeyAction::Notice(Notice::HidingUnchanged));
    assert!(!state.show_unchanged);
    assert_eq!(state.selected_row, 1);
    assert_eq!(state.diff_scroll, 0);
}

#[test]
fn dragging_the_divider_resizes_the_panels() {
    let (mut state, diff, source) = preview("old\n", "new\n");
    let down = MouseEvent {
        kind: MouseKind::LeftDown,
        column: 35,
        row: 5,
    };
    handle_mouse(&mut state, down, mouse_env(), &[], &diff, &source);
    assert!(state.dragging_divider);
    let drag = MouseEvent {
        kind: MouseKind::LeftDrag,
        column: 90,
        row: 5,
    };
    handle_mouse(&mut state, drag, mouse_env(), &[], &diff, &source);
    assert_eq!(state.divider, 72);
    let up = MouseEvent {
        kind: MouseKind::LeftUp,
        column: 90,
        row: 5,
    };
    handle_mouse(&mut state, up, mouse_env(), &[], &diff, &source);
    assert!(!state.dragging_divider);
}

#[test]
fn clicking_a_file_row_loads_its_diff() {
    let (mut state, diff, source) = preview("old\n", "new\n");
    let click = MouseEvent {
        kind: MouseKind::LeftDown,
        column: 5,
        row: 2,
    };
    let outcome = handle_mouse(&mut state, click, mouse_env(), &[false, true, true], &diff, &source);
    assert_eq!(state.focus, Focus::Files);
    assert_eq!(state.selected_file, 1);
    assert_eq!(outcome.action, KeyAction::OpenSelectedFile);
    let directory = MouseEvent {
        kind: MouseKind::LeftDown,
        column: 5,
        row: 1,
    };
    let outcome = handle_mouse(&mut state, directory, mouse_env(), &[false, true, true], &diff, &source);
    assert_eq!(state.selected_file, 0);
    assert_eq!(outcome.action, KeyAction::Nothing);
}

#[test]
fn loaded_diffs_select_the_first_change_or_the_anchor() {
    let (mut state, diff, source) = preview("a\nb\nc\nd\n", "a\nB\nc\nD\n");
    state.diff_scroll = 9;
    apply_loaded_diff(&mut state, None, false, &diff, &source);
    assert_eq!(state.selected_row, 1);
    assert_eq!(state.diff_scroll, 0);
    apply_loaded_diff(&mut state, Some((Some(4), Some(4))), false, &diff, &source);
    assert_eq!(state.selected_row, 3);
    apply_loaded_diff(&mut state, None, true, &diff, &source);
    assert_eq!(state.selected_row, 3);
}

#[test]
fn refreshed_lists_keep_selections_inside() {
    let mut state = ViewState::new(ProjectSettings::default());
    state.selected_file = 9;
    state.selected_filter = 5;
    state.selected_comment = 3;
    restore_selections(&mut state, 4, None, None, 2, 0, 0);
    assert_eq!(state.selected_file, 3);
    assert_eq!(state.selected_filter, 1);
    assert_eq!(state.selected_comment, 0);
    restore_selections(&mut state, 4, Some(2), None, 2, 0, 0);
    assert_eq!(state.selected_file, 2);
}

#[test]
fn only_a_current_and_new_load_is_applied() {
    let side = DiffMode::SideBySide;
    let uni = DiffMode::Unified;
    assert_eq!(accept_loaded(Some(2), 1, Some("a.rs"), "a.rs", side, side, Some(5), None), LoadVerdict::Stale);
    assert_eq!(accept_loaded(None, 1, Some("a.rs"), "a.rs", side, side, Some(5), None), LoadVerdict::Stale);
    assert_eq!(accept_loaded(Some(1), 1, Some("b.rs"), "a.rs", side, side, Some(5), None), LoadVerdict::Superseded);
    assert_eq!(accept_loaded(Some(1), 1, None, "a.rs", side, side, Some(5), None), LoadVerdict::Superseded);
    assert_eq!(accept_loaded(Some(1), 1, Some("a.rs"), "a.rs", uni, side, Some(5), None), LoadVerdict::Superseded);
    assert_eq!(accept_loaded(Some(1), 1, Some("a.rs"), "a.rs", side, side, None, Some(5)), LoadVerdict::Failed);
    assert_eq!(accept_loaded(Some(1), 1, Some("a.rs"), "a.rs", side, side, Some(5), Some(5)), LoadVerdict::Unchanged);
    assert_eq!(accept_loaded(Some(1), 1, Some("a.rs"), "a.rs", side, side, Some(6), Some(5)), LoadVerdict::Apply);
}

#[test]
fn enter_on_a_file_asks_to_open_it_before_focus_moves() {
    let (mut state, diff, source) = preview("old\n", "new\n");
    state.focus = Focus::Files;
    assert_eq!(press(&mut state, Key::Enter, &diff, &source), KeyAction::OpenSelectedFileAndFocus);
    assert_eq!(state.focus, Focus::Files);
}

#[test]
fn a_request_under_way_is_not_sent_again() {
    let side = DiffMode::SideBySide;
    assert_eq!(rebuild_plan(None, side, Some(("a.rs", side)), Some("a.rs")), RebuildPlan::Clear);
    assert_eq!(rebuild_plan(Some("a.rs"), side, Some(("a.rs", side)), None), RebuildPlan::AlreadyPending);
    assert_eq!(
        rebuild_plan(Some("a.rs"), DiffMode::Unified, Some(("a.rs", side)), Some("a.rs")),
        RebuildPlan::Request { reset: false }
    );
    assert_eq!(rebuild_plan(Some("b.rs"), side, Some(("a.rs", side)), Some("a.rs")), RebuildPlan::Request { reset: true });
    assert_eq!(rebuild_plan(Some("b.rs"), side, None, None), RebuildPlan::Request { reset: true });
}
