use luminatti::layout::{constrained_divider, diff_viewport_height, resize_focused_panel};
use luminatti::navigation::{clamped_diff_scroll, max_diff_scroll, move_selection};
use luminatti::panels::{activate_numbered_panel, cycle_focused_panel_tab, focus_panel, FilterTab, Focus, RightTab};

fn numbered_panels_scenario() {
    let mut focus = Focus::Files;
    let mut maximized_panel = None;
    let right_tab = RightTab::Comments;
    let filter_tab = FilterTab::Ignored;

    activate_numbered_panel(3, &mut focus, &mut maximized_panel);
    assert_eq!(focus, Focus::Filters);
    assert_eq!(maximized_panel, None);
    assert_eq!(filter_tab, FilterTab::Ignored);
    activate_numbered_panel(3, &mut focus, &mut maximized_panel);
    assert_eq!(maximized_panel, Some(Focus::Filters));
    activate_numbered_panel(3, &mut focus, &mut maximized_panel);
    assert_eq!(maximized_panel, None);

    activate_numbered_panel(2, &mut focus, &mut maximized_panel);
    assert_eq!(focus, Focus::Right);
    assert_eq!(right_tab, RightTab::Comments);
    activate_numbered_panel(2, &mut focus, &mut maximized_panel);
    assert_eq!(maximized_panel, Some(Focus::Right));
    activate_numbered_panel(2, &mut focus, &mut maximized_panel);
    assert_eq!(maximized_panel, None);

    activate_numbered_panel(1, &mut focus, &mut maximized_panel);
    assert_eq!(focus, Focus::Files);
    assert_eq!(maximized_panel, None);
}

fn tab_cycle_scenario() {
    let mut right_tab = RightTab::Diff;
    let mut filter_tab = FilterTab::Filters;

    cycle_focused_panel_tab(Focus::Right, &mut right_tab, &mut filter_tab);
    assert_eq!(right_tab, RightTab::Comments);
    assert_eq!(filter_tab, FilterTab::Filters);

    cycle_focused_panel_tab(Focus::Filters, &mut right_tab, &mut filter_tab);
    assert_eq!(right_tab, RightTab::Comments);
    assert_eq!(filter_tab, FilterTab::Ignored);

    cycle_focused_panel_tab(Focus::Files, &mut right_tab, &mut filter_tab);
    assert_eq!(right_tab, RightTab::Comments);
    assert_eq!(filter_tab, FilterTab::Ignored);
}

fn resize_scenario() {
    let mut divider = 34;

    resize_focused_panel(&mut divider, Focus::Files, true, 100);
    assert_eq!(divider, 38);
    resize_focused_panel(&mut divider, Focus::Filters, false, 100);
    assert_eq!(divider, 34);

    resize_focused_panel(&mut divider, Focus::Right, true, 100);
    assert_eq!(divider, 30);
    resize_focused_panel(&mut divider, Focus::Right, false, 100);
    assert_eq!(divider, 34);
}

fn resize_minimum_scenario() {
    let mut divider = 24;
    resize_focused_panel(&mut divider, Focus::Files, false, 100);
    assert_eq!(divider, 24);

    divider = 72;
    resize_focused_panel(&mut divider, Focus::Right, false, 100);
    assert_eq!(divider, 72);
}

#[test]
fn keyboard_repeated_panel_numbers_focus_maximize_and_restore_without_changing_tabs() {
    numbered_panels_scenario();
}

#[test]
fn main_repeated_panel_numbers_focus_maximize_and_restore_without_changing_tabs() {
    numbered_panels_scenario();
}

#[test]
fn keyboard_tab_cycles_only_within_the_focused_panel() {
    tab_cycle_scenario();
}

#[test]
fn main_tab_cycles_only_within_the_focused_panel() {
    tab_cycle_scenario();
}

#[test]
fn layout_resize_shortcuts_change_the_focused_panel_width() {
    resize_scenario();
}

#[test]
fn main_resize_shortcuts_change_the_focused_panel_width() {
    resize_scenario();
}

#[test]
fn layout_resize_shortcuts_preserve_minimum_panel_widths() {
    resize_minimum_scenario();
}

#[test]
fn main_resize_shortcuts_preserve_minimum_panel_widths() {
    resize_minimum_scenario();
}

#[test]
fn navigation_diff_scroll_stays_zero_until_content_exceeds_the_viewport() {
    assert_eq!(max_diff_scroll(22, 40), 0);
    assert_eq!(clamped_diff_scroll(12, 22, 40), 0);
    assert_eq!(max_diff_scroll(60, 40), 20);
    assert_eq!(clamped_diff_scroll(30, 60, 40), 20);
    assert_eq!(max_diff_scroll(100_000, 40), 99_960);
}

#[test]
fn main_diff_scroll_stays_zero_until_content_exceeds_the_viewport() {
    assert_eq!(max_diff_scroll(22, 40), 0);
    assert_eq!(clamped_diff_scroll(12, 22, 40), 0);
    assert_eq!(max_diff_scroll(60, 40), 20);
    assert_eq!(clamped_diff_scroll(30, 60, 40), 20);
}

#[test]
fn unknown_panel_number_changes_nothing() {
    let mut focus = Focus::Right;
    let mut maximized_panel = Some(Focus::Right);
    activate_numbered_panel(4, &mut focus, &mut maximized_panel);
    assert_eq!(focus, Focus::Right);
    assert_eq!(maximized_panel, Some(Focus::Right));
    activate_numbered_panel(0, &mut focus, &mut maximized_panel);
    assert_eq!(focus, Focus::Right);
    assert_eq!(maximized_panel, Some(Focus::Right));
}

#[test]
fn pressing_a_panel_number_three_times_restores_the_layout() {
    for panel in 1..=3u8 {
        let mut focus = if panel == 1 { Focus::Right } else { Focus::Files };
        let mut maximized_panel = None;
        activate_numbered_panel(panel, &mut focus, &mut maximized_panel);
        let after_first = (focus, maximized_panel);
        activate_numbered_panel(panel, &mut focus, &mut maximized_panel);
        assert!(maximized_panel.is_some());
        activate_numbered_panel(panel, &mut focus, &mut maximized_panel);
        assert_eq!((focus, maximized_panel), after_first);
    }
}

#[test]
fn tab_twice_restores_both_tabs() {
    for focus in [Focus::Files, Focus::Right, Focus::Filters] {
        let mut right_tab = RightTab::Diff;
        let mut filter_tab = FilterTab::Ignored;
        cycle_focused_panel_tab(focus, &mut right_tab, &mut filter_tab);
        cycle_focused_panel_tab(focus, &mut right_tab, &mut filter_tab);
        assert_eq!(right_tab, RightTab::Diff);
        assert_eq!(filter_tab, FilterTab::Ignored);
    }
}

#[test]
fn focusing_another_panel_leaves_maximized_mode() {
    let mut focus = Focus::Files;
    let mut maximized_panel = Some(Focus::Files);
    focus_panel(&mut focus, &mut maximized_panel, Focus::Files);
    assert_eq!(maximized_panel, Some(Focus::Files));
    focus_panel(&mut focus, &mut maximized_panel, Focus::Right);
    assert_eq!(focus, Focus::Right);
    assert_eq!(maximized_panel, None);
}

#[test]
fn divider_is_clamped_to_both_minimum_widths() {
    assert_eq!(constrained_divider(34, 100), 34);
    assert_eq!(constrained_divider(10, 100), 24);
    assert_eq!(constrained_divider(90, 100), 72);
    assert_eq!(constrained_divider(34, 51), 25);
    assert_eq!(constrained_divider(34, 0), 1);
    assert_eq!(constrained_divider(34, 1), 1);
    assert_eq!(constrained_divider(34, 52), 24);
}

#[test]
fn growing_then_shrinking_the_focused_panel_restores_the_divider() {
    let mut divider = 40;
    resize_focused_panel(&mut divider, Focus::Right, true, 120);
    assert_eq!(divider, 36);
    resize_focused_panel(&mut divider, Focus::Right, false, 120);
    assert_eq!(divider, 40);
}

#[test]
fn diff_viewport_leaves_room_for_borders_and_footer() {
    assert_eq!(diff_viewport_height(20), 17);
    assert_eq!(diff_viewport_height(2), 0);
}

#[test]
fn selection_moves_one_step_and_stops_at_the_ends() {
    let mut current = 0;
    move_selection(&mut current, 3, false);
    assert_eq!(current, 0);
    move_selection(&mut current, 3, true);
    assert_eq!(current, 1);
    move_selection(&mut current, 3, true);
    move_selection(&mut current, 3, true);
    assert_eq!(current, 2);
    let mut untouched = 7;
    move_selection(&mut untouched, 0, true);
    assert_eq!(untouched, 7);
}
