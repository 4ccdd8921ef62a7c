use luminatti::diff::line_diff_document;
use luminatti::widgets::{
    abbreviate_path, background_width, changed_line_counts, cursor_visible_at, scrollbar_position,
    truncate_path_end,
};

fn scrollbar_scenario() {
    assert_eq!(scrollbar_position(10, 4, 0), 0);
    assert_eq!(scrollbar_position(10, 4, 6), 9);
    assert_eq!(scrollbar_position(4, 4, 0), 0);
}

#[test]
fn widgets_scrollbar_position_reaches_both_ends_of_overflowing_content() {
    scrollbar_scenario();
}

#[test]
fn main_scrollbar_position_reaches_both_ends_of_overflowing_content() {
    scrollbar_scenario();
}

#[test]
fn long_paths_keep_their_outer_directories_and_filename() {
    let path = "org/team/packages/business/generated/client/src/NetsuiteConnector.ts";
    let expected = "org/team/.../client/src/NetsuiteConnector.ts";

    assert_eq!(abbreviate_path(path, expected.chars().count()), expected);
}

#[test]
fn changed_line_counts_include_both_sides_of_replacements() {
    let rows = line_diff_document("same\nremoved\n", "same\nreplacement\nadditional\n")
        .unwrap()
        .rows;

    assert_eq!(changed_line_counts(&rows), (2, 1));
}

#[test]
fn scrollbar_thumb_moves_proportionally() {
    assert_eq!(scrollbar_position(10, 4, 3), 4);
    assert_eq!(scrollbar_position(10, 4, 100), 9);
    assert_eq!(scrollbar_position(3, 4, 2), 0);
}

#[test]
fn background_width_saturates() {
    assert_eq!(background_width(6, 40), 46);
    assert_eq!(background_width(u16::MAX, 2), u16::MAX);
}

#[test]
fn short_paths_are_left_whole() {
    assert_eq!(abbreviate_path("src/main.rs", 80), "src/main.rs");
    assert_eq!(truncate_path_end("src/main.rs", 80), "src/main.rs");
}

#[test]
fn truncated_paths_keep_their_end_behind_an_ellipsis() {
    assert_eq!(truncate_path_end("abcdefghij", 5), "\u{2026}ghij");
    assert_eq!(truncate_path_end("abcdefghij", 0), "");
}

#[test]
fn paths_without_room_for_directories_fall_back_to_the_end() {
    let shortened = abbreviate_path("aaaaaaaaaa/bbbbbbbbbb/c.rs", 8);
    assert!(shortened.chars().count() <= 8);
    assert!(shortened.ends_with("c.rs"));
}

#[test]
fn cursor_blinks_every_period() {
    assert!(cursor_visible_at(0));
    assert!(cursor_visible_at(529));
    assert!(!cursor_visible_at(530));
    assert!(!cursor_visible_at(1059));
    assert!(cursor_visible_at(1060));
}
