use luminatti::watch::{poll_millis, redraw_needed, refresh_due, BUSY_POLL_MILLIS, IDLE_POLL_MILLIS};

#[test]
fn the_loop_waits_briefly_while_work_is_on_its_way() {
    assert_eq!(poll_millis(true, false), 16);
    assert_eq!(poll_millis(false, true), BUSY_POLL_MILLIS);
    assert_eq!(poll_millis(false, false), 80);
    assert_eq!(IDLE_POLL_MILLIS, 80);
}

#[test]
fn changes_are_watched_every_450_ms_unless_a_prompt_is_open() {
    assert!(!refresh_due(false, 449));
    assert!(refresh_due(false, 450));
    assert!(refresh_due(false, 10_000));
    assert!(!refresh_due(true, 10_000));
}

#[test]
fn the_screen_is_drawn_only_when_something_changed() {
    assert!(!redraw_needed(false, false, false, false, false, true, true));
    assert!(redraw_needed(true, false, false, false, false, false, false));
    assert!(redraw_needed(false, true, false, false, false, false, false));
    assert!(redraw_needed(false, false, true, true, true, false, false));
    assert!(redraw_needed(false, false, false, true, false, false, false));
    assert!(!redraw_needed(false, false, false, true, true, false, false));
    assert!(redraw_needed(false, false, false, false, false, false, true));
}
