//! Shared pane geometry: divider bounds, resizing and viewport heights.
use vstd::prelude::*;
use crate::panels::Focus;

verus! {

/// Divider width the project starts with.
pub const DEFAULT_DIVIDER: u16 = 34;

/// Columns the left column keeps at least.
pub const MIN_LEFT_WIDTH: u16 = 24;

/// Columns the right column keeps at least.
pub const MIN_RIGHT_WIDTH: u16 = 28;

/// Columns moved by one resize shortcut.
pub const RESIZE_STEP: u16 = 4;

/// Divider position actually used: half the terminal on narrow terminals
/// (never 0), otherwise the request kept between the minimum widths of both
/// columns.
pub open spec fn divider_for(requested: u16, terminal_width: u16) -> u16 {
    if terminal_width < 52 {
        if terminal_width / 2 >= 1 { (terminal_width / 2) as u16 } else { 1 }
    } else if requested < 24 {
        24
    } else if requested > terminal_width - 28 {
        (terminal_width - 28) as u16
    } else {
        requested
    }
}

/// Divider position for a requested width on a terminal of the given width.
pub fn constrained_divider(requested: u16, terminal_width: u16) -> (r: u16)
    ensures
        r == divider_for(requested, terminal_width),
{
    if terminal_width < 52 {
        let half = terminal_width / 2;
        return if half >= 1 { half } else { 1 };
    }
    if requested < MIN_LEFT_WIDTH {
        MIN_LEFT_WIDTH
    } else if requested > terminal_width - MIN_RIGHT_WIDTH {
        terminal_width - MIN_RIGHT_WIDTH
    } else {
        requested
    }
}

/// Divider after `<` (narrower) or `>` (wider) on the focused panel: it
/// moves one step (saturating) towards the panel that shrinks and is then kept
/// in bounds.
pub open spec fn resized_divider(divider: u16, focus: Focus, wider: bool, terminal_width: u16) -> u16 {
    let grow_left = (focus != Focus::Right) == wider;
    let requested: u16 = if grow_left {
        if divider as int + 4 > u16::MAX { u16::MAX } else { (divider + 4) as u16 }
    } else {
        if divider < 4 { 0 } else { (divider - 4) as u16 }
    };
    divider_for(requested, terminal_width)
}

/// `<`/`>` narrow or widen the focused panel: the divider moves by one step
/// towards the panel that shrinks, then is kept in bounds.
pub fn resize_focused_panel(divider: &mut u16, focus: Focus, wider: bool, terminal_width: u16)
    ensures
        *final(divider) == resized_divider(*old(divider), focus, wider, terminal_width),
{
    let focused_on_left = focus != Focus::Right;
    let grow_left = focused_on_left == wider;
    let requested = if grow_left {
        divider.saturating_add(RESIZE_STEP)
    } else {
        divider.saturating_sub(RESIZE_STEP)
    };
    *divider = constrained_divider(requested, terminal_width);
}

/// Rows left for the diff once borders and the footer are drawn.
pub fn diff_viewport_height(terminal_height: u16) -> (r: u16)
    ensures
        r == if terminal_height < 3 { 0 } else { terminal_height - 3 },
{
    terminal_height.saturating_sub(3)
}

/// The divider always leaves both columns their minimum widths on a terminal
/// that has room for them (24 columns on the left, 28 on the right), and on a
/// narrower one it splits the width in half, never reaching 0.
pub proof fn law_divider_keeps_minimum_widths(requested: u16, terminal_width: u16)
    ensures
        terminal_width >= 52 ==> 24 <= divider_for(requested, terminal_width) <= terminal_width - 28,
        terminal_width < 52 ==> divider_for(requested, terminal_width) >= 1 && divider_for(requested, terminal_width)
            <= (if terminal_width >= 2 { terminal_width / 2 } else { 1 }),
{
}

/// Widening the focused panel and then narrowing it again restores the
/// divider, as long as neither step meets a minimum width.
pub proof fn law_widen_then_narrow_restores(divider: u16, focus: Focus, terminal_width: u16)
    requires
        terminal_width >= 52,
        28 <= divider,
        divider + 32 <= terminal_width,
    ensures
        resized_divider(resized_divider(divider, focus, true, terminal_width), focus, false, terminal_width) == divider,
        resized_divider(resized_divider(divider, focus, false, terminal_width), focus, true, terminal_width) == divider,
{
}

} // verus!
