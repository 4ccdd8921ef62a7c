//! Pacing of the event loop: how long to wait for input, when to look for
//! changes in the worktree again, and when the screen must be drawn.
use vstd::prelude::*;

verus! {

/// Wait for input while a diff or a refresh is on its way (milliseconds).
pub const BUSY_POLL_MILLIS: u64 = 16;

/// Wait for input when nothing is on its way (milliseconds).
pub const IDLE_POLL_MILLIS: u64 = 80;

/// Time after the last refresh at which the worktree is looked at again
/// (milliseconds).
pub const REFRESH_MILLIS: u128 = 450;

/// How long the event loop waits for input: briefly while a diff or a
/// refresh is on its way, longer when nothing is.
pub fn poll_millis(pending_diff: bool, refresh_pending: bool) -> (r: u64)
    ensures
        r == (if pending_diff || refresh_pending { BUSY_POLL_MILLIS } else { IDLE_POLL_MILLIS }),
{
    if pending_diff || refresh_pending {
        BUSY_POLL_MILLIS
    } else {
        IDLE_POLL_MILLIS
    }
}

/// Whether the worktree is looked at again after a wait: changes are watched
/// by default, every `REFRESH_MILLIS`, except while a prompt is open.
pub fn refresh_due(input_open: bool, since_refresh_ms: u128) -> (r: bool)
    ensures
        r == (!input_open && since_refresh_ms >= REFRESH_MILLIS),
{
    !input_open && since_refresh_ms >= REFRESH_MILLIS
}

/// Whether the screen is drawn this turn: something asked for it before, the
/// file list changed, a diff was applied, a load finished, or the scrollbars
/// appeared or faded.
pub fn redraw_needed(
    requested: bool,
    list_changed: bool,
    diff_applied: bool,
    was_loading: bool,
    loading: bool,
    scrollbars_were_visible: bool,
    scrollbars_visible: bool,
) -> (r: bool)
    ensures
        r == (requested || list_changed || diff_applied || (was_loading && !loading) || scrollbars_were_visible
            != scrollbars_visible),
{
    requested || list_changed || diff_applied || (was_loading && !loading) || scrollbars_were_visible
        != scrollbars_visible
}

} // verus!
