//! Selection movement and scroll bounds independent of input devices.
use vstd::prelude::*;

verus! {

/// Largest scroll offset that still fills the viewport.
pub open spec fn max_scroll(content_height: int, viewport_height: int) -> int {
    if content_height > viewport_height { content_height - viewport_height } else { 0 }
}

/// Largest diff scroll offset: zero until the content exceeds the viewport.
pub fn max_diff_scroll(content_height: usize, viewport_height: u16) -> (r: usize)
    ensures
        r == max_scroll(content_height as int, viewport_height as int),
{
    content_height.saturating_sub(viewport_height as usize)
}

/// `scroll` kept within [0, max_diff_scroll].
pub fn clamped_diff_scroll(scroll: usize, content_height: usize, viewport_height: u16) -> (r: usize)
    ensures
        r == if scroll as int <= max_scroll(content_height as int, viewport_height as int) {
            scroll as int
        } else {
            max_scroll(content_height as int, viewport_height as int)
        },
{
    let max = max_diff_scroll(content_height, viewport_height);
    if scroll < max { scroll } else { max }
}

/// Selection after one arrow press in a list of `len` items.
pub open spec fn selection_step(current: int, len: int, down: bool) -> int {
    if len == 0 {
        current
    } else if down {
        if current + 1 < len { current + 1 } else { len - 1 }
    } else {
        if current == 0 { 0 } else { current - 1 }
    }
}

/// Moves a list selection one step, stopping at both ends; an empty list keeps
/// its selection.
pub fn move_selection(current: &mut usize, len: usize, down: bool)
    requires
        len == 0 || !down || *old(current) < usize::MAX,
    ensures
        *final(current) == selection_step(*old(current) as int, len as int, down),
{
    if len == 0 {
        return ;
    }
    *current = if down {
        let next = *current + 1;
        if next < len { next } else { len - 1 }
    } else {
        current.saturating_sub(1)
    };
}

/// The diff scroll stays at zero until the content is taller than the
/// viewport, and a clamped offset is never past the last full viewport.
pub proof fn law_scroll_zero_until_content_overflows(scroll: int, content_height: int, viewport_height: int)
    requires
        0 <= scroll,
        0 <= content_height,
        0 <= viewport_height,
    ensures
        (max_scroll(content_height, viewport_height) == 0) <==> content_height <= viewport_height,
        ({
            let m = max_scroll(content_height, viewport_height);
            let clamped = if scroll <= m { scroll } else { m };
            &&& 0 <= clamped <= m
            &&& clamped + viewport_height >= content_height || clamped == scroll
        }),
{
}

/// A selection inside a non-empty list stays inside it, and moving down and
/// then up returns to the same item unless the first move was stopped at the
/// end.
pub proof fn law_selection_stays_in_list(current: int, len: int, down: bool)
    requires
        0 <= current < len,
    ensures
        0 <= selection_step(current, len, down) < len,
        current + 1 < len ==> selection_step(selection_step(current, len, true), len, false) == current,
        current > 0 ==> selection_step(selection_step(current, len, false), len, true) == current,
{
}

} // verus!
