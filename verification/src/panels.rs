//! Panel focus, maximization and tab switching.
use vstd::prelude::*;

verus! {

/// Tab of the right panel.
#[derive(Clone, Copy, Debug, PartialEq, Eq, Structural)]
pub enum RightTab {
    Diff,
    Comments,
}

/// Tab of the filters panel.
#[derive(Clone, Copy, Debug, PartialEq, Eq, Structural)]
pub enum FilterTab {
    Filters,
    Ignored,
}

/// Panel that receives keyboard input.
#[derive(Clone, Copy, Debug, PartialEq, Eq, Structural)]
pub enum Focus {
    Files,
    Right,
    Filters,
}

/// Panel with number `panel` (1 files, 2 right, 3 filters).
pub open spec fn numbered_panel(panel: u8) -> Option<Focus> {
    if panel == 1 {
        Some(Focus::Files)
    } else if panel == 2 {
        Some(Focus::Right)
    } else if panel == 3 {
        Some(Focus::Filters)
    } else {
        None
    }
}

/// Focus and maximized panel after pressing number `panel`: an unfocused
/// panel gains the focus in the normal layout, the focused panel toggles
/// between maximized and normal, other numbers change nothing.
pub open spec fn panel_press(panel: u8, focus: Focus, maximized: Option<Focus>) -> (Focus, Option<Focus>) {
    match numbered_panel(panel) {
        None => (focus, maximized),
        Some(target) => (
            target,
            if focus != target {
                None
            } else if maximized == Some(target) {
                None
            } else {
                Some(target)
            },
        ),
    }
}

/// Pressing a panel number focuses that panel; pressing the focused panel's
/// number again maximizes it, and a third press restores the normal layout.
/// Other numbers change nothing.
pub fn activate_numbered_panel(panel: u8, focus: &mut Focus, maximized_panel: &mut Option<Focus>)
    ensures
        (*final(focus), *final(maximized_panel)) == panel_press(panel, *old(focus), *old(maximized_panel)),
{
    let target = if panel == 1 {
        Focus::Files
    } else if panel == 2 {
        Focus::Right
    } else if panel == 3 {
        Focus::Filters
    } else {
        return ;
    };
    if *focus != target {
        *focus = target;
        *maximized_panel = None;
    } else if *maximized_panel == Some(target) {
        *maximized_panel = None;
    } else {
        *maximized_panel = Some(target);
    }
}

/// Tabs after pressing Tab: the focused panel's tab switches to the other
/// one, every other tab stays.
pub open spec fn tab_press(focus: Focus, right_tab: RightTab, filter_tab: FilterTab) -> (RightTab, FilterTab) {
    (
        if focus == Focus::Right {
            if right_tab == RightTab::Diff { RightTab::Comments } else { RightTab::Diff }
        } else {
            right_tab
        },
        if focus == Focus::Filters {
            if filter_tab == FilterTab::Filters { FilterTab::Ignored } else { FilterTab::Filters }
        } else {
            filter_tab
        },
    )
}

/// Tab cycles the tabs of the focused panel only.
pub fn cycle_focused_panel_tab(focus: Focus, right_tab: &mut RightTab, filter_tab: &mut FilterTab)
    ensures
        (*final(right_tab), *final(filter_tab)) == tab_press(focus, *old(right_tab), *old(filter_tab)),
{
    match focus {
        Focus::Right => {
            *right_tab = match *right_tab {
                RightTab::Diff => RightTab::Comments,
                RightTab::Comments => RightTab::Diff,
            };
        },
        Focus::Filters => {
            *filter_tab = match *filter_tab {
                FilterTab::Filters => FilterTab::Ignored,
                FilterTab::Ignored => FilterTab::Filters,
            };
        },
        Focus::Files => {},
    }
}

/// Focusing another panel restores the normal layout.
pub fn focus_panel(focus: &mut Focus, maximized_panel: &mut Option<Focus>, target: Focus)
    ensures
        *final(focus) == target,
        *final(maximized_panel) == if *old(focus) != target { None } else { *old(maximized_panel) },
{
    if *focus != target {
        *maximized_panel = None;
        *focus = target;
    }
}

/// Pressing the number of an unfocused panel focuses it, pressing it again
/// maximizes it, and a third press restores the normal layout; the focus
/// stays on that panel throughout.
pub proof fn law_three_presses_focus_maximize_restore(panel: u8, focus: Focus, maximized: Option<Focus>)
    requires
        numbered_panel(panel) is Some,
        numbered_panel(panel) != Some(focus),
    ensures
        ({
            let target = numbered_panel(panel)->0;
            let first = panel_press(panel, focus, maximized);
            let second = panel_press(panel, first.0, first.1);
            let third = panel_press(panel, second.0, second.1);
            &&& first == (target, None::<Focus>)
            &&& second == (target, Some(target))
            &&& third == first
        }),
{
}

/// Tab never touches the tab of a panel without focus, and pressing it twice
/// restores both tabs.
pub proof fn law_tab_twice_restores(focus: Focus, right_tab: RightTab, filter_tab: FilterTab)
    ensures
        ({
            let once = tab_press(focus, right_tab, filter_tab);
            &&& focus != Focus::Right ==> once.0 == right_tab
            &&& focus != Focus::Filters ==> once.1 == filter_tab
            &&& tab_press(focus, once.0, once.1) == (right_tab, filter_tab)
        }),
{
}

} // verus!
