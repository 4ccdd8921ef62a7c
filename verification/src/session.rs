//! The review session's view state and its transitions: keys, mouse events
//! and freshly loaded diffs. Work outside the state (files, Git, clipboard,
//! background loading) is returned as an action for the caller to perform.
use vstd::prelude::*;
use crate::diff::{adjacent_changed_row, rows_spec, DiffRow, RowSpec};
use crate::file_tree::TreeRow;
use crate::git::FileItem;
use crate::diff_view::{
    dedupe_row_indices, deduped_rows, last_line_before, lemma_deduped_below, lemma_layout_rows_exist, last_line_position, layout, lemma_first_line_from,
    first_line_from, lemma_last_line_before, line_position, rendered_diff_lines, selected_line_position, DiffMode,
    RenderedDiffLine,
};
use crate::layout::{constrained_divider, divider_for, resize_focused_panel, resized_divider};
use crate::navigation::{max_scroll, selection_step};
use crate::panels::{
    activate_numbered_panel, cycle_focused_panel_tab, panel_press, tab_press, FilterTab, Focus, RightTab,
};
use crate::settings::ProjectSettings;
use crate::text::{chars_eq, chars_of, trim, trim_chars};

verus! {

/// Text typed into a modal prompt and what it is for.
#[derive(Clone, Copy, Debug, PartialEq, Eq, Structural)]
pub enum InputKind {
    Comment,
    Filter,
    FileSearch,
}

/// An open prompt: its kind, its text, and the selected search result.
pub struct Input {
    pub kind: InputKind,
    pub value: Vec<char>,
    pub selected: usize,
}

/// Everything the screen shows that is not file or diff content.
pub struct ViewState {
    pub right_tab: RightTab,
    pub filter_tab: FilterTab,
    pub focus: Focus,
    pub maximized_panel: Option<Focus>,
    pub diff_mode: DiffMode,
    pub show_unchanged: bool,
    pub final_view: bool,
    /// Selected diff row, selected final row and diff scroll when the final
    /// view was entered.
    pub final_origin: Option<(usize, usize, usize)>,
    pub selected_file: usize,
    pub selected_filter: usize,
    pub selected_ignored: usize,
    pub selected_comment: usize,
    pub selected_row: usize,
    pub diff_selection_active: bool,
    pub divider: u16,
    pub dragging_divider: bool,
    pub diff_scroll: usize,
    pub diff_horizontal_scroll: u16,
    pub input: Option<Input>,
    pub confirm_delete_all: bool,
    pub show_help: bool,
}

/// Mathematical content of an [`Input`].
pub struct InputModel {
    pub kind: InputKind,
    pub value: Seq<char>,
    pub selected: usize,
}

/// Mathematical content of a [`ViewState`].
pub struct ViewModel {
    pub right_tab: RightTab,
    pub filter_tab: FilterTab,
    pub focus: Focus,
    pub maximized_panel: Option<Focus>,
    pub diff_mode: DiffMode,
    pub show_unchanged: bool,
    pub final_view: bool,
    pub final_origin: Option<(usize, usize, usize)>,
    pub selected_file: usize,
    pub selected_filter: usize,
    pub selected_ignored: usize,
    pub selected_comment: usize,
    pub selected_row: usize,
    pub diff_selection_active: bool,
    pub divider: u16,
    pub dragging_divider: bool,
    pub diff_scroll: usize,
    pub diff_horizontal_scroll: u16,
    pub input: Option<InputModel>,
    pub confirm_delete_all: bool,
    pub show_help: bool,
}

impl Input {
    pub open spec fn model(&self) -> InputModel {
        InputModel { kind: self.kind, value: self.value@, selected: self.selected }
    }
}

pub open spec fn input_model(input: Option<Input>) -> Option<InputModel> {
    match input {
        Some(i) => Some(i.model()),
        None => None,
    }
}

impl View for ViewState {
    type V = ViewModel;

    open spec fn view(&self) -> ViewModel {
        ViewModel {
            right_tab: self.right_tab,
            filter_tab: self.filter_tab,
            focus: self.focus,
            maximized_panel: self.maximized_panel,
            diff_mode: self.diff_mode,
            show_unchanged: self.show_unchanged,
            final_view: self.final_view,
            final_origin: self.final_origin,
            selected_file: self.selected_file,
            selected_filter: self.selected_filter,
            selected_ignored: self.selected_ignored,
            selected_comment: self.selected_comment,
            selected_row: self.selected_row,
            diff_selection_active: self.diff_selection_active,
            divider: self.divider,
            dragging_divider: self.dragging_divider,
            diff_scroll: self.diff_scroll,
            diff_horizontal_scroll: self.diff_horizontal_scroll,
            input: input_model(self.input),
            confirm_delete_all: self.confirm_delete_all,
            show_help: self.show_help,
        }
    }
}

/// Rows the diff panel shows: the final source in the final view, the diff
/// otherwise.
pub open spec fn active_rows(s: ViewModel, rows: Seq<RowSpec>, final_rows: Seq<RowSpec>) -> Seq<RowSpec> {
    if s.final_view { final_rows } else { rows }
}

/// Rendered lines of the diff panel in state `s`; the final view always shows
/// every line.
pub open spec fn view_lines(s: ViewModel, rows: Seq<RowSpec>, final_rows: Seq<RowSpec>) -> Seq<RenderedDiffLine> {
    layout(active_rows(s, rows, final_rows), s.final_view || s.show_unchanged, s.diff_mode)
}

/// `x` kept within the scroll range of `len` lines in a viewport of `vp`.
pub open spec fn clamp_scroll(x: int, len: int, vp: int) -> int {
    let m = max_scroll(len, vp);
    if x <= m { x } else { m }
}

/// Scroll offset that brings the rendered lines of `row` into view with the
/// least movement, starting from `scroll`.
pub open spec fn scroll_to_show(lines: Seq<RenderedDiffLine>, row: usize, scroll: int, vp: int) -> int {
    let len = lines.len() as int;
    let start = line_position(lines, row);
    let last = last_line_before(lines, row, lines.len());
    let end = if last < 0 { start } else { last };
    let s0 = clamp_scroll(scroll, len, vp);
    let s1 = if start < s0 {
        start
    } else if end >= s0 + vp {
        if end + 1 >= vp { end + 1 - vp } else { 0 }
    } else {
        s0
    };
    clamp_scroll(s1, len, vp)
}

/// Rendered lines of the diff panel.
pub fn view_lines_of(state: &ViewState, rows: &[DiffRow], final_rows: &[DiffRow]) -> (r: Vec<RenderedDiffLine>)
    ensures
        r@ == view_lines(state@, rows_spec(rows@), rows_spec(final_rows@)),
{
    let show = state.final_view || state.show_unchanged;
    if state.final_view {
        rendered_diff_lines(final_rows, show, state.diff_mode)
    } else {
        rendered_diff_lines(rows, show, state.diff_mode)
    }
}

fn clamp(x: usize, len: usize, vp: u16) -> (r: usize)
    ensures
        r == clamp_scroll(x as int, len as int, vp as int),
{
    let m = len.saturating_sub(vp as usize);
    if x <= m { x } else { m }
}

/// Scroll offset that shows the selected row, moving as little as possible.
pub fn scroll_into_view(lines: &[RenderedDiffLine], row: usize, scroll: usize, vp: u16) -> (r: usize)
    ensures
        r == scroll_to_show(lines@, row, scroll as int, vp as int),
{
    let start = selected_line_position(lines, row);
    let end = match last_line_position(lines, row) {
        Some(p) => p,
        None => start,
    };
    proof {
        lemma_first_line_from(lines@, row, 0);
        lemma_last_line_before(lines@, row, lines@.len());
    }
    let s0 = clamp(scroll, lines.len(), vp);
    let s1 = if start < s0 {
        start
    } else if end as u128 >= s0 as u128 + vp as u128 {
        (end + 1).saturating_sub(vp as usize)
    } else {
        s0
    };
    clamp(s1, lines.len(), vp)
}

/// First position at or after `k` of `x` in `ix`, or -1.
pub open spec fn index_from(ix: Seq<usize>, x: usize, k: nat) -> int
    decreases ix.len() - k,
{
    if k >= ix.len() {
        -1
    } else if ix[k as int] == x {
        k as int
    } else {
        index_from(ix, x, k + 1)
    }
}

proof fn lemma_index_from(ix: Seq<usize>, x: usize, k: nat)
    ensures
        index_from(ix, x, k) == -1 || k <= index_from(ix, x, k) < ix.len(),
    decreases ix.len() - k,
{
    if k < ix.len() && ix[k as int] != x {
        lemma_index_from(ix, x, k + 1);
    }
}

fn position_of(ix: &[usize], x: usize) -> (r: Option<usize>)
    ensures
        match r {
            Some(p) => index_from(ix@, x, 0) == p as int,
            None => index_from(ix@, x, 0) == -1,
        },
{
    let mut k: usize = 0;
    while k < ix.len()
        invariant
            k <= ix@.len(),
            index_from(ix@, x, 0) == index_from(ix@, x, k as nat),
        decreases ix@.len() - k,
    {
        if ix[k] == x {
            return Some(k);
        }
        k = k + 1;
    }
    None
}

/// Arrow keys in the diff: the selection moves to the next or previous shown
/// row and is scrolled into view.
pub open spec fn diff_selection_step(s: ViewModel, down: bool, vp: int, rows: Seq<RowSpec>, final_rows: Seq<RowSpec>) -> ViewModel {
    let lines = view_lines(s, rows, final_rows);
    let ix = deduped_rows(lines);
    if ix.len() == 0 {
        s
    } else {
        let f = index_from(ix, s.selected_row, 0);
        let cur = if f < 0 { 0 } else { f };
        let next = if down {
            if cur + 1 < ix.len() { cur + 1 } else { ix.len() - 1 }
        } else {
            if cur == 0 { 0 } else { cur - 1 }
        };
        let sel = ix[next];
        ViewModel {
            selected_row: sel,
            diff_selection_active: true,
            diff_scroll: scroll_to_show(lines, sel, s.diff_scroll as int, vp) as usize,
            ..s
        }
    }
}

/// Moves the diff selection one shown row down or up.
pub fn move_diff_selection(state: &mut ViewState, down: bool, vp: u16, rows: &[DiffRow], final_rows: &[DiffRow])
    ensures
        final(state)@ == diff_selection_step(old(state)@, down, vp as int, rows_spec(rows@), rows_spec(final_rows@)),
{
    let lines = view_lines_of(state, rows, final_rows);
    let ix = dedupe_row_indices(lines.as_slice());
    if ix.len() == 0 {
        return;
    }
    let cur = match position_of(ix.as_slice(), state.selected_row) {
        Some(p) => p,
        None => 0,
    };
    proof {
        lemma_index_from(ix@, state.selected_row, 0);
    }
    let next = if down {
        if cur + 1 < ix.len() { cur + 1 } else { ix.len() - 1 }
    } else {
        if cur == 0 { 0 } else { cur - 1 }
    };
    let sel = ix[next];
    let scroll = scroll_into_view(lines.as_slice(), sel, state.diff_scroll, vp);
    state.selected_row = sel;
    state.diff_selection_active = true;
    state.diff_scroll = scroll;
}

/// How far line `line` is from `target`; rows without a new line are as far
/// as possible.
pub open spec fn line_distance(line: Option<u32>, target: u32) -> int {
    match line {
        Some(n) => if n >= target { n - target } else { target - n },
        None => u32::MAX as int,
    }
}

/// Among `rows[..k]`, the first row whose new line is nearest to `target`,
/// or -1 when `k` is 0.
pub open spec fn nearest_among(rows: Seq<RowSpec>, target: u32, k: nat) -> int
    decreases k,
{
    if k == 0 {
        -1
    } else {
        let p = nearest_among(rows, target, (k - 1) as nat);
        if p < 0 || line_distance(rows[k - 1].new_line, target) < line_distance(rows[p].new_line, target) {
            k - 1
        } else {
            p
        }
    }
}

proof fn lemma_nearest_among(rows: Seq<RowSpec>, target: u32, k: nat)
    ensures
        nearest_among(rows, target, k) == -1 <==> k == 0,
        k > 0 ==> 0 <= nearest_among(rows, target, k) < k,
    decreases k,
{
    if k > 0 {
        lemma_nearest_among(rows, target, (k - 1) as nat);
    }
}

/// Row of `rows` whose new line is nearest to `line` (line 1 when there is
/// none); the first such row, and row 0 for no rows.
pub open spec fn nearest_row(rows: Seq<RowSpec>, line: Option<u32>) -> int {
    let t: u32 = match line {
        Some(l) => l,
        None => 1,
    };
    let p = nearest_among(rows, t, rows.len());
    if p < 0 { 0 } else { p }
}

fn distance(line: Option<u32>, target: u32) -> (r: u32)
    ensures
        r == line_distance(line, target),
{
    match line {
        Some(n) => if n >= target { n - target } else { target - n },
        None => u32::MAX,
    }
}

/// The row of `rows` whose new line is nearest to `line`.
pub fn nearest_source_row(rows: &[DiffRow], line: Option<u32>) -> (r: usize)
    ensures
        r == nearest_row(rows_spec(rows@), line),
{
    let ghost rs = rows_spec(rows@);
    let target: u32 = match line {
        Some(l) => l,
        None => 1,
    };
    let mut best: usize = 0;
    let mut best_distance: u32 = 0;
    let mut k: usize = 0;
    assert(rs.len() == rows@.len());
    while k < rows.len()
        invariant
            rs == rows_spec(rows@),
            rs.len() == rows@.len(),
            k <= rows@.len(),
            k == 0 ==> best == 0,
            k == 0 || (best as int == nearest_among(rs, target, k as nat) && best_distance == line_distance(
                rs[best as int].new_line,
                target,
            )),
        decreases rows@.len() - k,
    {
        proof {
            lemma_nearest_among(rs, target, k as nat);
        }
        let d = distance(rows[k].new_line, target);
        if k == 0 || d < best_distance {
            best = k;
            best_distance = d;
        }
        k = k + 1;
    }
    proof {
        lemma_nearest_among(rs, target, rows@.len());
        if rows@.len() > 0 {
            assert(best as int == nearest_among(rs, target, rs.len()));
        } else {
            assert(nearest_among(rs, target, rs.len()) == -1);
        }
    }
    best
}

/// Among the rows `ix[..k]`, the position in `ix` of the first row whose new
/// line is nearest to `target`, or -1 when `k` is 0.
pub open spec fn nearest_index_among(rows: Seq<RowSpec>, ix: Seq<usize>, target: u32, k: nat) -> int
    decreases k,
{
    if k == 0 {
        -1
    } else {
        let p = nearest_index_among(rows, ix, target, (k - 1) as nat);
        if p < 0 || line_distance(rows[ix[k - 1] as int].new_line, target) < line_distance(
            rows[ix[p] as int].new_line,
            target,
        ) {
            k - 1
        } else {
            p
        }
    }
}

proof fn lemma_nearest_index_among(rows: Seq<RowSpec>, ix: Seq<usize>, target: u32, k: nat)
    ensures
        nearest_index_among(rows, ix, target, k) == -1 <==> k == 0,
        k > 0 ==> 0 <= nearest_index_among(rows, ix, target, k) < k,
    decreases k,
{
    if k > 0 {
        lemma_nearest_index_among(rows, ix, target, (k - 1) as nat);
    }
}

/// Among the rows listed in `ix`, the one whose new line is nearest to
/// `target`; row 0 when `ix` is empty.
pub open spec fn nearest_listed_row(rows: Seq<RowSpec>, ix: Seq<usize>, target: u32) -> int {
    let p = nearest_index_among(rows, ix, target, ix.len());
    if p < 0 { 0 } else { ix[p] as int }
}

fn nearest_listed(rows: &[DiffRow], ix: &[usize], target: u32) -> (r: usize)
    requires
        forall|k: int| 0 <= k < ix@.len() ==> (#[trigger] ix@[k]) < rows@.len(),
    ensures
        r == nearest_listed_row(rows_spec(rows@), ix@, target),
{
    let ghost rs = rows_spec(rows@);
    let mut best: usize = 0;
    let mut best_distance: u32 = 0;
    let mut k: usize = 0;
    while k < ix.len()
        invariant
            rs == rows_spec(rows@),
            k <= ix@.len(),
            forall|j: int| 0 <= j < ix@.len() ==> (#[trigger] ix@[j]) < rows@.len(),
            k == 0 || (best as int == nearest_index_among(rs, ix@, target, k as nat) && best_distance
                == line_distance(rs[ix@[best as int] as int].new_line, target)),
        decreases ix@.len() - k,
    {
        proof {
            lemma_nearest_index_among(rs, ix@, target, k as nat);
        }
        let d = distance(rows[ix[k]].new_line, target);
        if k == 0 || d < best_distance {
            best = k;
            best_distance = d;
        }
        k = k + 1;
    }
    proof {
        lemma_nearest_index_among(rs, ix@, target, ix@.len());
    }
    if ix.len() == 0 { 0 } else { ix[best] }
}

/// First new line among `rows[k..]`.
pub open spec fn first_new_line_from(rows: Seq<RowSpec>, k: nat) -> Option<u32>
    decreases rows.len() - k,
{
    if k >= rows.len() {
        None
    } else if rows[k as int].new_line is Some {
        rows[k as int].new_line
    } else {
        first_new_line_from(rows, k + 1)
    }
}

/// Last new line among `rows[..k]`.
pub open spec fn last_new_line_before(rows: Seq<RowSpec>, k: nat) -> Option<u32>
    decreases k,
{
    if k == 0 || k > rows.len() {
        None
    } else if rows[k - 1].new_line is Some {
        rows[k - 1].new_line
    } else {
        last_new_line_before(rows, (k - 1) as nat)
    }
}

/// New line that anchors a switch between diff and final view: the selected
/// row's, else the next row's that has one, else the previous row's.
pub open spec fn final_anchor(rows: Seq<RowSpec>, sel: nat) -> Option<u32> {
    match first_new_line_from(rows, sel) {
        Some(l) => Some(l),
        None => last_new_line_before(rows, if sel < rows.len() { sel } else { rows.len() }),
    }
}

fn anchor_line(rows: &[DiffRow], sel: usize) -> (r: Option<u32>)
    ensures
        r == final_anchor(rows_spec(rows@), sel as nat),
{
    let ghost rs = rows_spec(rows@);
    let mut k: usize = sel;
    while k < rows.len()
        invariant
            rs == rows_spec(rows@),
            sel <= k,
            rs.len() == rows@.len(),
            first_new_line_from(rs, sel as nat) == first_new_line_from(rs, k as nat),
        decreases rows@.len() - k,
    {
        if rows[k].new_line.is_some() {
            return rows[k].new_line;
        }
        k = k + 1;
    }
    let mut j: usize = if sel < rows.len() { sel } else { rows.len() };
    let ghost start = j as nat;
    assert(rs.len() == rows@.len());
    while j > 0
        invariant
            rs == rows_spec(rows@),
            rs.len() == rows@.len(),
            first_new_line_from(rs, sel as nat) is None,
            start == (if sel < rs.len() { sel as nat } else { rs.len() }),
            j <= rows@.len(),
            last_new_line_before(rs, start) == last_new_line_before(rs, j as nat),
        decreases j,
    {
        if rows[j - 1].new_line.is_some() {
            return rows[j - 1].new_line;
        }
        j = j - 1;
    }
    None
}

/// Scroll after a switch between diff and final view: the selection keeps its
/// distance `offset` from the top of the viewport where possible.
pub open spec fn finish_toggle(t: ViewModel, offset: int, vp: int, rows: Seq<RowSpec>, final_rows: Seq<RowSpec>) -> ViewModel {
    let lines = view_lines(t, rows, final_rows);
    let position = line_position(lines, t.selected_row);
    let back = if position >= offset { position - offset } else { 0 };
    ViewModel { diff_scroll: clamp_scroll(back, lines.len() as int, vp) as usize, ..t }
}

/// Distance of the selection from the top of the viewport, kept inside it.
pub open spec fn toggle_offset(s: ViewModel, vp: int, rows: Seq<RowSpec>, final_rows: Seq<RowSpec>) -> int {
    let pos = line_position(view_lines(s, rows, final_rows), s.selected_row);
    let d = if pos >= s.diff_scroll { pos - s.diff_scroll } else { 0 };
    let top = if vp >= 1 { vp - 1 } else { 0 };
    if d <= top { d } else { top }
}

/// Entering the final view: the selection moves to the final row nearest the
/// anchor line and the way back is remembered.
pub open spec fn enter_final(s: ViewModel, offset: int, anchor: Option<u32>, vp: int, rows: Seq<RowSpec>, final_rows: Seq<RowSpec>) -> ViewModel {
    let target = nearest_row(final_rows, anchor);
    let t = ViewModel {
        final_origin: Some((s.selected_row, target as usize, s.diff_scroll)),
        final_view: true,
        selected_row: target as usize,
        ..s
    };
    finish_toggle(t, offset, vp, rows, final_rows)
}

/// Leaving the final view: back where it was entered when the selection did
/// not move, otherwise to the shown diff row nearest the anchor line.
pub open spec fn leave_final(s: ViewModel, offset: int, anchor: Option<u32>, vp: int, rows: Seq<RowSpec>, final_rows: Seq<RowSpec>) -> ViewModel {
    if s.final_origin is Some && s.selected_row == (s.final_origin->0).1 {
        ViewModel {
            final_view: false,
            final_origin: None,
            selected_row: (s.final_origin->0).0,
            diff_scroll: (s.final_origin->0).2,
            ..s
        }
    } else {
        let t0 = ViewModel { final_view: false, final_origin: None, ..s };
        let ix = deduped_rows(view_lines(t0, rows, final_rows));
        let target: u32 = match anchor {
            Some(l) => l,
            None => 1,
        };
        let t = ViewModel { selected_row: nearest_listed_row(rows, ix, target) as usize, ..t0 };
        finish_toggle(t, offset, vp, rows, final_rows)
    }
}

/// `h` in unified view: switches between the diff and the final source. The
/// selection moves to the row nearest the selected new line and keeps its
/// place in the viewport; leaving the final view where it was entered
/// restores the diff selection and scroll.
pub open spec fn toggle_final_step(s: ViewModel, vp: int, rows: Seq<RowSpec>, final_rows: Seq<RowSpec>) -> ViewModel {
    let offset = toggle_offset(s, vp, rows, final_rows);
    let anchor = final_anchor(active_rows(s, rows, final_rows), s.selected_row as nat);
    if !s.final_view {
        enter_final(s, offset, anchor, vp, rows, final_rows)
    } else {
        leave_final(s, offset, anchor, vp, rows, final_rows)
    }
}

fn finish_toggle_exec(state: &mut ViewState, offset: usize, vp: u16, rows: &[DiffRow], final_rows: &[DiffRow])
    ensures
        final(state)@ == finish_toggle(old(state)@, offset as int, vp as int, rows_spec(rows@), rows_spec(final_rows@)),
{
    let lines = view_lines_of(state, rows, final_rows);
    let position = selected_line_position(lines.as_slice(), state.selected_row);
    let back = position.saturating_sub(offset);
    state.diff_scroll = clamp(back, lines.len(), vp);
}

fn enter_final_exec(state: &mut ViewState, offset: usize, anchor: Option<u32>, vp: u16, rows: &[DiffRow], final_rows: &[DiffRow])
    ensures
        final(state)@ == enter_final(old(state)@, offset as int, anchor, vp as int, rows_spec(rows@), rows_spec(final_rows@)),
{
    let target = nearest_source_row(final_rows, anchor);
    state.final_origin = Some((state.selected_row, target, state.diff_scroll));
    state.final_view = true;
    state.selected_row = target;
    finish_toggle_exec(state, offset, vp, rows, final_rows);
}

fn leave_final_exec(state: &mut ViewState, offset: usize, anchor: Option<u32>, vp: u16, rows: &[DiffRow], final_rows: &[DiffRow])
    ensures
        final(state)@ == leave_final(old(state)@, offset as int, anchor, vp as int, rows_spec(rows@), rows_spec(final_rows@)),
{
    match state.final_origin {
        Some((original, target, scroll)) => {
            if state.selected_row == target {
                state.final_view = false;
                state.final_origin = None;
                state.selected_row = original;
                state.diff_scroll = scroll;
                return;
            }
        },
        None => {},
    }
    state.final_view = false;
    state.final_origin = None;
    let diff_lines = view_lines_of(state, rows, final_rows);
    let ix = dedupe_row_indices(diff_lines.as_slice());
    let n = rows.len();
    proof {
        assert(rows_spec(rows@).len() == n);
        lemma_layout_rows_exist(rows_spec(rows@), state.show_unchanged, state.diff_mode);
        lemma_deduped_below(diff_lines@, rows@.len());
    }
    let target: u32 = match anchor {
        Some(l) => l,
        None => 1,
    };
    state.selected_row = nearest_listed(rows, ix.as_slice(), target);
    finish_toggle_exec(state, offset, vp, rows, final_rows);
}

/// Switches between the diff and the final source of the file.
pub fn toggle_final_view(state: &mut ViewState, vp: u16, rows: &[DiffRow], final_rows: &[DiffRow])
    ensures
        final(state)@ == toggle_final_step(old(state)@, vp as int, rows_spec(rows@), rows_spec(final_rows@)),
{
    let lines = view_lines_of(state, rows, final_rows);
    let pos = selected_line_position(lines.as_slice(), state.selected_row);
    let d = pos.saturating_sub(state.diff_scroll);
    let top = (vp as usize).saturating_sub(1);
    let offset = if d <= top { d } else { top };
    let anchor = if state.final_view {
        anchor_line(final_rows, state.selected_row)
    } else {
        anchor_line(rows, state.selected_row)
    };
    if !state.final_view {
        enter_final_exec(state, offset, anchor, vp, rows, final_rows);
    } else {
        leave_final_exec(state, offset, anchor, vp, rows, final_rows);
    }
}

/// First changed row at or after `k`, or -1.
pub open spec fn first_changed_from(rows: Seq<RowSpec>, k: nat) -> int
    decreases rows.len() - k,
{
    if k >= rows.len() {
        -1
    } else if rows[k as int].changed() {
        k as int
    } else {
        first_changed_from(rows, k + 1)
    }
}

/// Last changed row before `k`, or -1.
pub open spec fn last_changed_before(rows: Seq<RowSpec>, k: nat) -> int
    decreases k,
{
    if k == 0 || k > rows.len() {
        -1
    } else if rows[k - 1].changed() {
        k - 1
    } else {
        last_changed_before(rows, (k - 1) as nat)
    }
}

proof fn lemma_first_changed_from(rows: Seq<RowSpec>, k: nat)
    ensures
        first_changed_from(rows, k) == -1 ==> forall|j: int| k <= j < rows.len() ==> !(#[trigger] rows[j]).changed(),
        first_changed_from(rows, k) != -1 ==> {
            &&& k <= first_changed_from(rows, k) < rows.len()
            &&& rows[first_changed_from(rows, k)].changed()
            &&& forall|j: int| k <= j < first_changed_from(rows, k) ==> !(#[trigger] rows[j]).changed()
        },
    decreases rows.len() - k,
{
    if k < rows.len() && !rows[k as int].changed() {
        lemma_first_changed_from(rows, k + 1);
    }
}

proof fn lemma_last_changed_before(rows: Seq<RowSpec>, k: nat)
    requires
        k <= rows.len(),
    ensures
        last_changed_before(rows, k) == -1 ==> forall|j: int| 0 <= j < k ==> !(#[trigger] rows[j]).changed(),
        last_changed_before(rows, k) != -1 ==> {
            &&& 0 <= last_changed_before(rows, k) < k
            &&& rows[last_changed_before(rows, k)].changed()
            &&& forall|j: int| last_changed_before(rows, k) < j < k ==> !(#[trigger] rows[j]).changed()
        },
    decreases k,
{
    if k > 0 && !rows[k - 1].changed() {
        lemma_last_changed_before(rows, (k - 1) as nat);
    }
}

/// The next changed row after `sel`, or the previous one before it; -1 when
/// there is none.
pub open spec fn adjacent_change(rows: Seq<RowSpec>, sel: usize, forward: bool) -> int {
    if forward {
        first_changed_from(rows, sel as nat + 1)
    } else {
        last_changed_before(rows, if sel < rows.len() { sel as nat } else { rows.len() })
    }
}

fn adjacent_change_exec(rows: &[DiffRow], sel: usize, forward: bool) -> (r: Option<usize>)
    ensures
        match r {
            Some(j) => adjacent_change(rows_spec(rows@), sel, forward) == j as int,
            None => adjacent_change(rows_spec(rows@), sel, forward) == -1,
        },
{
    let ghost rs = rows_spec(rows@);
    let r = adjacent_changed_row(rows, sel, forward);
    proof {
        assert(rs.len() == rows@.len());
        assert forall|j: int| 0 <= j < rs.len() implies (#[trigger] rs[j]).changed() == rows@[j].view().changed() by {}
        if forward {
            lemma_first_changed_from(rs, sel as nat + 1);
            let f = first_changed_from(rs, sel as nat + 1);
            match r {
                Some(j) => {
                    assert(rs[j as int].changed());
                    if f != j as int {
                        if f == -1 {
                            assert(!rs[j as int].changed());
                        } else if f < j {
                            assert(!rows@[f].view().changed());
                        } else {
                            assert(!rs[j as int].changed());
                        }
                    }
                },
                None => {
                    if f != -1 {
                        assert(!rows@[f].view().changed());
                    }
                },
            }
        } else {
            let k: nat = if sel < rs.len() { sel as nat } else { rs.len() };
            lemma_last_changed_before(rs, k);
            let f = last_changed_before(rs, k);
            match r {
                Some(j) => {
                    assert(rs[j as int].changed());
                    if f != j as int {
                        if f == -1 {
                            assert(!rs[j as int].changed());
                        } else if f > j {
                            assert(!rows@[f].view().changed());
                        } else {
                            assert(!rs[j as int].changed());
                        }
                    }
                },
                None => {
                    if f != -1 {
                        assert(!rows@[f].view().changed());
                    }
                },
            }
        }
    }
    r
}

fn first_changed_row(rows: &[DiffRow]) -> (r: Option<usize>)
    ensures
        match r {
            Some(j) => first_changed_from(rows_spec(rows@), 0) == j as int,
            None => first_changed_from(rows_spec(rows@), 0) == -1,
        },
{
    let ghost rs = rows_spec(rows@);
    let mut k: usize = 0;
    while k < rows.len()
        invariant
            rs == rows_spec(rows@),
            rs.len() == rows@.len(),
            k <= rows@.len(),
            first_changed_from(rs, 0) == first_changed_from(rs, k as nat),
        decreases rows@.len() - k,
    {
        if rows[k].is_changed() {
            return Some(k);
        }
        k = k + 1;
    }
    None
}

fn contains_index(ix: &[usize], x: usize) -> (r: bool)
    ensures
        r == ix@.contains(x),
{
    let mut k: usize = 0;
    while k < ix.len()
        invariant
            k <= ix@.len(),
            forall|j: int| 0 <= j < k ==> ix@[j] != x,
        decreases ix@.len() - k,
    {
        if ix[k] == x {
            assert(ix@[k as int] == x);
            return true;
        }
        k = k + 1;
    }
    false
}

/// `i` in the diff: unchanged rows are shown or hidden; a selection that gets
/// hidden moves to the first changed row, and the view returns to the top.
pub open spec fn unchanged_toggle_step(s: ViewModel, rows: Seq<RowSpec>, final_rows: Seq<RowSpec>) -> ViewModel {
    let t = ViewModel { show_unchanged: !s.show_unchanged, ..s };
    let hidden = !t.show_unchanged && !deduped_rows(view_lines(t, rows, final_rows)).contains(s.selected_row);
    let f = first_changed_from(rows, 0);
    ViewModel {
        selected_row: if hidden { if f < 0 { 0 } else { f as usize } } else { s.selected_row },
        diff_scroll: 0,
        ..t
    }
}

/// Shows or hides unchanged rows in the diff.
pub fn toggle_unchanged(state: &mut ViewState, rows: &[DiffRow], final_rows: &[DiffRow])
    ensures
        final(state)@ == unchanged_toggle_step(old(state)@, rows_spec(rows@), rows_spec(final_rows@)),
{
    let selected = state.selected_row;
    state.show_unchanged = !state.show_unchanged;
    let hidden = if state.show_unchanged {
        false
    } else {
        let lines = view_lines_of(state, rows, final_rows);
        let ix = dedupe_row_indices(lines.as_slice());
        !contains_index(ix.as_slice(), selected)
    };
    if hidden {
        state.selected_row = match first_changed_row(rows) {
            Some(j) => j,
            None => 0,
        };
    }
    state.diff_scroll = 0;
}

/// Notices shown in the footer after a key.
#[derive(Clone, Copy, Debug, PartialEq, Eq, Structural)]
pub enum Notice {
    DeleteCancelled,
    ShowingUnchanged,
    HidingUnchanged,
}

/// Work a key asks of the application beyond the view state.
#[derive(Clone, Copy, Debug, PartialEq, Eq, Structural)]
pub enum KeyAction {
    Nothing,
    Quit,
    DeleteAllComments,
    DeleteSelectedComment,
    CopyComment,
    Refresh,
    SetDiffMode(DiffMode),
    /// Open the file with this index, from the file search.
    SelectFile(usize),
    /// Save the submitted text as a comment on the selected line.
    SubmitComment,
    /// Save the submitted text as a filter glob.
    SubmitFilter,
    RemoveFilter(usize),
    /// Load the diff of the selected file.
    OpenSelectedFile,
    /// Load the diff of the selected file, then focus the diff panel once
    /// the load is under way.
    OpenSelectedFileAndFocus,
    ToggleSelectedDirectory,
    /// Move to the neighbouring changed file; `from_change` when change
    /// navigation ran past the first or last change of the file.
    AdjacentFile { forward: bool, from_change: bool },
    Notice(Notice),
}

/// What a key press asks of the application: an action, the text submitted
/// from a prompt, and whether scrollbars should be revealed.
pub struct KeyOutcome {
    pub action: KeyAction,
    pub text: Vec<char>,
    pub reveal_scrollbars: bool,
}

/// Mathematical content of a [`KeyOutcome`].
pub struct KeyOutcomeModel {
    pub action: KeyAction,
    pub text: Seq<char>,
    pub reveal_scrollbars: bool,
}

impl View for KeyOutcome {
    type V = KeyOutcomeModel;

    open spec fn view(&self) -> KeyOutcomeModel {
        KeyOutcomeModel { action: self.action, text: self.text@, reveal_scrollbars: self.reveal_scrollbars }
    }
}

pub open spec fn outcome(action: KeyAction, reveal: bool) -> KeyOutcomeModel {
    KeyOutcomeModel { action, text: Seq::empty(), reveal_scrollbars: reveal }
}

fn outcome_exec(action: KeyAction, reveal: bool) -> (r: KeyOutcome)
    ensures
        r@ == outcome(action, reveal),
{
    KeyOutcome { action, text: Vec::new(), reveal_scrollbars: reveal }
}

/// `[`/`]`: the diff tab gets the focus (leaving the final view), and the
/// selection moves to the adjacent changed row; past the first or last change
/// the neighbouring file is asked for.
pub open spec fn change_step(s: ViewModel, forward: bool, vp: int, rows: Seq<RowSpec>, final_rows: Seq<RowSpec>) -> (ViewModel, KeyAction) {
    let t0 = ViewModel { right_tab: RightTab::Diff, ..focus_on(s, Focus::Right) };
    let t1 = if t0.final_view { toggle_final_step(t0, vp, rows, final_rows) } else { t0 };
    let j = adjacent_change(rows, t1.selected_row, forward);
    if j >= 0 {
        (
            ViewModel {
                selected_row: j as usize,
                diff_selection_active: true,
                diff_scroll: scroll_to_show(view_lines(t1, rows, final_rows), j as usize, t1.diff_scroll as int, vp) as usize,
                ..t1
            },
            KeyAction::Nothing,
        )
    } else {
        (t1, KeyAction::AdjacentFile { forward, from_change: true })
    }
}

/// Focus on `target`; another panel than the focused one leaves the
/// maximized layout.
pub open spec fn focus_on(s: ViewModel, target: Focus) -> ViewModel {
    ViewModel { focus: target, maximized_panel: if s.focus != target { None } else { s.maximized_panel }, ..s }
}

fn focus_on_exec(state: &mut ViewState, target: Focus)
    ensures
        final(state)@ == focus_on(old(state)@, target),
{
    if state.focus != target {
        state.maximized_panel = None;
        state.focus = target;
    }
}

fn select_change(state: &mut ViewState, forward: bool, vp: u16, rows: &[DiffRow], final_rows: &[DiffRow]) -> (r: KeyAction)
    ensures
        ({
            let t1 = old(state)@;
            let rs = rows_spec(rows@);
            let j = adjacent_change(rs, t1.selected_row, forward);
            (final(state)@, r) == if j >= 0 {
                (
                    ViewModel {
                        selected_row: j as usize,
                        diff_selection_active: true,
                        diff_scroll: scroll_to_show(view_lines(t1, rs, rows_spec(final_rows@)), j as usize, t1.diff_scroll as int, vp as int) as usize,
                        ..t1
                    },
                    KeyAction::Nothing,
                )
            } else {
                (t1, KeyAction::AdjacentFile { forward, from_change: true })
            }
        }),
{
    match adjacent_change_exec(rows, state.selected_row, forward) {
        Some(j) => {
            let lines = view_lines_of(state, rows, final_rows);
            let scroll = scroll_into_view(lines.as_slice(), j, state.diff_scroll, vp);
            state.selected_row = j;
            state.diff_selection_active = true;
            state.diff_scroll = scroll;
            KeyAction::Nothing
        },
        None => KeyAction::AdjacentFile { forward, from_change: true },
    }
}

/// Moves the diff selection to the adjacent changed row.
pub fn move_change_selection(state: &mut ViewState, forward: bool, vp: u16, rows: &[DiffRow], final_rows: &[DiffRow]) -> (r: KeyAction)
    ensures
        (final(state)@, r) == change_step(old(state)@, forward, vp as int, rows_spec(rows@), rows_spec(final_rows@)),
{
    focus_on_exec(state, Focus::Right);
    state.right_tab = RightTab::Diff;
    if state.final_view {
        toggle_final_view(state, vp, rows, final_rows);
    }
    select_change(state, forward, vp, rows, final_rows)
}

/// Horizontal diff scroll after one step left or right within `max`.
pub open spec fn horizontal_step(h: u16, right: bool, max: u16) -> u16 {
    let cur = if h <= max { h } else { max };
    if right {
        if cur + 4 <= max { (cur + 4) as u16 } else { max }
    } else {
        if cur >= 4 { (cur - 4) as u16 } else { 0 }
    }
}

/// Scrolls the diff horizontally by one step.
pub fn move_diff_horizontally(h: u16, right: bool, max: u16) -> (r: u16)
    ensures
        r == horizontal_step(h, right, max),
{
    let cur = if h <= max { h } else { max };
    if right {
        let next = cur.saturating_add(4);
        if next <= max { next } else { max }
    } else {
        cur.saturating_sub(4)
    }
}

/// A key as the session sees it.
#[derive(Clone, Copy, Debug, PartialEq, Eq, Structural)]
pub enum Key {
    Char(char),
    Esc,
    Enter,
    Tab,
    Backspace,
    Up,
    Down,
    Left,
    Right,
    Other,
}

/// What a key press needs to know beyond the view state: list lengths, the
/// file under the tree selection, and the diff geometry of the terminal.
#[derive(Clone, Copy, Debug, PartialEq, Eq, Structural)]
pub struct KeyEnv {
    pub tree_len: usize,
    pub selected_file_index: Option<usize>,
    pub filter_count: usize,
    pub ignored_count: usize,
    pub comment_count: usize,
    pub viewport_height: u16,
    pub max_horizontal_scroll: u16,
    pub terminal_width: u16,
}

fn step(current: usize, len: usize, down: bool) -> (r: usize)
    ensures
        r == selection_step(current as int, len as int, down),
{
    if len == 0 {
        current
    } else if down {
        if current < len - 1 { current + 1 } else { len - 1 }
    } else {
        if current == 0 { 0 } else { current - 1 }
    }
}

/// Up/Down move the selection of the focused list.
pub open spec fn list_step(s: ViewModel, down: bool, env: KeyEnv, rows: Seq<RowSpec>, final_rows: Seq<RowSpec>) -> ViewModel {
    match s.focus {
        Focus::Files => ViewModel {
            selected_file: selection_step(s.selected_file as int, env.tree_len as int, down) as usize,
            ..s
        },
        Focus::Filters => if s.filter_tab == FilterTab::Filters {
            ViewModel {
                selected_filter: selection_step(s.selected_filter as int, env.filter_count as int, down) as usize,
                ..s
            }
        } else {
            ViewModel {
                selected_ignored: selection_step(s.selected_ignored as int, env.ignored_count as int, down) as usize,
                ..s
            }
        },
        Focus::Right => if s.right_tab == RightTab::Diff {
            diff_selection_step(s, down, env.viewport_height as int, rows, final_rows)
        } else {
            ViewModel {
                selected_comment: selection_step(s.selected_comment as int, env.comment_count as int, down) as usize,
                ..s
            }
        },
    }
}

fn list_step_exec(state: &mut ViewState, down: bool, env: KeyEnv, rows: &[DiffRow], final_rows: &[DiffRow])
    ensures
        final(state)@ == list_step(old(state)@, down, env, rows_spec(rows@), rows_spec(final_rows@)),
{
    match state.focus {
        Focus::Files => {
            state.selected_file = step(state.selected_file, env.tree_len, down);
        },
        Focus::Filters => {
            if state.filter_tab == FilterTab::Filters {
                state.selected_filter = step(state.selected_filter, env.filter_count, down);
            } else {
                state.selected_ignored = step(state.selected_ignored, env.ignored_count, down);
            }
        },
        Focus::Right => {
            if state.right_tab == RightTab::Diff {
                move_diff_selection(state, down, env.viewport_height, rows, final_rows);
            } else {
                state.selected_comment = step(state.selected_comment, env.comment_count, down);
            }
        },
    }
}

/// An empty prompt of the given kind.
pub open spec fn prompt(kind: InputKind) -> Option<InputModel> {
    Some(InputModel { kind, value: Seq::empty(), selected: 0 })
}

/// Keys in the file search: Esc closes it, Enter opens the selected match,
/// arrows move through the matches, typing edits the query and selects the
/// best match again.
pub open spec fn search_key_step(s: ViewModel, key: Key, matches: Seq<usize>) -> (ViewModel, KeyOutcomeModel) {
    let inp = s.input->0;
    if key == Key::Esc {
        (ViewModel { input: None, ..s }, outcome(KeyAction::Nothing, false))
    } else if key == Key::Enter {
        if inp.selected < matches.len() {
            (ViewModel { input: None, ..s }, outcome(KeyAction::SelectFile(matches[inp.selected as int]), false))
        } else {
            (s, outcome(KeyAction::Nothing, false))
        }
    } else if key == Key::Down || key == Key::Up {
        (
            ViewModel {
                input: Some(
                    InputModel {
                        selected: selection_step(inp.selected as int, matches.len() as int, key == Key::Down) as usize,
                        ..inp
                    },
                ),
                ..s
            },
            outcome(KeyAction::Nothing, true),
        )
    } else if key == Key::Backspace {
        (
            ViewModel {
                input: Some(
                    InputModel {
                        value: if inp.value.len() > 0 { inp.value.drop_last() } else { inp.value },
                        selected: 0,
                        ..inp
                    },
                ),
                ..s
            },
            outcome(KeyAction::Nothing, false),
        )
    } else if key is Char {
        (
            ViewModel { input: Some(InputModel { value: inp.value.push(key->Char_0), selected: 0, ..inp }), ..s },
            outcome(KeyAction::Nothing, false),
        )
    } else {
        (s, outcome(KeyAction::Nothing, false))
    }
}

/// Keys in the comment and filter prompts: Esc cancels, Enter submits text
/// that is not blank, Backspace and typing edit it.
pub open spec fn input_key_step(s: ViewModel, key: Key) -> (ViewModel, KeyOutcomeModel) {
    let inp = s.input->0;
    if key == Key::Esc {
        (ViewModel { input: None, ..s }, outcome(KeyAction::Nothing, false))
    } else if key == Key::Enter {
        if trim(inp.value).len() == 0 {
            (ViewModel { input: None, ..s }, outcome(KeyAction::Nothing, false))
        } else {
            (
                ViewModel { input: None, ..s },
                KeyOutcomeModel {
                    action: if inp.kind == InputKind::Comment { KeyAction::SubmitComment } else { KeyAction::SubmitFilter },
                    text: inp.value,
                    reveal_scrollbars: false,
                },
            )
        }
    } else if key == Key::Backspace {
        (
            ViewModel {
                input: Some(InputModel { value: if inp.value.len() > 0 { inp.value.drop_last() } else { inp.value }, ..inp }),
                ..s
            },
            outcome(KeyAction::Nothing, false),
        )
    } else if key is Char {
        (ViewModel { input: Some(InputModel { value: inp.value.push(key->Char_0), ..inp }), ..s }, outcome(KeyAction::Nothing, false))
    } else {
        (s, outcome(KeyAction::Nothing, false))
    }
}

fn edit_query(input: &mut Input, key: Key)
    ensures
        final(input).kind == old(input).kind,
        final(input).selected == (if key == Key::Backspace || key is Char { 0 } else { old(input).selected }),
        final(input).value@ == if key == Key::Backspace {
            if old(input).value@.len() > 0 { old(input).value@.drop_last() } else { old(input).value@ }
        } else if key is Char {
            old(input).value@.push(key->Char_0)
        } else {
            old(input).value@
        },
{
    match key {
        Key::Backspace => {
            input.value.pop();
            input.selected = 0;
        },
        Key::Char(c) => {
            input.value.push(c);
            input.selected = 0;
        },
        _ => {},
    }
}

fn search_key(state: &mut ViewState, key: Key, matches: &[usize]) -> (r: KeyOutcome)
    requires
        old(state).input is Some,
    ensures
        (final(state)@, r@) == search_key_step(old(state)@, key, matches@),
{
    let mut input = match state.input.take() {
        Some(i) => i,
        None => {
            return outcome_exec(KeyAction::Nothing, false);
        },
    };
    if key == Key::Esc {
        return outcome_exec(KeyAction::Nothing, false);
    }
    if key == Key::Enter {
        if input.selected < matches.len() {
            return outcome_exec(KeyAction::SelectFile(matches[input.selected]), false);
        }
        state.input = Some(input);
        return outcome_exec(KeyAction::Nothing, false);
    }
    if key == Key::Down || key == Key::Up {
        input.selected = step(input.selected, matches.len(), key == Key::Down);
        state.input = Some(input);
        return outcome_exec(KeyAction::Nothing, true);
    }
    edit_query(&mut input, key);
    state.input = Some(input);
    outcome_exec(KeyAction::Nothing, false)
}

fn input_key(state: &mut ViewState, key: Key) -> (r: KeyOutcome)
    requires
        old(state).input is Some,
    ensures
        (final(state)@, r@) == input_key_step(old(state)@, key),
{
    let mut input = match state.input.take() {
        Some(i) => i,
        None => {
            return outcome_exec(KeyAction::Nothing, false);
        },
    };
    let ghost before = input.value@;
    if key == Key::Esc {
        return outcome_exec(KeyAction::Nothing, false);
    }
    if key == Key::Enter {
        if trim_chars(input.value.as_slice()).len() == 0 {
            return outcome_exec(KeyAction::Nothing, false);
        }
        let action = if input.kind == InputKind::Comment { KeyAction::SubmitComment } else { KeyAction::SubmitFilter };
        return KeyOutcome { action, text: input.value, reveal_scrollbars: false };
    }
    match key {
        Key::Backspace => {
            input.value.pop();
            assert(input.value@ == (if before.len() > 0 { before.drop_last() } else { before }));
        },
        Key::Char(c) => {
            input.value.push(c);
        },
        _ => {},
    }
    state.input = Some(input);
    outcome_exec(KeyAction::Nothing, false)
}

/// Keys outside prompts and dialogs.
pub open spec fn main_key_step(s: ViewModel, key: Key, env: KeyEnv, rows: Seq<RowSpec>, final_rows: Seq<RowSpec>) -> (ViewModel, KeyOutcomeModel) {
    let vp = env.viewport_height as int;
    let none = outcome(KeyAction::Nothing, false);
    if key == Key::Char('q') {
        (s, outcome(KeyAction::Quit, false))
    } else if key == Key::Esc {
        (if s.right_tab == RightTab::Diff { ViewModel { diff_selection_active: false, ..s } } else { s }, none)
    } else if key == Key::Char('?') {
        (ViewModel { show_help: true, ..s }, none)
    } else if key == Key::Char('/') {
        (ViewModel { input: prompt(InputKind::FileSearch), ..s }, none)
    } else if key == Key::Tab {
        let tabs = tab_press(s.focus, s.right_tab, s.filter_tab);
        (ViewModel { right_tab: tabs.0, filter_tab: tabs.1, ..s }, none)
    } else if key == Key::Char('h') {
        if s.right_tab == RightTab::Diff && s.diff_mode == DiffMode::Unified {
            (toggle_final_step(s, vp, rows, final_rows), none)
        } else {
            (focus_on(s, Focus::Files), none)
        }
    } else if key == Key::Char('l') {
        (focus_on(s, Focus::Right), none)
    } else if key == Key::Char('<') || key == Key::Char('>') {
        (ViewModel { divider: resized_divider(s.divider, s.focus, key == Key::Char('>'), env.terminal_width), ..s }, none)
    } else if key == Key::Char('[') || key == Key::Char(']') {
        let moved = change_step(s, key == Key::Char(']'), vp, rows, final_rows);
        (moved.0, outcome(moved.1, true))
    } else if key == Key::Char('{') || key == Key::Char('}') {
        (s, outcome(KeyAction::AdjacentFile { forward: key == Key::Char('}'), from_change: false }, false))
    } else if key == Key::Char('1') || key == Key::Char('2') || key == Key::Char('3') {
        let panel: u8 = if key == Key::Char('1') { 1 } else if key == Key::Char('2') { 2 } else { 3 };
        let pressed = panel_press(panel, s.focus, s.maximized_panel);
        (ViewModel { focus: pressed.0, maximized_panel: pressed.1, ..s }, none)
    } else if key == Key::Char('f') {
        (focus_on(s, Focus::Files), none)
    } else if key == Key::Char('d') || key == Key::Char('D') {
        if s.focus == Focus::Right && s.right_tab == RightTab::Comments {
            if key == Key::Char('d') {
                (s, outcome(KeyAction::DeleteSelectedComment, false))
            } else {
                (ViewModel { confirm_delete_all: true, ..s }, none)
            }
        } else {
            (s, none)
        }
    } else if key == Key::Char('u') {
        (s, outcome(KeyAction::SetDiffMode(DiffMode::Unified), false))
    } else if key == Key::Char('s') {
        (s, outcome(KeyAction::SetDiffMode(DiffMode::SideBySide), false))
    } else if key == Key::Char('i') {
        if s.right_tab == RightTab::Diff && !s.final_view {
            let t = unchanged_toggle_step(s, rows, final_rows);
            (
                t,
                outcome(
                    KeyAction::Notice(if t.show_unchanged { Notice::ShowingUnchanged } else { Notice::HidingUnchanged }),
                    false,
                ),
            )
        } else {
            (s, none)
        }
    } else if key == Key::Char('r') {
        (s, outcome(KeyAction::Refresh, false))
    } else if key == Key::Char('c') {
        (if s.right_tab == RightTab::Diff { ViewModel { input: prompt(InputKind::Comment), ..s } } else { s }, none)
    } else if key == Key::Char('a') || key == Key::Char('x') {
        if s.focus == Focus::Filters && s.filter_tab == FilterTab::Filters {
            if key == Key::Char('a') {
                (ViewModel { input: prompt(InputKind::Filter), ..s }, none)
            } else if s.selected_filter < env.filter_count {
                (s, outcome(KeyAction::RemoveFilter(s.selected_filter), false))
            } else {
                (s, none)
            }
        } else {
            (s, none)
        }
    } else if key == Key::Char('y') {
        (s, if s.right_tab == RightTab::Comments { outcome(KeyAction::CopyComment, false) } else { none })
    } else if key == Key::Down || key == Key::Up {
        (list_step(s, key == Key::Down, env, rows, final_rows), outcome(KeyAction::Nothing, true))
    } else if key == Key::Left || key == Key::Right {
        if s.focus == Focus::Right && s.right_tab == RightTab::Diff {
            (
                ViewModel {
                    diff_horizontal_scroll: horizontal_step(s.diff_horizontal_scroll, key == Key::Right, env.max_horizontal_scroll),
                    ..s
                },
                outcome(KeyAction::Nothing, true),
            )
        } else {
            (s, none)
        }
    } else if key == Key::Enter && s.focus == Focus::Files {
        if env.selected_file_index is Some {
            (s, outcome(KeyAction::OpenSelectedFileAndFocus, false))
        } else {
            (s, outcome(KeyAction::ToggleSelectedDirectory, false))
        }
    } else {
        (s, none)
    }
}

/// A key press: the help overlay and the delete-all confirmation take keys
/// first, then an open prompt, then the panels.
pub open spec fn key_step(s: ViewModel, key: Key, env: KeyEnv, matches: Seq<usize>, rows: Seq<RowSpec>, final_rows: Seq<RowSpec>) -> (ViewModel, KeyOutcomeModel) {
    let none = outcome(KeyAction::Nothing, false);
    if s.show_help {
        (
            if key == Key::Char('?') || key == Key::Esc || key == Key::Char('q') { ViewModel { show_help: false, ..s } } else { s },
            none,
        )
    } else if s.confirm_delete_all {
        if key == Key::Enter {
            (ViewModel { confirm_delete_all: false, ..s }, outcome(KeyAction::DeleteAllComments, false))
        } else if key == Key::Esc {
            (ViewModel { confirm_delete_all: false, ..s }, outcome(KeyAction::Notice(Notice::DeleteCancelled), false))
        } else {
            (s, none)
        }
    } else if s.input is Some {
        if (s.input->0).kind == InputKind::FileSearch {
            search_key_step(s, key, matches)
        } else {
            input_key_step(s, key)
        }
    } else {
        main_key_step(s, key, env, rows, final_rows)
    }
}

fn open_prompt(state: &mut ViewState, kind: InputKind)
    ensures
        final(state)@ == (ViewModel { input: prompt(kind), ..old(state)@ }),
{
    state.input = Some(Input { kind, value: Vec::new(), selected: 0 });
}

fn layout_key(state: &mut ViewState, key: Key, env: KeyEnv) -> (r: bool)
    ensures
        r == (key == Key::Tab || key == Key::Char('l') || key == Key::Char('<') || key == Key::Char('>')
            || key == Key::Char('1') || key == Key::Char('2') || key == Key::Char('3') || key == Key::Char('f')),
        r ==> (final(state)@, outcome(KeyAction::Nothing, false)) == main_key_step(old(state)@, key, env, Seq::empty(), Seq::empty()),
        !r ==> final(state)@ == old(state)@,
{
    match key {
        Key::Tab => {
            cycle_focused_panel_tab(state.focus, &mut state.right_tab, &mut state.filter_tab);
            true
        },
        Key::Char('l') => {
            focus_on_exec(state, Focus::Right);
            true
        },
        Key::Char('f') => {
            focus_on_exec(state, Focus::Files);
            true
        },
        Key::Char('<') => {
            resize_focused_panel(&mut state.divider, state.focus, false, env.terminal_width);
            true
        },
        Key::Char('>') => {
            resize_focused_panel(&mut state.divider, state.focus, true, env.terminal_width);
            true
        },
        Key::Char('1') => {
            activate_numbered_panel(1, &mut state.focus, &mut state.maximized_panel);
            true
        },
        Key::Char('2') => {
            activate_numbered_panel(2, &mut state.focus, &mut state.maximized_panel);
            true
        },
        Key::Char('3') => {
            activate_numbered_panel(3, &mut state.focus, &mut state.maximized_panel);
            true
        },
        _ => false,
    }
}

fn command_key(state: &mut ViewState, key: Key, env: KeyEnv) -> (r: Option<KeyAction>)
    ensures
        r is Some == (key == Key::Char('q') || key == Key::Esc || key == Key::Char('?') || key == Key::Char('/')
            || key == Key::Char('{') || key == Key::Char('}') || key == Key::Char('d') || key == Key::Char('D')
            || key == Key::Char('u') || key == Key::Char('s') || key == Key::Char('r') || key == Key::Char('c')
            || key == Key::Char('a') || key == Key::Char('x') || key == Key::Char('y')),
        r is Some ==> (final(state)@, outcome(r->0, false)) == main_key_step(old(state)@, key, env, Seq::empty(), Seq::empty()),
        r is None ==> final(state)@ == old(state)@,
{
    let comments_focused = state.focus == Focus::Right && state.right_tab == RightTab::Comments;
    let filters_focused = state.focus == Focus::Filters && state.filter_tab == FilterTab::Filters;
    match key {
        Key::Char('q') => Some(KeyAction::Quit),
        Key::Esc => {
            if state.right_tab == RightTab::Diff {
                state.diff_selection_active = false;
            }
            Some(KeyAction::Nothing)
        },
        Key::Char('?') => {
            state.show_help = true;
            Some(KeyAction::Nothing)
        },
        Key::Char('/') => {
            open_prompt(state, InputKind::FileSearch);
            Some(KeyAction::Nothing)
        },
        Key::Char('{') => Some(KeyAction::AdjacentFile { forward: false, from_change: false }),
        Key::Char('}') => Some(KeyAction::AdjacentFile { forward: true, from_change: false }),
        Key::Char('d') => Some(if comments_focused { KeyAction::DeleteSelectedComment } else { KeyAction::Nothing }),
        Key::Char('D') => {
            if comments_focused {
                state.confirm_delete_all = true;
            }
            Some(KeyAction::Nothing)
        },
        Key::Char('u') => Some(KeyAction::SetDiffMode(DiffMode::Unified)),
        Key::Char('s') => Some(KeyAction::SetDiffMode(DiffMode::SideBySide)),
        Key::Char('r') => Some(KeyAction::Refresh),
        Key::Char('c') => {
            if state.right_tab == RightTab::Diff {
                open_prompt(state, InputKind::Comment);
            }
            Some(KeyAction::Nothing)
        },
        Key::Char('a') => {
            if filters_focused {
                open_prompt(state, InputKind::Filter);
            }
            Some(KeyAction::Nothing)
        },
        Key::Char('x') => Some(
            if filters_focused && state.selected_filter < env.filter_count {
                KeyAction::RemoveFilter(state.selected_filter)
            } else {
                KeyAction::Nothing
            },
        ),
        Key::Char('y') => Some(if state.right_tab == RightTab::Comments { KeyAction::CopyComment } else { KeyAction::Nothing }),
        _ => None,
    }
}

fn diff_key(state: &mut ViewState, key: Key, env: KeyEnv, rows: &[DiffRow], final_rows: &[DiffRow]) -> (r: KeyOutcome)
    requires
        !(key == Key::Tab || key == Key::Char('l') || key == Key::Char('<') || key == Key::Char('>')
            || key == Key::Char('1') || key == Key::Char('2') || key == Key::Char('3') || key == Key::Char('f')),
        !(key == Key::Char('q') || key == Key::Esc || key == Key::Char('?') || key == Key::Char('/')
            || key == Key::Char('{') || key == Key::Char('}') || key == Key::Char('d') || key == Key::Char('D')
            || key == Key::Char('u') || key == Key::Char('s') || key == Key::Char('r') || key == Key::Char('c')
            || key == Key::Char('a') || key == Key::Char('x') || key == Key::Char('y')),
    ensures
        (final(state)@, r@) == main_key_step(old(state)@, key, env, rows_spec(rows@), rows_spec(final_rows@)),
{
    let vp = env.viewport_height;
    match key {
        Key::Char('h') => {
            if state.right_tab == RightTab::Diff && state.diff_mode == DiffMode::Unified {
                toggle_final_view(state, vp, rows, final_rows);
            } else {
                focus_on_exec(state, Focus::Files);
            }
            outcome_exec(KeyAction::Nothing, false)
        },
        Key::Char('[') => {
            let action = move_change_selection(state, false, vp, rows, final_rows);
            outcome_exec(action, true)
        },
        Key::Char(']') => {
            let action = move_change_selection(state, true, vp, rows, final_rows);
            outcome_exec(action, true)
        },
        Key::Char('i') => {
            if state.right_tab == RightTab::Diff && !state.final_view {
                toggle_unchanged(state, rows, final_rows);
                let notice = if state.show_unchanged { Notice::ShowingUnchanged } else { Notice::HidingUnchanged };
                outcome_exec(KeyAction::Notice(notice), false)
            } else {
                outcome_exec(KeyAction::Nothing, false)
            }
        },
        Key::Down => {
            list_step_exec(state, true, env, rows, final_rows);
            outcome_exec(KeyAction::Nothing, true)
        },
        Key::Up => {
            list_step_exec(state, false, env, rows, final_rows);
            outcome_exec(KeyAction::Nothing, true)
        },
        Key::Left | Key::Right => {
            if state.focus == Focus::Right && state.right_tab == RightTab::Diff {
                state.diff_horizontal_scroll = move_diff_horizontally(
                    state.diff_horizontal_scroll,
                    key == Key::Right,
                    env.max_horizontal_scroll,
                );
                outcome_exec(KeyAction::Nothing, true)
            } else {
                outcome_exec(KeyAction::Nothing, false)
            }
        },
        Key::Enter => {
            if state.focus == Focus::Files {
                if env.selected_file_index.is_some() {
                    outcome_exec(KeyAction::OpenSelectedFileAndFocus, false)
                } else {
                    outcome_exec(KeyAction::ToggleSelectedDirectory, false)
                }
            } else {
                outcome_exec(KeyAction::Nothing, false)
            }
        },
        _ => outcome_exec(KeyAction::Nothing, false),
    }
}

/// Applies a key press to the view state and reports the work it asks for.
/// `matches` are the file-search results for the current query, `rows` the
/// diff of the active file and `final_rows` its final source.
pub fn handle_key(
    state: &mut ViewState,
    key: Key,
    env: KeyEnv,
    matches: &[usize],
    rows: &[DiffRow],
    final_rows: &[DiffRow],
) -> (r: KeyOutcome)
    ensures
        (final(state)@, r@) == key_step(old(state)@, key, env, matches@, rows_spec(rows@), rows_spec(final_rows@)),
{
    if state.show_help {
        if key == Key::Char('?') || key == Key::Esc || key == Key::Char('q') {
            state.show_help = false;
        }
        return outcome_exec(KeyAction::Nothing, false);
    }
    if state.confirm_delete_all {
        if key == Key::Enter {
            state.confirm_delete_all = false;
            return outcome_exec(KeyAction::DeleteAllComments, false);
        }
        if key == Key::Esc {
            state.confirm_delete_all = false;
            return outcome_exec(KeyAction::Notice(Notice::DeleteCancelled), false);
        }
        return outcome_exec(KeyAction::Nothing, false);
    }
    let searching = match &state.input {
        Some(input) => Some(input.kind == InputKind::FileSearch),
        None => None,
    };
    match searching {
        Some(true) => {
            return search_key(state, key, matches);
        },
        Some(false) => {
            return input_key(state, key);
        },
        None => {},
    }
    if layout_key(state, key, env) {
        return outcome_exec(KeyAction::Nothing, false);
    }
    match command_key(state, key, env) {
        Some(action) => outcome_exec(action, false),
        None => diff_key(state, key, env, rows, final_rows),
    }
}

/// What the mouse did.
#[derive(Clone, Copy, Debug, PartialEq, Eq, Structural)]
pub enum MouseKind {
    LeftDown,
    LeftDrag,
    LeftUp,
    ScrollDown,
    ScrollUp,
    ScrollLeft,
    ScrollRight,
    Other,
}

/// A mouse event at a terminal cell.
#[derive(Clone, Copy, Debug, PartialEq, Eq, Structural)]
pub struct MouseEvent {
    pub kind: MouseKind,
    pub column: u16,
    pub row: u16,
}

/// What a mouse event needs to know beyond the view state and the file tree.
#[derive(Clone, Copy, Debug, PartialEq, Eq, Structural)]
pub struct MouseEnv {
    pub terminal_width: u16,
    /// First row of the filters panel in the left column.
    pub filters_top: u16,
    pub filter_count: usize,
    pub ignored_count: usize,
    pub comment_count: usize,
    pub viewport_height: u16,
    pub max_horizontal_scroll: u16,
}

pub open spec fn is_scroll(kind: MouseKind) -> bool {
    kind == MouseKind::ScrollDown || kind == MouseKind::ScrollUp || kind == MouseKind::ScrollLeft
        || kind == MouseKind::ScrollRight
}

/// `index` kept within a list of `len` items (0 for an empty list).
pub open spec fn clamp_index(index: int, len: int) -> usize {
    let last = if len >= 1 { len - 1 } else { 0 };
    (if index <= last { index } else { last }) as usize
}

pub open spec fn sat_sub(a: int, b: int) -> int {
    if a >= b { a - b } else { 0 }
}

/// Diff row under screen row `row` of the diff panel (row 0 is its border).
pub open spec fn clicked_row(s: ViewModel, row: u16, vp: int, rows: Seq<RowSpec>, final_rows: Seq<RowSpec>) -> Option<usize> {
    let lines = view_lines(s, rows, final_rows);
    let k = clamp_scroll(s.diff_scroll as int, lines.len() as int, vp) + sat_sub(row as int, 1);
    if k < lines.len() { lines[k].row_of() } else { None }
}

/// A click selects the diff row under the pointer, if any.
pub open spec fn click_diff(s: ViewModel, row: u16, vp: int, rows: Seq<RowSpec>, final_rows: Seq<RowSpec>) -> ViewModel {
    match clicked_row(s, row, vp, rows, final_rows) {
        Some(i) => ViewModel { selected_row: i, diff_selection_active: true, ..s },
        None => s,
    }
}

/// A click on file tree row `index`: the row is selected, and a file row's
/// diff is loaded.
pub open spec fn click_file(s: ViewModel, index: int, tree_files: Seq<bool>) -> (ViewModel, KeyAction) {
    let sel = clamp_index(index, tree_files.len() as int);
    (
        ViewModel { selected_file: sel, ..s },
        if sel < tree_files.len() && tree_files[sel as int] { KeyAction::OpenSelectedFile } else { KeyAction::Nothing },
    )
}

/// A click on row `index` of the filters panel's focused list.
pub open spec fn click_filter(s: ViewModel, index: int, env: MouseEnv) -> ViewModel {
    if s.filter_tab == FilterTab::Filters {
        ViewModel { selected_filter: clamp_index(index, env.filter_count as int), ..s }
    } else {
        ViewModel { selected_ignored: clamp_index(index, env.ignored_count as int), ..s }
    }
}

/// Scroll wheel over the diff: three lines down or up, two columns of four
/// sideways.
pub open spec fn wheel_diff(s: ViewModel, kind: MouseKind, env: MouseEnv, rows: Seq<RowSpec>, final_rows: Seq<RowSpec>) -> ViewModel {
    if kind == MouseKind::ScrollDown {
        let next = if s.diff_scroll + 3 > usize::MAX { usize::MAX as int } else { s.diff_scroll + 3 };
        ViewModel {
            diff_scroll: clamp_scroll(next, view_lines(s, rows, final_rows).len() as int, env.viewport_height as int) as usize,
            ..s
        }
    } else if kind == MouseKind::ScrollUp {
        ViewModel { diff_scroll: sat_sub(s.diff_scroll as int, 3) as usize, ..s }
    } else if kind == MouseKind::ScrollLeft || kind == MouseKind::ScrollRight {
        ViewModel {
            diff_horizontal_scroll: horizontal_step(
                s.diff_horizontal_scroll,
                kind == MouseKind::ScrollRight,
                env.max_horizontal_scroll,
            ),
            ..s
        }
    } else {
        s
    }
}

/// A click on a tab title `column` cells into a panel's top border: the first
/// tab spans 16 cells, the second the next 11.
pub open spec fn tab_hit(column: int) -> Option<bool> {
    if column < 16 { Some(true) } else if column < 27 { Some(false) } else { None }
}

/// Mouse events while `panel` fills the screen.
pub open spec fn maximized_mouse_step(
    s: ViewModel,
    panel: Focus,
    ev: MouseEvent,
    env: MouseEnv,
    tree_files: Seq<bool>,
    rows: Seq<RowSpec>,
    final_rows: Seq<RowSpec>,
) -> (ViewModel, KeyAction) {
    let vp = env.viewport_height as int;
    if ev.kind == MouseKind::LeftDown {
        match panel {
            Focus::Files => if ev.row > 0 {
                click_file(s, ev.row - 1, tree_files)
            } else {
                (s, KeyAction::Nothing)
            },
            Focus::Filters => if ev.row == 0 {
                (
                    match tab_hit(ev.column as int) {
                        Some(first) => ViewModel {
                            filter_tab: if first { FilterTab::Filters } else { FilterTab::Ignored },
                            ..s
                        },
                        None => s,
                    },
                    KeyAction::Nothing,
                )
            } else {
                (click_filter(s, ev.row - 1, env), KeyAction::Nothing)
            },
            Focus::Right => if ev.row == 0 {
                (
                    match tab_hit(ev.column as int) {
                        Some(first) => ViewModel { right_tab: if first { RightTab::Diff } else { RightTab::Comments }, ..s },
                        None => s,
                    },
                    KeyAction::Nothing,
                )
            } else if s.right_tab == RightTab::Diff {
                (click_diff(s, ev.row, vp, rows, final_rows), KeyAction::Nothing)
            } else {
                (
                    ViewModel { selected_comment: clamp_index(ev.row - 1, env.comment_count as int), ..s },
                    KeyAction::Nothing,
                )
            },
        }
    } else if is_scroll(ev.kind) && panel == Focus::Right && s.right_tab == RightTab::Diff {
        (wheel_diff(s, ev.kind, env, rows, final_rows), KeyAction::Nothing)
    } else {
        (s, KeyAction::Nothing)
    }
}

/// Mouse events in the normal layout: the divider can be dragged, clicks
/// focus panels, pick tabs and select list items, and the wheel scrolls the
/// diff.
pub open spec fn normal_mouse_step(
    s: ViewModel,
    ev: MouseEvent,
    env: MouseEnv,
    tree_files: Seq<bool>,
    rows: Seq<RowSpec>,
    final_rows: Seq<RowSpec>,
) -> (ViewModel, KeyAction) {
    let vp = env.viewport_height as int;
    let divider = divider_for(s.divider, env.terminal_width) as int;
    let near_divider = (if ev.column >= divider { ev.column - divider } else { divider - ev.column }) <= 1;
    if ev.kind == MouseKind::LeftDown && near_divider {
        (ViewModel { dragging_divider: true, ..s }, KeyAction::Nothing)
    } else if ev.kind == MouseKind::LeftDrag && s.dragging_divider {
        (ViewModel { divider: divider_for(ev.column, env.terminal_width), ..s }, KeyAction::Nothing)
    } else if ev.kind == MouseKind::LeftUp {
        (ViewModel { dragging_divider: false, ..s }, KeyAction::Nothing)
    } else if ev.kind == MouseKind::LeftDown {
        if ev.row == 0 {
            if ev.column < divider {
                (focus_on(s, Focus::Files), KeyAction::Nothing)
            } else {
                let t = focus_on(s, Focus::Right);
                (
                    match tab_hit(ev.column - divider) {
                        Some(first) => ViewModel { right_tab: if first { RightTab::Diff } else { RightTab::Comments }, ..t },
                        None => t,
                    },
                    KeyAction::Nothing,
                )
            }
        } else if ev.column < divider {
            if ev.row < env.filters_top {
                click_file(focus_on(s, Focus::Files), sat_sub(ev.row as int, 1), tree_files)
            } else {
                let t = focus_on(s, Focus::Filters);
                if ev.row == env.filters_top {
                    (
                        match tab_hit(ev.column as int) {
                            Some(first) => ViewModel {
                                filter_tab: if first { FilterTab::Filters } else { FilterTab::Ignored },
                                ..t
                            },
                            None => t,
                        },
                        KeyAction::Nothing,
                    )
                } else {
                    let top = if env.filters_top as int + 1 > u16::MAX { u16::MAX as int } else { env.filters_top + 1 };
                    (click_filter(t, sat_sub(ev.row as int, top), env), KeyAction::Nothing)
                }
            }
        } else {
            let t = focus_on(s, Focus::Right);
            if t.right_tab == RightTab::Diff {
                (click_diff(t, ev.row, vp, rows, final_rows), KeyAction::Nothing)
            } else {
                (ViewModel { selected_comment: clamp_index(ev.row - 1, env.comment_count as int), ..t }, KeyAction::Nothing)
            }
        }
    } else if is_scroll(ev.kind) && s.right_tab == RightTab::Diff && ev.column >= divider {
        (wheel_diff(s, ev.kind, env, rows, final_rows), KeyAction::Nothing)
    } else {
        (s, KeyAction::Nothing)
    }
}

/// A mouse event: ignored while the help, a prompt or a dialog is open;
/// wheel events reveal the scrollbars.
pub open spec fn mouse_step(
    s: ViewModel,
    ev: MouseEvent,
    env: MouseEnv,
    tree_files: Seq<bool>,
    rows: Seq<RowSpec>,
    final_rows: Seq<RowSpec>,
) -> (ViewModel, KeyOutcomeModel) {
    if s.show_help || s.input is Some || s.confirm_delete_all {
        (s, outcome(KeyAction::Nothing, false))
    } else {
        let stepped = if s.maximized_panel is Some {
            maximized_mouse_step(s, s.maximized_panel->0, ev, env, tree_files, rows, final_rows)
        } else {
            normal_mouse_step(s, ev, env, tree_files, rows, final_rows)
        };
        (stepped.0, outcome(stepped.1, is_scroll(ev.kind)))
    }
}

fn clamp_idx(index: usize, len: usize) -> (r: usize)
    ensures
        r == clamp_index(index as int, len as int),
{
    let last = len.saturating_sub(1);
    if index <= last { index } else { last }
}

fn clicked_row_exec(state: &ViewState, row: u16, vp: u16, rows: &[DiffRow], final_rows: &[DiffRow]) -> (r: Option<usize>)
    ensures
        r == clicked_row(state@, row, vp as int, rows_spec(rows@), rows_spec(final_rows@)),
{
    let lines = view_lines_of(state, rows, final_rows);
    let scroll = clamp(state.diff_scroll, lines.len(), vp);
    let below = (row as usize).saturating_sub(1);
    if scroll < lines.len() && below < lines.len() - scroll {
        lines[scroll + below].row_index()
    } else {
        None
    }
}

fn click_diff_exec(state: &mut ViewState, row: u16, vp: u16, rows: &[DiffRow], final_rows: &[DiffRow])
    ensures
        final(state)@ == click_diff(old(state)@, row, vp as int, rows_spec(rows@), rows_spec(final_rows@)),
{
    match clicked_row_exec(state, row, vp, rows, final_rows) {
        Some(i) => {
            state.selected_row = i;
            state.diff_selection_active = true;
        },
        None => {},
    }
}

fn click_file_exec(state: &mut ViewState, index: usize, tree_files: &[bool]) -> (r: KeyAction)
    ensures
        (final(state)@, r) == click_file(old(state)@, index as int, tree_files@),
{
    let sel = clamp_idx(index, tree_files.len());
    state.selected_file = sel;
    if sel < tree_files.len() && tree_files[sel] {
        KeyAction::OpenSelectedFile
    } else {
        KeyAction::Nothing
    }
}

fn click_filter_exec(state: &mut ViewState, index: usize, env: MouseEnv)
    ensures
        final(state)@ == click_filter(old(state)@, index as int, env),
{
    if state.filter_tab == FilterTab::Filters {
        state.selected_filter = clamp_idx(index, env.filter_count);
    } else {
        state.selected_ignored = clamp_idx(index, env.ignored_count);
    }
}

fn wheel_diff_exec(state: &mut ViewState, kind: MouseKind, env: MouseEnv, rows: &[DiffRow], final_rows: &[DiffRow])
    ensures
        final(state)@ == wheel_diff(old(state)@, kind, env, rows_spec(rows@), rows_spec(final_rows@)),
{
    match kind {
        MouseKind::ScrollDown => {
            let count = view_lines_of(state, rows, final_rows).len();
            state.diff_scroll = clamp(state.diff_scroll.saturating_add(3), count, env.viewport_height);
        },
        MouseKind::ScrollUp => {
            state.diff_scroll = state.diff_scroll.saturating_sub(3);
        },
        MouseKind::ScrollLeft | MouseKind::ScrollRight => {
            state.diff_horizontal_scroll = move_diff_horizontally(
                state.diff_horizontal_scroll,
                kind == MouseKind::ScrollRight,
                env.max_horizontal_scroll,
            );
        },
        _ => {},
    }
}

fn tab_hit_exec(column: u16) -> (r: Option<bool>)
    ensures
        r == tab_hit(column as int),
{
    if column < 16 { Some(true) } else if column < 27 { Some(false) } else { None }
}

fn maximized_mouse(
    state: &mut ViewState,
    panel: Focus,
    ev: MouseEvent,
    env: MouseEnv,
    tree_files: &[bool],
    rows: &[DiffRow],
    final_rows: &[DiffRow],
) -> (r: KeyAction)
    ensures
        (final(state)@, r) == maximized_mouse_step(old(state)@, panel, ev, env, tree_files@, rows_spec(rows@), rows_spec(final_rows@)),
{
    if ev.kind == MouseKind::LeftDown {
        match panel {
            Focus::Files => {
                if ev.row > 0 {
                    return click_file_exec(state, (ev.row - 1) as usize, tree_files);
                }
            },
            Focus::Filters => {
                if ev.row == 0 {
                    match tab_hit_exec(ev.column) {
                        Some(first) => {
                            state.filter_tab = if first { FilterTab::Filters } else { FilterTab::Ignored };
                        },
                        None => {},
                    }
                } else {
                    click_filter_exec(state, (ev.row - 1) as usize, env);
                }
            },
            Focus::Right => {
                if ev.row == 0 {
                    match tab_hit_exec(ev.column) {
                        Some(first) => {
                            state.right_tab = if first { RightTab::Diff } else { RightTab::Comments };
                        },
                        None => {},
                    }
                } else if state.right_tab == RightTab::Diff {
                    click_diff_exec(state, ev.row, env.viewport_height, rows, final_rows);
                } else {
                    state.selected_comment = clamp_idx((ev.row - 1) as usize, env.comment_count);
                }
            },
        }
        return KeyAction::Nothing;
    }
    let scrolling = ev.kind == MouseKind::ScrollDown || ev.kind == MouseKind::ScrollUp || ev.kind == MouseKind::ScrollLeft
        || ev.kind == MouseKind::ScrollRight;
    if scrolling && panel == Focus::Right && state.right_tab == RightTab::Diff {
        wheel_diff_exec(state, ev.kind, env, rows, final_rows);
    }
    KeyAction::Nothing
}

fn left_column_click(state: &mut ViewState, ev: MouseEvent, env: MouseEnv, tree_files: &[bool]) -> (r: KeyAction)
    ensures
        (final(state)@, r) == if ev.row < env.filters_top {
            click_file(focus_on(old(state)@, Focus::Files), sat_sub(ev.row as int, 1), tree_files@)
        } else {
            let t = focus_on(old(state)@, Focus::Filters);
            if ev.row == env.filters_top {
                (
                    match tab_hit(ev.column as int) {
                        Some(first) => ViewModel { filter_tab: if first { FilterTab::Filters } else { FilterTab::Ignored }, ..t },
                        None => t,
                    },
                    KeyAction::Nothing,
                )
            } else {
                let top = if env.filters_top as int + 1 > u16::MAX { u16::MAX as int } else { env.filters_top + 1 };
                (click_filter(t, sat_sub(ev.row as int, top), env), KeyAction::Nothing)
            }
        },
{
    if ev.row < env.filters_top {
        focus_on_exec(state, Focus::Files);
        return click_file_exec(state, (ev.row as usize).saturating_sub(1), tree_files);
    }
    focus_on_exec(state, Focus::Filters);
    if ev.row == env.filters_top {
        match tab_hit_exec(ev.column) {
            Some(first) => {
                state.filter_tab = if first { FilterTab::Filters } else { FilterTab::Ignored };
            },
            None => {},
        }
        return KeyAction::Nothing;
    }
    let top = env.filters_top.saturating_add(1);
    click_filter_exec(state, ev.row.saturating_sub(top) as usize, env);
    KeyAction::Nothing
}

fn normal_mouse(
    state: &mut ViewState,
    ev: MouseEvent,
    env: MouseEnv,
    tree_files: &[bool],
    rows: &[DiffRow],
    final_rows: &[DiffRow],
) -> (r: KeyAction)
    ensures
        (final(state)@, r) == normal_mouse_step(old(state)@, ev, env, tree_files@, rows_spec(rows@), rows_spec(final_rows@)),
{
    let divider = constrained_divider(state.divider, env.terminal_width);
    let distance = if ev.column >= divider { ev.column - divider } else { divider - ev.column };
    if ev.kind == MouseKind::LeftDown && distance <= 1 {
        state.dragging_divider = true;
        return KeyAction::Nothing;
    }
    if ev.kind == MouseKind::LeftDrag && state.dragging_divider {
        state.divider = constrained_divider(ev.column, env.terminal_width);
        return KeyAction::Nothing;
    }
    if ev.kind == MouseKind::LeftUp {
        state.dragging_divider = false;
        return KeyAction::Nothing;
    }
    if ev.kind == MouseKind::LeftDown {
        if ev.row == 0 {
            if ev.column < divider {
                focus_on_exec(state, Focus::Files);
            } else {
                focus_on_exec(state, Focus::Right);
                match tab_hit_exec(ev.column - divider) {
                    Some(first) => {
                        state.right_tab = if first { RightTab::Diff } else { RightTab::Comments };
                    },
                    None => {},
                }
            }
            return KeyAction::Nothing;
        }
        if ev.column < divider {
            return left_column_click(state, ev, env, tree_files);
        }
        focus_on_exec(state, Focus::Right);
        if state.right_tab == RightTab::Diff {
            click_diff_exec(state, ev.row, env.viewport_height, rows, final_rows);
        } else {
            state.selected_comment = clamp_idx((ev.row - 1) as usize, env.comment_count);
        }
        return KeyAction::Nothing;
    }
    let scrolling = ev.kind == MouseKind::ScrollDown || ev.kind == MouseKind::ScrollUp || ev.kind == MouseKind::ScrollLeft
        || ev.kind == MouseKind::ScrollRight;
    if scrolling && state.right_tab == RightTab::Diff && ev.column >= divider {
        wheel_diff_exec(state, ev.kind, env, rows, final_rows);
    }
    KeyAction::Nothing
}

/// Applies a mouse event to the view state. `tree_files` tells for each row
/// of the file tree whether it is a file.
pub fn handle_mouse(
    state: &mut ViewState,
    ev: MouseEvent,
    env: MouseEnv,
    tree_files: &[bool],
    rows: &[DiffRow],
    final_rows: &[DiffRow],
) -> (r: KeyOutcome)
    ensures
        (final(state)@, r@) == mouse_step(old(state)@, ev, env, tree_files@, rows_spec(rows@), rows_spec(final_rows@)),
{
    if state.show_help || state.input.is_some() || state.confirm_delete_all {
        return outcome_exec(KeyAction::Nothing, false);
    }
    let scrolling = ev.kind == MouseKind::ScrollDown || ev.kind == MouseKind::ScrollUp || ev.kind == MouseKind::ScrollLeft
        || ev.kind == MouseKind::ScrollRight;
    let action = match state.maximized_panel {
        Some(panel) => maximized_mouse(state, panel, ev, env, tree_files, rows, final_rows),
        None => normal_mouse(state, ev, env, tree_files, rows, final_rows),
    };
    outcome_exec(action, scrolling)
}

/// Whether row `r` carries the anchor lines: both lines (`by == 0`), the new
/// line (`by == 1`) or the old line (`by == 2`); a missing anchor line
/// matches nothing on its own.
pub open spec fn anchor_matches(r: RowSpec, old: Option<u32>, new: Option<u32>, by: u8) -> bool {
    if by == 0 {
        r.old_line == old && r.new_line == new
    } else if by == 1 {
        new is Some && r.new_line == new
    } else {
        old is Some && r.old_line == old
    }
}

/// First row at or after `k` that matches the anchor, or -1.
pub open spec fn first_anchor_match(rows: Seq<RowSpec>, old: Option<u32>, new: Option<u32>, by: u8, k: nat) -> int
    decreases rows.len() - k,
{
    if k >= rows.len() {
        -1
    } else if anchor_matches(rows[k as int], old, new, by) {
        k as int
    } else {
        first_anchor_match(rows, old, new, by, k + 1)
    }
}

/// Row of a reloaded diff for the lines selected before: the row with both
/// lines, else the first with the new line, else the first with the old line,
/// else `default`.
pub open spec fn anchored_row(rows: Seq<RowSpec>, anchor: Option<(Option<u32>, Option<u32>)>, default: int) -> int {
    match anchor {
        None => default,
        Some((old, new)) => {
            let both = first_anchor_match(rows, old, new, 0, 0);
            let by_new = first_anchor_match(rows, old, new, 1, 0);
            let by_old = first_anchor_match(rows, old, new, 2, 0);
            if both >= 0 { both } else if by_new >= 0 { by_new } else if by_old >= 0 { by_old } else { default }
        },
    }
}

/// View state once a diff has loaded: the first change is selected, or the
/// row of the lines selected before a mode switch, or the last change when
/// change navigation arrived from the next file; in the final view the
/// nearest source row. Scrolling starts over.
pub open spec fn loaded_step(
    s: ViewModel,
    anchor: Option<(Option<u32>, Option<u32>)>,
    select_last_change: bool,
    rows: Seq<RowSpec>,
    final_rows: Seq<RowSpec>,
) -> ViewModel {
    let f = first_changed_from(rows, 0);
    let r0 = if f < 0 { 0 } else { f };
    let r1 = anchored_row(rows, anchor, r0);
    let l = last_changed_before(rows, rows.len());
    let r2 = if select_last_change { if l < 0 { 0 } else { l } } else { r1 };
    let r3 = if s.final_view {
        nearest_row(final_rows, if 0 <= r2 < rows.len() { rows[r2].new_line } else { None })
    } else {
        r2
    };
    ViewModel {
        selected_row: r3 as usize,
        final_origin: None,
        diff_scroll: 0,
        diff_horizontal_scroll: 0,
        diff_selection_active: true,
        ..s
    }
}

fn find_anchor(rows: &[DiffRow], old: Option<u32>, new: Option<u32>, by: u8) -> (r: Option<usize>)
    ensures
        match r {
            Some(j) => first_anchor_match(rows_spec(rows@), old, new, by, 0) == j as int,
            None => first_anchor_match(rows_spec(rows@), old, new, by, 0) == -1,
        },
{
    let ghost rs = rows_spec(rows@);
    let mut k: usize = 0;
    while k < rows.len()
        invariant
            rs == rows_spec(rows@),
            rs.len() == rows@.len(),
            k <= rows@.len(),
            first_anchor_match(rs, old, new, by, 0) == first_anchor_match(rs, old, new, by, k as nat),
        decreases rows@.len() - k,
    {
        let row = &rows[k];
        let hit = if by == 0 {
            row.old_line == old && row.new_line == new
        } else if by == 1 {
            new.is_some() && row.new_line == new
        } else {
            old.is_some() && row.old_line == old
        };
        if hit {
            return Some(k);
        }
        k = k + 1;
    }
    None
}

fn last_changed_row(rows: &[DiffRow]) -> (r: Option<usize>)
    ensures
        match r {
            Some(j) => last_changed_before(rows_spec(rows@), rows@.len()) == j as int,
            None => last_changed_before(rows_spec(rows@), rows@.len()) == -1,
        },
{
    let ghost rs = rows_spec(rows@);
    let mut k: usize = rows.len();
    while k > 0
        invariant
            rs == rows_spec(rows@),
            rs.len() == rows@.len(),
            k <= rows@.len(),
            last_changed_before(rs, rows@.len()) == last_changed_before(rs, k as nat),
        decreases k,
    {
        if rows[k - 1].is_changed() {
            return Some(k - 1);
        }
        k = k - 1;
    }
    None
}

fn anchored_row_exec(rows: &[DiffRow], anchor: Option<(Option<u32>, Option<u32>)>, default: usize) -> (r: usize)
    ensures
        r == anchored_row(rows_spec(rows@), anchor, default as int),
{
    match anchor {
        None => default,
        Some((old, new)) => {
            match find_anchor(rows, old, new, 0) {
                Some(j) => j,
                None => match find_anchor(rows, old, new, 1) {
                    Some(j) => j,
                    None => match find_anchor(rows, old, new, 2) {
                        Some(j) => j,
                        None => default,
                    },
                },
            }
        },
    }
}

/// Updates the view state for a diff that has just loaded; `anchor` holds
/// the lines selected before a mode switch.
pub fn apply_loaded_diff(
    state: &mut ViewState,
    anchor: Option<(Option<u32>, Option<u32>)>,
    select_last_change: bool,
    rows: &[DiffRow],
    final_rows: &[DiffRow],
)
    ensures
        final(state)@ == loaded_step(old(state)@, anchor, select_last_change, rows_spec(rows@), rows_spec(final_rows@)),
{
    let r0 = match first_changed_row(rows) {
        Some(j) => j,
        None => 0,
    };
    let r1 = anchored_row_exec(rows, anchor, r0);
    let r2 = if select_last_change {
        match last_changed_row(rows) {
            Some(j) => j,
            None => 0,
        }
    } else {
        r1
    };
    let r3 = if state.final_view {
        let line = if r2 < rows.len() { rows[r2].new_line } else { None };
        nearest_source_row(final_rows, line)
    } else {
        r2
    };
    state.selected_row = r3;
    state.final_origin = None;
    state.diff_scroll = 0;
    state.diff_horizontal_scroll = 0;
    state.diff_selection_active = true;
}

/// View state of an empty diff panel, before any diff has loaded.
pub open spec fn cleared(s: ViewModel) -> ViewModel {
    ViewModel {
        final_origin: None,
        selected_row: 0,
        diff_selection_active: false,
        diff_scroll: 0,
        diff_horizontal_scroll: 0,
        ..s
    }
}

/// Forgets the diff selection and scroll.
pub fn clear_diff_view(state: &mut ViewState)
    ensures
        final(state)@ == cleared(old(state)@),
{
    state.final_origin = None;
    state.selected_row = 0;
    state.diff_selection_active = false;
    state.diff_scroll = 0;
    state.diff_horizontal_scroll = 0;
}

impl ViewState {
    /// The view at startup: files focused, the diff tab and filters tab
    /// shown, with the remembered mode, common-line preference and divider.
    pub fn new(settings: ProjectSettings) -> (r: ViewState)
        ensures
            r@ == (ViewModel {
                right_tab: RightTab::Diff,
                filter_tab: FilterTab::Filters,
                focus: Focus::Files,
                maximized_panel: None,
                diff_mode: settings.diff_mode,
                show_unchanged: settings.show_unchanged,
                final_view: false,
                final_origin: None,
                selected_file: 0,
                selected_filter: 0,
                selected_ignored: 0,
                selected_comment: 0,
                selected_row: 0,
                diff_selection_active: false,
                divider: settings.divider,
                dragging_divider: false,
                diff_scroll: 0,
                diff_horizontal_scroll: 0,
                input: None,
                confirm_delete_all: false,
                show_help: false,
            }),
    {
        ViewState {
            right_tab: RightTab::Diff,
            filter_tab: FilterTab::Filters,
            focus: Focus::Files,
            maximized_panel: None,
            diff_mode: settings.diff_mode,
            show_unchanged: settings.show_unchanged,
            final_view: false,
            final_origin: None,
            selected_file: 0,
            selected_filter: 0,
            selected_ignored: 0,
            selected_comment: 0,
            selected_row: 0,
            diff_selection_active: false,
            divider: settings.divider,
            dragging_divider: false,
            diff_scroll: 0,
            diff_horizontal_scroll: 0,
            input: None,
            confirm_delete_all: false,
            show_help: false,
        }
    }
}

/// First position at or after `k` whose path is `path`, or -1.
pub open spec fn path_index_from(paths: Seq<Seq<char>>, path: Seq<char>, k: nat) -> int
    decreases paths.len() - k,
{
    if k >= paths.len() {
        -1
    } else if paths[k as int] == path {
        k as int
    } else {
        path_index_from(paths, path, k + 1)
    }
}

/// Position of the first tree row showing `path`.
pub fn tree_row_of(rows: &[TreeRow], path: &String) -> (r: Option<usize>)
    ensures
        match r {
            Some(i) => path_index_from(rows@.map_values(|t: TreeRow| t.path@), path@, 0) == i as int,
            None => path_index_from(rows@.map_values(|t: TreeRow| t.path@), path@, 0) == -1,
        },
{
    let ghost ps = rows@.map_values(|t: TreeRow| t.path@);
    let mut k: usize = 0;
    while k < rows.len()
        invariant
            ps == rows@.map_values(|t: TreeRow| t.path@),
            k <= rows@.len(),
            path_index_from(ps, path@, 0) == path_index_from(ps, path@, k as nat),
        decreases rows@.len() - k,
    {
        if rows[k].path == *path {
            return Some(k);
        }
        k = k + 1;
    }
    None
}

/// Position of the first file with `path`.
pub fn file_of(files: &[FileItem], path: &String) -> (r: Option<usize>)
    ensures
        match r {
            Some(i) => path_index_from(files@.map_values(|f: FileItem| f.path@), path@, 0) == i as int,
            None => path_index_from(files@.map_values(|f: FileItem| f.path@), path@, 0) == -1,
        },
{
    let ghost ps = files@.map_values(|f: FileItem| f.path@);
    let mut k: usize = 0;
    while k < files.len()
        invariant
            ps == files@.map_values(|f: FileItem| f.path@),
            k <= files@.len(),
            path_index_from(ps, path@, 0) == path_index_from(ps, path@, k as nat),
        decreases files@.len() - k,
    {
        if files[k].path == *path {
            return Some(k);
        }
        k = k + 1;
    }
    None
}

/// Selections after the lists were reloaded: each is kept inside its list,
/// and the previously selected file is found again where it still exists.
pub open spec fn refreshed_step(
    s: ViewModel,
    tree_len: usize,
    previous_tree_row: Option<usize>,
    previous_ignored_row: Option<usize>,
    filter_count: usize,
    ignored_count: usize,
    comment_count: usize,
) -> ViewModel {
    let file = match previous_tree_row {
        Some(i) => i,
        None => clamp_index(s.selected_file as int, tree_len as int),
    };
    let ignored = match previous_ignored_row {
        Some(i) => i,
        None => s.selected_ignored,
    };
    ViewModel {
        selected_file: file,
        selected_filter: clamp_index(s.selected_filter as int, filter_count as int),
        selected_ignored: clamp_index(ignored as int, ignored_count as int),
        selected_comment: clamp_index(s.selected_comment as int, comment_count as int),
        ..s
    }
}

/// Keeps the selections valid after the file, filter and comment lists were
/// reloaded.
pub fn restore_selections(
    state: &mut ViewState,
    tree_len: usize,
    previous_tree_row: Option<usize>,
    previous_ignored_row: Option<usize>,
    filter_count: usize,
    ignored_count: usize,
    comment_count: usize,
)
    ensures
        final(state)@ == refreshed_step(
            old(state)@,
            tree_len,
            previous_tree_row,
            previous_ignored_row,
            filter_count,
            ignored_count,
            comment_count,
        ),
{
    state.selected_file = clamp_idx(state.selected_file, tree_len);
    match previous_tree_row {
        Some(i) => {
            state.selected_file = i;
        },
        None => {},
    }
    match previous_ignored_row {
        Some(i) => {
            state.selected_ignored = i;
        },
        None => {},
    }
    state.selected_filter = clamp_idx(state.selected_filter, filter_count);
    state.selected_ignored = clamp_idx(state.selected_ignored, ignored_count);
    state.selected_comment = clamp_idx(state.selected_comment, comment_count);
}

/// No prompt, dialog or help overlay is open.
pub open spec fn panels_active(s: ViewModel) -> bool {
    !s.show_help && !s.confirm_delete_all && s.input is None
}

/// While the help overlay is open, a key only closes it (`?`, `Esc` or `q`)
/// and asks for nothing: `q` does not quit.
pub proof fn law_help_takes_every_key(
    s: ViewModel,
    key: Key,
    env: KeyEnv,
    matches: Seq<usize>,
    rows: Seq<RowSpec>,
    final_rows: Seq<RowSpec>,
)
    requires
        s.show_help,
    ensures
        key_step(s, key, env, matches, rows, final_rows).1.action == KeyAction::Nothing,
        key_step(s, key, env, matches, rows, final_rows).0 == (ViewModel {
            show_help: !(key == Key::Char('?') || key == Key::Esc || key == Key::Char('q')),
            ..s
        }),
{
}

/// Mouse events change nothing while the help, a prompt or a dialog is open.
pub proof fn law_mouse_ignored_under_overlays(
    s: ViewModel,
    ev: MouseEvent,
    env: MouseEnv,
    tree_files: Seq<bool>,
    rows: Seq<RowSpec>,
    final_rows: Seq<RowSpec>,
)
    requires
        !panels_active(s),
    ensures
        mouse_step(s, ev, env, tree_files, rows, final_rows) == (s, outcome(KeyAction::Nothing, false)),
{
}

/// Tab cycles tabs within the focused panel and never changes panel focus or
/// the maximized layout.
pub proof fn law_tab_keeps_focus(s: ViewModel, env: KeyEnv, matches: Seq<usize>, rows: Seq<RowSpec>, final_rows: Seq<RowSpec>)
    requires
        panels_active(s),
    ensures
        key_step(s, Key::Tab, env, matches, rows, final_rows).0.focus == s.focus,
        key_step(s, Key::Tab, env, matches, rows, final_rows).0.maximized_panel == s.maximized_panel,
        key_step(s, Key::Tab, env, matches, rows, final_rows).1.action == KeyAction::Nothing,
{
}

/// In the diff, Esc clears the line highlight but keeps the selected row as
/// the anchor for navigation.
pub proof fn law_escape_keeps_anchor(s: ViewModel, env: KeyEnv, matches: Seq<usize>, rows: Seq<RowSpec>, final_rows: Seq<RowSpec>)
    requires
        panels_active(s),
        s.right_tab == RightTab::Diff,
    ensures
        key_step(s, Key::Esc, env, matches, rows, final_rows).0 == (ViewModel { diff_selection_active: false, ..s }),
{
}

/// Entering the final view and leaving it again without moving restores the
/// diff selection and scroll, and keeps the common-line preference.
pub proof fn law_final_view_round_trip(s: ViewModel, vp: int, rows: Seq<RowSpec>, final_rows: Seq<RowSpec>)
    requires
        !s.final_view,
    ensures
        ({
            let there = toggle_final_step(s, vp, rows, final_rows);
            let back = toggle_final_step(there, vp, rows, final_rows);
            &&& there.final_view
            &&& !back.final_view
            &&& back.selected_row == s.selected_row
            &&& back.diff_scroll == s.diff_scroll
            &&& back.show_unchanged == s.show_unchanged
            &&& back.final_origin is None
        }),
{
}

/// `[` and `]` always end in the focused diff tab outside the final view, so
/// that removed lines stay reachable.
pub proof fn law_change_navigation_returns_to_diff(
    s: ViewModel,
    forward: bool,
    vp: int,
    rows: Seq<RowSpec>,
    final_rows: Seq<RowSpec>,
)
    ensures
        change_step(s, forward, vp, rows, final_rows).0.right_tab == RightTab::Diff,
        change_step(s, forward, vp, rows, final_rows).0.focus == Focus::Right,
        !change_step(s, forward, vp, rows, final_rows).0.final_view,
{
}

/// `i` only applies to the diff: in the final view it changes nothing.
pub proof fn law_common_lines_toggle_only_in_diff(
    s: ViewModel,
    env: KeyEnv,
    matches: Seq<usize>,
    rows: Seq<RowSpec>,
    final_rows: Seq<RowSpec>,
)
    requires
        panels_active(s),
        s.final_view,
    ensures
        key_step(s, Key::Char('i'), env, matches, rows, final_rows) == (s, outcome(KeyAction::Nothing, false)),
{
}

proof fn lemma_change_never_deletes(s: ViewModel, forward: bool, vp: int, rows: Seq<RowSpec>, final_rows: Seq<RowSpec>)
    ensures
        change_step(s, forward, vp, rows, final_rows).1 != KeyAction::DeleteAllComments,
{
}

proof fn lemma_prompts_never_delete(s: ViewModel, key: Key, matches: Seq<usize>)
    ensures
        search_key_step(s, key, matches).1.action != KeyAction::DeleteAllComments,
        input_key_step(s, key).1.action != KeyAction::DeleteAllComments,
{
}

proof fn lemma_panels_never_delete(s: ViewModel, key: Key, env: KeyEnv, rows: Seq<RowSpec>, final_rows: Seq<RowSpec>)
    ensures
        main_key_step(s, key, env, rows, final_rows).1.action != KeyAction::DeleteAllComments,
{
    lemma_change_never_deletes(s, key == Key::Char(']'), env.viewport_height as int, rows, final_rows);
}

/// Deleting all local comments always goes through the confirmation: a key
/// asks for it only while the confirmation is open, and only `Enter` does;
/// `Esc` there cancels. Both close the confirmation.
pub proof fn law_delete_all_needs_confirmation(
    s: ViewModel,
    key: Key,
    env: KeyEnv,
    matches: Seq<usize>,
    rows: Seq<RowSpec>,
    final_rows: Seq<RowSpec>,
)
    ensures
        key_step(s, key, env, matches, rows, final_rows).1.action == KeyAction::DeleteAllComments <==> (
        !s.show_help && s.confirm_delete_all && key == Key::Enter),
        !s.show_help && s.confirm_delete_all && key == Key::Esc ==> key_step(s, key, env, matches, rows, final_rows)
            == (ViewModel { confirm_delete_all: false, ..s }, outcome(KeyAction::Notice(Notice::DeleteCancelled), false)),
{
    lemma_prompts_never_delete(s, key, matches);
    lemma_panels_never_delete(s, key, env, rows, final_rows);
}

/// What becomes of a diff that a background load finished.
#[derive(Clone, Copy, Debug, PartialEq, Eq, Structural)]
pub enum LoadVerdict {
    /// It answers an older request: the pending request stays.
    Stale,
    /// The view moved on to another file or layout: it is dropped.
    Superseded,
    /// The load failed: its error is reported.
    Failed,
    /// It is the document already shown: nothing changes.
    Unchanged,
    /// It is shown.
    Apply,
}

/// The verdict on a finished load, as a function of its inputs.
pub open spec fn load_verdict(
    pending_generation: Option<u64>,
    generation: u64,
    active_path: Option<Seq<char>>,
    request_path: Seq<char>,
    mode: DiffMode,
    request_mode: DiffMode,
    loaded_signature: Option<u64>,
    current_signature: Option<u64>,
) -> LoadVerdict {
    if pending_generation != Some(generation) {
        LoadVerdict::Stale
    } else if active_path != Some(request_path) || mode != request_mode {
        LoadVerdict::Superseded
    } else if loaded_signature is None {
        LoadVerdict::Failed
    } else if current_signature == loaded_signature {
        LoadVerdict::Unchanged
    } else {
        LoadVerdict::Apply
    }
}

/// Decides what to do with a finished load of generation `generation` for
/// `request_path` in `request_mode` (`loaded_signature` is `None` when the
/// load failed), given the pending request's generation, the file and layout
/// now shown, and the signature of the document now shown. Only a load that
/// answers the pending request, for the file and layout still shown, and that
/// differs from the shown document, is applied.
pub fn accept_loaded(
    pending_generation: Option<u64>,
    generation: u64,
    active_path: Option<&str>,
    request_path: &str,
    mode: DiffMode,
    request_mode: DiffMode,
    loaded_signature: Option<u64>,
    current_signature: Option<u64>,
) -> (r: LoadVerdict)
    ensures
        r == load_verdict(
            pending_generation,
            generation,
            match active_path {
                Some(p) => Some(p@),
                None => None,
            },
            request_path@,
            mode,
            request_mode,
            loaded_signature,
            current_signature,
        ),
{
    let answers = match pending_generation {
        Some(g) => g == generation,
        None => false,
    };
    if !answers {
        return LoadVerdict::Stale;
    }
    let same_file = match active_path {
        Some(p) => chars_eq(chars_of(p).as_slice(), chars_of(request_path).as_slice()),
        None => false,
    };
    if !same_file || mode != request_mode {
        return LoadVerdict::Superseded;
    }
    match loaded_signature {
        None => LoadVerdict::Failed,
        Some(sig) => {
            let same = match current_signature {
                Some(c) => c == sig,
                None => false,
            };
            if same {
                LoadVerdict::Unchanged
            } else {
                LoadVerdict::Apply
            }
        },
    }
}

/// What opening the diff of the active file asks for.
#[derive(Clone, Copy, Debug, PartialEq, Eq, Structural)]
pub enum RebuildPlan {
    /// No file is active: the pending request and the shown diff are dropped.
    Clear,
    /// The same request is already under way: nothing is done.
    AlreadyPending,
    /// A new request is sent; `reset` when the shown diff is of another file
    /// and is cleared first (together with its anchor).
    Request { reset: bool },
}

/// The plan, as a function of its inputs.
pub open spec fn rebuild_plan_spec(
    active_path: Option<Seq<char>>,
    mode: DiffMode,
    pending: Option<(Seq<char>, DiffMode)>,
    shown_path: Option<Seq<char>>,
) -> RebuildPlan {
    match active_path {
        None => RebuildPlan::Clear,
        Some(p) => if pending == Some((p, mode)) {
            RebuildPlan::AlreadyPending
        } else {
            RebuildPlan::Request { reset: shown_path != Some(p) }
        },
    }
}

fn same_text(a: &str, b: &str) -> (r: bool)
    ensures
        r == (a@ == b@),
{
    chars_eq(chars_of(a).as_slice(), chars_of(b).as_slice())
}

/// Decides how to open the diff of the active file `active_path` in `mode`,
/// given the request under way (`pending`, its path and mode) and the file
/// whose diff is shown (`shown_path`): a request already under way is not
/// sent again.
pub fn rebuild_plan(
    active_path: Option<&str>,
    mode: DiffMode,
    pending: Option<(&str, DiffMode)>,
    shown_path: Option<&str>,
) -> (r: RebuildPlan)
    ensures
        r == rebuild_plan_spec(
            match active_path { Some(p) => Some(p@), None => None },
            mode,
            match pending { Some(q) => Some((q.0@, q.1)), None => None },
            match shown_path { Some(p) => Some(p@), None => None },
        ),
{
    let path = match active_path {
        None => return RebuildPlan::Clear,
        Some(p) => p,
    };
    let already = match pending {
        Some((q, m)) => same_text(q, path) && m == mode,
        None => false,
    };
    if already {
        return RebuildPlan::AlreadyPending;
    }
    let same_shown = match shown_path {
        Some(p) => same_text(p, path),
        None => false,
    };
    RebuildPlan::Request { reset: !same_shown }
}

proof fn lemma_last_line_is_last(lines: Seq<RenderedDiffLine>, row: usize, k: nat, p: int)
    requires
        k <= lines.len(),
        0 <= p < k,
        lines[p].row_of() == Some(row),
    ensures
        p <= last_line_before(lines, row, k),
    decreases k,
{
    if lines[k - 1].row_of() != Some(row) {
        lemma_last_line_is_last(lines, row, (k - 1) as nat, p);
    }
}

/// Bringing a row into view: when all the rendered lines of `row` fit in the
/// viewport, every one of them is visible afterwards (at or below the new
/// offset and above its end); the offset never passes the last full
/// viewport; and an offset that already shows the row is kept.
pub proof fn law_scroll_shows_the_row(lines: Seq<RenderedDiffLine>, row: usize, scroll: int, vp: int)
    requires
        0 <= scroll,
        0 <= vp,
        exists|p: int| 0 <= p < lines.len() && (#[trigger] lines[p]).row_of() == Some(row),
        forall|p: int, q: int|
            0 <= p < lines.len() && 0 <= q < lines.len() && (#[trigger] lines[p]).row_of() == Some(row)
                && (#[trigger] lines[q]).row_of() == Some(row) ==> q - p < vp,
    ensures
        forall|p: int|
            0 <= p < lines.len() && (#[trigger] lines[p]).row_of() == Some(row) ==> scroll_to_show(lines, row, scroll, vp)
                <= p < scroll_to_show(lines, row, scroll, vp) + vp,
        0 <= scroll_to_show(lines, row, scroll, vp),
        lines.len() > vp ==> scroll_to_show(lines, row, scroll, vp) <= lines.len() - vp,
        lines.len() <= vp ==> scroll_to_show(lines, row, scroll, vp) == 0,
        (scroll <= (if lines.len() > vp { lines.len() - vp } else { 0 }) && forall|p: int|
            0 <= p < lines.len() && (#[trigger] lines[p]).row_of() == Some(row) ==> scroll <= p < scroll + vp)
            ==> scroll_to_show(lines, row, scroll, vp) == scroll,
{
    let n = lines.len();
    lemma_first_line_from(lines, row, 0);
    lemma_last_line_before(lines, row, n);
    let w = choose|p: int| 0 <= p < lines.len() && (#[trigger] lines[p]).row_of() == Some(row);
    lemma_last_line_is_last(lines, row, n, w);
    let first = first_line_from(lines, row, 0);
    let last = last_line_before(lines, row, n);
    assert(first >= 0);
    assert(last >= 0);
    assert forall|p: int| 0 <= p < lines.len() && (#[trigger] lines[p]).row_of() == Some(row) implies first <= p <= last by {
        lemma_last_line_is_last(lines, row, n, p);
    }
    assert(last - first < vp);
}

proof fn lemma_first_anchor_match(rows: Seq<RowSpec>, old: Option<u32>, new: Option<u32>, by: u8, k: nat)
    ensures
        ({
            let f = first_anchor_match(rows, old, new, by, k);
            &&& f == -1 || (k <= f < rows.len() && anchor_matches(rows[f], old, new, by))
            &&& forall|j: int| k <= j < rows.len() && (f == -1 || j < f) ==> !anchor_matches(#[trigger] rows[j], old, new, by)
        }),
    decreases rows.len() - k,
{
    if k < rows.len() && !anchor_matches(rows[k as int], old, new, by) {
        lemma_first_anchor_match(rows, old, new, by, k + 1);
    }
}

/// After a reload with the lines `(old, new)` selected before (outside the
/// final view): the selected row is the first row that carries both lines;
/// when none does, the first row with the new line; when none has that
/// either, the first row with the old line.
pub proof fn law_reload_keeps_the_anchor(
    s: ViewModel,
    old: Option<u32>,
    new: Option<u32>,
    rows: Seq<RowSpec>,
    final_rows: Seq<RowSpec>,
)
    requires
        !s.final_view,
        rows.len() <= usize::MAX,
    ensures
        ({
            let r = loaded_step(s, Some((old, new)), false, rows, final_rows).selected_row as int;
            let both = exists|j: int| 0 <= j < rows.len() && (#[trigger] rows[j]).old_line == old && rows[j].new_line == new;
            let by_new = new is Some && exists|j: int| 0 <= j < rows.len() && (#[trigger] rows[j]).new_line == new;
            let by_old = old is Some && exists|j: int| 0 <= j < rows.len() && (#[trigger] rows[j]).old_line == old;
            &&& both ==> 0 <= r < rows.len() && rows[r].old_line == old && rows[r].new_line == new && forall|j: int|
                0 <= j < r ==> !((#[trigger] rows[j]).old_line == old && rows[j].new_line == new)
            &&& !both && by_new ==> 0 <= r < rows.len() && rows[r].new_line == new && forall|j: int|
                0 <= j < r ==> (#[trigger] rows[j]).new_line != new
            &&& !both && !by_new && by_old ==> 0 <= r < rows.len() && rows[r].old_line == old && forall|j: int|
                0 <= j < r ==> (#[trigger] rows[j]).old_line != old
        }),
{
    lemma_first_anchor_match(rows, old, new, 0, 0);
    lemma_first_anchor_match(rows, old, new, 1, 0);
    lemma_first_anchor_match(rows, old, new, 2, 0);
    let both = exists|j: int| 0 <= j < rows.len() && (#[trigger] rows[j]).old_line == old && rows[j].new_line == new;
    if both {
        let j = choose|j: int| 0 <= j < rows.len() && (#[trigger] rows[j]).old_line == old && rows[j].new_line == new;
        assert(anchor_matches(rows[j], old, new, 0));
    }
    if new is Some && exists|j: int| 0 <= j < rows.len() && (#[trigger] rows[j]).new_line == new {
        let j = choose|j: int| 0 <= j < rows.len() && (#[trigger] rows[j]).new_line == new;
        assert(anchor_matches(rows[j], old, new, 1));
    }
    if old is Some && exists|j: int| 0 <= j < rows.len() && (#[trigger] rows[j]).old_line == old {
        let j = choose|j: int| 0 <= j < rows.len() && (#[trigger] rows[j]).old_line == old;
        assert(anchor_matches(rows[j], old, new, 2));
    }
    assert forall|j: int| 0 <= j < rows.len() && anchor_matches(rows[j], old, new, 0) implies both by {
        assert(rows[j].old_line == old && rows[j].new_line == new);
    }
}

} // verus!
