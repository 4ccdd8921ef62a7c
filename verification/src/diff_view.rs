//! Layout of diff rows into rendered lines: unified occurrences, contextual
//! split hunks, separators and content widths.
use vstd::prelude::*;
use crate::diff::{DiffRow, RowSpec, rows_spec, visible_diff_indices, visible_spec};
use crate::text::{
    byte_len, byte_len_of, byte_offset, char_utf8_len, chars_of, decimal, decimal_chars, display_width, lemma_byte_len_bounds,
    lemma_byte_offset_step, pad_left, push_padded, string_from_chars, text_width, utf8_len,
};
use crate::diff::concat_all;
use ratatui::{style::Style, text::Span};

verus! {

/// Number of unchanged rows shown around a change in split view.
pub const SPLIT_CONTEXT_LINES: usize = 3;

/// Fixed gutter width of a split-view line (`"-{line:>5} "`).
pub const SPLIT_PREFIX_WIDTH: usize = 7;

/// Fixed gutter width of a unified-view line (`"-{old:>5} {new:>5} "`).
pub const UNIFIED_PREFIX_WIDTH: usize = 13;

/// Width of the `"  ···"` separator shown between distant split hunks.
pub const SPLIT_SEPARATOR_WIDTH: usize = 5;

/// Width of the separator shown between distant unified hunks.
pub const UNIFIED_SEPARATOR_WIDTH: usize = 16;

/// How a diff is laid out.
#[derive(Clone, Copy, Debug, PartialEq, Eq, Structural)]
pub enum DiffMode {
    SideBySide,
    Unified,
}

/// One rendered line of a diff.
#[derive(Clone, Copy, Debug, PartialEq, Eq, Structural)]
pub enum RenderedDiffLine {
    /// One physical line of `row`. Unified rows can span a deletion and an
    /// insertion line; `occurrence` selects which one (0-based, top down).
    Row { row: usize, occurrence: usize },
    Separator,
}

impl RenderedDiffLine {
    pub open spec fn row_of(self) -> Option<usize> {
        match self {
            RenderedDiffLine::Row { row, .. } => Some(row),
            RenderedDiffLine::Separator => None,
        }
    }

    /// The row a rendered line belongs to; separators belong to none.
    pub fn row_index(self) -> (r: Option<usize>)
        ensures
            r == self.row_of(),
    {
        match self {
            RenderedDiffLine::Row { row, .. } => Some(row),
            RenderedDiffLine::Separator => None,
        }
    }
}

/// Whether a unified view shows the old side of a row as a deletion line.
pub open spec fn shows_deletion(r: RowSpec) -> bool {
    r.old_line is Some && (r.old_changed || r.new_line is None)
}

/// Number of physical lines a unified view spends on a row.
pub open spec fn unified_count(r: RowSpec) -> nat {
    (if shows_deletion(r) { 1nat } else { 0nat }) + (if r.new_line is Some { 1nat } else { 0nat })
}

/// Number of physical lines a unified view spends on `row`.
pub fn unified_row_line_count(row: &DiffRow) -> (r: usize)
    ensures
        r == unified_count(row.view()),
{
    let deletions: usize = if row.old_line.is_some() && (row.old_changed || row.new_line.is_none()) {
        1
    } else {
        0
    };
    let insertions: usize = if row.new_line.is_some() { 1 } else { 0 };
    deletions + insertions
}

/// The physical lines of row `i` in a unified view.
pub open spec fn occurrences(i: usize, count: nat) -> Seq<RenderedDiffLine> {
    Seq::new(count, |o: int| RenderedDiffLine::Row { row: i, occurrence: o as usize })
}

/// Unified layout of the rows `idxs`: each row's physical lines, with a
/// separator wherever shown rows are not adjacent.
pub open spec fn unified_layout(rows: Seq<RowSpec>, idxs: Seq<usize>) -> Seq<RenderedDiffLine>
    decreases idxs.len(),
{
    if idxs.len() == 0 {
        Seq::empty()
    } else {
        let prev = unified_layout(rows, idxs.drop_last());
        let i = idxs.last();
        let sep: Seq<RenderedDiffLine> = if idxs.len() > 1 && i > idxs[idxs.len() - 2] + 1 {
            seq![RenderedDiffLine::Separator]
        } else {
            Seq::empty()
        };
        prev + sep + occurrences(i, unified_count(rows[i as int]))
    }
}

/// Context ranges around the changed rows `changed`, merged where they touch
/// or overlap, for `n` rows.
pub open spec fn hunk_ranges(changed: Seq<usize>, n: nat) -> Seq<(nat, nat)>
    decreases changed.len(),
{
    if changed.len() == 0 {
        Seq::empty()
    } else {
        let prev = hunk_ranges(changed.drop_last(), n);
        let c = changed.last();
        let start: nat = if c >= 3 { (c - 3) as nat } else { 0 };
        let sum: nat = if c + 4 > usize::MAX { usize::MAX as nat } else { (c + 4) as nat };
        let end: nat = if sum < n { sum } else { n };
        if prev.len() > 0 && start <= prev.last().1 {
            prev.update(prev.len() - 1, (prev.last().0, if prev.last().1 >= end { prev.last().1 } else { end }))
        } else {
            prev.push((start, end))
        }
    }
}

/// Rows `start..end`, each once.
pub open spec fn range_rows(start: nat, end: nat) -> Seq<RenderedDiffLine> {
    Seq::new(
        if end >= start { (end - start) as nat } else { 0 },
        |k: int| RenderedDiffLine::Row { row: (start + k) as usize, occurrence: 0 },
    )
}

/// Split layout of hunk ranges: the rows of each range, separated.
pub open spec fn hunk_layout(ranges: Seq<(nat, nat)>) -> Seq<RenderedDiffLine>
    decreases ranges.len(),
{
    if ranges.len() == 0 {
        Seq::empty()
    } else {
        let sep: Seq<RenderedDiffLine> = if ranges.len() > 1 {
            seq![RenderedDiffLine::Separator]
        } else {
            Seq::empty()
        };
        hunk_layout(ranges.drop_last()) + sep + range_rows(ranges.last().0, ranges.last().1)
    }
}

/// Split layout: every row when unchanged rows are shown, otherwise the
/// changed rows with three rows of context, in separated hunks.
pub open spec fn split_layout(rows: Seq<RowSpec>, show_unchanged: bool) -> Seq<RenderedDiffLine> {
    if show_unchanged {
        range_rows(0, rows.len())
    } else {
        hunk_layout(hunk_ranges(visible_spec(rows, false), rows.len()))
    }
}

/// Rendered lines of a diff in the given mode.
pub open spec fn layout(rows: Seq<RowSpec>, show_unchanged: bool, mode: DiffMode) -> Seq<RenderedDiffLine> {
    match mode {
        DiffMode::SideBySide => split_layout(rows, show_unchanged),
        DiffMode::Unified => unified_layout(rows, visible_spec(rows, show_unchanged)),
    }
}

proof fn lemma_visible_bounds(rows: Seq<RowSpec>, show: bool)
    requires
        rows.len() <= usize::MAX,
    ensures
        forall|k: int| 0 <= k < visible_spec(rows, show).len() ==> #[trigger] visible_spec(rows, show)[k] < rows.len(),
        forall|j: int, k: int| 0 <= j < k < visible_spec(rows, show).len() ==> visible_spec(rows, show)[j] < visible_spec(rows, show)[k],
    decreases rows.len(),
{
    if rows.len() > 0 {
        lemma_visible_bounds(rows.drop_last(), show);
        let prev = visible_spec(rows.drop_last(), show);
        let v = visible_spec(rows, show);
        if show || rows.last().changed() {
            assert(v == prev.push((rows.len() - 1) as usize));
            assert forall|j: int, k: int| 0 <= j < k < v.len() implies v[j] < v[k] by {
                if k == v.len() - 1 {
                    assert(v[j] == prev[j]);
                }
            }
        }
    }
}

fn push_occurrences(out: &mut Vec<RenderedDiffLine>, row: usize, count: usize)
    ensures
        final(out)@ == old(out)@ + occurrences(row, count as nat),
{
    let mut o: usize = 0;
    while o < count
        invariant
            o <= count,
            out@ == old(out)@ + occurrences(row, o as nat),
        decreases count - o,
    {
        out.push(RenderedDiffLine::Row { row, occurrence: o });
        assert(old(out)@ + occurrences(row, (o + 1) as nat) =~= old(out)@ + occurrences(row, o as nat) + seq![RenderedDiffLine::Row { row, occurrence: o }]);
        o = o + 1;
    }
}

fn push_range(out: &mut Vec<RenderedDiffLine>, start: usize, end: usize)
    requires
        start <= end,
    ensures
        final(out)@ == old(out)@ + range_rows(start as nat, end as nat),
{
    let mut k = start;
    while k < end
        invariant
            start <= k <= end,
            out@ == old(out)@ + range_rows(start as nat, k as nat),
        decreases end - k,
    {
        out.push(RenderedDiffLine::Row { row: k, occurrence: 0 });
        assert(old(out)@ + range_rows(start as nat, (k + 1) as nat) =~= old(out)@ + range_rows(start as nat, k as nat) + seq![RenderedDiffLine::Row { row: k, occurrence: 0 }]);
        k = k + 1;
    }
}

fn split_hunk_lines(rows: &[DiffRow], show_unchanged: bool) -> (r: Vec<RenderedDiffLine>)
    ensures
        r@ == split_layout(rows_spec(rows@), show_unchanged),
{
    let ghost rs = rows_spec(rows@);
    let mut out: Vec<RenderedDiffLine> = Vec::new();
    if show_unchanged {
        push_range(&mut out, 0, rows.len());
        assert(out@ =~= split_layout(rs, show_unchanged));
        return out;
    }
    let changed = visible_diff_indices(rows, false);
    let n = rows.len();
    assert(rs.len() == n);
    proof {
        lemma_visible_bounds(rs, false);
    }
    let mut ranges: Vec<(usize, usize)> = Vec::new();
    let mut i: usize = 0;
    assert(changed@.take(0) =~= Seq::<usize>::empty());
    while i < changed.len()
        invariant
            rs == rows_spec(rows@),
            n == rows@.len(),
            changed@ == visible_spec(rs, false),
            forall|k: int| 0 <= k < changed@.len() ==> #[trigger] changed@[k] < n,
            i <= changed@.len(),
            ranges@.map_values(|p: (usize, usize)| (p.0 as nat, p.1 as nat)) == hunk_ranges(changed@.take(i as int), n as nat),
            forall|k: int| 0 <= k < ranges@.len() ==> (#[trigger] ranges@[k]).0 <= ranges@[k].1 <= n,
        decreases changed@.len() - i,
    {
        let c = changed[i];
        proof {
            assert(changed@.take(i + 1).drop_last() =~= changed@.take(i as int));
            assert(changed@.take(i + 1).last() == c);
        }
        let start = c.saturating_sub(SPLIT_CONTEXT_LINES);
        let sum = c.saturating_add(SPLIT_CONTEXT_LINES + 1);
        let end = if sum < n { sum } else { n };
        let ghost before = ranges@;
        let len = ranges.len();
        if len > 0 && start <= ranges[len - 1].1 {
            let last = ranges[len - 1];
            let merged_end = if last.1 >= end { last.1 } else { end };
            ranges.set(len - 1, (last.0, merged_end));
        } else {
            ranges.push((start, end));
        }
        assert(ranges@.map_values(|p: (usize, usize)| (p.0 as nat, p.1 as nat)) =~= hunk_ranges(changed@.take(i + 1), n as nat));
        i = i + 1;
    }
    assert(changed@.take(changed@.len() as int) =~= changed@);
    let ghost rv = ranges@.map_values(|p: (usize, usize)| (p.0 as nat, p.1 as nat));
    let mut k: usize = 0;
    assert(rv.take(0) =~= Seq::<(nat, nat)>::empty());
    while k < ranges.len()
        invariant
            rv == ranges@.map_values(|p: (usize, usize)| (p.0 as nat, p.1 as nat)),
            forall|j: int| 0 <= j < ranges@.len() ==> (#[trigger] ranges@[j]).0 <= ranges@[j].1,
            k <= ranges@.len(),
            out@ == hunk_layout(rv.take(k as int)),
        decreases ranges@.len() - k,
    {
        proof {
            assert(rv.take(k + 1).drop_last() =~= rv.take(k as int));
            assert(rv.take(k + 1).last() == (ranges@[k as int].0 as nat, ranges@[k as int].1 as nat));
        }
        let ghost before = out@;
        if k > 0 {
            out.push(RenderedDiffLine::Separator);
        }
        let (start, end) = ranges[k];
        push_range(&mut out, start, end);
        assert(out@ =~= hunk_layout(rv.take(k + 1)));
        k = k + 1;
    }
    assert(rv.take(ranges@.len() as int) =~= rv);
    out
}

/// Rendered lines of a diff: split view shows contextual hunks (or every
/// row), unified view shows each visible row's physical lines; both separate
/// distant groups.
pub fn rendered_diff_lines(rows: &[DiffRow], show_unchanged: bool, mode: DiffMode) -> (r: Vec<RenderedDiffLine>)
    ensures
        r@ == layout(rows_spec(rows@), show_unchanged, mode),
{
    if mode == DiffMode::SideBySide {
        return split_hunk_lines(rows, show_unchanged);
    }
    let ghost rs = rows_spec(rows@);
    let idxs = visible_diff_indices(rows, show_unchanged);
    let n = rows.len();
    assert(rs.len() == n);
    proof {
        lemma_visible_bounds(rs, show_unchanged);
    }
    let mut out: Vec<RenderedDiffLine> = Vec::new();
    let mut k: usize = 0;
    assert(idxs@.take(0) =~= Seq::<usize>::empty());
    while k < idxs.len()
        invariant
            rs == rows_spec(rows@),
            idxs@ == visible_spec(rs, show_unchanged),
            forall|j: int| 0 <= j < idxs@.len() ==> #[trigger] idxs@[j] < rows@.len(),
            forall|a: int, b: int| 0 <= a < b < idxs@.len() ==> idxs@[a] < idxs@[b],
            k <= idxs@.len(),
            out@ == unified_layout(rs, idxs@.take(k as int)),
        decreases idxs@.len() - k,
    {
        let index = idxs[k];
        proof {
            assert(idxs@.take(k + 1).drop_last() =~= idxs@.take(k as int));
            assert(idxs@.take(k + 1).last() == index);
        }
        let ghost before = out@;
        if k > 0 && index > idxs[k - 1] + 1 {
            out.push(RenderedDiffLine::Separator);
        }
        let count = unified_row_line_count(&rows[index]);
        push_occurrences(&mut out, index, count);
        assert(out@ =~= unified_layout(rs, idxs@.take(k + 1)));
        k = k + 1;
    }
    assert(idxs@.take(idxs@.len() as int) =~= idxs@);
    out
}


/// Every rendered row line names a row below `n`.
pub open spec fn names_rows_below(lines: Seq<RenderedDiffLine>, n: nat) -> bool {
    forall|k: int| 0 <= k < lines.len() ==> ((#[trigger] lines[k]).row_of() matches Some(r) ==> r < n)
}

proof fn lemma_unified_rows_exist(rows: Seq<RowSpec>, idxs: Seq<usize>)
    requires
        forall|k: int| 0 <= k < idxs.len() ==> #[trigger] idxs[k] < rows.len(),
    ensures
        names_rows_below(unified_layout(rows, idxs), rows.len()),
    decreases idxs.len(),
{
    if idxs.len() > 0 {
        let d = idxs.drop_last();
        assert forall|k: int| 0 <= k < d.len() implies #[trigger] d[k] < rows.len() by {
            assert(d[k] == idxs[k]);
        }
        lemma_unified_rows_exist(rows, d);
        let i = idxs.last();
        assert(idxs[idxs.len() - 1] == i);
        let prev = unified_layout(rows, d);
        let sep: Seq<RenderedDiffLine> = if idxs.len() > 1 && i > idxs[idxs.len() - 2] + 1 {
            seq![RenderedDiffLine::Separator]
        } else {
            Seq::empty()
        };
        let occ = occurrences(i, unified_count(rows[i as int]));
        let all = unified_layout(rows, idxs);
        assert(all == prev + sep + occ);
        assert forall|k: int| 0 <= k < all.len() implies ((#[trigger] all[k]).row_of() matches Some(r) ==> r < rows.len()) by {
            if k < prev.len() {
                assert(all[k] == prev[k]);
            } else if k < prev.len() + sep.len() {
                assert(all[k] == sep[k - prev.len()]);
            } else {
                assert(all[k] == occ[k - prev.len() - sep.len()]);
            }
        }
    }
}

proof fn lemma_hunk_ranges_bounded(changed: Seq<usize>, n: nat)
    ensures
        forall|k: int| 0 <= k < hunk_ranges(changed, n).len() ==> (#[trigger] hunk_ranges(changed, n)[k]).1 <= n,
    decreases changed.len(),
{
    if changed.len() > 0 {
        lemma_hunk_ranges_bounded(changed.drop_last(), n);
        let prev = hunk_ranges(changed.drop_last(), n);
        let c = changed.last();
        let start: nat = if c >= 3 { (c - 3) as nat } else { 0 };
        let sum: nat = if c + 4 > usize::MAX { usize::MAX as nat } else { (c + 4) as nat };
        let end: nat = if sum < n { sum } else { n };
        let all = hunk_ranges(changed, n);
        if prev.len() > 0 && start <= prev.last().1 {
            let merged = (prev.last().0, if prev.last().1 >= end { prev.last().1 } else { end });
            assert(prev[prev.len() - 1] == prev.last());
            assert(all == prev.update(prev.len() - 1, merged));
            assert forall|k: int| 0 <= k < all.len() implies (#[trigger] all[k]).1 <= n by {
                if k < prev.len() - 1 {
                    assert(all[k] == prev[k]);
                } else {
                    assert(all[k] == merged);
                }
            }
        } else {
            assert(all == prev.push((start, end)));
            assert forall|k: int| 0 <= k < all.len() implies (#[trigger] all[k]).1 <= n by {
                if k < prev.len() {
                    assert(all[k] == prev[k]);
                }
            }
        }
    }
}

proof fn lemma_hunk_layout_rows_exist(ranges: Seq<(nat, nat)>, n: nat)
    requires
        forall|k: int| 0 <= k < ranges.len() ==> (#[trigger] ranges[k]).1 <= n,
    ensures
        names_rows_below(hunk_layout(ranges), n),
    decreases ranges.len(),
{
    if ranges.len() > 0 {
        let d = ranges.drop_last();
        assert forall|k: int| 0 <= k < d.len() implies (#[trigger] d[k]).1 <= n by {
            assert(d[k] == ranges[k]);
        }
        lemma_hunk_layout_rows_exist(d, n);
        assert(ranges[ranges.len() - 1] == ranges.last());
        let prev = hunk_layout(d);
        let sep: Seq<RenderedDiffLine> = if ranges.len() > 1 {
            seq![RenderedDiffLine::Separator]
        } else {
            Seq::empty()
        };
        let rr = range_rows(ranges.last().0, ranges.last().1);
        let all = hunk_layout(ranges);
        assert(all == prev + sep + rr);
        assert forall|k: int| 0 <= k < all.len() implies ((#[trigger] all[k]).row_of() matches Some(r) ==> r < n) by {
            if k < prev.len() {
                assert(all[k] == prev[k]);
            } else if k < prev.len() + sep.len() {
                assert(all[k] == sep[k - prev.len()]);
            } else {
                assert(all[k] == rr[k - prev.len() - sep.len()]);
            }
        }
    }
}

/// Every rendered line of a layout names an existing row.
pub proof fn lemma_layout_rows_exist(rows: Seq<RowSpec>, show_unchanged: bool, mode: DiffMode)
    requires
        rows.len() <= usize::MAX,
    ensures
        names_rows_below(layout(rows, show_unchanged, mode), rows.len()),
{
    match mode {
        DiffMode::Unified => {
            lemma_visible_bounds(rows, show_unchanged);
            lemma_unified_rows_exist(rows, visible_spec(rows, show_unchanged));
        },
        DiffMode::SideBySide => {
            if !show_unchanged {
                lemma_hunk_ranges_bounded(visible_spec(rows, false), rows.len());
                lemma_hunk_layout_rows_exist(hunk_ranges(visible_spec(rows, false), rows.len()), rows.len());
            }
        },
    }
}

/// Rows deduplicated from lines that name rows below `n` are below `n`.
pub proof fn lemma_deduped_below(lines: Seq<RenderedDiffLine>, n: nat)
    requires
        names_rows_below(lines, n),
    ensures
        forall|i: int| 0 <= i < deduped_rows(lines).len() ==> #[trigger] deduped_rows(lines)[i] < n,
    decreases lines.len(),
{
    if lines.len() > 0 {
        let d = lines.drop_last();
        assert forall|k: int| 0 <= k < d.len() implies ((#[trigger] d[k]).row_of() matches Some(r) ==> r < n) by {
            assert(d[k] == lines[k]);
        }
        lemma_deduped_below(d, n);
        assert(lines[lines.len() - 1] == lines.last());
        let prev = deduped_rows(d);
        let all = deduped_rows(lines);
        match lines.last().row_of() {
            Some(r) => {
                assert(r < n);
                if !(prev.len() > 0 && prev.last() == r) {
                    assert(all == prev.push(r));
                    assert forall|i: int| 0 <= i < all.len() implies #[trigger] all[i] < n by {
                        if i < prev.len() {
                            assert(all[i] == prev[i]);
                        }
                    }
                }
            },
            None => {},
        }
    }
}

/// Terminal columns of a split-view row: the gutter and the wider side.
pub open spec fn split_width(r: RowSpec) -> int {
    if r.old_line is None && r.new_line is None {
        0
    } else {
        SPLIT_PREFIX_WIDTH + if r.old_width >= r.new_width { r.old_width as int } else { r.new_width as int }
    }
}

/// Terminal columns of a unified-view row: the gutter and the wider text,
/// when the row shows any line.
pub open spec fn unified_width(r: RowSpec) -> int {
    if shows_deletion(r) || r.new_line is Some {
        UNIFIED_PREFIX_WIDTH + if r.old_width >= r.new_width { r.old_width as int } else { r.new_width as int }
    } else {
        0
    }
}

/// Terminal columns of one rendered line.
pub open spec fn line_width(rows: Seq<RowSpec>, line: RenderedDiffLine, mode: DiffMode) -> int {
    match line {
        RenderedDiffLine::Separator => match mode {
            DiffMode::SideBySide => SPLIT_SEPARATOR_WIDTH as int,
            DiffMode::Unified => UNIFIED_SEPARATOR_WIDTH as int,
        },
        RenderedDiffLine::Row { row, .. } => match mode {
            DiffMode::SideBySide => split_width(rows[row as int]),
            DiffMode::Unified => unified_width(rows[row as int]),
        },
    }
}

/// Widest rendered line, 0 for none.
pub open spec fn max_line_width(rows: Seq<RowSpec>, lines: Seq<RenderedDiffLine>, mode: DiffMode) -> int
    decreases lines.len(),
{
    if lines.len() == 0 {
        0
    } else {
        let m = max_line_width(rows, lines.drop_last(), mode);
        let w = line_width(rows, lines.last(), mode);
        if w > m { w } else { m }
    }
}

/// Rendered lines only name existing rows, whose widths leave room for the gutter.
pub open spec fn lines_in_rows(rows: Seq<RowSpec>, lines: Seq<RenderedDiffLine>) -> bool {
    &&& forall|k: int| 0 <= k < lines.len() ==> ((#[trigger] lines[k]).row_of() matches Some(r) ==> r < rows.len())
    &&& forall|k: int| 0 <= k < rows.len() ==> (#[trigger] rows[k]).old_width <= usize::MAX - 13 && rows[k].new_width <= usize::MAX - 13
}

fn row_width(row: &DiffRow, mode: DiffMode) -> (r: usize)
    requires
        row.old_width <= usize::MAX - 13,
        row.new_width <= usize::MAX - 13,
    ensures
        r == line_width(seq![row.view()], RenderedDiffLine::Row { row: 0, occurrence: 0 }, mode),
{
    let wider = if row.old_width >= row.new_width { row.old_width } else { row.new_width };
    match mode {
        DiffMode::SideBySide => {
            if row.old_line.is_none() && row.new_line.is_none() { 0 } else { SPLIT_PREFIX_WIDTH + wider }
        },
        DiffMode::Unified => {
            if unified_row_line_count(row) > 0 { UNIFIED_PREFIX_WIDTH + wider } else { 0 }
        },
    }
}

/// Widest terminal column any rendered line can reach, without materializing
/// styled spans.
pub fn rendered_content_width(rows: &[DiffRow], lines: &[RenderedDiffLine], mode: DiffMode) -> (r: usize)
    requires
        lines_in_rows(rows_spec(rows@), lines@),
    ensures
        r == max_line_width(rows_spec(rows@), lines@, mode),
{
    let ghost rs = rows_spec(rows@);
    let mut best: usize = 0;
    let mut k: usize = 0;
    assert(lines@.take(0) =~= Seq::<RenderedDiffLine>::empty());
    while k < lines.len()
        invariant
            rs == rows_spec(rows@),
            lines_in_rows(rs, lines@),
            k <= lines@.len(),
            best == max_line_width(rs, lines@.take(k as int), mode),
        decreases lines@.len() - k,
    {
        proof {
            assert(lines@.take(k + 1).drop_last() =~= lines@.take(k as int));
            assert(lines@.take(k + 1).last() == lines@[k as int]);
        }
        let w = match lines[k] {
            RenderedDiffLine::Separator => match mode {
                DiffMode::SideBySide => SPLIT_SEPARATOR_WIDTH,
                DiffMode::Unified => UNIFIED_SEPARATOR_WIDTH,
            },
            RenderedDiffLine::Row { row, .. } => {
                assert(lines@[k as int].row_of() == Some(row));
                assert(rs[row as int] == rows@[row as int].view());
                row_width(&rows[row], mode)
            },
        };
        if w > best {
            best = w;
        }
        k = k + 1;
    }
    assert(lines@.take(lines@.len() as int) =~= lines@);
    best
}

/// Widest source line of the final view: gutter and new-side text, 0 for none.
pub open spec fn max_source_width(rows: Seq<RowSpec>, lines: Seq<RenderedDiffLine>) -> int
    decreases lines.len(),
{
    if lines.len() == 0 {
        0
    } else {
        let m = max_source_width(rows, lines.drop_last());
        match lines.last().row_of() {
            Some(r) => {
                let w = SPLIT_PREFIX_WIDTH + rows[r as int].new_width;
                if w > m { w } else { m }
            },
            None => m,
        }
    }
}

/// Widest line of the final view.
pub fn rendered_source_content_width(rows: &[DiffRow], lines: &[RenderedDiffLine]) -> (r: usize)
    requires
        lines_in_rows(rows_spec(rows@), lines@),
    ensures
        r == max_source_width(rows_spec(rows@), lines@),
{
    let ghost rs = rows_spec(rows@);
    let mut best: usize = 0;
    let mut k: usize = 0;
    assert(lines@.take(0) =~= Seq::<RenderedDiffLine>::empty());
    while k < lines.len()
        invariant
            rs == rows_spec(rows@),
            lines_in_rows(rs, lines@),
            k <= lines@.len(),
            best == max_source_width(rs, lines@.take(k as int)),
        decreases lines@.len() - k,
    {
        proof {
            assert(lines@.take(k + 1).drop_last() =~= lines@.take(k as int));
            assert(lines@.take(k + 1).last() == lines@[k as int]);
        }
        match lines[k].row_index() {
            Some(row) => {
                assert(rs[row as int] == rows@[row as int].view());
                let w = SPLIT_PREFIX_WIDTH + rows[row].new_width;
                if w > best {
                    best = w;
                }
            },
            None => {},
        }
        k = k + 1;
    }
    assert(lines@.take(lines@.len() as int) =~= lines@);
    best
}

/// Row indices of rendered lines with consecutive repeats removed.
pub open spec fn deduped_rows(lines: Seq<RenderedDiffLine>) -> Seq<usize>
    decreases lines.len(),
{
    if lines.len() == 0 {
        Seq::empty()
    } else {
        let prev = deduped_rows(lines.drop_last());
        match lines.last().row_of() {
            Some(r) => if prev.len() > 0 && prev.last() == r { prev } else { prev.push(r) },
            None => prev,
        }
    }
}

/// Distinct row indices in display order, each physical row once.
pub fn dedupe_row_indices(lines: &[RenderedDiffLine]) -> (r: Vec<usize>)
    ensures
        r@ == deduped_rows(lines@),
{
    let mut out: Vec<usize> = Vec::new();
    let mut k: usize = 0;
    assert(lines@.take(0) =~= Seq::<RenderedDiffLine>::empty());
    while k < lines.len()
        invariant
            k <= lines@.len(),
            out@ == deduped_rows(lines@.take(k as int)),
        decreases lines@.len() - k,
    {
        proof {
            assert(lines@.take(k + 1).drop_last() =~= lines@.take(k as int));
            assert(lines@.take(k + 1).last() == lines@[k as int]);
        }
        match lines[k].row_index() {
            Some(index) => {
                let n = out.len();
                if !(n > 0 && out[n - 1] == index) {
                    out.push(index);
                }
            },
            None => {},
        }
        k = k + 1;
    }
    assert(lines@.take(lines@.len() as int) =~= lines@);
    out
}

/// First position at or after `k` of a rendered line of `row`, or -1.
pub open spec fn first_line_from(lines: Seq<RenderedDiffLine>, row: usize, k: nat) -> int
    decreases lines.len() - k,
{
    if k >= lines.len() {
        -1
    } else if lines[k as int].row_of() == Some(row) {
        k as int
    } else {
        first_line_from(lines, row, k + 1)
    }
}

/// Last position before `k` of a rendered line of `row`, or -1.
pub open spec fn last_line_before(lines: Seq<RenderedDiffLine>, row: usize, k: nat) -> int
    decreases k,
{
    if k == 0 || k > lines.len() {
        -1
    } else if lines[k - 1].row_of() == Some(row) {
        k - 1
    } else {
        last_line_before(lines, row, (k - 1) as nat)
    }
}

/// Position of the first rendered line of `row`, or 0 when it is not shown.
pub open spec fn line_position(lines: Seq<RenderedDiffLine>, row: usize) -> int {
    let f = first_line_from(lines, row, 0);
    if f < 0 { 0 } else { f }
}

pub proof fn lemma_first_line_from(lines: Seq<RenderedDiffLine>, row: usize, k: nat)
    ensures
        first_line_from(lines, row, k) == -1 || (k <= first_line_from(lines, row, k) < lines.len()
            && lines[first_line_from(lines, row, k)].row_of() == Some(row)),
        first_line_from(lines, row, k) == -1 ==> forall|j: int| k <= j < lines.len() ==> (#[trigger] lines[j]).row_of() != Some(row),
        forall|j: int| k <= j < first_line_from(lines, row, k) ==> (#[trigger] lines[j]).row_of() != Some(row),
    decreases lines.len() - k,
{
    if k < lines.len() && lines[k as int].row_of() != Some(row) {
        lemma_first_line_from(lines, row, k + 1);
    }
}

pub proof fn lemma_last_line_before(lines: Seq<RenderedDiffLine>, row: usize, k: nat)
    requires
        k <= lines.len(),
    ensures
        last_line_before(lines, row, k) == -1 || (0 <= last_line_before(lines, row, k) < k
            && lines[last_line_before(lines, row, k)].row_of() == Some(row)),
    decreases k,
{
    if k > 0 && lines[k - 1].row_of() != Some(row) {
        lemma_last_line_before(lines, row, (k - 1) as nat);
    }
}

/// Position of the first rendered line of `selected_row`, or 0 when it is
/// not shown.
pub fn selected_line_position(lines: &[RenderedDiffLine], selected_row: usize) -> (r: usize)
    ensures
        r == line_position(lines@, selected_row),
        (exists|k: int| 0 <= k < lines@.len() && (#[trigger] lines@[k]).row_of() == Some(selected_row)) ==> {
            &&& r < lines@.len()
            &&& lines@[r as int].row_of() == Some(selected_row)
            &&& forall|k: int| 0 <= k < r ==> (#[trigger] lines@[k]).row_of() != Some(selected_row)
        },
        !(exists|k: int| 0 <= k < lines@.len() && (#[trigger] lines@[k]).row_of() == Some(selected_row)) ==> r == 0,
{
    proof {
        lemma_first_line_from(lines@, selected_row, 0);
    }
    let mut k: usize = 0;
    while k < lines.len()
        invariant
            k <= lines@.len(),
            first_line_from(lines@, selected_row, 0) == first_line_from(lines@, selected_row, k as nat),
            forall|j: int| 0 <= j < k ==> (#[trigger] lines@[j]).row_of() != Some(selected_row),
        decreases lines@.len() - k,
    {
        if lines[k].row_index() == Some(selected_row) {
            return k;
        }
        k = k + 1;
    }
    0
}

/// Position of the last rendered line of `selected_row`, if it is shown.
pub fn last_line_position(lines: &[RenderedDiffLine], selected_row: usize) -> (r: Option<usize>)
    ensures
        match r {
            Some(p) => last_line_before(lines@, selected_row, lines@.len()) == p as int,
            None => last_line_before(lines@, selected_row, lines@.len()) == -1,
        },
{
    let mut k: usize = lines.len();
    while k > 0
        invariant
            k <= lines@.len(),
            last_line_before(lines@, selected_row, lines@.len()) == last_line_before(lines@, selected_row, k as nat),
        decreases k,
    {
        if lines[k - 1].row_index() == Some(selected_row) {
            return Some(k - 1);
        }
        k = k - 1;
    }
    None
}

/// Gutter marker of one side of a row: `-` for a changed old side, `+` for a
/// changed new side, a space for unchanged text.
pub fn diff_marker(changed: bool, deletion: bool) -> (r: char)
    ensures
        r == (if !changed { ' ' } else if deletion { '-' } else { '+' }),
{
    if !changed {
        ' '
    } else if deletion {
        '-'
    } else {
        '+'
    }
}

/// Decimal notation of a line number, empty for no line.
pub open spec fn line_number_text(line: Option<u32>) -> Seq<char> {
    match line {
        Some(n) => decimal(n as nat),
        None => Seq::empty(),
    }
}

/// The unified gutter: old and new line numbers, each right-aligned in five
/// columns and followed by a space.
pub open spec fn gutter_text(lines: Seq<Option<u32>>) -> Seq<char> {
    pad_left(line_number_text(lines[0]), 5) + seq![' '] + pad_left(line_number_text(lines[1]), 5) + seq![' ']
}

fn line_number_chars(line: Option<u32>) -> (r: Vec<char>)
    ensures
        r@ == line_number_text(line),
{
    match line {
        Some(n) => decimal_chars(n),
        None => Vec::new(),
    }
}

/// Gutter text `"{old:>5} {new:>5} "` of a unified line.
pub fn gutter_numbers(lines: [Option<u32>; 2]) -> (r: String)
    ensures
        r@ == gutter_text(lines@),
{
    let old = line_number_chars(lines[0]);
    let new = line_number_chars(lines[1]);
    let mut out: Vec<char> = Vec::new();
    push_padded(&mut out, old.as_slice(), 5);
    out.push(' ');
    push_padded(&mut out, new.as_slice(), 5);
    out.push(' ');
    assert(out@ =~= gutter_text(lines@));
    string_from_chars(out.as_slice())
}

/// The graphemes that `ratatui`'s `Span::styled_graphemes` yields for a
/// text: its extended grapheme clusters, without those that are a lone `\n`.
pub uninterp spec fn styled_graphemes(text: Seq<char>) -> Seq<Seq<char>>;

/// Calls `Span::raw(text).styled_graphemes(Style::default())` of `ratatui`
/// and copies each grapheme's symbol; the result is named by
/// [`styled_graphemes`].
#[verifier::external_body]
fn span_graphemes(text: &str) -> (r: Vec<String>)
    ensures
        r@.map_values(|g: String| g@) == styled_graphemes(text@),
{
    Span::raw(text).styled_graphemes(Style::default()).map(|g| g.symbol.to_string()).collect()
}

/// Number of leading graphemes, from `k` on with `width` columns already
/// used, taken until at least `columns` columns are filled.
pub open spec fn graphemes_taken(gs: Seq<Seq<char>>, columns: int, k: nat, width: int) -> nat
    decreases gs.len() - k,
{
    if k >= gs.len() || width >= columns {
        k
    } else {
        graphemes_taken(gs, columns, k + 1, width + display_width(gs[k as int]))
    }
}

/// Total UTF-8 length of the first `n` graphemes.
pub open spec fn graphemes_bytes(gs: Seq<Seq<char>>, n: int) -> int
    decreases n,
{
    if n <= 0 || n > gs.len() {
        0
    } else {
        graphemes_bytes(gs, n - 1) + byte_len(gs[n - 1])
    }
}

/// Number of leading characters of `s`, from `k` on, that end within the
/// first `b` bytes.
pub open spec fn chars_within(s: Seq<char>, b: int, k: nat) -> nat
    decreases s.len() - k,
{
    if k < s.len() && byte_offset(s, (k + 1) as int) <= b {
        chars_within(s, b, k + 1)
    } else {
        k
    }
}

/// The visible start of a source line: the text up to the summed UTF-8
/// length of its leading graphemes, taken until they fill `columns` terminal
/// columns (the grapheme that reaches the edge is kept whole); the whole text
/// when `columns` is `usize::MAX`. A `\n` is no grapheme of its own here, so
/// its byte does not count. Where that length falls inside a character, the
/// prefix stops before it.
pub open spec fn visible_prefix(text: Seq<char>, columns: usize) -> Seq<char> {
    if columns == usize::MAX {
        text
    } else {
        let gs = styled_graphemes(text);
        text.take(chars_within(text, graphemes_bytes(gs, graphemes_taken(gs, columns as int, 0, 0) as int), 0) as int)
    }
}

/// Bound at which the summed grapheme length stops growing; no character
/// offset of a text in memory reaches it.
spec fn bytes_cap() -> int {
    0x1_0000_0000_0000_0000_0000_0000
}

proof fn lemma_graphemes_bytes_nonneg(gs: Seq<Seq<char>>, n: int)
    ensures
        graphemes_bytes(gs, n) >= 0,
    decreases n,
{
    if n > 0 && n <= gs.len() {
        lemma_graphemes_bytes_nonneg(gs, n - 1);
    }
}

/// Stops at the visible right edge before the line is styled or measured.
pub fn source_prefix(text: &str, columns: usize) -> (r: String)
    ensures
        r@ == visible_prefix(text@, columns),
{
    if columns == usize::MAX {
        return string_from_chars(chars_of(text).as_slice());
    }
    let gs = span_graphemes(text);
    let ghost g = gs@.map_values(|x: String| x@);
    let mut bytes: u128 = 0;
    let mut width: u128 = 0;
    let mut k: usize = 0;
    while k < gs.len() && width < columns as u128
        invariant
            g == gs@.map_values(|x: String| x@),
            k <= gs@.len(),
            width <= columns as u128 + usize::MAX as u128,
            graphemes_taken(g, columns as int, 0, 0) == graphemes_taken(g, columns as int, k as nat, width as int),
            bytes as int == if graphemes_bytes(g, k as int) > bytes_cap() { bytes_cap() } else { graphemes_bytes(g, k as int) },
        decreases gs@.len() - k,
    {
        let w = text_width(gs[k].as_str());
        let piece = chars_of(gs[k].as_str());
        let len = byte_len_of(piece.as_slice());
        let _count = piece.len();
        proof {
            assert(g[k as int] == gs@[k as int]@);
            lemma_byte_len_bounds(piece@);
            lemma_graphemes_bytes_nonneg(g, k as int);
            assert(graphemes_bytes(g, k + 1) == graphemes_bytes(g, k as int) + byte_len(g[k as int]));
            assert(bytes <= 0x1_0000_0000_0000_0000_0000_0000);
            assert(len <= 4 * piece@.len());
            assert(piece@.len() <= usize::MAX);
        }
        if bytes + len > 0x1_0000_0000_0000_0000_0000_0000 {
            bytes = 0x1_0000_0000_0000_0000_0000_0000;
        } else {
            bytes = bytes + len;
        }
        width = width + w as u128;
        k = k + 1;
    }
    let t = chars_of(text);
    let ghost b = graphemes_bytes(g, k as int);
    let mut out: Vec<char> = Vec::new();
    let mut off: u128 = 0;
    let mut i: usize = 0;
    proof {
        lemma_graphemes_bytes_nonneg(g, k as int);
        assert(t@.take(0) =~= Seq::<char>::empty());
    }
    while i < t.len() && off + char_utf8_len(t[i]) as u128 <= bytes
        invariant
            b == graphemes_bytes(g, k as int),
            b >= 0,
            bytes as int == if b > bytes_cap() { bytes_cap() } else { b },
            i <= t@.len(),
            off as int == byte_offset(t@, i as int),
            off <= 4 * (i as int),
            out@ == t@.take(i as int),
            chars_within(t@, b, 0) == chars_within(t@, b, i as nat),
        decreases t@.len() - i,
    {
        proof {
            lemma_byte_offset_step(t@, i as int);
        }
        off = off + char_utf8_len(t[i]) as u128;
        out.push(t[i]);
        assert(t@.take(i + 1) =~= t@.take(i as int).push(t@[i as int]));
        i = i + 1;
    }
    proof {
        if i < t@.len() {
            lemma_byte_offset_step(t@, i as int);
        }
    }
    string_from_chars(out.as_slice())
}

/// One physical line of a unified row: its gutter line numbers (old, new),
/// its marker, and whether it shows the deleted (old) text.
#[derive(Clone, Copy, Debug, PartialEq, Eq, Structural)]
pub struct UnifiedOccurrence {
    pub old_number: Option<u32>,
    pub new_number: Option<u32>,
    pub marker: char,
    pub deletion: bool,
}

/// Whether a unified row shows its old line as a deletion.
pub open spec fn renders_deletion(row: DiffRow) -> bool {
    row.old_line is Some && (row.old_changed || row.new_line is None)
}

/// Physical line `occurrence` of a unified row: first the deletion, when the
/// row shows one, with only the old number and `-`; then the new line, with
/// the old number only when unchanged, and `+` when changed.
pub fn unified_occurrence(row: &DiffRow, occurrence: usize) -> (r: Option<UnifiedOccurrence>)
    ensures
        r == if occurrence == 0 && renders_deletion(*row) {
            Some(UnifiedOccurrence { old_number: row.old_line, new_number: None, marker: '-', deletion: true })
        } else if row.new_line is Some && occurrence <= (if renders_deletion(*row) { 1int } else { 0int }) {
            Some(
                UnifiedOccurrence {
                    old_number: if row.new_changed { None } else { row.old_line },
                    new_number: row.new_line,
                    marker: if row.new_changed { '+' } else { ' ' },
                    deletion: false,
                },
            )
        } else {
            None::<UnifiedOccurrence>
        },
{
    let deletion = row.old_line.is_some() && (row.old_changed || row.new_line.is_none());
    if occurrence == 0 && deletion {
        return Some(UnifiedOccurrence { old_number: row.old_line, new_number: None, marker: '-', deletion: true });
    }
    let limit: usize = if deletion { 1 } else { 0 };
    if row.new_line.is_some() && occurrence <= limit {
        Some(
            UnifiedOccurrence {
                old_number: if row.new_changed { None } else { row.old_line },
                new_number: row.new_line,
                marker: if row.new_changed { '+' } else { ' ' },
                deletion: false,
            },
        )
    } else {
        None
    }
}

proof fn lemma_visible_contains(rows: Seq<RowSpec>, show: bool, i: int)
    requires
        rows.len() <= usize::MAX,
        0 <= i < rows.len(),
        show || rows[i].changed(),
    ensures
        exists|k: int| 0 <= k < visible_spec(rows, show).len() && visible_spec(rows, show)[k] == i,
    decreases rows.len(),
{
    let prev = visible_spec(rows.drop_last(), show);
    if i == rows.len() - 1 {
        assert(visible_spec(rows, show) == prev.push((rows.len() - 1) as usize));
        assert(visible_spec(rows, show)[prev.len() as int] == i);
    } else {
        assert(rows.drop_last()[i] == rows[i]);
        lemma_visible_contains(rows.drop_last(), show, i);
        let k = choose|k: int| 0 <= k < prev.len() && prev[k] == i;
        if show || rows.last().changed() {
            assert(visible_spec(rows, show) == prev.push((rows.len() - 1) as usize));
            assert(visible_spec(rows, show)[k] == i);
        } else {
            assert(visible_spec(rows, show) == prev);
        }
    }
}

/// Row `k` lies in one of the ranges.
pub open spec fn in_some_range(ranges: Seq<(nat, nat)>, k: int) -> bool {
    exists|r: int| 0 <= r < ranges.len() && ranges[r].0 <= k < (#[trigger] ranges[r]).1
}

proof fn lemma_ranges_last_start(changed: Seq<usize>, n: nat)
    requires
        changed.len() > 0,
        forall|j: int, k: int| 0 <= j < k < changed.len() ==> changed[j] < changed[k],
    ensures
        hunk_ranges(changed, n).len() > 0,
        hunk_ranges(changed, n).last().0 <= if changed.last() >= 3 { changed.last() - 3 } else { 0 },
    decreases changed.len(),
{
    let prev = hunk_ranges(changed.drop_last(), n);
    let c = changed.last();
    let start: nat = if c >= 3 { (c - 3) as nat } else { 0 };
    let sum: nat = if c + 4 > usize::MAX { usize::MAX as nat } else { (c + 4) as nat };
    let end: nat = if sum < n { sum } else { n };
    let rs = hunk_ranges(changed, n);
    if changed.len() > 1 {
        let d = changed.drop_last();
        assert(d.last() == changed[changed.len() - 2]);
        lemma_ranges_last_start(d, n);
    }
    if prev.len() > 0 && start <= prev.last().1 {
        let m = if prev.last().1 >= end { prev.last().1 } else { end };
        assert(rs == prev.update(prev.len() - 1, (prev.last().0, m)));
        assert(rs.last() == (prev.last().0, m));
        assert(changed.len() > 1);
    } else {
        assert(rs == prev.push((start, end)));
    }
}

proof fn lemma_context_in_ranges(changed: Seq<usize>, n: nat, j: int, k: int)
    requires
        n <= usize::MAX,
        0 <= j < changed.len(),
        forall|a: int| 0 <= a < changed.len() ==> #[trigger] changed[a] < n,
        forall|a: int, b: int| 0 <= a < b < changed.len() ==> changed[a] < changed[b],
        changed[j] - 3 <= k < changed[j] + 4,
        0 <= k < n,
    ensures
        in_some_range(hunk_ranges(changed, n), k),
    decreases changed.len(),
{
    let prev = hunk_ranges(changed.drop_last(), n);
    let c = changed.last();
    let start: nat = if c >= 3 { (c - 3) as nat } else { 0 };
    let sum: nat = if c + 4 > usize::MAX { usize::MAX as nat } else { (c + 4) as nat };
    let end: nat = if sum < n { sum } else { n };
    let rs = hunk_ranges(changed, n);
    let d = changed.drop_last();
    if changed.len() > 1 {
        lemma_ranges_last_start(d, n);
        assert(d.last() == changed[changed.len() - 2]);
    }
    if j == changed.len() - 1 {
        if prev.len() > 0 && start <= prev.last().1 {
            let m = if prev.last().1 >= end { prev.last().1 } else { end };
            assert(rs == prev.update(prev.len() - 1, (prev.last().0, m)));
            assert(rs[prev.len() - 1] == (prev.last().0, m));
        } else {
            assert(rs == prev.push((start, end)));
            assert(rs[prev.len() as int] == (start, end));
        }
    } else {
        assert(d[j] == changed[j]);
        lemma_context_in_ranges(d, n, j, k);
        let r = choose|r: int| 0 <= r < prev.len() && prev[r].0 <= k < (#[trigger] prev[r]).1;
        if prev.len() > 0 && start <= prev.last().1 {
            let m = if prev.last().1 >= end { prev.last().1 } else { end };
            assert(rs == prev.update(prev.len() - 1, (prev.last().0, m)));
            assert(rs[r].0 <= k < rs[r].1);
        } else {
            assert(rs == prev.push((start, end)));
            assert(rs[r] == prev[r]);
        }
    }
}

proof fn lemma_range_rows_shown(ranges: Seq<(nat, nat)>, k: int)
    requires
        in_some_range(ranges, k),
        forall|r: int| 0 <= r < ranges.len() ==> (#[trigger] ranges[r]).1 <= usize::MAX,
    ensures
        exists|p: int| 0 <= p < hunk_layout(ranges).len() && hunk_layout(ranges)[p] == (RenderedDiffLine::Row { row: k as usize, occurrence: 0 }),
    decreases ranges.len(),
{
    let last = ranges.last();
    let pre = hunk_layout(ranges.drop_last());
    let sep: Seq<RenderedDiffLine> = if ranges.len() > 1 { seq![RenderedDiffLine::Separator] } else { Seq::empty() };
    let tail = range_rows(last.0, last.1);
    assert(hunk_layout(ranges) == pre + sep + tail);
    if last.0 <= k < last.1 {
        let p = pre.len() + sep.len() + (k - last.0);
        assert(tail[k - last.0] == (RenderedDiffLine::Row { row: k as usize, occurrence: 0 }));
        assert(hunk_layout(ranges)[p] == tail[k - last.0]);
    } else {
        let r = choose|r: int| 0 <= r < ranges.len() && ranges[r].0 <= k < (#[trigger] ranges[r]).1;
        assert(r != ranges.len() - 1);
        assert(ranges.drop_last()[r] == ranges[r]);
        assert(in_some_range(ranges.drop_last(), k));
        lemma_range_rows_shown(ranges.drop_last(), k);
        let p = choose|p: int| 0 <= p < pre.len() && pre[p] == (RenderedDiffLine::Row { row: k as usize, occurrence: 0 });
        assert(hunk_layout(ranges)[p] == pre[p]);
    }
}

proof fn lemma_ranges_end_bounded(changed: Seq<usize>, n: nat)
    requires
        n <= usize::MAX,
    ensures
        forall|r: int| 0 <= r < hunk_ranges(changed, n).len() ==> (#[trigger] hunk_ranges(changed, n)[r]).1 <= n,
    decreases changed.len(),
{
    if changed.len() > 0 {
        lemma_ranges_end_bounded(changed.drop_last(), n);
        let prev = hunk_ranges(changed.drop_last(), n);
        let c = changed.last();
        let start: nat = if c >= 3 { (c - 3) as nat } else { 0 };
        let sum: nat = if c + 4 > usize::MAX { usize::MAX as nat } else { (c + 4) as nat };
        let end: nat = if sum < n { sum } else { n };
        let rs = hunk_ranges(changed, n);
        if prev.len() > 0 && start <= prev.last().1 {
            let m = if prev.last().1 >= end { prev.last().1 } else { end };
            assert(rs == prev.update(prev.len() - 1, (prev.last().0, m)));
            assert forall|r: int| 0 <= r < rs.len() implies (#[trigger] rs[r]).1 <= n by {
                if r < prev.len() - 1 {
                    assert(rs[r] == prev[r]);
                }
            }
        } else {
            assert(rs == prev.push((start, end)));
            assert forall|r: int| 0 <= r < rs.len() implies (#[trigger] rs[r]).1 <= n by {
                if r < prev.len() {
                    assert(rs[r] == prev[r]);
                }
            }
        }
    }
}

/// With unchanged rows hidden, the split view shows every changed row
/// together with up to three rows of context on each side: for a changed
/// row `i`, each row `k` with `i - 3 <= k <= i + 3` (inside the diff) has a
/// rendered line.
pub proof fn law_split_view_shows_changes_with_context(rows: Seq<RowSpec>, i: int, k: int)
    requires
        rows.len() <= usize::MAX,
        0 <= i < rows.len(),
        rows[i].changed(),
        i - 3 <= k <= i + 3,
        0 <= k < rows.len(),
    ensures
        exists|p: int|
            0 <= p < layout(rows, false, DiffMode::SideBySide).len() && layout(rows, false, DiffMode::SideBySide)[p]
                == (RenderedDiffLine::Row { row: k as usize, occurrence: 0 }),
{
    let v = visible_spec(rows, false);
    lemma_visible_bounds(rows, false);
    lemma_visible_contains(rows, false, i);
    let j = choose|j: int| 0 <= j < v.len() && v[j] == i;
    lemma_context_in_ranges(v, rows.len(), j, k);
    lemma_ranges_end_bounded(v, rows.len());
    lemma_range_rows_shown(hunk_ranges(v, rows.len()), k);
    assert(layout(rows, false, DiffMode::SideBySide) == hunk_layout(hunk_ranges(v, rows.len())));
}

} // verus!
