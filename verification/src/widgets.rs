//! Geometry and text shared by the panel widgets: scrollbar thumbs, row
//! backgrounds, change counts and abbreviated path titles.
use vstd::prelude::*;
use std::time::{SystemTime, UNIX_EPOCH};
use crate::diff::{DiffRow, RowSpec, rows_spec};
use crate::diff_view::shows_deletion;
use crate::text::{
    chars_of, copy_chars, display_width, lemma_split_on_nonempty, split_chars, split_on,
    string_from_chars, text_width, vv,
};

verus! {

/// Thumb position for content scrolled by `offset`: 0 at the top, the last
/// content line at the bottom, proportional in between (the product
/// saturates at `usize::MAX` before dividing).
pub open spec fn thumb_position(content: int, viewport: int, offset: int) -> int {
    let max = if content > viewport { content - viewport } else { 0 };
    if max == 0 {
        0
    } else {
        let o = if offset < max { offset } else { max };
        let p = o * (content - 1);
        let sat = if p > usize::MAX { usize::MAX as int } else { p };
        sat / max
    }
}

/// Position of the scrollbar thumb for content scrolled by `offset`.
pub fn scrollbar_position(content_length: usize, viewport_length: usize, offset: usize) -> (r: usize)
    ensures
        r == thumb_position(content_length as int, viewport_length as int, offset as int),
{
    let max_offset = content_length.saturating_sub(viewport_length);
    if max_offset == 0 {
        return 0;
    }
    let o = if offset < max_offset { offset } else { max_offset };
    let product = match o.checked_mul(content_length - 1) {
        Some(p) => p,
        None => usize::MAX,
    };
    product / max_offset
}

/// Row backgrounds are painted through the viewport including the scrolled-off
/// prefix, up to the widest width a line can have.
pub fn background_width(horizontal_scroll: u16, viewport_width: u16) -> (r: u16)
    ensures
        r == if horizontal_scroll + viewport_width > u16::MAX { u16::MAX as int } else { horizontal_scroll
            + viewport_width },
{
    let sum = horizontal_scroll as u32 + viewport_width as u32;
    if sum > 0xFFFF { 0xFFFF } else { sum as u16 }
}

/// Rows that show an added line.
pub open spec fn additions(rows: Seq<RowSpec>) -> nat
    decreases rows.len(),
{
    if rows.len() == 0 {
        0
    } else {
        additions(rows.drop_last()) + if rows.last().new_line is Some && rows.last().new_changed { 1nat } else { 0nat }
    }
}

/// Rows that show a deleted line.
pub open spec fn deletions(rows: Seq<RowSpec>) -> nat
    decreases rows.len(),
{
    if rows.len() == 0 {
        0
    } else {
        deletions(rows.drop_last()) + if shows_deletion(rows.last()) { 1nat } else { 0nat }
    }
}

/// Added and deleted line counts of a diff; a replacement counts on both
/// sides.
pub fn changed_line_counts(rows: &[DiffRow]) -> (r: (usize, usize))
    ensures
        r.0 == additions(rows_spec(rows@)),
        r.1 == deletions(rows_spec(rows@)),
{
    let ghost rs = rows_spec(rows@);
    let mut added: usize = 0;
    let mut deleted: usize = 0;
    let mut i: usize = 0;
    assert(rs.take(0) =~= Seq::<RowSpec>::empty());
    while i < rows.len()
        invariant
            rs == rows_spec(rows@),
            i <= rows@.len(),
            added == additions(rs.take(i as int)),
            deleted == deletions(rs.take(i as int)),
            added <= i,
            deleted <= i,
        decreases rows@.len() - i,
    {
        proof {
            assert(rs.take(i + 1).drop_last() =~= rs.take(i as int));
            assert(rs.take(i + 1).last() == rows@[i as int].view());
        }
        let row = &rows[i];
        if row.new_line.is_some() && row.new_changed {
            added = added + 1;
        }
        if row.old_line.is_some() && (row.old_changed || row.new_line.is_none()) {
            deleted = deleted + 1;
        }
        i = i + 1;
    }
    assert(rs.take(rows@.len() as int) =~= rs);
    (added, deleted)
}

/// Parts joined by `/`.
pub open spec fn join_slash(parts: Seq<Seq<char>>) -> Seq<char>
    decreases parts.len(),
{
    if parts.len() == 0 {
        Seq::empty()
    } else if parts.len() == 1 {
        parts[0]
    } else {
        join_slash(parts.drop_last()) + seq!['/'] + parts.last()
    }
}

pub open spec fn ellipsis3() -> Seq<char> {
    seq!['.', '.', '.']
}

/// `leading` first components, `...`, and the last `trailing` directories
/// with the file name, when that leaves something out.
pub open spec fn abbreviated(components: Seq<Seq<char>>, leading: nat, trailing: nat) -> Option<Seq<char>> {
    let suffix = trailing + 1;
    if leading + suffix < components.len() {
        Some(
            join_slash(
                components.take(leading as int) + seq![ellipsis3()] + components.skip(
                    components.len() - suffix,
                ),
            ),
        )
    } else {
        None
    }
}

fn join_parts(parts: &Vec<Vec<char>>) -> (r: Vec<char>)
    ensures
        r@ == join_slash(vv(parts@)),
{
    let ghost pv = vv(parts@);
    let mut out: Vec<char> = Vec::new();
    let mut i: usize = 0;
    assert(pv.take(0) =~= Seq::<Seq<char>>::empty());
    while i < parts.len()
        invariant
            pv == vv(parts@),
            i <= parts@.len(),
            out@ == join_slash(pv.take(i as int)),
        decreases parts@.len() - i,
    {
        let ghost before = out@;
        if i > 0 {
            out.push('/');
        }
        let part = &parts[i];
        let mut k: usize = 0;
        let ghost head = out@;
        while k < part.len()
            invariant
                k <= part@.len(),
                out@ == head + part@.take(k as int),
            decreases part@.len() - k,
        {
            out.push(part[k]);
            assert(part@.take(k + 1) =~= part@.take(k as int).push(part@[k as int]));
            k = k + 1;
        }
        proof {
            assert(part@.take(part@.len() as int) =~= part@);
            assert(pv.take(i + 1).drop_last() =~= pv.take(i as int));
            assert(pv.take(i + 1).last() == part@);
            if i == 0 {
                assert(pv.take(1).len() == 1);
                assert(out@ =~= join_slash(pv.take(1)));
            } else {
                assert(out@ =~= join_slash(pv.take(i + 1)));
            }
        }
        i = i + 1;
    }
    assert(pv.take(parts@.len() as int) =~= pv);
    out
}

/// The abbreviated form of a split path, if it leaves components out.
pub fn abbreviated_components(components: &Vec<Vec<char>>, leading: usize, trailing_directories: usize) -> (r: Option<Vec<char>>)
    requires
        leading + trailing_directories + 1 <= usize::MAX,
    ensures
        match r {
            Some(v) => abbreviated(vv(components@), leading as nat, trailing_directories as nat) == Some(v@),
            None => abbreviated(vv(components@), leading as nat, trailing_directories as nat) is None,
        },
{
    let suffix_length = trailing_directories + 1;
    let n = components.len();
    if !(leading + suffix_length < n) {
        return None;
    }
    let ghost cv = vv(components@);
    let mut visible: Vec<Vec<char>> = Vec::new();
    let mut i: usize = 0;
    while i < leading
        invariant
            cv == vv(components@),
            leading < n,
            n == components@.len(),
            i <= leading,
            vv(visible@) == cv.take(i as int),
        decreases leading - i,
    {
        let ghost before = visible@;
        visible.push(copy_chars(components[i].as_slice()));
        assert(vv(visible@) =~= vv(before).push(cv[i as int]));
        assert(cv.take(i + 1) =~= cv.take(i as int).push(cv[i as int]));
        i = i + 1;
    }
    let ghost before = visible@;
    let dots = vec!['.', '.', '.'];
    assert(dots@ =~= ellipsis3());
    visible.push(dots);
    assert(vv(visible@) =~= vv(before).push(ellipsis3()));
    let ghost head = vv(visible@);
    let mut j: usize = n - suffix_length;
    while j < n
        invariant
            cv == vv(components@),
            n == components@.len(),
            n - suffix_length <= j <= n,
            suffix_length <= n,
            vv(visible@) == head + cv.subrange(n - suffix_length, j as int),
        decreases n - j,
    {
        let ghost b = visible@;
        visible.push(copy_chars(components[j].as_slice()));
        assert(vv(visible@) =~= vv(b).push(cv[j as int]));
        assert(cv.subrange(n - suffix_length, j + 1) =~= cv.subrange(n - suffix_length, j as int).push(cv[j as int]));
        j = j + 1;
    }
    assert(cv.skip(n - suffix_length) =~= cv.subrange(n - suffix_length, n as int));
    assert(vv(visible@) =~= cv.take(leading as int) + seq![ellipsis3()] + cv.skip(n - suffix_length));
    Some(join_parts(&visible))
}

/// Terminal columns of one character as `UnicodeWidthChar::width` reports it
/// (`None` for control characters).
pub uninterp spec fn char_display_width(c: char) -> Option<usize>;

/// Calls `UnicodeWidthChar::width` of `unicode-width`; named by
/// [`char_display_width`].
#[verifier::external_body]
fn char_width(c: char) -> (r: Option<usize>)
    ensures
        r == char_display_width(c),
{
    unicode_width::UnicodeWidthChar::width(c)
}

pub open spec fn columns_of(c: char) -> nat {
    match char_display_width(c) {
        Some(w) => w as nat,
        None => 0,
    }
}

/// Start of the longest suffix of `path[..k]`'s tail that fits in `budget`
/// columns, taking characters from the end until one does not fit.
pub open spec fn tail_start(path: Seq<char>, budget: nat, k: int, used: nat) -> int
    decreases k,
{
    if k <= 0 {
        0
    } else if used + columns_of(path[k - 1]) > budget {
        k
    } else {
        tail_start(path, budget, k - 1, used + columns_of(path[k - 1]))
    }
}

/// `path` cut to its end with a leading `…` so that it fits `max_width`
/// columns.
pub open spec fn truncated_end(path: Seq<char>, max_width: nat) -> Seq<char> {
    if max_width == 0 {
        Seq::empty()
    } else if display_width(path) <= max_width {
        path
    } else {
        seq!['\u{2026}'] + path.skip(tail_start(path, (max_width - 1) as nat, path.len() as int, 0))
    }
}

/// Keeps the end of `path` behind a leading `…` so that it fits `max_width`
/// columns.
pub fn truncate_path_end(path: &str, max_width: usize) -> (r: String)
    ensures
        r@ == truncated_end(path@, max_width as nat),
{
    if max_width == 0 {
        return String::new();
    }
    if text_width(path) <= max_width {
        return string_from_chars(chars_of(path).as_slice());
    }
    let chars = chars_of(path);
    let suffix_width = max_width - 1;
    let mut width: usize = 0;
    let mut start = chars.len();
    while start > 0
        invariant
            start <= chars@.len(),
            width <= suffix_width,
            tail_start(path@, suffix_width as nat, chars@.len() as int, 0) == tail_start(
                path@,
                suffix_width as nat,
                start as int,
                width as nat,
            ),
            chars@ == path@,
        ensures
            tail_start(path@, suffix_width as nat, chars@.len() as int, 0) == start as int,
        decreases start,
    {
        let cw = match char_width(chars[start - 1]) {
            Some(w) => w,
            None => 0,
        };
        assert(cw == columns_of(path@[start - 1]));
        if cw > suffix_width - width {
            break;
        }
        width = width + cw;
        start = start - 1;
    }
    let mut out: Vec<char> = vec!['\u{2026}'];
    let mut k = start;
    let ghost head = out@;
    while k < chars.len()
        invariant
            start <= k <= chars@.len(),
            out@ == head + chars@.subrange(start as int, k as int),
        decreases chars@.len() - k,
    {
        out.push(chars[k]);
        assert(chars@.subrange(start as int, k + 1) =~= chars@.subrange(start as int, k as int).push(chars@[k as int]));
        k = k + 1;
    }
    assert(chars@.skip(start as int) =~= chars@.subrange(start as int, chars@.len() as int));
    string_from_chars(out.as_slice())
}

pub open spec fn fits(c: Option<Seq<char>>, max_width: nat) -> bool {
    c matches Some(s) && display_width(s) <= max_width
}

/// A path shortened to `max_width` columns: unchanged when it fits; otherwise
/// the first abbreviation that fits, keeping the outer directories and the
/// file name; otherwise the end of the file name.
pub open spec fn abbreviation(path: Seq<char>, max_width: nat) -> Seq<char> {
    let cs = split_on(path, '/');
    if display_width(path) <= max_width {
        path
    } else if fits(abbreviated(cs, 2, 2), max_width) {
        abbreviated(cs, 2, 2)->0
    } else if fits(abbreviated(cs, 1, 2), max_width) {
        abbreviated(cs, 1, 2)->0
    } else if fits(abbreviated(cs, 1, 1), max_width) {
        abbreviated(cs, 1, 1)->0
    } else if fits(abbreviated(cs, 0, 1), max_width) {
        abbreviated(cs, 0, 1)->0
    } else if fits(abbreviated(cs, 0, 0), max_width) {
        abbreviated(cs, 0, 0)->0
    } else {
        truncated_end(cs.last(), max_width)
    }
}

fn fitting(components: &Vec<Vec<char>>, leading: usize, trailing: usize, max_width: usize) -> (r: Option<String>)
    requires
        leading <= 2,
        trailing <= 2,
    ensures
        match r {
            Some(s) => fits(abbreviated(vv(components@), leading as nat, trailing as nat), max_width as nat)
                && s@ == abbreviated(vv(components@), leading as nat, trailing as nat)->0,
            None => !fits(abbreviated(vv(components@), leading as nat, trailing as nat), max_width as nat),
        },
{
    match abbreviated_components(components, leading, trailing) {
        Some(v) => {
            let s = string_from_chars(v.as_slice());
            if text_width(s.as_str()) <= max_width { Some(s) } else { None }
        },
        None => None,
    }
}

/// `path` shortened to fit `max_width` terminal columns.
pub fn abbreviate_path(path: &str, max_width: usize) -> (r: String)
    ensures
        r@ == abbreviation(path@, max_width as nat),
{
    if text_width(path) <= max_width {
        return string_from_chars(chars_of(path).as_slice());
    }
    let components = split_chars(chars_of(path).as_slice(), '/');
    proof {
        lemma_split_on_nonempty(path@, '/');
    }
    if let Some(s) = fitting(&components, 2, 2, max_width) {
        return s;
    }
    if let Some(s) = fitting(&components, 1, 2, max_width) {
        return s;
    }
    if let Some(s) = fitting(&components, 1, 1, max_width) {
        return s;
    }
    if let Some(s) = fitting(&components, 0, 1, max_width) {
        return s;
    }
    if let Some(s) = fitting(&components, 0, 0, max_width) {
        return s;
    }
    let last = string_from_chars(components[components.len() - 1].as_slice());
    assert(last@ == split_on(path@, '/').last());
    truncate_path_end(last.as_str(), max_width)
}


/// A scrollbar over content taller than the viewport puts its thumb at the
/// top when the content is not scrolled and on the last content line when it
/// is scrolled to the end (while the thumb arithmetic does not saturate), and
/// the thumb never leaves the content.
pub proof fn law_scrollbar_reaches_both_ends(content: int, viewport: int, offset: int)
    requires
        0 <= viewport < content,
        0 <= offset,
        (content - viewport) * (content - 1) <= usize::MAX,
    ensures
        thumb_position(content, viewport, 0) == 0,
        thumb_position(content, viewport, content - viewport) == content - 1,
        0 <= thumb_position(content, viewport, offset) <= content - 1,
{
    let max = content - viewport;
    let o = if offset < max { offset } else { max };
    assert(0 * (content - 1) == 0 && 0int / max == 0) by (nonlinear_arith)
        requires
            max > 0,
    ;
    assert(max * (content - 1) / max == content - 1) by (nonlinear_arith)
        requires
            max > 0,
    ;
    assert(0 <= o * (content - 1) <= max * (content - 1)) by (nonlinear_arith)
        requires
            0 <= o <= max,
            content >= 1,
    ;
    assert(o * (content - 1) / max <= max * (content - 1) / max) by (nonlinear_arith)
        requires
            0 <= o * (content - 1) <= max * (content - 1),
            max > 0,
    ;
    assert(o * (content - 1) / max >= 0) by (nonlinear_arith)
        requires
            0 <= o * (content - 1),
            max > 0,
    ;
}

/// Period of the block cursor's blink, in milliseconds.
pub const CURSOR_BLINK_MILLIS: u128 = 530;

/// Whether the cursor is drawn at `millis` since the Unix epoch: on during
/// even blink periods, off during odd ones.
pub open spec fn blink_on(millis: u128) -> bool {
    (millis / CURSOR_BLINK_MILLIS) % 2 == 0
}

/// Whether the block cursor is drawn at `millis` since the Unix epoch.
pub fn cursor_visible_at(millis: u128) -> (r: bool)
    ensures
        r == blink_on(millis),
{
    (millis / CURSOR_BLINK_MILLIS) % 2 == 0
}

/// Milliseconds since the Unix epoch by `SystemTime::now`, 0 for a clock set
/// before the epoch. Nothing is stated: the value depends on the clock.
#[verifier::external_body]
fn unix_millis() -> u128 {
    SystemTime::now().duration_since(UNIX_EPOCH).unwrap_or_default().as_millis()
}

/// Whether the block cursor should currently be drawn, toggling over time.
pub fn cursor_blink_visible() -> (r: bool)
    ensures
        exists|millis: u128| r == blink_on(millis),
{
    let millis = unix_millis();
    cursor_visible_at(millis)
}

} // verus!
