//! Diff documents: row alignment of line diffs, word-level change spans,
//! structural rows, and changed-row navigation.
use vstd::prelude::*;
use similar::{ChangeTag, TextDiff};
use crate::text::{
    byte_len, byte_len_of, byte_offset, char_is_whitespace, char_utf8_len, chars_of, copy_chars,
    display_width, is_ws, lemma_split_on_nonempty, split_on, strip_cr, lemma_byte_len_concat, lemma_byte_offset_step, lines_of,
    string_from_chars, text_lines, text_width, vv,
};

verus! {

/// How a span of source text changed.
#[derive(Clone, Copy, Debug, PartialEq, Eq, Structural)]
pub enum StructuralChange {
    Unchanged,
    Novel,
    NovelWord,
}

impl StructuralChange {
    /// Whether the span is a change at all.
    pub fn is_changed(&self) -> (r: bool)
        ensures
            r == (*self != StructuralChange::Unchanged),
    {
        match self {
            StructuralChange::Unchanged => false,
            _ => true,
        }
    }
}

/// Syntax class of a span of source text.
#[derive(Clone, Copy, Debug, PartialEq, Eq, Structural)]
pub enum StructuralHighlight {
    Normal,
    Keyword,
    Comment,
    StringLiteral,
    TypeName,
    Delimiter,
}

/// A byte range of one side's line text and how it changed.
#[derive(Clone, Copy, Debug, PartialEq, Eq, Structural)]
pub struct DiffSpan {
    pub start: usize,
    pub end: usize,
    pub change: StructuralChange,
    pub highlight: StructuralHighlight,
}

/// One aligned row: a line of the old side, of the new side, or of both.
pub struct DiffRow {
    pub old_line: Option<u32>,
    pub new_line: Option<u32>,
    pub old_text: String,
    pub new_text: String,
    pub old_changed: bool,
    pub new_changed: bool,
    pub old_spans: Vec<DiffSpan>,
    pub new_spans: Vec<DiffSpan>,
    /// Terminal columns of `old_text`.
    pub old_width: usize,
    /// Terminal columns of `new_text`.
    pub new_width: usize,
}

/// Mathematical content of a [`DiffRow`].
pub struct RowSpec {
    pub old_line: Option<u32>,
    pub new_line: Option<u32>,
    pub old_text: Seq<char>,
    pub new_text: Seq<char>,
    pub old_changed: bool,
    pub new_changed: bool,
    pub old_spans: Seq<DiffSpan>,
    pub new_spans: Seq<DiffSpan>,
    pub old_width: usize,
    pub new_width: usize,
}

impl RowSpec {
    /// A row is a change when either side changed or a side is missing.
    pub open spec fn changed(self) -> bool {
        self.old_changed || self.new_changed || self.old_line is None || self.new_line is None
    }
}

impl DiffRow {
    pub open spec fn view(&self) -> RowSpec {
        RowSpec {
            old_line: self.old_line,
            new_line: self.new_line,
            old_text: self.old_text@,
            new_text: self.new_text@,
            old_changed: self.old_changed,
            new_changed: self.new_changed,
            old_spans: self.old_spans@,
            new_spans: self.new_spans@,
            old_width: self.old_width,
            new_width: self.new_width,
        }
    }

    /// Whether either side changed or is missing.
    pub fn is_changed(&self) -> (r: bool)
        ensures
            r == self.view().changed(),
    {
        self.old_changed || self.new_changed || self.old_line.is_none() || self.new_line.is_none()
    }
}

pub open spec fn rows_spec(rows: Seq<DiffRow>) -> Seq<RowSpec> {
    rows.map_values(|r: DiffRow| r.view())
}

/// A diff of one file, row-aligned.
pub struct DiffDocument {
    pub language: String,
    pub has_syntactic_changes: bool,
    pub rows: Vec<DiffRow>,
}

/// A span with the normal highlight.
pub open spec fn span(start: nat, end: nat, change: StructuralChange) -> DiffSpan {
    DiffSpan { start: start as usize, end: end as usize, change, highlight: StructuralHighlight::Normal }
}

fn diff_span(start: usize, end: usize, change: StructuralChange) -> (r: DiffSpan)
    ensures
        r == span(start as nat, end as nat, change),
{
    DiffSpan { start, end, change, highlight: StructuralHighlight::Normal }
}

/// One span over a whole non-empty line, none for an empty line.
pub open spec fn whole_line(text: Seq<char>, change: StructuralChange) -> Seq<DiffSpan> {
    if text.len() == 0 { Seq::empty() } else { seq![span(0, byte_len(text), change)] }
}

fn whole_line_span(text: &[char], change: StructuralChange) -> (r: Vec<DiffSpan>)
    requires
        byte_len(text@) <= usize::MAX,
    ensures
        r@ == whole_line(text@, change),
{
    let mut r: Vec<DiffSpan> = Vec::new();
    if text.len() > 0 {
        let len = byte_len_of(text);
        r.push(diff_span(0, len as usize, change));
    }
    r
}

/// Text of line number `line` (1-based; 0 reads as 1) among `lines`, or empty.
pub open spec fn line_text_spec(lines: Seq<Seq<char>>, line: Option<u32>) -> Seq<char> {
    match line {
        None => Seq::empty(),
        Some(l) => {
            let i: int = if l == 0 { 0 } else { l - 1 };
            if i < lines.len() { lines[i] } else { Seq::empty() }
        },
    }
}

/// Text of a numbered source line, or an empty string.
pub fn line_text(lines: &[Vec<char>], line: Option<u32>) -> (r: String)
    ensures
        r@ == line_text_spec(vv(lines@), line),
{
    match line {
        None => String::new(),
        Some(l) => {
            let i = if l == 0 { 0 } else { (l - 1) as usize };
            if i < lines.len() {
                string_from_chars(lines[i].as_slice())
            } else {
                String::new()
            }
        },
    }
}

/// Lines of a source text, as `str::lines` splits it.
pub fn source_lines(source: &str) -> (r: Vec<Vec<char>>)
    ensures
        vv(r@) == text_lines(source@),
{
    lines_of(chars_of(source).as_slice())
}

/// Rows that show a source text on its own: every line, numbered on both
/// sides, unchanged.
pub open spec fn source_rows(lines: Seq<Seq<char>>) -> Seq<RowSpec> {
    Seq::new(
        lines.len(),
        |i: int|
            RowSpec {
                old_line: Some((i + 1) as u32),
                new_line: Some((i + 1) as u32),
                old_text: lines[i],
                new_text: lines[i],
                old_changed: false,
                new_changed: false,
                old_spans: whole_line(lines[i], StructuralChange::Unchanged),
                new_spans: whole_line(lines[i], StructuralChange::Unchanged),
                old_width: display_width(lines[i]),
                new_width: display_width(lines[i]),
            },
    )
}

/// Rows of the final version of a file: each line of `source`, unchanged and
/// numbered.
pub fn source_document(source: &str) -> (r: Vec<DiffRow>)
    requires
        byte_len(source@) <= usize::MAX,
        text_lines(source@).len() < u32::MAX,
    ensures
        rows_spec(r@) == source_rows(text_lines(source@)),
{
    let lines = source_lines(source);
    let ghost lv = vv(lines@);
    proof {
        lemma_lines_short(source@);
    }
    let mut rows: Vec<DiffRow> = Vec::new();
    let mut i: usize = 0;
    while i < lines.len()
        invariant
            lv == vv(lines@),
            lv == text_lines(source@),
            lines@.len() < u32::MAX,
            forall|k: int| 0 <= k < lv.len() ==> byte_len(#[trigger] lv[k]) <= usize::MAX,
            i <= lines@.len(),
            rows_spec(rows@) == source_rows(lv).take(i as int),
        decreases lines@.len() - i,
    {
        let text = string_from_chars(lines[i].as_slice());
        let width = text_width(text.as_str());
        let number = (i + 1) as u32;
        assert(lv[i as int] == lines@[i as int]@);
        let row = DiffRow {
            old_line: Some(number),
            new_line: Some(number),
            old_text: string_from_chars(lines[i].as_slice()),
            new_text: text,
            old_changed: false,
            new_changed: false,
            old_spans: whole_line_span(lines[i].as_slice(), StructuralChange::Unchanged),
            new_spans: whole_line_span(lines[i].as_slice(), StructuralChange::Unchanged),
            old_width: width,
            new_width: width,
        };
        let ghost before = rows@;
        let ghost rv = row.view();
        assert(rv == source_rows(lv)[i as int]);
        rows.push(row);
        assert(rows_spec(rows@) =~= rows_spec(before).push(rv));
        assert(source_rows(lv).take(i + 1) =~= source_rows(lv).take(i as int).push(rv));
        i = i + 1;
    }
    assert(source_rows(lv).take(lv.len() as int) =~= source_rows(lv));
    rows
}

/// Every line of a text is no longer than the text.
pub proof fn lemma_lines_short(s: Seq<char>)
    requires
        byte_len(s) <= usize::MAX,
    ensures
        forall|k: int| 0 <= k < text_lines(s).len() ==> byte_len(#[trigger] text_lines(s)[k]) <= usize::MAX,
        text_lines(s).len() <= s.len() + 1,
{
    let pieces = split_on(s, '\n');
    lemma_split_on_bounds(s, '\n');
    lemma_split_on_nonempty(s, '\n');
    assert forall|k: int| 0 <= k < text_lines(s).len() implies byte_len(#[trigger] text_lines(s)[k]) <= usize::MAX by {
        if k < pieces.len() - 1 {
            assert(text_lines(s)[k] == strip_cr(pieces[k]));
            let p = pieces[k];
            if p.len() > 0 && p.last() == '\r' {
                assert(p.drop_last().push(p.last()) =~= p);
                crate::text::lemma_byte_len_push(p.drop_last(), p.last());
            }
        } else {
            assert(text_lines(s)[k] == pieces.last());
        }
    }
}

/// Pieces of a split are no longer than the text, and at most one more than
/// its characters.
pub proof fn lemma_split_on_bounds(s: Seq<char>, sep: char)
    ensures
        split_on(s, sep).len() <= s.len() + 1,
        forall|k: int| 0 <= k < split_on(s, sep).len() ==> byte_len(#[trigger] split_on(s, sep)[k]) <= byte_len(s),
    decreases s.len(),
{
    lemma_split_on_nonempty(s, sep);
    if s.len() > 0 {
        lemma_split_on_bounds(s.drop_last(), sep);
        lemma_split_on_nonempty(s.drop_last(), sep);
        crate::text::lemma_byte_len_push(s.drop_last(), s.last());
        assert(s.drop_last().push(s.last()) =~= s);
        let f = split_on(s.drop_last(), sep);
        if s.last() != sep {
            crate::text::lemma_byte_len_push(f.last(), s.last());
        }
    }
}

/// Indices of the rows shown: all rows, or only changed rows.
pub open spec fn visible_spec(rows: Seq<RowSpec>, show_unchanged: bool) -> Seq<usize>
    decreases rows.len(),
{
    if rows.len() == 0 {
        Seq::empty()
    } else {
        let prev = visible_spec(rows.drop_last(), show_unchanged);
        if show_unchanged || rows.last().changed() {
            prev.push((rows.len() - 1) as usize)
        } else {
            prev
        }
    }
}

/// Indices of the rows to show: every row when `show_unchanged`, otherwise
/// only changed rows.
pub fn visible_diff_indices(rows: &[DiffRow], show_unchanged: bool) -> (r: Vec<usize>)
    ensures
        r@ == visible_spec(rows_spec(rows@), show_unchanged),
{
    let ghost rs = rows_spec(rows@);
    let mut out: Vec<usize> = Vec::new();
    let mut i: usize = 0;
    while i < rows.len()
        invariant
            rs == rows_spec(rows@),
            i <= rows@.len(),
            out@ == visible_spec(rs.take(i as int), show_unchanged),
        decreases rows@.len() - i,
    {
        assert(rs.take(i + 1).drop_last() =~= rs.take(i as int));
        assert(rs.take(i + 1).last() == rows@[i as int].view());
        if show_unchanged || rows[i].is_changed() {
            out.push(i);
        }
        i = i + 1;
    }
    assert(rs.take(rows@.len() as int) =~= rs);
    out
}

/// Indices of the changed rows, in order.
pub fn changed_row_indices(rows: &[DiffRow]) -> (r: Vec<usize>)
    ensures
        r@ == visible_spec(rows_spec(rows@), false),
{
    visible_diff_indices(rows, false)
}

/// The first changed row after `selected` (forward) or the last one before it.
pub fn adjacent_changed_row(rows: &[DiffRow], selected: usize, forward: bool) -> (r: Option<usize>)
    ensures
        forward ==> match r {
            Some(j) => j > selected && j < rows@.len() && rows@[j as int].view().changed() && forall|k: int|
                selected < k < j ==> !(#[trigger] rows@[k]).view().changed(),
            None => forall|k: int| selected < k < rows@.len() ==> !(#[trigger] rows@[k]).view().changed(),
        },
        !forward ==> match r {
            Some(j) => j < selected && j < rows@.len() && rows@[j as int].view().changed() && forall|k: int|
                j < k < selected && k < rows@.len() ==> !(#[trigger] rows@[k]).view().changed(),
            None => forall|k: int| 0 <= k < selected && k < rows@.len() ==> !(#[trigger] rows@[k]).view().changed(),
        },
{
    if forward {
        let mut i = selected;
        while i < rows.len()
            invariant
                forward,
                selected <= i,
                forall|k: int| selected < k <= i && k < rows@.len() ==> !(#[trigger] rows@[k]).view().changed(),
            decreases rows@.len() - i,
        {
            if i + 1 < rows.len() && rows[i + 1].is_changed() {
                return Some(i + 1);
            }
            i = i + 1;
        }
        None
    } else {
        let mut i = if selected < rows.len() { selected } else { rows.len() };
        while i > 0
            invariant
                !forward,
                i <= selected,
                i <= rows@.len(),
                forall|k: int| i <= k < selected && k < rows@.len() ==> !(#[trigger] rows@[k]).view().changed(),
            decreases i,
        {
            if rows[i - 1].is_changed() {
                return Some(i - 1);
            }
            i = i - 1;
        }
        None
    }
}


/// Kind of one change of a diff.
#[derive(Clone, Copy, Debug, PartialEq, Eq, Structural)]
pub enum ChangeKind {
    Equal,
    Delete,
    Insert,
}

/// The changes that `similar`'s `TextDiff::from_slices(..).iter_all_changes()`
/// yields for two token sequences, each as its kind and token.
pub uninterp spec fn token_changes(old: Seq<Seq<char>>, new: Seq<Seq<char>>) -> Seq<(ChangeKind, Seq<char>)>;

/// Whether a change of kind `k` belongs to the old side (`old`) or the new side.
pub open spec fn on_side(k: ChangeKind, old: bool) -> bool {
    k == ChangeKind::Equal || (old && k == ChangeKind::Delete) || (!old && k == ChangeKind::Insert)
}

/// The values of the changes on one side, in order.
pub open spec fn side_values(tc: Seq<(ChangeKind, Seq<char>)>, old: bool) -> Seq<Seq<char>>
    decreases tc.len(),
{
    if tc.len() == 0 {
        Seq::empty()
    } else {
        let prev = side_values(tc.drop_last(), old);
        if on_side(tc.last().0, old) { prev.push(tc.last().1) } else { prev }
    }
}

pub open spec fn change_view(c: (ChangeKind, Vec<char>)) -> (ChangeKind, Seq<char>) {
    (c.0, c.1@)
}

/// The characters of each string.
pub open spec fn strs(v: Seq<String>) -> Seq<Seq<char>> {
    v.map_values(|s: String| s@)
}

/// Each token as a string.
fn token_strings(tokens: &Vec<Vec<char>>) -> (r: Vec<String>)
    ensures
        strs(r@) == vv(tokens@),
{
    let mut out: Vec<String> = Vec::new();
    let mut i: usize = 0;
    while i < tokens.len()
        invariant
            i <= tokens@.len(),
            strs(out@) == vv(tokens@).take(i as int),
        decreases tokens@.len() - i,
    {
        let t = string_from_chars(tokens[i].as_slice());
        let ghost before = out@;
        out.push(t);
        assert(strs(out@) =~= strs(before).push(t@));
        assert(vv(tokens@).take(i + 1) =~= vv(tokens@).take(i as int).push(tokens@[i as int]@));
        assert(strs(out@) =~= vv(tokens@).take(i + 1));
        i = i + 1;
    }
    assert(vv(tokens@).take(tokens@.len() as int) =~= vv(tokens@));
    out
}

/// Calls `TextDiff::from_slices` and `iter_all_changes` of `similar`: the
/// changes are named by [`token_changes`]; as a diff of two slices, the
/// changes on the old side are the old tokens and those on the new side are
/// the new tokens, in order.
#[verifier::external_body]
fn diff_tokens(old: &[String], new: &[String]) -> (r: Vec<(ChangeKind, Vec<char>)>)
    ensures
        r@.map_values(|c: (ChangeKind, Vec<char>)| change_view(c)) == token_changes(strs(old@), strs(new@)),
        side_values(r@.map_values(|c: (ChangeKind, Vec<char>)| change_view(c)), true) == strs(old@),
        side_values(r@.map_values(|c: (ChangeKind, Vec<char>)| change_view(c)), false) == strs(new@),
{
    let old: Vec<&str> = old.iter().map(|t| t.as_str()).collect();
    let new: Vec<&str> = new.iter().map(|t| t.as_str()).collect();
    let mut out = Vec::new();
    for change in TextDiff::from_slices(&old, &new).iter_all_changes() {
        let kind = match change.tag() {
            ChangeTag::Equal => ChangeKind::Equal,
            ChangeTag::Delete => ChangeKind::Delete,
            ChangeTag::Insert => ChangeKind::Insert,
        };
        out.push((kind, change.value().chars().collect()));
    }
    out
}

/// Whether `char::is_alphanumeric` holds (Unicode `Alphabetic` or `Numeric`).
pub uninterp spec fn is_alphanumeric(c: char) -> bool;

/// Calls `char::is_alphanumeric`; named by [`is_alphanumeric`].
#[verifier::external_body]
fn char_alphanumeric(c: char) -> (r: bool)
    ensures
        r == is_alphanumeric(c),
{
    c.is_alphanumeric()
}

/// Character classes that lexical tokens do not mix.
#[derive(Clone, Copy, Debug, PartialEq, Eq, Structural)]
pub enum TokenClass {
    Word,
    Whitespace,
    Punctuation,
}

pub open spec fn class_of(c: char) -> TokenClass {
    if is_alphanumeric(c) || c == '_' {
        TokenClass::Word
    } else if is_ws(c) {
        TokenClass::Whitespace
    } else {
        TokenClass::Punctuation
    }
}

fn token_class(c: char) -> (r: TokenClass)
    ensures
        r == class_of(c),
{
    if char_alphanumeric(c) || c == '_' {
        TokenClass::Word
    } else if char_is_whitespace(c) {
        TokenClass::Whitespace
    } else {
        TokenClass::Punctuation
    }
}

/// Maximal runs of characters of one class: words (alphanumeric or `_`),
/// white space, punctuation.
pub open spec fn tokens(s: Seq<char>) -> Seq<Seq<char>>
    decreases s.len(),
{
    if s.len() == 0 {
        Seq::empty()
    } else {
        let t = tokens(s.drop_last());
        let c = s.last();
        if t.len() > 0 && class_of(t.last().last()) == class_of(c) {
            t.update(t.len() - 1, t.last().push(c))
        } else {
            t.push(seq![c])
        }
    }
}

/// The concatenation of `ts`.
pub open spec fn concat_all(ts: Seq<Seq<char>>) -> Seq<char>
    decreases ts.len(),
{
    if ts.len() == 0 {
        Seq::empty()
    } else {
        concat_all(ts.drop_last()) + ts.last()
    }
}

/// Tokens are never empty and together spell the text.
pub proof fn lemma_tokens_cover(s: Seq<char>)
    ensures
        concat_all(tokens(s)) == s,
        forall|k: int| 0 <= k < tokens(s).len() ==> (#[trigger] tokens(s)[k]).len() > 0,
    decreases s.len(),
{
    if s.len() > 0 {
        lemma_tokens_cover(s.drop_last());
        let t = tokens(s.drop_last());
        let c = s.last();
        if t.len() > 0 && class_of(t.last().last()) == class_of(c) {
            let u = t.update(t.len() - 1, t.last().push(c));
            assert(u.drop_last() =~= t.drop_last());
            assert(concat_all(t) == concat_all(t.drop_last()) + t.last());
            assert(concat_all(u) =~= concat_all(t) + seq![c]);
        } else {
            assert(tokens(s).drop_last() =~= t);
        }
        assert(s.drop_last().push(c) =~= s);
    }
}

/// Lexical tokens of a line: runs of word, white-space and punctuation
/// characters.
pub fn lexical_tokens(text: &[char]) -> (r: Vec<Vec<char>>)
    ensures
        vv(r@) == tokens(text@),
{
    let mut out: Vec<Vec<char>> = Vec::new();
    if text.len() == 0 {
        assert(vv(out@) =~= Seq::<Seq<char>>::empty());
        return out;
    }
    let mut current: Vec<char> = Vec::new();
    current.push(text[0]);
    let mut class = token_class(text[0]);
    let mut i: usize = 1;
    assert(text@.take(1).drop_last() =~= Seq::<char>::empty());
    assert(tokens(text@.take(1).drop_last()).len() == 0);
    assert(text@.take(1).last() == text@[0]);
    assert(current@ =~= seq![text@[0]]);
    assert(vv(out@).push(current@) =~= tokens(text@.take(1)));
    while i < text.len()
        invariant
            1 <= i <= text@.len(),
            current@.len() > 0,
            class == class_of(current@.last()),
            vv(out@).push(current@) == tokens(text@.take(i as int)),
        decreases text@.len() - i,
    {
        let c = text[i];
        let k = token_class(c);
        let ghost before = vv(out@);
        let ghost cur = current@;
        assert(text@.take(i + 1).drop_last() =~= text@.take(i as int));
        if k == class {
            current.push(c);
            assert(vv(out@).push(current@) =~= before.push(cur).update(before.len() as int, cur.push(c)));
        } else {
            let done = current;
            out.push(done);
            current = Vec::new();
            current.push(c);
            assert(vv(out@) =~= before.push(cur));
            assert(vv(out@).push(current@) =~= before.push(cur).push(seq![c]));
        }
        class = k;
        i = i + 1;
    }
    assert(text@.take(text@.len() as int) =~= text@);
    let ghost before = vv(out@);
    let ghost cur = current@;
    out.push(current);
    assert(vv(out@) =~= before.push(cur));
    out
}

/// Total UTF-8 length of the values on one side of the changes.
pub open spec fn side_len(tc: Seq<(ChangeKind, Seq<char>)>, old: bool) -> nat
    decreases tc.len(),
{
    if tc.len() == 0 {
        0
    } else {
        side_len(tc.drop_last(), old) + if on_side(tc.last().0, old) { byte_len(tc.last().1) } else { 0 }
    }
}

/// Spans of one side for token changes: each token of that side covers the
/// bytes after the previous one, unchanged when equal and a changed word
/// otherwise.
pub open spec fn side_spans(tc: Seq<(ChangeKind, Seq<char>)>, old: bool) -> Seq<DiffSpan>
    decreases tc.len(),
{
    if tc.len() == 0 {
        Seq::empty()
    } else {
        let prev = side_spans(tc.drop_last(), old);
        let c = side_len(tc.drop_last(), old);
        let (k, v) = tc.last();
        if on_side(k, old) {
            prev.push(
                span(
                    c,
                    c + byte_len(v),
                    if k == ChangeKind::Equal { StructuralChange::Unchanged } else { StructuralChange::NovelWord },
                ),
            )
        } else {
            prev
        }
    }
}

/// `sp` covers bytes `0..total` without gaps: each span starts where the
/// previous one ends.
pub open spec fn tiles(sp: Seq<DiffSpan>, total: nat) -> bool {
    &&& sp.len() > 0 ==> sp[0].start == 0 && sp.last().end == total
    &&& sp.len() == 0 ==> total == 0
    &&& forall|i: int| 0 <= i < sp.len() - 1 ==> (#[trigger] sp[i]).end == sp[i + 1].start
}

/// The word spans of one side tile that side's text: they start at byte 0,
/// each starts where the previous one ends, and the last ends at the total
/// length of the side's tokens.
#[verifier::rlimit(40)]
pub proof fn law_side_spans_tile(tc: Seq<(ChangeKind, Seq<char>)>, old: bool)
    requires
        side_len(tc, old) <= usize::MAX,
    ensures
        tiles(side_spans(tc, old), side_len(tc, old)),
    decreases tc.len(),
{
    if tc.len() > 0 {
        let d = tc.drop_last();
        let c = side_len(d, old);
        let (k, v) = tc.last();
        let prev = side_spans(d, old);
        let sp = side_spans(tc, old);
        law_side_spans_tile(d, old);
        if on_side(k, old) {
            let last = span(
                c,
                c + byte_len(v),
                if k == ChangeKind::Equal { StructuralChange::Unchanged } else { StructuralChange::NovelWord },
            );
            assert(sp == prev.push(last));
            assert(side_len(tc, old) == c + byte_len(v));
            assert(last.end == side_len(tc, old));
            assert(last.start == c);
            assert(sp[0].start == 0);
            assert forall|i: int| 0 <= i < sp.len() - 1 implies (#[trigger] sp[i]).end == sp[i + 1].start by {
                assert(sp[i] == prev[i]);
                if i + 1 < prev.len() {
                    assert(sp[i + 1] == prev[i + 1]);
                }
            }
        } else {
            assert(sp == prev);
            assert(side_len(tc, old) == c);
        }
    }
}

proof fn lemma_side_len(tc: Seq<(ChangeKind, Seq<char>)>, old: bool, i: int)
    requires
        0 <= i <= tc.len(),
    ensures
        side_len(tc.take(i), old) <= side_len(tc, old),
        side_len(tc, old) == byte_len(concat_all(side_values(tc, old))),
    decreases tc.len() - i,
{
    if i < tc.len() {
        lemma_side_len(tc, old, i + 1);
        assert(tc.take(i + 1).drop_last() =~= tc.take(i));
    } else {
        assert(tc.take(i) =~= tc);
        lemma_side_len_concat(tc, old);
    }
}

proof fn lemma_side_len_concat(tc: Seq<(ChangeKind, Seq<char>)>, old: bool)
    ensures
        side_len(tc, old) == byte_len(concat_all(side_values(tc, old))),
    decreases tc.len(),
{
    if tc.len() > 0 {
        lemma_side_len_concat(tc.drop_last(), old);
        let prev = side_values(tc.drop_last(), old);
        if on_side(tc.last().0, old) {
            assert(prev.push(tc.last().1).drop_last() =~= prev);
            lemma_byte_len_concat(concat_all(prev), tc.last().1);
        }
    }
}

/// Word-level spans of a replaced line pair: tokens shared by both lines are
/// unchanged, the others are changed words, each span a byte range of its
/// line.
pub fn word_diff_spans(old: &[char], new: &[char]) -> (r: (Vec<DiffSpan>, Vec<DiffSpan>))
    requires
        byte_len(old@) <= usize::MAX,
        byte_len(new@) <= usize::MAX,
    ensures
        r.0@ == side_spans(token_changes(tokens(old@), tokens(new@)), true),
        r.1@ == side_spans(token_changes(tokens(old@), tokens(new@)), false),
        side_values(token_changes(tokens(old@), tokens(new@)), true) == tokens(old@),
        side_values(token_changes(tokens(old@), tokens(new@)), false) == tokens(new@),
        tiles(r.0@, byte_len(old@)),
        tiles(r.1@, byte_len(new@)),
{
    let r = word_spans(old, new);
    proof {
        let tc = token_changes(tokens(old@), tokens(new@));
        law_side_spans_tile(tc, true);
        law_side_spans_tile(tc, false);
    }
    r
}

fn word_spans(old: &[char], new: &[char]) -> (r: (Vec<DiffSpan>, Vec<DiffSpan>))
    requires
        byte_len(old@) <= usize::MAX,
        byte_len(new@) <= usize::MAX,
    ensures
        r.0@ == side_spans(token_changes(tokens(old@), tokens(new@)), true),
        r.1@ == side_spans(token_changes(tokens(old@), tokens(new@)), false),
        side_values(token_changes(tokens(old@), tokens(new@)), true) == tokens(old@),
        side_values(token_changes(tokens(old@), tokens(new@)), false) == tokens(new@),
        side_len(token_changes(tokens(old@), tokens(new@)), true) == byte_len(old@),
        side_len(token_changes(tokens(old@), tokens(new@)), false) == byte_len(new@),
{
    let old_tokens = lexical_tokens(old);
    let new_tokens = lexical_tokens(new);
    let changes = diff_tokens(token_strings(&old_tokens).as_slice(), token_strings(&new_tokens).as_slice());
    let ghost tc = token_changes(tokens(old@), tokens(new@));
    proof {
        lemma_tokens_cover(old@);
        lemma_tokens_cover(new@);
        lemma_side_len(tc, true, 0);
        lemma_side_len(tc, false, 0);
    }
    let mut old_spans: Vec<DiffSpan> = Vec::new();
    let mut new_spans: Vec<DiffSpan> = Vec::new();
    let mut old_cursor: usize = 0;
    let mut new_cursor: usize = 0;
    let mut i: usize = 0;
    assert(tc.take(0) =~= Seq::<(ChangeKind, Seq<char>)>::empty());
    while i < changes.len()
        invariant
            tc == token_changes(tokens(old@), tokens(new@)),
            changes@.map_values(|c: (ChangeKind, Vec<char>)| change_view(c)) == tc,
            i <= changes@.len(),
            side_len(tc, true) == byte_len(old@),
            side_len(tc, false) == byte_len(new@),
            byte_len(old@) <= usize::MAX,
            byte_len(new@) <= usize::MAX,
            old_cursor == side_len(tc.take(i as int), true),
            new_cursor == side_len(tc.take(i as int), false),
            old_spans@ == side_spans(tc.take(i as int), true),
            new_spans@ == side_spans(tc.take(i as int), false),
        decreases changes@.len() - i,
    {
        proof {
            lemma_side_len(tc, true, i + 1);
            lemma_side_len(tc, false, i + 1);
            assert(tc.take(i + 1).drop_last() =~= tc.take(i as int));
            assert(tc.take(i + 1).last() == change_view(changes@[i as int]));
        }
        let kind = changes[i].0;
        let length = byte_len_of(changes[i].1.as_slice()) as usize;
        match kind {
            ChangeKind::Equal => {
                old_spans.push(diff_span(old_cursor, old_cursor + length, StructuralChange::Unchanged));
                new_spans.push(diff_span(new_cursor, new_cursor + length, StructuralChange::Unchanged));
                old_cursor = old_cursor + length;
                new_cursor = new_cursor + length;
            },
            ChangeKind::Delete => {
                old_spans.push(diff_span(old_cursor, old_cursor + length, StructuralChange::NovelWord));
                old_cursor = old_cursor + length;
            },
            ChangeKind::Insert => {
                new_spans.push(diff_span(new_cursor, new_cursor + length, StructuralChange::NovelWord));
                new_cursor = new_cursor + length;
            },
        }
        i = i + 1;
    }
    assert(tc.take(changes@.len() as int) =~= tc);
    (old_spans, new_spans)
}


/// The changes that `similar`'s `TextDiff::from_lines(..).iter_all_changes()`
/// yields for two texts, each as its kind and line (with its line ending).
pub uninterp spec fn line_changes(before: Seq<char>, after: Seq<char>) -> Seq<(ChangeKind, Seq<char>)>;

/// A line break character.
pub open spec fn is_line_break(c: char) -> bool {
    c == '\n' || c == '\r'
}

/// `v` is one physical line: non-empty, with no line break inside it other
/// than the one that ends it (`\n`, `\r\n` or a lone `\r`).
pub open spec fn is_line_piece(v: Seq<char>) -> bool {
    &&& v.len() > 0
    &&& forall|j: int|
        0 <= j < v.len() - 1 ==> #[trigger] v[j] != '\n' && (v[j] == '\r' ==> j == v.len() - 2 && v[v.len() - 1]
            == '\n')
}

/// `vs` are the physical lines of a text in order: each is one line, each
/// but the last ends with a line break, and a line that ends with a lone
/// `\r` is not followed by one that starts with `\n`.
pub open spec fn split_into_lines(vs: Seq<Seq<char>>) -> bool {
    forall|i: int|
        0 <= i < vs.len() ==> is_line_piece(#[trigger] vs[i]) && (i + 1 < vs.len() ==> is_line_break(vs[i].last())
            && (vs[i].last() == '\r' ==> vs[i + 1][0] != '\n'))
}

/// Calls `TextDiff::from_lines` and `iter_all_changes` of `similar`; the
/// changes are named by [`line_changes`]. `similar` splits each text into its
/// physical lines, each ending at `\n`, `\r\n` or a lone `\r` (kept), the
/// last one possibly without an ending; so the values on the old side, in
/// order, are the lines of `before`, and those on the new side the lines of
/// `after`.
#[verifier::external_body]
fn diff_lines(before: &str, after: &str) -> (r: Vec<(ChangeKind, Vec<char>)>)
    ensures
        r@.map_values(|c: (ChangeKind, Vec<char>)| change_view(c)) == line_changes(before@, after@),
        concat_all(side_values(r@.map_values(|c: (ChangeKind, Vec<char>)| change_view(c)), true)) == before@,
        concat_all(side_values(r@.map_values(|c: (ChangeKind, Vec<char>)| change_view(c)), false)) == after@,
        split_into_lines(side_values(r@.map_values(|c: (ChangeKind, Vec<char>)| change_view(c)), true)),
        split_into_lines(side_values(r@.map_values(|c: (ChangeKind, Vec<char>)| change_view(c)), false)),
        forall|i: int| 0 <= i < r@.len() ==> (#[trigger] r@[i]).1@.len() > 0,
{
    let mut out = Vec::new();
    for change in TextDiff::from_lines(before, after).iter_all_changes() {
        let kind = match change.tag() {
            ChangeTag::Equal => ChangeKind::Equal,
            ChangeTag::Delete => ChangeKind::Delete,
            ChangeTag::Insert => ChangeKind::Insert,
        };
        out.push((kind, change.value().chars().collect()));
    }
    out
}

/// A diff line without its `\n` and then without a `\r`.
pub open spec fn strip_line_end(v: Seq<char>) -> Seq<char> {
    let a = if v.len() > 0 && v.last() == '\n' { v.drop_last() } else { v };
    if a.len() > 0 && a.last() == '\r' { a.drop_last() } else { a }
}

/// Text of a diff line, without its line ending.
pub fn source_line(value: &[char]) -> (r: Vec<char>)
    ensures
        r@ == strip_line_end(value@),
        byte_len(r@) <= byte_len(value@),
{
    let mut r = copy_chars(value);
    if r.len() > 0 && r[r.len() - 1] == '\n' {
        proof {
            assert(r@.drop_last().push(r@.last()) =~= r@);
            crate::text::lemma_byte_len_push(r@.drop_last(), r@.last());
        }
        r.pop();
    }
    if r.len() > 0 && r[r.len() - 1] == '\r' {
        proof {
            assert(r@.drop_last().push(r@.last()) =~= r@);
            crate::text::lemma_byte_len_push(r@.drop_last(), r@.last());
        }
        r.pop();
    }
    r
}

/// A numbered line waiting in a change block.
pub type Pending = (nat, Seq<char>);

/// Row pairing the `k`-th deleted and the `k`-th inserted line of a change
/// block; a pair gets word-level spans, a lone line is changed as a whole.
pub open spec fn pair_row(old: Option<Pending>, new: Option<Pending>) -> RowSpec {
    let old_text = match old { Some(o) => o.1, None => Seq::<char>::empty() };
    let new_text = match new { Some(n) => n.1, None => Seq::<char>::empty() };
    let spans: (Seq<DiffSpan>, Seq<DiffSpan>) = match (old, new) {
        (Some(o), Some(n)) => {
            let tc = token_changes(tokens(o.1), tokens(n.1));
            (side_spans(tc, true), side_spans(tc, false))
        },
        (Some(o), None) => (whole_line(o.1, StructuralChange::Novel), Seq::empty()),
        _ => (Seq::empty(), whole_line(new_text, StructuralChange::Novel)),
    };
    RowSpec {
        old_line: match old { Some(o) => Some(o.0 as u32), None => None },
        new_line: match new { Some(n) => Some(n.0 as u32), None => None },
        old_text,
        new_text,
        old_changed: old is Some,
        new_changed: new is Some,
        old_spans: spans.0,
        new_spans: spans.1,
        old_width: display_width(old_text),
        new_width: display_width(new_text),
    }
}

pub open spec fn get_pending(s: Seq<Pending>, k: int) -> Option<Pending> {
    if 0 <= k < s.len() { Some(s[k]) } else { None }
}

/// Rows of a change block: deletions and insertions paired in order, the
/// longer side continuing alone.
pub open spec fn flush_rows(deleted: Seq<Pending>, inserted: Seq<Pending>) -> Seq<RowSpec> {
    let n = if deleted.len() > inserted.len() { deleted.len() } else { inserted.len() };
    Seq::new(n, |k: int| pair_row(get_pending(deleted, k), get_pending(inserted, k)))
}

/// Row of an unchanged line present on both sides.
pub open spec fn equal_row(old_line: nat, new_line: nat, text: Seq<char>) -> RowSpec {
    RowSpec {
        old_line: Some(old_line as u32),
        new_line: Some(new_line as u32),
        old_text: text,
        new_text: text,
        old_changed: false,
        new_changed: false,
        old_spans: whole_line(text, StructuralChange::Unchanged),
        new_spans: whole_line(text, StructuralChange::Unchanged),
        old_width: display_width(text),
        new_width: display_width(text),
    }
}

/// Rows so far, last line numbers, and the pending change block.
pub type LineState = (Seq<RowSpec>, nat, nat, Seq<Pending>, Seq<Pending>);

/// State after the line changes `cs`: deletions and insertions accumulate
/// in a block, and an unchanged line closes the block before its own row.
pub open spec fn line_state(cs: Seq<(ChangeKind, Seq<char>)>) -> LineState
    decreases cs.len(),
{
    if cs.len() == 0 {
        (Seq::empty(), 0, 0, Seq::empty(), Seq::empty())
    } else {
        let (rows, o, n, del, ins) = line_state(cs.drop_last());
        let (k, v) = cs.last();
        let text = strip_line_end(v);
        match k {
            ChangeKind::Delete => (rows, o + 1, n, del.push((o + 1, text)), ins),
            ChangeKind::Insert => (rows, o, n + 1, del, ins.push((n + 1, text))),
            ChangeKind::Equal => (
                rows + flush_rows(del, ins) + seq![equal_row(o + 1, n + 1, text)],
                o + 1,
                n + 1,
                Seq::empty(),
                Seq::empty(),
            ),
        }
    }
}

/// Rows of a line diff: all rows, then the last pending change block.
pub open spec fn line_rows(cs: Seq<(ChangeKind, Seq<char>)>) -> Seq<RowSpec> {
    let st = line_state(cs);
    st.0 + flush_rows(st.3, st.4)
}

/// `(old line, old text)` of the rows that show an old line, in order.
pub open spec fn old_side(rows: Seq<RowSpec>) -> Seq<(u32, Seq<char>)>
    decreases rows.len(),
{
    if rows.len() == 0 {
        Seq::empty()
    } else {
        let prev = old_side(rows.drop_last());
        match rows.last().old_line {
            Some(n) => prev.push((n, rows.last().old_text)),
            None => prev,
        }
    }
}

/// `(new line, new text)` of the rows that show a new line, in order.
pub open spec fn new_side(rows: Seq<RowSpec>) -> Seq<(u32, Seq<char>)>
    decreases rows.len(),
{
    if rows.len() == 0 {
        Seq::empty()
    } else {
        let prev = new_side(rows.drop_last());
        match rows.last().new_line {
            Some(n) => prev.push((n, rows.last().new_text)),
            None => prev,
        }
    }
}

/// Lines numbered from 1, without their line endings.
pub open spec fn numbered(values: Seq<Seq<char>>) -> Seq<(u32, Seq<char>)> {
    Seq::new(values.len(), |i: int| ((i + 1) as u32, strip_line_end(values[i])))
}

pub open spec fn pending_pairs(p: Seq<Pending>) -> Seq<(u32, Seq<char>)> {
    p.map_values(|e: Pending| (e.0 as u32, e.1))
}

proof fn lemma_sides_concat(a: Seq<RowSpec>, b: Seq<RowSpec>)
    ensures
        old_side(a + b) == old_side(a) + old_side(b),
        new_side(a + b) == new_side(a) + new_side(b),
    decreases b.len(),
{
    if b.len() == 0 {
        assert(a + b =~= a);
        assert(old_side(a) + old_side(b) =~= old_side(a));
        assert(new_side(a) + new_side(b) =~= new_side(a));
    } else {
        lemma_sides_concat(a, b.drop_last());
        assert((a + b).drop_last() =~= a + b.drop_last());
        assert((a + b).last() == b.last());
        assert(old_side(a) + old_side(b.drop_last()).push((b.last().old_line->0, b.last().old_text)) =~= (old_side(a)
            + old_side(b.drop_last())).push((b.last().old_line->0, b.last().old_text)));
        assert(new_side(a) + new_side(b.drop_last()).push((b.last().new_line->0, b.last().new_text)) =~= (new_side(a)
            + new_side(b.drop_last())).push((b.last().new_line->0, b.last().new_text)));
    }
}

proof fn lemma_flush_sides(del: Seq<Pending>, ins: Seq<Pending>, m: nat)
    requires
        m <= flush_rows(del, ins).len(),
    ensures
        old_side(flush_rows(del, ins).take(m as int)) == pending_pairs(del).take(if m < del.len() { m as int } else { del.len() as int }),
        new_side(flush_rows(del, ins).take(m as int)) == pending_pairs(ins).take(if m < ins.len() { m as int } else { ins.len() as int }),
    decreases m,
{
    let f = flush_rows(del, ins);
    if m == 0 {
        assert(f.take(0) =~= Seq::<RowSpec>::empty());
        assert(pending_pairs(del).take(0) =~= Seq::<(u32, Seq<char>)>::empty());
        assert(pending_pairs(ins).take(0) =~= Seq::<(u32, Seq<char>)>::empty());
    } else {
        lemma_flush_sides(del, ins, (m - 1) as nat);
        assert(f.take(m as int).drop_last() =~= f.take(m - 1));
        let k = m - 1;
        let row = f[k];
        assert(f.take(m as int).last() == row);
        assert(row == pair_row(get_pending(del, k), get_pending(ins, k)));
        if k < del.len() {
            assert(pending_pairs(del).take(m as int) =~= pending_pairs(del).take(k).push((del[k].0 as u32, del[k].1)));
        } else {
            assert(pending_pairs(del).take(del.len() as int) =~= pending_pairs(del).take(del.len() as int));
        }
        if k < ins.len() {
            assert(pending_pairs(ins).take(m as int) =~= pending_pairs(ins).take(k).push((ins[k].0 as u32, ins[k].1)));
        }
    }
}

proof fn lemma_flush_sides_all(del: Seq<Pending>, ins: Seq<Pending>)
    ensures
        old_side(flush_rows(del, ins)) == pending_pairs(del),
        new_side(flush_rows(del, ins)) == pending_pairs(ins),
{
    let f = flush_rows(del, ins);
    lemma_flush_sides(del, ins, f.len());
    assert(f.take(f.len() as int) =~= f);
    assert(pending_pairs(del).take(del.len() as int) =~= pending_pairs(del));
    assert(pending_pairs(ins).take(ins.len() as int) =~= pending_pairs(ins));
}

proof fn lemma_line_state_sides(cs: Seq<(ChangeKind, Seq<char>)>)
    ensures
        ({
            let st = line_state(cs);
            &&& st.1 == side_values(cs, true).len()
            &&& st.2 == side_values(cs, false).len()
            &&& old_side(st.0) + pending_pairs(st.3) == numbered(side_values(cs, true))
            &&& new_side(st.0) + pending_pairs(st.4) == numbered(side_values(cs, false))
        }),
    decreases cs.len(),
{
    if cs.len() == 0 {
        assert(old_side(Seq::<RowSpec>::empty()) + pending_pairs(Seq::<Pending>::empty()) =~= numbered(Seq::<Seq<char>>::empty()));
        assert(new_side(Seq::<RowSpec>::empty()) + pending_pairs(Seq::<Pending>::empty()) =~= numbered(Seq::<Seq<char>>::empty()));
    } else {
        let d = cs.drop_last();
        lemma_line_state_sides(d);
        let (rows, o, n, del, ins) = line_state(d);
        let (k, v) = cs.last();
        let text = strip_line_end(v);
        let olds = side_values(d, true);
        let news = side_values(d, false);
        match k {
            ChangeKind::Delete => {
                assert(side_values(cs, true) == olds.push(v));
                assert(side_values(cs, false) == news);
                assert(pending_pairs(del.push((o + 1, text))) =~= pending_pairs(del).push(((o + 1) as u32, text)));
                assert(numbered(olds.push(v)) =~= numbered(olds).push(((o + 1) as u32, text)));
                assert(old_side(rows) + pending_pairs(del).push(((o + 1) as u32, text)) =~= (old_side(rows)
                    + pending_pairs(del)).push(((o + 1) as u32, text)));
            },
            ChangeKind::Insert => {
                assert(side_values(cs, false) == news.push(v));
                assert(side_values(cs, true) == olds);
                assert(pending_pairs(ins.push((n + 1, text))) =~= pending_pairs(ins).push(((n + 1) as u32, text)));
                assert(numbered(news.push(v)) =~= numbered(news).push(((n + 1) as u32, text)));
                assert(new_side(rows) + pending_pairs(ins).push(((n + 1) as u32, text)) =~= (new_side(rows)
                    + pending_pairs(ins)).push(((n + 1) as u32, text)));
            },
            ChangeKind::Equal => {
                assert(side_values(cs, true) == olds.push(v));
                assert(side_values(cs, false) == news.push(v));
                let eq = seq![equal_row(o + 1, n + 1, text)];
                lemma_flush_sides_all(del, ins);
                lemma_sides_concat(rows, flush_rows(del, ins));
                lemma_sides_concat(rows + flush_rows(del, ins), eq);
                assert(eq.drop_last() =~= Seq::<RowSpec>::empty());
                assert(eq.last() == equal_row(o + 1, n + 1, text));
                assert(old_side(eq.drop_last()) == Seq::<(u32, Seq<char>)>::empty());
                assert(new_side(eq.drop_last()) == Seq::<(u32, Seq<char>)>::empty());
                assert(old_side(eq) =~= seq![((o + 1) as u32, text)]);
                assert(new_side(eq) =~= seq![((n + 1) as u32, text)]);
                assert(pending_pairs(Seq::<Pending>::empty()) =~= Seq::<(u32, Seq<char>)>::empty());
                assert(numbered(olds.push(v)) =~= numbered(olds).push(((o + 1) as u32, text)));
                assert(numbered(news.push(v)) =~= numbered(news).push(((n + 1) as u32, text)));
                assert(old_side(rows) + pending_pairs(del) + seq![((o + 1) as u32, text)] =~= numbered(olds).push(
                    ((o + 1) as u32, text),
                ));
                assert(new_side(rows) + pending_pairs(ins) + seq![((n + 1) as u32, text)] =~= numbered(news).push(
                    ((n + 1) as u32, text),
                ));
                assert(old_side(rows + flush_rows(del, ins) + eq) + pending_pairs(Seq::<Pending>::empty()) =~= old_side(
                    rows + flush_rows(del, ins) + eq,
                ));
                assert(new_side(rows + flush_rows(del, ins) + eq) + pending_pairs(Seq::<Pending>::empty()) =~= new_side(
                    rows + flush_rows(del, ins) + eq,
                ));
            },
        }
    }
}

/// A line diff keeps both texts whole: the rows that show an old line list
/// every line of the old side of the changes exactly once, in order and
/// numbered from 1, and the rows that show a new line do the same for the new
/// side.
pub proof fn law_line_rows_keep_both_sides(cs: Seq<(ChangeKind, Seq<char>)>)
    ensures
        old_side(line_rows(cs)) == numbered(side_values(cs, true)),
        new_side(line_rows(cs)) == numbered(side_values(cs, false)),
{
    lemma_line_state_sides(cs);
    let st = line_state(cs);
    lemma_flush_sides_all(st.3, st.4);
    lemma_sides_concat(st.0, flush_rows(st.3, st.4));
}

fn pending_text_row(
    old: Option<&(u32, Vec<char>)>,
    new: Option<&(u32, Vec<char>)>,
) -> (r: DiffRow)
    requires
        old matches Some(o) ==> byte_len(o.1@) <= usize::MAX,
        new matches Some(n) ==> byte_len(n.1@) <= usize::MAX,
    ensures
        r.view() == pair_row(
            match old { Some(o) => Some((o.0 as nat, o.1@)), None => None },
            match new { Some(n) => Some((n.0 as nat, n.1@)), None => None },
        ),
{
    let old_text = match old { Some(o) => copy_chars(o.1.as_slice()), None => Vec::new() };
    let new_text = match new { Some(n) => copy_chars(n.1.as_slice()), None => Vec::new() };
    let (old_spans, new_spans) = match (old, new) {
        (Some(o), Some(n)) => word_diff_spans(o.1.as_slice(), n.1.as_slice()),
        (Some(o), None) => (whole_line_span(o.1.as_slice(), StructuralChange::Novel), Vec::new()),
        _ => {
            let empty: Vec<DiffSpan> = Vec::new();
            (empty, whole_line_span(new_text.as_slice(), StructuralChange::Novel))
        },
    };
    let old_string = string_from_chars(old_text.as_slice());
    let new_string = string_from_chars(new_text.as_slice());
    let old_width = text_width(old_string.as_str());
    let new_width = text_width(new_string.as_str());
    DiffRow {
        old_line: match old { Some(o) => Some(o.0), None => None },
        new_line: match new { Some(n) => Some(n.0), None => None },
        old_text: old_string,
        new_text: new_string,
        old_changed: old.is_some(),
        new_changed: new.is_some(),
        old_spans,
        new_spans,
        old_width,
        new_width,
    }
}

pub open spec fn pending_view(s: Seq<(u32, Vec<char>)>) -> Seq<Pending> {
    s.map_values(|p: (u32, Vec<char>)| (p.0 as nat, p.1@))
}

fn flush_line_changes(rows: &mut Vec<DiffRow>, deleted: &mut Vec<(u32, Vec<char>)>, inserted: &mut Vec<(u32, Vec<char>)>)
    requires
        forall|k: int| 0 <= k < old(deleted)@.len() ==> byte_len((#[trigger] old(deleted)@[k]).1@) <= usize::MAX,
        forall|k: int| 0 <= k < old(inserted)@.len() ==> byte_len((#[trigger] old(inserted)@[k]).1@) <= usize::MAX,
    ensures
        rows_spec(final(rows)@) == rows_spec(old(rows)@) + flush_rows(
            pending_view(old(deleted)@),
            pending_view(old(inserted)@),
        ),
        final(deleted)@.len() == 0,
        final(inserted)@.len() == 0,
{
    let ghost dv = pending_view(deleted@);
    let ghost iv = pending_view(inserted@);
    let ghost start = rows_spec(rows@);
    let n = if deleted.len() > inserted.len() { deleted.len() } else { inserted.len() };
    let mut k: usize = 0;
    while k < n
        invariant
            dv == pending_view(deleted@),
            iv == pending_view(inserted@),
            deleted@ == old(deleted)@,
            inserted@ == old(inserted)@,
            start == rows_spec(old(rows)@),
            forall|j: int| 0 <= j < deleted@.len() ==> byte_len((#[trigger] deleted@[j]).1@) <= usize::MAX,
            forall|j: int| 0 <= j < inserted@.len() ==> byte_len((#[trigger] inserted@[j]).1@) <= usize::MAX,
            n == flush_rows(dv, iv).len(),
            k <= n,
            rows_spec(rows@) == start + flush_rows(dv, iv).take(k as int),
        decreases n - k,
    {
        let old = if k < deleted.len() { Some(&deleted[k]) } else { None };
        let new = if k < inserted.len() { Some(&inserted[k]) } else { None };
        let row = pending_text_row(old, new);
        let ghost rv = row.view();
        assert(rv == flush_rows(dv, iv)[k as int]);
        let ghost before = rows@;
        rows.push(row);
        assert(rows_spec(rows@) =~= rows_spec(before).push(rv));
        assert(flush_rows(dv, iv).take(k + 1) =~= flush_rows(dv, iv).take(k as int).push(rv));
        k = k + 1;
    }
    assert(flush_rows(dv, iv).take(n as int) =~= flush_rows(dv, iv));
    deleted.clear();
    inserted.clear();
}

fn equal_text_row(old_line: u32, new_line: u32, text: &Vec<char>) -> (r: DiffRow)
    requires
        byte_len(text@) <= usize::MAX,
    ensures
        r.view() == equal_row(old_line as nat, new_line as nat, text@),
{
    let old_text = string_from_chars(text.as_slice());
    let new_text = string_from_chars(text.as_slice());
    let width = text_width(new_text.as_str());
    DiffRow {
        old_line: Some(old_line),
        new_line: Some(new_line),
        old_text,
        new_text,
        old_changed: false,
        new_changed: false,
        old_spans: whole_line_span(text.as_slice(), StructuralChange::Unchanged),
        new_spans: whole_line_span(text.as_slice(), StructuralChange::Unchanged),
        old_width: width,
        new_width: width,
    }
}

/// Rows of a line diff from its changes: unchanged lines are rows of their
/// own, and each block of deletions and insertions between them is paired up
/// line by line with word-level spans.
pub fn line_diff_rows(changes: &[(ChangeKind, Vec<char>)]) -> (r: Vec<DiffRow>)
    requires
        changes@.len() < u32::MAX,
        forall|i: int| 0 <= i < changes@.len() ==> byte_len((#[trigger] changes@[i]).1@) <= usize::MAX,
    ensures
        rows_spec(r@) == line_rows(changes@.map_values(|c: (ChangeKind, Vec<char>)| change_view(c))),
{
    let ghost cs = changes@.map_values(|c: (ChangeKind, Vec<char>)| change_view(c));
    let mut rows: Vec<DiffRow> = Vec::new();
    let mut deleted: Vec<(u32, Vec<char>)> = Vec::new();
    let mut inserted: Vec<(u32, Vec<char>)> = Vec::new();
    let mut old_line: u32 = 0;
    let mut new_line: u32 = 0;
    let mut i: usize = 0;
    assert(cs.take(0) =~= Seq::<(ChangeKind, Seq<char>)>::empty());
    assert(pending_view(deleted@) =~= Seq::<Pending>::empty());
    assert(pending_view(inserted@) =~= Seq::<Pending>::empty());
    assert(rows_spec(rows@) =~= Seq::<RowSpec>::empty());
    while i < changes.len()
        invariant
            cs == changes@.map_values(|c: (ChangeKind, Vec<char>)| change_view(c)),
            changes@.len() < u32::MAX,
            forall|j: int| 0 <= j < changes@.len() ==> byte_len((#[trigger] changes@[j]).1@) <= usize::MAX,
            i <= changes@.len(),
            line_state(cs.take(i as int)) == (
                rows_spec(rows@),
                old_line as nat,
                new_line as nat,
                pending_view(deleted@),
                pending_view(inserted@),
            ),
            old_line <= i,
            new_line <= i,
            forall|j: int| 0 <= j < deleted@.len() ==> byte_len((#[trigger] deleted@[j]).1@) <= usize::MAX,
            forall|j: int| 0 <= j < inserted@.len() ==> byte_len((#[trigger] inserted@[j]).1@) <= usize::MAX,
        decreases changes@.len() - i,
    {
        proof {
            assert(cs.take(i + 1).drop_last() =~= cs.take(i as int));
            assert(cs.take(i + 1).last() == change_view(changes@[i as int]));
        }
        let text = source_line(changes[i].1.as_slice());
        match changes[i].0 {
            ChangeKind::Delete => {
                old_line = old_line + 1;
                let ghost before = deleted@;
                deleted.push((old_line, text));
                assert(pending_view(deleted@) =~= pending_view(before).push((old_line as nat, strip_line_end(changes@[i as int].1@))));
            },
            ChangeKind::Insert => {
                new_line = new_line + 1;
                let ghost before = inserted@;
                inserted.push((new_line, text));
                assert(pending_view(inserted@) =~= pending_view(before).push((new_line as nat, strip_line_end(changes@[i as int].1@))));
            },
            ChangeKind::Equal => {
                flush_line_changes(&mut rows, &mut deleted, &mut inserted);
                old_line = old_line + 1;
                new_line = new_line + 1;
                let row = equal_text_row(old_line, new_line, &text);
                let ghost before = rows@;
                let ghost rv = row.view();
                rows.push(row);
                assert(rows_spec(rows@) =~= rows_spec(before).push(rv));
                assert(pending_view(deleted@) =~= Seq::<Pending>::empty());
                assert(pending_view(inserted@) =~= Seq::<Pending>::empty());
            },
        }
        i = i + 1;
    }
    assert(cs.take(changes@.len() as int) =~= cs);
    flush_line_changes(&mut rows, &mut deleted, &mut inserted);
    rows
}

/// Whether any row is a change.
pub open spec fn any_changed(rows: Seq<RowSpec>) -> bool {
    exists|i: int| 0 <= i < rows.len() && (#[trigger] rows[i]).changed()
}

fn has_changes(rows: &Vec<DiffRow>) -> (r: bool)
    ensures
        r == any_changed(rows_spec(rows@)),
{
    let mut i: usize = 0;
    while i < rows.len()
        invariant
            i <= rows@.len(),
            forall|k: int| 0 <= k < i ==> !(#[trigger] rows_spec(rows@)[k]).changed(),
        decreases rows@.len() - i,
    {
        if rows[i].is_changed() {
            assert(rows_spec(rows@)[i as int].changed());
            return true;
        }
        i = i + 1;
    }
    false
}

/// Whether a line diff's changes fit the row representation: fewer than
/// `u32::MAX` changes, each at most `usize::MAX` bytes long.
pub open spec fn changes_fit(cs: Seq<(ChangeKind, Seq<char>)>) -> bool {
    cs.len() < u32::MAX && forall|i: int| 0 <= i < cs.len() ==> byte_len(#[trigger] cs[i].1) <= usize::MAX
}

/// Physical-line diff of two texts, with word-level spans for replaced lines.
/// `None` when the diff does not fit the row representation (see
/// [`changes_fit`]).
pub fn line_diff_document(before: &str, after: &str) -> (r: Option<DiffDocument>)
    ensures
        r is Some == changes_fit(line_changes(before@, after@)),
        concat_all(side_values(line_changes(before@, after@), true)) == before@,
        concat_all(side_values(line_changes(before@, after@), false)) == after@,
        split_into_lines(side_values(line_changes(before@, after@), true)),
        split_into_lines(side_values(line_changes(before@, after@), false)),
        r matches Some(d) ==> {
            &&& rows_spec(d.rows@) == line_rows(line_changes(before@, after@))
            &&& d.language@.len() == 0
            &&& d.has_syntactic_changes == any_changed(rows_spec(d.rows@))
        },
{
    let changes = diff_lines(before, after);
    let ghost cs = line_changes(before@, after@);
    if changes.len() >= 0xFFFF_FFFF {
        return None;
    }
    let mut i: usize = 0;
    while i < changes.len()
        invariant
            changes@.map_values(|c: (ChangeKind, Vec<char>)| change_view(c)) == cs,
            cs == line_changes(before@, after@),
            concat_all(side_values(cs, true)) == before@,
            concat_all(side_values(cs, false)) == after@,
            split_into_lines(side_values(cs, true)),
            split_into_lines(side_values(cs, false)),
            i <= changes@.len(),
            forall|j: int| 0 <= j < i ==> byte_len((#[trigger] changes@[j]).1@) <= usize::MAX,
        decreases changes@.len() - i,
    {
        let len = byte_len_of(changes[i].1.as_slice());
        if len > usize::MAX as u128 {
            assert(cs[i as int].1 == changes@[i as int].1@);
            assert(byte_len(cs[i as int].1) > usize::MAX);
            assert(!changes_fit(cs));
            return None;
        }
        i = i + 1;
    }
    assert forall|j: int| 0 <= j < cs.len() implies byte_len(#[trigger] cs[j].1) <= usize::MAX by {
        assert(cs[j].1 == changes@[j].1@);
    }
    let rows = line_diff_rows(changes.as_slice());
    let has_syntactic_changes = has_changes(&rows);
    Some(DiffDocument { language: String::new(), has_syntactic_changes, rows })
}


/// One aligned line pair of a structural diff, as the structural differ
/// reports it (line numbers are 1-based).
pub struct StructuralLine {
    pub old_line: Option<u32>,
    pub new_line: Option<u32>,
    pub old_changed: bool,
    pub new_changed: bool,
    pub old_spans: Vec<DiffSpan>,
    pub new_spans: Vec<DiffSpan>,
}

pub type StructuralLineView = (Option<u32>, Option<u32>, bool, bool, Seq<DiffSpan>, Seq<DiffSpan>);

impl StructuralLine {
    pub open spec fn view(&self) -> StructuralLineView {
        (self.old_line, self.new_line, self.old_changed, self.new_changed, self.old_spans@, self.new_spans@)
    }
}

/// A line number kept only when it names a displayable line; the structural
/// differ also numbers the empty item after a final newline.
pub open spec fn displayable(line: Option<u32>, count: nat) -> Option<u32> {
    match line {
        Some(l) => if l <= count { Some(l) } else { None },
        None => None,
    }
}

/// Row for a structural line pair whose displayable line numbers are
/// `old_line` and `new_line`.
pub open spec fn structural_row(
    p: StructuralLineView,
    old_lines: Seq<Seq<char>>,
    new_lines: Seq<Seq<char>>,
) -> RowSpec {
    let old_line = displayable(p.0, old_lines.len());
    let new_line = displayable(p.1, new_lines.len());
    let old_text = line_text_spec(old_lines, old_line);
    let new_text = line_text_spec(new_lines, new_line);
    RowSpec {
        old_line,
        new_line,
        old_text,
        new_text,
        old_changed: p.2,
        new_changed: p.3,
        old_spans: if old_line is Some { p.4 } else { Seq::empty() },
        new_spans: if new_line is Some { p.5 } else { Seq::empty() },
        old_width: display_width(old_text),
        new_width: display_width(new_text),
    }
}

/// Rows of a structural diff: pairs with no displayable line are dropped.
pub open spec fn structural_rows_spec(
    ps: Seq<StructuralLineView>,
    old_lines: Seq<Seq<char>>,
    new_lines: Seq<Seq<char>>,
) -> Seq<RowSpec>
    decreases ps.len(),
{
    if ps.len() == 0 {
        Seq::empty()
    } else {
        let prev = structural_rows_spec(ps.drop_last(), old_lines, new_lines);
        let p = ps.last();
        if displayable(p.0, old_lines.len()) is Some || displayable(p.1, new_lines.len()) is Some {
            prev.push(structural_row(p, old_lines, new_lines))
        } else {
            prev
        }
    }
}

fn displayable_exec(line: Option<u32>, count: usize) -> (r: Option<u32>)
    ensures
        r == displayable(line, count as nat),
{
    match line {
        Some(l) => if (l as usize) <= count { Some(l) } else { None },
        None => None,
    }
}

fn copy_spans(v: &Vec<DiffSpan>) -> (r: Vec<DiffSpan>)
    ensures
        r@ == v@,
{
    let mut r: Vec<DiffSpan> = Vec::new();
    let mut i: usize = 0;
    while i < v.len()
        invariant
            i <= v@.len(),
            r@ == v@.take(i as int),
        decreases v@.len() - i,
    {
        r.push(v[i]);
        assert(v@.take(i + 1) =~= v@.take(i as int).push(v@[i as int]));
        i = i + 1;
    }
    assert(v@.take(v@.len() as int) =~= v@);
    r
}

/// Rows of a structural diff of `before` and `after`: each reported pair with
/// a displayable line becomes a row with the text of its numbered lines.
pub fn structural_rows(lines: &[StructuralLine], before: &str, after: &str) -> (r: Vec<DiffRow>)
    ensures
        rows_spec(r@) == structural_rows_spec(
            lines@.map_values(|p: StructuralLine| p.view()),
            text_lines(before@),
            text_lines(after@),
        ),
{
    let ghost ps = lines@.map_values(|p: StructuralLine| p.view());
    let old_lines = source_lines(before);
    let new_lines = source_lines(after);
    let ghost ol = text_lines(before@);
    let ghost nl = text_lines(after@);
    let mut rows: Vec<DiffRow> = Vec::new();
    let mut i: usize = 0;
    assert(ps.take(0) =~= Seq::<StructuralLineView>::empty());
    assert(rows_spec(rows@) =~= Seq::<RowSpec>::empty());
    while i < lines.len()
        invariant
            ps == lines@.map_values(|p: StructuralLine| p.view()),
            ol == vv(old_lines@),
            nl == vv(new_lines@),
            i <= lines@.len(),
            rows_spec(rows@) == structural_rows_spec(ps.take(i as int), ol, nl),
        decreases lines@.len() - i,
    {
        let pair = &lines[i];
        proof {
            assert(ps.take(i + 1).drop_last() =~= ps.take(i as int));
            assert(ps.take(i + 1).last() == pair.view());
        }
        let old_line = displayable_exec(pair.old_line, old_lines.len());
        let new_line = displayable_exec(pair.new_line, new_lines.len());
        if old_line.is_some() || new_line.is_some() {
            let old_text = line_text(old_lines.as_slice(), old_line);
            let new_text = line_text(new_lines.as_slice(), new_line);
            let old_width = text_width(old_text.as_str());
            let new_width = text_width(new_text.as_str());
            let row = DiffRow {
                old_line,
                new_line,
                old_text,
                new_text,
                old_changed: pair.old_changed,
                new_changed: pair.new_changed,
                old_spans: if old_line.is_some() { copy_spans(&pair.old_spans) } else { Vec::new() },
                new_spans: if new_line.is_some() { copy_spans(&pair.new_spans) } else { Vec::new() },
                old_width,
                new_width,
            };
            let ghost rv = row.view();
            assert(rv == structural_row(pair.view(), ol, nl));
            let ghost before_rows = rows@;
            rows.push(row);
            assert(rows_spec(rows@) =~= rows_spec(before_rows).push(rv));
        }
        i = i + 1;
    }
    assert(ps.take(lines@.len() as int) =~= ps);
    rows
}

/// A structural diff document from the structural differ's language name,
/// syntactic-change flag and line pairs.
pub fn structural_diff_document(
    language: String,
    has_syntactic_changes: bool,
    lines: &[StructuralLine],
    before: &str,
    after: &str,
) -> (r: DiffDocument)
    ensures
        r.language@ == language@,
        r.has_syntactic_changes == has_syntactic_changes,
        rows_spec(r.rows@) == structural_rows_spec(
            lines@.map_values(|p: StructuralLine| p.view()),
            text_lines(before@),
            text_lines(after@),
        ),
{
    DiffDocument { language, has_syntactic_changes, rows: structural_rows(lines, before, after) }
}

} // verus!
