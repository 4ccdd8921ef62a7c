//! Changed-file tree construction and path-ordered navigation.
use vstd::prelude::*;
use crate::git::FileItem;
use crate::text::{
    chars_eq, chars_lt, chars_of, copy_chars, copy_words, lemma_seq_lt_irreflexive, lemma_split_on_nonempty,
    lemma_seq_lt_total, lemma_seq_lt_transitive, seq_lt, split_chars, split_on, string_from_chars,
    vv,
};

verus! {

/// Path segments of every file, split at `/`.
pub open spec fn file_segments(files: Seq<FileItem>) -> Seq<Seq<Seq<char>>> {
    files.map_values(|f: FileItem| split_on(f.path@, '/'))
}

/// `pre` is a strict prefix of `s`.
pub open spec fn extends(pre: Seq<Seq<char>>, s: Seq<Seq<char>>) -> bool {
    pre.len() < s.len() && s.take(pre.len() as int) == pre
}

/// The segments that follow `pre` in the files that extend it, in file order.
pub open spec fn next_segments(all: Seq<Seq<Seq<char>>>, pre: Seq<Seq<char>>) -> Seq<Seq<char>>
    decreases all.len(),
{
    if all.len() == 0 {
        Seq::empty()
    } else {
        let r = next_segments(all.drop_last(), pre);
        if extends(pre, all.last()) {
            r.push(all.last()[pre.len() as int])
        } else {
            r
        }
    }
}

/// `s` with `x` added in name order, unless already present.
pub open spec fn insert_sorted(s: Seq<Seq<char>>, x: Seq<char>) -> Seq<Seq<char>>
    decreases s.len(),
{
    if s.len() == 0 {
        seq![x]
    } else if x == s[0] {
        s
    } else if seq_lt(x, s[0]) {
        seq![x] + s
    } else {
        seq![s[0]] + insert_sorted(s.drop_first(), x)
    }
}

/// The distinct names of `xs` in name order.
pub open spec fn sorted_distinct(xs: Seq<Seq<char>>) -> Seq<Seq<char>>
    decreases xs.len(),
{
    if xs.len() == 0 {
        Seq::empty()
    } else {
        insert_sorted(sorted_distinct(xs.drop_last()), xs.last())
    }
}

/// Names of the children of the tree node `pre`, in name order.
pub open spec fn children(all: Seq<Seq<Seq<char>>>, pre: Seq<Seq<char>>) -> Seq<Seq<char>> {
    sorted_distinct(next_segments(all, pre))
}

/// The last file whose path is exactly the node `pre`.
pub open spec fn file_at(all: Seq<Seq<Seq<char>>>, pre: Seq<Seq<char>>) -> Option<usize>
    decreases all.len(),
{
    if all.len() == 0 {
        None
    } else if all.last() == pre {
        Some((all.len() - 1) as usize)
    } else {
        file_at(all.drop_last(), pre)
    }
}

/// Largest number of segments of any file.
pub open spec fn max_len(all: Seq<Seq<Seq<char>>>) -> nat
    decreases all.len(),
{
    if all.len() == 0 {
        0
    } else {
        let m = max_len(all.drop_last());
        if all.last().len() > m {
            all.last().len()
        } else {
            m
        }
    }
}

/// `(path, label, depth, file index, expanded)` of a tree row.
pub type RowView = (Seq<char>, Seq<char>, nat, Option<usize>, bool);

/// Rows for the node `node` shown at `path` with `label`: a leaf or a
/// collapsed directory is one row; a directory with a single child and no file
/// of its own is merged with that child into one row; any other directory is a
/// row followed by its children one level deeper.
pub open spec fn row_chain(
    all: Seq<Seq<Seq<char>>>,
    collapsed: Seq<Seq<char>>,
    node: Seq<Seq<char>>,
    path: Seq<char>,
    label: Seq<char>,
    depth: nat,
) -> Seq<RowView>
    decreases max_len(all) - node.len(), 1int, 0int,
{
    let kids = children(all, node);
    let f = file_at(all, node);
    if kids.len() == 0 || collapsed.contains(path) {
        seq![(path, label, depth, f, false)]
    } else if f is None && kids.len() == 1 {
        proof {
            lemma_child_deeper(all, node, kids[0]);
        }
        row_chain(
            all,
            collapsed,
            node.push(kids[0]),
            path + seq!['/'] + kids[0],
            label + seq!['/'] + kids[0],
            depth,
        )
    } else {
        seq![(path, label, depth, f, true)] + rows_under(all, collapsed, node, path, depth + 1, 0)
    }
}

/// Rows for the children of `pre` from the `k`-th on, in name order.
pub open spec fn rows_under(
    all: Seq<Seq<Seq<char>>>,
    collapsed: Seq<Seq<char>>,
    pre: Seq<Seq<char>>,
    path: Seq<char>,
    depth: nat,
    k: nat,
) -> Seq<RowView>
    decreases max_len(all) - pre.len(), 0int, children(all, pre).len() - k,
{
    let kids = children(all, pre);
    if k >= kids.len() {
        Seq::empty()
    } else {
        let c = kids[k as int];
        let child_path = if path.len() == 0 { c } else { path + seq!['/'] + c };
        proof {
            lemma_child_deeper(all, pre, c);
        }
        row_chain(all, collapsed, pre.push(c), child_path, c, depth) + rows_under(
            all,
            collapsed,
            pre,
            path,
            depth,
            k + 1,
        )
    }
}

proof fn lemma_contains_concat(a: Seq<Seq<char>>, b: Seq<Seq<char>>, y: Seq<char>)
    ensures
        (a + b).contains(y) == (a.contains(y) || b.contains(y)),
{
    if (a + b).contains(y) {
        let i = choose|i: int| 0 <= i < (a + b).len() && (a + b)[i] == y;
        if i < a.len() {
            assert(a[i] == y);
        } else {
            assert(b[i - a.len()] == y);
        }
    }
    if a.contains(y) {
        let i = choose|i: int| 0 <= i < a.len() && a[i] == y;
        assert((a + b)[i] == y);
    }
    if b.contains(y) {
        let i = choose|i: int| 0 <= i < b.len() && b[i] == y;
        assert((a + b)[i + a.len()] == y);
    }
}

pub proof fn lemma_insert_sorted_members(s: Seq<Seq<char>>, x: Seq<char>, y: Seq<char>)
    ensures
        insert_sorted(s, x).contains(y) == (s.contains(y) || y == x),
    decreases s.len(),
{
    assert(seq![x].contains(y) == (y == x)) by {
        if y == x {
            assert(seq![x][0] == y);
        }
    }
    if s.len() == 0 {
        assert(insert_sorted(s, x) == seq![x]);
    } else {
        let h = seq![s[0]];
        assert(s =~= h + s.drop_first());
        lemma_contains_concat(h, s.drop_first(), y);
        assert(h.contains(y) == (y == s[0])) by {
            if y == s[0] {
                assert(h[0] == y);
            }
        }
        if x == s[0] {
        } else if seq_lt(x, s[0]) {
            lemma_contains_concat(seq![x], s, y);
        } else {
            lemma_insert_sorted_members(s.drop_first(), x, y);
            lemma_contains_concat(h, insert_sorted(s.drop_first(), x), y);
        }
    }
}

pub proof fn lemma_sorted_distinct_members(xs: Seq<Seq<char>>, y: Seq<char>)
    ensures
        sorted_distinct(xs).contains(y) == xs.contains(y),
    decreases xs.len(),
{
    if xs.len() > 0 {
        lemma_sorted_distinct_members(xs.drop_last(), y);
        lemma_insert_sorted_members(sorted_distinct(xs.drop_last()), xs.last(), y);
        if xs.contains(y) && y != xs.last() {
            let i = choose|i: int| 0 <= i < xs.len() && xs[i] == y;
            assert(xs.drop_last()[i] == y);
        }
        if xs.drop_last().contains(y) {
            let i = choose|i: int| 0 <= i < xs.drop_last().len() && xs.drop_last()[i] == y;
            assert(xs[i] == y);
        }
        if y == xs.last() {
            assert(xs[xs.len() - 1] == y);
        }
    }
}

pub proof fn lemma_next_segments_source(all: Seq<Seq<Seq<char>>>, pre: Seq<Seq<char>>, c: Seq<char>)
    requires
        next_segments(all, pre).contains(c),
    ensures
        exists|i: int| 0 <= i < all.len() && extends(pre, #[trigger] all[i]),
    decreases all.len(),
{
    if all.len() > 0 {
        let r = next_segments(all.drop_last(), pre);
        if extends(pre, all.last()) {
            assert(extends(pre, all[all.len() - 1]));
        } else {
            lemma_next_segments_source(all.drop_last(), pre, c);
            let i = choose|i: int| 0 <= i < all.drop_last().len() && extends(pre, #[trigger] all.drop_last()[i]);
            assert(extends(pre, all[i]));
        }
    }
}

pub proof fn lemma_max_len(all: Seq<Seq<Seq<char>>>, i: int)
    requires
        0 <= i < all.len(),
    ensures
        all[i].len() <= max_len(all),
    decreases all.len(),
{
    if i < all.len() - 1 {
        lemma_max_len(all.drop_last(), i);
        assert(all.drop_last()[i] == all[i]);
    }
}

pub proof fn lemma_child_deeper(all: Seq<Seq<Seq<char>>>, pre: Seq<Seq<char>>, c: Seq<char>)
    requires
        children(all, pre).contains(c),
    ensures
        pre.len() + 1 <= max_len(all),
{
    lemma_sorted_distinct_members(next_segments(all, pre), c);
    lemma_next_segments_source(all, pre, c);
    let i = choose|i: int| 0 <= i < all.len() && extends(pre, #[trigger] all[i]);
    lemma_max_len(all, i);
}

/// Some row of `rows` shows the file `f`.
pub open spec fn shows_file(rows: Seq<RowView>, f: Option<usize>) -> bool {
    exists|r: int| 0 <= r < rows.len() && (#[trigger] rows[r]).3 == f
}

proof fn lemma_shows_file_concat(a: Seq<RowView>, b: Seq<RowView>, f: Option<usize>)
    requires
        shows_file(a, f) || shows_file(b, f),
    ensures
        shows_file(a + b, f),
{
    if shows_file(a, f) {
        let r = choose|r: int| 0 <= r < a.len() && (#[trigger] a[r]).3 == f;
        assert((a + b)[r] == a[r]);
    } else {
        let r = choose|r: int| 0 <= r < b.len() && (#[trigger] b[r]).3 == f;
        assert((a + b)[r + a.len()] == b[r]);
    }
}

proof fn lemma_file_at_some(all: Seq<Seq<Seq<char>>>, s: Seq<Seq<char>>)
    requires
        all.contains(s),
        all.len() <= usize::MAX,
    ensures
        file_at(all, s) is Some,
        file_at(all, s) matches Some(j) && j < all.len() && all[j as int] == s,
    decreases all.len(),
{
    if all.last() != s {
        let i = choose|i: int| 0 <= i < all.len() && all[i] == s;
        assert(i != all.len() - 1);
        assert(all.drop_last()[i] == s);
        lemma_file_at_some(all.drop_last(), s);
    }
}

proof fn lemma_next_segment_listed(all: Seq<Seq<Seq<char>>>, pre: Seq<Seq<char>>, s: Seq<Seq<char>>)
    requires
        all.contains(s),
        extends(pre, s),
    ensures
        next_segments(all, pre).contains(s[pre.len() as int]),
    decreases all.len(),
{
    let r = next_segments(all.drop_last(), pre);
    if all.last() == s {
        assert(next_segments(all, pre) == r.push(s[pre.len() as int]));
        assert(next_segments(all, pre)[r.len() as int] == s[pre.len() as int]);
    } else {
        let i = choose|i: int| 0 <= i < all.len() && all[i] == s;
        assert(i != all.len() - 1);
        assert(all.drop_last()[i] == s);
        lemma_next_segment_listed(all.drop_last(), pre, s);
        let j = choose|j: int| 0 <= j < r.len() && r[j] == s[pre.len() as int];
        if extends(pre, all.last()) {
            assert(next_segments(all, pre) == r.push(all.last()[pre.len() as int]));
            assert(next_segments(all, pre)[j] == r[j]);
        }
    }
}

proof fn lemma_child_listed(all: Seq<Seq<Seq<char>>>, pre: Seq<Seq<char>>, s: Seq<Seq<char>>)
    requires
        all.contains(s),
        extends(pre, s),
    ensures
        children(all, pre).contains(s[pre.len() as int]),
{
    lemma_next_segment_listed(all, pre, s);
    lemma_sorted_distinct_members(next_segments(all, pre), s[pre.len() as int]);
}

proof fn lemma_chain_shows(
    all: Seq<Seq<Seq<char>>>,
    node: Seq<Seq<char>>,
    path: Seq<char>,
    label: Seq<char>,
    depth: nat,
    s: Seq<Seq<char>>,
)
    requires
        all.contains(s),
        node.len() <= s.len(),
        s.take(node.len() as int) == node,
        node.len() <= max_len(all),
        all.len() <= usize::MAX,
    ensures
        shows_file(row_chain(all, Seq::empty(), node, path, label, depth), file_at(all, s)),
    decreases max_len(all) - node.len(), 1int, 0int,
{
    let kids = children(all, node);
    let f = file_at(all, node);
    let rows = row_chain(all, Seq::empty(), node, path, label, depth);
    assert(!Seq::<Seq<char>>::empty().contains(path));
    if node.len() == s.len() {
        assert(node =~= s);
        lemma_file_at_some(all, s);
        if kids.len() == 0 {
            assert(rows[0].3 == f);
        } else {
            assert(rows[0].3 == f);
        }
    } else {
        assert(extends(node, s));
        lemma_child_listed(all, node, s);
        let c = s[node.len() as int];
        lemma_child_deeper(all, node, c);
        let j = choose|j: int| 0 <= j < kids.len() && kids[j] == c;
        assert(s.take((node.len() + 1) as int) =~= node.push(c));
        if f is None && kids.len() == 1 {
            assert(kids[0] == c);
            lemma_chain_shows(all, node.push(c), path + seq!['/'] + c, label + seq!['/'] + c, depth, s);
        } else {
            let under = rows_under(all, Seq::empty(), node, path, depth + 1, 0);
            lemma_under_shows(all, node, path, depth + 1, 0, s);
            let head: Seq<RowView> = seq![(path, label, depth, f, true)];
            assert(rows == head + under);
            lemma_shows_file_concat(head, under, file_at(all, s));
        }
    }
}

proof fn lemma_under_shows(
    all: Seq<Seq<Seq<char>>>,
    pre: Seq<Seq<char>>,
    path: Seq<char>,
    depth: nat,
    k: nat,
    s: Seq<Seq<char>>,
)
    requires
        all.contains(s),
        extends(pre, s),
        exists|j: int| k <= j < children(all, pre).len() && children(all, pre)[j] == s[pre.len() as int],
        all.len() <= usize::MAX,
    ensures
        shows_file(rows_under(all, Seq::empty(), pre, path, depth, k), file_at(all, s)),
    decreases max_len(all) - pre.len(), 0int, children(all, pre).len() - k,
{
    let kids = children(all, pre);
    let c = kids[k as int];
    let child_path = if path.len() == 0 { c } else { path + seq!['/'] + c };
    lemma_child_deeper(all, pre, c);
    let first = row_chain(all, Seq::empty(), pre.push(c), child_path, c, depth);
    let rest = rows_under(all, Seq::empty(), pre, path, depth, k + 1);
    assert(rows_under(all, Seq::empty(), pre, path, depth, k) == first + rest);
    let j = choose|j: int| k <= j < kids.len() && kids[j] == s[pre.len() as int];
    if j == k {
        assert(s.take((pre.len() + 1) as int) =~= pre.push(c));
        lemma_chain_shows(all, pre.push(c), child_path, c, depth, s);
    } else {
        lemma_under_shows(all, pre, path, depth, k + 1, s);
    }
    lemma_shows_file_concat(first, rest, file_at(all, s));
}

/// With no directory collapsed, the tree shows every changed file: for each
/// file some row carries the index of a file with the same path segments (the
/// last such file, when a path is listed twice).
pub proof fn law_tree_shows_every_file(files: Seq<FileItem>, i: int)
    requires
        0 <= i < files.len(),
        files.len() <= usize::MAX,
    ensures
        ({
            let all = file_segments(files);
            &&& shows_file(rows_under(all, Seq::empty(), Seq::empty(), Seq::empty(), 0, 0), file_at(all, all[i]))
            &&& file_at(all, all[i]) matches Some(j) && j < files.len() && all[j as int] == all[i]
        }),
{
    let all = file_segments(files);
    let s = all[i];
    assert(all.contains(s));
    lemma_split_on_nonempty(files[i].path@, '/');
    assert(s.take(0) =~= Seq::<Seq<char>>::empty());
    assert(extends(Seq::empty(), s));
    lemma_child_listed(all, Seq::empty(), s);
    lemma_under_shows(all, Seq::empty(), Seq::empty(), 0, 0, s);
    lemma_file_at_some(all, s);
}

/// One row of the changed-file tree.
pub struct TreeRow {
    pub path: String,
    pub label: String,
    pub depth: usize,
    pub file_index: Option<usize>,
    pub expanded: bool,
}

impl TreeRow {
    pub open spec fn view(self) -> RowView {
        (self.path@, self.label@, self.depth as nat, self.file_index, self.expanded)
    }
}

pub open spec fn rows_view(rows: Seq<TreeRow>) -> Seq<RowView> {
    rows.map_values(|r: TreeRow| r.view())
}

pub open spec fn all_view(all: Seq<Vec<Vec<char>>>) -> Seq<Seq<Seq<char>>> {
    all.map_values(|s: Vec<Vec<char>>| vv(s@))
}

fn extends_exec(pre: &Vec<Vec<char>>, s: &Vec<Vec<char>>) -> (r: bool)
    ensures
        r == extends(vv(pre@), vv(s@)),
{
    if pre.len() >= s.len() {
        return false;
    }
    let mut i: usize = 0;
    while i < pre.len()
        invariant
            pre@.len() < s@.len(),
            i <= pre@.len(),
            forall|k: int| 0 <= k < i ==> pre@[k]@ == s@[k]@,
        decreases pre@.len() - i,
    {
        if !chars_eq(pre[i].as_slice(), s[i].as_slice()) {
            assert(vv(s@).take(pre@.len() as int)[i as int] == s@[i as int]@);
            return false;
        }
        i = i + 1;
    }
    assert(vv(s@).take(pre@.len() as int) =~= vv(pre@));
    true
}

fn words_eq(a: &Vec<Vec<char>>, b: &Vec<Vec<char>>) -> (r: bool)
    ensures
        r == (vv(a@) == vv(b@)),
{
    if a.len() != b.len() {
        assert(vv(a@).len() != vv(b@).len());
        return false;
    }
    let mut i: usize = 0;
    while i < a.len()
        invariant
            a@.len() == b@.len(),
            i <= a@.len(),
            forall|k: int| 0 <= k < i ==> a@[k]@ == b@[k]@,
        decreases a@.len() - i,
    {
        if !chars_eq(a[i].as_slice(), b[i].as_slice()) {
            assert(vv(a@)[i as int] != vv(b@)[i as int]);
            return false;
        }
        i = i + 1;
    }
    assert(vv(a@) =~= vv(b@));
    true
}

fn insert_sorted_exec(kids: &mut Vec<Vec<char>>, x: Vec<char>)
    ensures
        vv(final(kids)@) == insert_sorted(vv(old(kids)@), x@),
{
    let ghost s = vv(kids@);
    let mut p: usize = 0;
    assert(s.skip(0) =~= s && s.take(0) =~= Seq::<Seq<char>>::empty());
    while p < kids.len()
        invariant
            s == vv(kids@),
            s == vv(old(kids)@),
            p <= kids@.len(),
            insert_sorted(s, x@) == s.take(p as int) + insert_sorted(s.skip(p as int), x@),
        decreases kids@.len() - p,
    {
        let ghost t = s.skip(p as int);
        assert(t[0] == kids@[p as int]@);
        if chars_eq(x.as_slice(), kids[p].as_slice()) {
            assert(insert_sorted(t, x@) == t);
            assert(s.take(p as int) + t =~= s);
            return;
        }
        if chars_lt(x.as_slice(), kids[p].as_slice()) {
            assert(insert_sorted(t, x@) == seq![x@] + t);
            let ghost xv = x@;
            kids.insert(p, x);
            assert(vv(kids@) =~= s.take(p as int) + (seq![xv] + t));
            return;
        }
        assert(t.drop_first() =~= s.skip(p + 1));
        assert(s.take(p as int) + (seq![t[0]] + insert_sorted(t.drop_first(), x@)) =~= s.take(p + 1)
            + insert_sorted(s.skip(p + 1), x@));
        p = p + 1;
    }
    let ghost before = kids@;
    kids.push(x);
    assert(s.skip(p as int).len() == 0);
    assert(vv(kids@) =~= vv(before).push(kids@.last()@));
    assert(s.take(p as int) =~= s);
}

fn children_exec(all: &Vec<Vec<Vec<char>>>, pre: &Vec<Vec<char>>) -> (r: Vec<Vec<char>>)
    ensures
        vv(r@) == children(all_view(all@), vv(pre@)),
{
    let ghost a = all_view(all@);
    let ghost p = vv(pre@);
    let mut kids: Vec<Vec<char>> = Vec::new();
    let mut i: usize = 0;
    assert(a.take(0) =~= Seq::<Seq<Seq<char>>>::empty());
    assert(vv(kids@) =~= sorted_distinct(next_segments(a.take(0), p)));
    while i < all.len()
        invariant
            a == all_view(all@),
            p == vv(pre@),
            i <= all@.len(),
            vv(kids@) == sorted_distinct(next_segments(a.take(i as int), p)),
        decreases all@.len() - i,
    {
        let ghost t = a.take(i + 1);
        assert(t.drop_last() =~= a.take(i as int));
        assert(t.last() == vv(all@[i as int]@));
        if extends_exec(pre, &all[i]) {
            let piece = copy_chars(all[i][pre.len()].as_slice());
            assert(vv(all@[i as int]@)[pre@.len() as int] == piece@);
            assert(next_segments(t, p) =~= next_segments(a.take(i as int), p).push(piece@));
            assert(next_segments(t, p).drop_last() =~= next_segments(a.take(i as int), p));
            insert_sorted_exec(&mut kids, piece);
        } else {
            assert(next_segments(t, p) == next_segments(a.take(i as int), p));
        }
        i = i + 1;
    }
    assert(a.take(all@.len() as int) =~= a);
    kids
}

fn file_at_exec(all: &Vec<Vec<Vec<char>>>, pre: &Vec<Vec<char>>) -> (r: Option<usize>)
    ensures
        r == file_at(all_view(all@), vv(pre@)),
{
    let ghost a = all_view(all@);
    let mut found: Option<usize> = None;
    let mut i: usize = 0;
    assert(a.take(0) =~= Seq::<Seq<Seq<char>>>::empty());
    while i < all.len()
        invariant
            a == all_view(all@),
            i <= all@.len(),
            found == file_at(a.take(i as int), vv(pre@)),
        decreases all@.len() - i,
    {
        let ghost t = a.take(i + 1);
        assert(t.drop_last() =~= a.take(i as int));
        assert(t.last() == vv(all@[i as int]@));
        if words_eq(&all[i], pre) {
            found = Some(i);
        }
        i = i + 1;
    }
    assert(a.take(all@.len() as int) =~= a);
    found
}

fn contains_dir(collapsed: &Vec<Vec<char>>, path: &Vec<char>) -> (r: bool)
    ensures
        r == vv(collapsed@).contains(path@),
{
    let mut i: usize = 0;
    while i < collapsed.len()
        invariant
            i <= collapsed@.len(),
            forall|k: int| 0 <= k < i ==> vv(collapsed@)[k] != path@,
        decreases collapsed@.len() - i,
    {
        if chars_eq(collapsed[i].as_slice(), path.as_slice()) {
            assert(vv(collapsed@)[i as int] == path@);
            return true;
        }
        i = i + 1;
    }
    false
}

fn joined(a: &Vec<char>, c: &Vec<char>) -> (r: Vec<char>)
    ensures
        r@ == a@ + seq!['/'] + c@,
{
    let mut r = copy_chars(a.as_slice());
    r.push('/');
    let mut i: usize = 0;
    let ghost head = r@;
    while i < c.len()
        invariant
            i <= c@.len(),
            r@ == head + c@.take(i as int),
        decreases c@.len() - i,
    {
        r.push(c[i]);
        assert(c@.take(i + 1) =~= c@.take(i as int).push(c@[i as int]));
        i = i + 1;
    }
    assert(c@.take(c@.len() as int) =~= c@);
    r
}

fn push_row(rows: &mut Vec<TreeRow>, path: &Vec<char>, label: &Vec<char>, depth: usize, file_index: Option<usize>, expanded: bool)
    ensures
        rows_view(final(rows)@) == rows_view(old(rows)@).push((path@, label@, depth as nat, file_index, expanded)),
{
    let ghost before = rows@;
    rows.push(TreeRow {
        path: string_from_chars(path.as_slice()),
        label: string_from_chars(label.as_slice()),
        depth,
        file_index,
        expanded,
    });
    assert(rows_view(rows@) =~= rows_view(before).push(rows@.last().view()));
}

fn flatten_node(
    all: &Vec<Vec<Vec<char>>>,
    collapsed: &Vec<Vec<char>>,
    node: Vec<Vec<char>>,
    path: Vec<char>,
    label: Vec<char>,
    depth: usize,
    rows: &mut Vec<TreeRow>,
)
    requires
        vv(node@).len() <= max_len(all_view(all@)),
        depth < node@.len(),
    ensures
        rows_view(final(rows)@) == rows_view(old(rows)@) + row_chain(
            all_view(all@),
            vv(collapsed@),
            vv(node@),
            path@,
            label@,
            depth as nat,
        ),
    decreases max_len(all_view(all@)) - node@.len(), 1int, 0int,
{
    let ghost a = all_view(all@);
    let ghost cs = vv(collapsed@);
    let kids = children_exec(all, &node);
    let f = file_at_exec(all, &node);
    if kids.len() == 0 || contains_dir(collapsed, &path) {
        push_row(rows, &path, &label, depth, f, false);
        return;
    }
    if f.is_none() && kids.len() == 1 {
        proof {
            assert(vv(kids@)[0] == kids@[0]@);
            assert(children(a, vv(node@))[0] == kids@[0]@);
            assert(children(a, vv(node@)).contains(kids@[0]@));
            lemma_child_deeper(a, vv(node@), kids@[0]@);
        }
        let next_path = joined(&path, &kids[0]);
        let next_label = joined(&label, &kids[0]);
        let mut next = copy_words(node.as_slice());
        let ghost before = next@;
        next.push(copy_chars(kids[0].as_slice()));
        assert(vv(next@) =~= vv(before).push(kids@[0]@));
        flatten_node(all, collapsed, next, next_path, next_label, depth, rows);
        return;
    }
    push_row(rows, &path, &label, depth, f, true);
    let n = node.len();
    assert(depth + 1 <= n);
    flatten_tree(all, collapsed, &node, &path, depth + 1, rows);
    assert(rows_view(rows@) =~= rows_view(old(rows)@) + row_chain(a, cs, vv(node@), path@, label@, depth as nat));
}

/// Appends to `rows` the rows for the children of the tree node `pre` shown
/// at `path`, `depth` levels deep.
pub fn flatten_tree(
    all: &Vec<Vec<Vec<char>>>,
    collapsed: &Vec<Vec<char>>,
    pre: &Vec<Vec<char>>,
    path: &Vec<char>,
    depth: usize,
    rows: &mut Vec<TreeRow>,
)
    requires
        vv(pre@).len() <= max_len(all_view(all@)),
        depth <= pre@.len(),
    ensures
        rows_view(final(rows)@) == rows_view(old(rows)@) + rows_under(
            all_view(all@),
            vv(collapsed@),
            vv(pre@),
            path@,
            depth as nat,
            0,
        ),
    decreases max_len(all_view(all@)) - pre@.len(), 0int, max_len(all_view(all@)) + 1,
{
    let ghost a = all_view(all@);
    let ghost cs = vv(collapsed@);
    let ghost p = vv(pre@);
    let kids = children_exec(all, pre);
    let mut k: usize = 0;
    let ghost start = rows_view(rows@);
    assert(start + rows_under(a, cs, p, path@, depth as nat, 0) =~= rows_view(rows@) + rows_under(
        a,
        cs,
        p,
        path@,
        depth as nat,
        0,
    ));
    while k < kids.len()
        invariant
            a == all_view(all@),
            cs == vv(collapsed@),
            p == vv(pre@),
            vv(kids@) == children(a, p),
            k <= kids@.len(),
            p.len() <= max_len(a),
            depth <= pre@.len(),
            start + rows_under(a, cs, p, path@, depth as nat, 0) == rows_view(rows@) + rows_under(
                a,
                cs,
                p,
                path@,
                depth as nat,
                k as nat,
            ),
        decreases kids@.len() - k,
    {
        let c = &kids[k];
        proof {
            assert(children(a, p)[k as int] == c@);
            assert(children(a, p).contains(c@));
            lemma_child_deeper(a, p, c@);
        }
        let child_path = if path.len() == 0 { copy_chars(c.as_slice()) } else { joined(path, c) };
        let mut node = copy_words(pre.as_slice());
        let ghost before = node@;
        node.push(copy_chars(c.as_slice()));
        assert(vv(node@) =~= p.push(c@));
        let ghost mid = rows_view(rows@);
        flatten_node(all, collapsed, node, child_path, copy_chars(c.as_slice()), depth, rows);
        proof {
            let tail = rows_under(a, cs, p, path@, depth as nat, (k + 1) as nat);
            let chain = row_chain(a, cs, p.push(c@), child_path@, c@, depth as nat);
            assert(rows_under(a, cs, p, path@, depth as nat, k as nat) == chain + tail);
            assert(mid + (chain + tail) =~= (mid + chain) + tail);
        }
        k = k + 1;
    }
    assert(rows_under(a, cs, p, path@, depth as nat, k as nat) =~= Seq::<RowView>::empty());
    assert(rows_view(rows@) + Seq::<RowView>::empty() =~= rows_view(rows@));
}

/// Rows of the changed-file tree: files are grouped by directory, siblings
/// are in name order, directories listed in `collapsed_dirs` hide their
/// contents, and single-child directory chains are merged into one row.
pub fn file_tree_rows(files: &[FileItem], collapsed_dirs: &[String]) -> (r: Vec<TreeRow>)
    ensures
        rows_view(r@) == rows_under(
            file_segments(files@),
            collapsed_dirs@.map_values(|d: String| d@),
            Seq::empty(),
            Seq::empty(),
            0,
            0,
        ),
{
    let mut all: Vec<Vec<Vec<char>>> = Vec::new();
    let mut i: usize = 0;
    while i < files.len()
        invariant
            i <= files@.len(),
            all_view(all@) == file_segments(files@).take(i as int),
        decreases files@.len() - i,
    {
        let ghost before = all@;
        all.push(split_chars(chars_of(files[i].path.as_str()).as_slice(), '/'));
        assert(all_view(all@) =~= all_view(before).push(vv(all@.last()@)));
        assert(file_segments(files@).take(i + 1) =~= file_segments(files@).take(i as int).push(
            split_on(files@[i as int].path@, '/'),
        ));
        i = i + 1;
    }
    assert(file_segments(files@).take(files@.len() as int) =~= file_segments(files@));
    let mut collapsed: Vec<Vec<char>> = Vec::new();
    let mut j: usize = 0;
    while j < collapsed_dirs.len()
        invariant
            j <= collapsed_dirs@.len(),
            vv(collapsed@) == collapsed_dirs@.map_values(|d: String| d@).take(j as int),
        decreases collapsed_dirs@.len() - j,
    {
        let ghost before = collapsed@;
        collapsed.push(chars_of(collapsed_dirs[j].as_str()));
        assert(vv(collapsed@) =~= vv(before).push(collapsed_dirs@[j as int]@));
        assert(collapsed_dirs@.map_values(|d: String| d@).take(j + 1) =~= collapsed_dirs@.map_values(
            |d: String| d@,
        ).take(j as int).push(collapsed_dirs@[j as int]@));
        j = j + 1;
    }
    assert(collapsed_dirs@.map_values(|d: String| d@).take(collapsed_dirs@.len() as int)
        =~= collapsed_dirs@.map_values(|d: String| d@));
    let root: Vec<Vec<char>> = Vec::new();
    let path: Vec<char> = Vec::new();
    let mut rows: Vec<TreeRow> = Vec::new();
    assert(vv(root@) =~= Seq::<Seq<char>>::empty());
    assert(rows_view(rows@) =~= Seq::<RowView>::empty());
    flatten_tree(&all, &collapsed, &root, &path, 0, &mut rows);
    rows
}


/// Display order of files: by path, then by position for equal paths.
pub open spec fn path_before(files: Seq<FileItem>, a: int, b: int) -> bool {
    seq_lt(files[a].path@, files[b].path@) || (files[a].path@ == files[b].path@ && a < b)
}

/// Files that come after `from` in display order (all files when `from` is
/// `None`).
pub open spec fn after(files: Seq<FileItem>, from: Option<int>, j: int) -> bool {
    0 <= j < files.len() && match from {
        Some(c) => path_before(files, c, j),
        None => true,
    }
}

/// Files that come before `from` in display order (all files when `from` is
/// `None`).
pub open spec fn before(files: Seq<FileItem>, from: Option<int>, j: int) -> bool {
    0 <= j < files.len() && match from {
        Some(c) => path_before(files, j, c),
        None => true,
    }
}

/// The file that is displayed right after `from`.
pub open spec fn is_next_file(files: Seq<FileItem>, from: Option<int>, j: int) -> bool {
    after(files, from, j) && forall|k: int| after(files, from, k) ==> !path_before(files, k, j)
}

/// The file that is displayed right before `from`.
pub open spec fn is_previous_file(files: Seq<FileItem>, from: Option<int>, j: int) -> bool {
    before(files, from, j) && forall|k: int| before(files, from, k) ==> !path_before(files, j, k)
}

/// The current file, when it is one of `files`.
pub open spec fn current_position(files: Seq<FileItem>, current_file: Option<usize>) -> Option<int> {
    match current_file {
        Some(c) => if c < files.len() { Some(c as int) } else { None },
        None => None,
    }
}

/// Going to the next file and then to the previous one returns to the
/// starting file: whenever `j` is the file after `i`, `i` is the one and only
/// file before `j` (and the same the other way round).
pub proof fn law_next_then_previous_returns(files: Seq<FileItem>, i: int, j: int)
    requires
        0 <= i < files.len(),
        0 <= j < files.len(),
    ensures
        is_next_file(files, Some(i), j) ==> forall|x: int| #[trigger] is_previous_file(files, Some(j), x) <==> x == i,
        is_previous_file(files, Some(i), j) ==> forall|x: int| #[trigger] is_next_file(files, Some(j), x) <==> x == i,
{
    if is_next_file(files, Some(i), j) {
        assert forall|k: int| #[trigger] before(files, Some(j), k) implies !path_before(files, i, k) by {
            if path_before(files, i, k) {
                assert(after(files, Some(i), k));
            }
        }
        assert(is_previous_file(files, Some(j), i));
        assert forall|x: int| #[trigger] is_previous_file(files, Some(j), x) implies x == i by {
            lemma_path_order(files, x, i, x);
            assert(before(files, Some(j), i));
        }
    }
    if is_previous_file(files, Some(i), j) {
        assert forall|k: int| #[trigger] after(files, Some(j), k) implies !path_before(files, k, i) by {
            if path_before(files, k, i) {
                assert(before(files, Some(i), k));
            }
        }
        assert(is_next_file(files, Some(j), i));
        assert forall|x: int| #[trigger] is_next_file(files, Some(j), x) implies x == i by {
            lemma_path_order(files, x, i, x);
            assert(after(files, Some(j), i));
        }
    }
}

proof fn lemma_path_order(files: Seq<FileItem>, a: int, b: int, c: int)
    ensures
        !path_before(files, a, a),
        a != b ==> (path_before(files, a, b) || path_before(files, b, a)),
        path_before(files, a, b) && path_before(files, b, c) ==> path_before(files, a, c),
{
    let pa = files[a].path@;
    let pb = files[b].path@;
    let pc = files[c].path@;
    lemma_seq_lt_irreflexive(pa);
    if pa != pb {
        lemma_seq_lt_total(pa, pb);
    }
    if seq_lt(pa, pb) && seq_lt(pb, pc) {
        lemma_seq_lt_transitive(pa, pb, pc);
    }
    if seq_lt(pa, pb) && seq_lt(pb, pa) {
        lemma_seq_lt_transitive(pa, pb, pa);
    }
}

fn file_before(files: &[FileItem], a: usize, b: usize) -> (r: bool)
    requires
        a < files@.len(),
        b < files@.len(),
    ensures
        r == path_before(files@, a as int, b as int),
{
    let pa = chars_of(files[a].path.as_str());
    let pb = chars_of(files[b].path.as_str());
    if chars_lt(pa.as_slice(), pb.as_slice()) {
        return true;
    }
    chars_eq(pa.as_slice(), pb.as_slice()) && a < b
}

/// The neighbour of `current_file` in display path order: the next file when
/// `forward`, otherwise the previous one; the first or last file when there is
/// no valid current file; `None` at either end.
pub fn adjacent_file_index(files: &[FileItem], current_file: Option<usize>, forward: bool) -> (r: Option<usize>)
    ensures
        forward ==> match r {
            Some(j) => is_next_file(files@, current_position(files@, current_file), j as int),
            None => forall|k: int| !#[trigger] after(files@, current_position(files@, current_file), k),
        },
        !forward ==> match r {
            Some(j) => is_previous_file(files@, current_position(files@, current_file), j as int),
            None => forall|k: int| !#[trigger] before(files@, current_position(files@, current_file), k),
        },
{
    let ghost fs = files@;
    let from: Option<usize> = match current_file {
        Some(c) => if c < files.len() { Some(c) } else { None },
        None => None,
    };
    let ghost gfrom: Option<int> = match from {
        Some(c) => Some(c as int),
        None => None,
    };
    let mut best: Option<usize> = None;
    let mut i: usize = 0;
    while i < files.len()
        invariant
            fs == files@,
            i <= fs.len(),
            gfrom == match from { Some(c) => Some(c as int), None => None::<int> },
            from matches Some(c) ==> c < fs.len(),
            forward ==> match best {
                Some(j) => j < i && after(fs, gfrom, j as int) && forall|k: int|
                    0 <= k < i && after(fs, gfrom, k) ==> !path_before(fs, k, j as int),
                None => forall|k: int| 0 <= k < i ==> !after(fs, gfrom, k),
            },
            !forward ==> match best {
                Some(j) => j < i && before(fs, gfrom, j as int) && forall|k: int|
                    0 <= k < i && before(fs, gfrom, k) ==> !path_before(fs, j as int, k),
                None => forall|k: int| 0 <= k < i ==> !before(fs, gfrom, k),
            },
        decreases fs.len() - i,
    {
        let candidate = match from {
            Some(c) => if forward { file_before(files, c, i) } else { file_before(files, i, c) },
            None => true,
        };
        if candidate {
            let replace = match best {
                None => true,
                Some(j) => if forward { file_before(files, i, j) } else { file_before(files, j, i) },
            };
            proof {
                if let Some(j) = best {
                    assert forall|k: int| 0 <= k < i + 1 && #[trigger] after(fs, gfrom, k) && forward && replace implies !path_before(fs, k, i as int) by {
                        lemma_path_order(fs, k, i as int, j as int);
                        lemma_path_order(fs, k, j as int, i as int);
                    }
                    assert forall|k: int| 0 <= k < i + 1 && #[trigger] after(fs, gfrom, k) && forward && !replace implies !path_before(fs, k, j as int) by {
                        lemma_path_order(fs, k, j as int, i as int);
                        lemma_path_order(fs, i as int, j as int, i as int);
                    }
                    assert forall|k: int| 0 <= k < i + 1 && #[trigger] before(fs, gfrom, k) && !forward && replace implies !path_before(fs, i as int, k) by {
                        lemma_path_order(fs, j as int, i as int, k);
                        lemma_path_order(fs, i as int, k, j as int);
                    }
                    assert forall|k: int| 0 <= k < i + 1 && #[trigger] before(fs, gfrom, k) && !forward && !replace implies !path_before(fs, j as int, k) by {
                        lemma_path_order(fs, j as int, i as int, k);
                        lemma_path_order(fs, i as int, j as int, i as int);
                    }
                } else {
                    lemma_path_order(fs, i as int, i as int, i as int);
                }
            }
            if replace {
                best = Some(i);
            }
        }
        i = i + 1;
    }
    best
}

/// The characters of each string.
pub open spec fn string_views(v: Seq<String>) -> Seq<Seq<char>> {
    v.map_values(|s: String| s@)
}

/// Whether `dir` is a directory that contains `path`.
pub open spec fn contains_path(dir: Seq<char>, path: Seq<char>) -> bool {
    dir.push('/').is_prefix_of(path)
}

fn dir_contains(dir: &[char], path: &[char]) -> (r: bool)
    ensures
        r == contains_path(dir@, path@),
{
    if dir.len() >= path.len() {
        return false;
    }
    let mut k: usize = 0;
    while k < dir.len()
        invariant
            k <= dir@.len(),
            dir@.len() < path@.len(),
            forall|j: int| 0 <= j < k ==> dir@[j] == path@[j],
        decreases dir@.len() - k,
    {
        if dir[k] != path[k] {
            assert(dir@.push('/')[k as int] != path@[k as int]);
            return false;
        }
        k = k + 1;
    }
    if path[dir.len()] != '/' {
        assert(dir@.push('/')[dir@.len() as int] != path@[dir@.len() as int]);
        return false;
    }
    assert forall|j: int| 0 <= j < dir@.push('/').len() implies dir@.push('/')[j] == path@[j] by {
        if j < dir@.len() {
            assert(dir@.push('/')[j] == dir@[j]);
        }
    }
    true
}

/// Collapsed directories that still hide `path` are opened: every collapsed
/// directory containing it is dropped, the others keep their order.
pub fn without_ancestors(collapsed: &[String], path: &str) -> (r: Vec<String>)
    ensures
        string_views(r@) == string_views(collapsed@).filter(|d: Seq<char>| !contains_path(d, path@)),
{
    let ghost all = string_views(collapsed@);
    let p = chars_of(path);
    let mut out: Vec<String> = Vec::new();
    let mut i: usize = 0;
    assert(all.take(0) =~= Seq::<Seq<char>>::empty());
    while i < collapsed.len()
        invariant
            all == string_views(collapsed@),
            p@ == path@,
            i <= collapsed@.len(),
            string_views(out@) == all.take(i as int).filter(|d: Seq<char>| !contains_path(d, path@)),
        decreases collapsed@.len() - i,
    {
        proof {
            reveal_with_fuel(Seq::filter, 1);
            assert(all.take(i + 1).drop_last() =~= all.take(i as int));
        }
        let d = chars_of(collapsed[i].as_str());
        if !dir_contains(d.as_slice(), p.as_slice()) {
            let ghost before = out@;
            out.push(collapsed[i].clone());
            assert(string_views(out@) =~= string_views(before).push(all[i as int]));
        }
        i = i + 1;
    }
    assert(all.take(collapsed@.len() as int) =~= all);
    out
}

/// Enter on a directory row: a collapsed directory opens, an open one
/// collapses.
pub fn toggle_directory(collapsed: &mut Vec<String>, path: String)
    ensures
        string_views(old(collapsed)@).contains(path@) ==> string_views(final(collapsed)@) == string_views(
            old(collapsed)@,
        ).filter(|d: Seq<char>| d != path@),
        !string_views(old(collapsed)@).contains(path@) ==> string_views(final(collapsed)@) == string_views(
            old(collapsed)@,
        ).push(path@),
{
    let ghost all = string_views(collapsed@);
    let mut kept: Vec<String> = Vec::new();
    let mut found = false;
    let mut i: usize = 0;
    assert(all.take(0) =~= Seq::<Seq<char>>::empty());
    while i < collapsed.len()
        invariant
            all == string_views(collapsed@),
            i <= collapsed@.len(),
            string_views(kept@) == all.take(i as int).filter(|d: Seq<char>| d != path@),
            found == all.take(i as int).contains(path@),
        decreases collapsed@.len() - i,
    {
        proof {
            reveal_with_fuel(Seq::filter, 1);
            assert(all.take(i + 1).drop_last() =~= all.take(i as int));
            assert(all.take(i + 1) =~= all.take(i as int).push(all[i as int]));
        }
        if collapsed[i] == path {
            found = true;
            assert(all.take(i + 1)[i as int] == path@);
        } else {
            let ghost before = kept@;
            kept.push(collapsed[i].clone());
            assert(string_views(kept@) =~= string_views(before).push(all[i as int]));
            assert(all.take(i + 1).contains(path@) ==> all.take(i as int).contains(path@)) by {
                if all.take(i + 1).contains(path@) {
                    let j = choose|j: int| 0 <= j < all.take(i + 1).len() && #[trigger] all.take(i + 1)[j] == path@;
                    assert(j < i);
                    assert(all.take(i as int)[j] == path@);
                }
            }
        }
        i = i + 1;
    }
    assert(all.take(collapsed@.len() as int) =~= all);
    if found {
        *collapsed = kept;
    } else {
        let ghost before = collapsed@;
        collapsed.push(path);
        assert(string_views(collapsed@) =~= string_views(before).push(path@));
    }
}

/// Position of the tree row that shows file `file_index`.
pub fn row_of_file(rows: &[TreeRow], file_index: usize) -> (r: Option<usize>)
    ensures
        match r {
            Some(i) => i < rows@.len() && rows@[i as int].file_index == Some(file_index) && forall|j: int|
                0 <= j < i ==> (#[trigger] rows@[j]).file_index != Some(file_index),
            None => forall|j: int| 0 <= j < rows@.len() ==> (#[trigger] rows@[j]).file_index != Some(file_index),
        },
{
    let mut k: usize = 0;
    while k < rows.len()
        invariant
            k <= rows@.len(),
            forall|j: int| 0 <= j < k ==> (#[trigger] rows@[j]).file_index != Some(file_index),
        decreases rows@.len() - k,
    {
        if rows[k].file_index == Some(file_index) {
            return Some(k);
        }
        k = k + 1;
    }
    None
}

} // verus!
