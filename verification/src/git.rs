//! Changed files of a worktree and branch status, parsed from Git's output.
use vstd::prelude::*;
use crate::text::{chars_of, lossy_string, parse_u32, parse_u32_chars, split_whitespace_chars, split_ws, trim, trim_chars, string_from_chars, utf8_lossy};

verus! {

/// One changed path and its two-letter porcelain status.
pub struct FileItem {
    pub path: String,
    pub status: String,
}

impl FileItem {
    /// A copy of this item.
    pub fn duplicate(&self) -> (r: FileItem)
        ensures
            r.path@ == self.path@,
            r.status@ == self.status@,
    {
        FileItem { path: self.path.clone(), status: self.status.clone() }
    }
}


/// Name of the directory that holds the application's own metadata.
pub open spec fn metadata_name() -> Seq<char> {
    seq!['.', 'l', 'u', 'm', 'i', 'n', 'a', 't', 't', 'i']
}

/// Whether `path` is the metadata directory or lies inside it.
pub open spec fn is_metadata_path(path: Seq<char>) -> bool {
    path == metadata_name() || metadata_name().push('/').is_prefix_of(path)
}

/// Whether `path` is the application's own metadata, which is never shown as a
/// reviewable change.
pub fn is_luminatti_metadata(path: &str) -> (r: bool)
    ensures
        r == is_metadata_path(path@),
{
    let p = chars_of(path);
    let name = vec!['.', 'l', 'u', 'm', 'i', 'n', 'a', 't', 't', 'i'];
    assert(name@ =~= metadata_name());
    if p.len() < name.len() {
        return false;
    }
    let mut i: usize = 0;
    while i < name.len()
        invariant
            name@ == metadata_name(),
            p@ == path@,
            name@.len() <= p@.len(),
            i <= name@.len(),
            forall|k: int| 0 <= k < i ==> p@[k] == name@[k],
        decreases name@.len() - i,
    {
        if p[i] != name[i] {
            assert(metadata_name().push('/')[i as int] == name@[i as int]);
            assert(p@ != metadata_name());
            return false;
        }
        i = i + 1;
    }
    if p.len() == name.len() {
        assert(p@ =~= metadata_name());
        return true;
    }
    let slash = p[name.len()] == '/';
    if slash {
        assert(metadata_name().push('/') =~= p@.take(11));
    } else {
        assert(!(metadata_name().push('/').is_prefix_of(path@))) by {
            assert(metadata_name().push('/')[10] == '/');
        }
    }
    slash
}

/// `bytes` split at every NUL byte, as `slice::split` yields the pieces.
pub open spec fn nul_fields(b: Seq<u8>) -> Seq<Seq<u8>>
    decreases b.len(),
{
    if b.len() == 0 {
        seq![Seq::<u8>::empty()]
    } else if b.last() == 0 {
        nul_fields(b.drop_last()).push(Seq::<u8>::empty())
    } else {
        let f = nul_fields(b.drop_last());
        f.update(f.len() - 1, f.last().push(b.last()))
    }
}

proof fn lemma_nul_fields_nonempty(b: Seq<u8>)
    ensures
        nul_fields(b).len() > 0,
    decreases b.len(),
{
    if b.len() > 0 {
        lemma_nul_fields_nonempty(b.drop_last());
    }
}

fn split_nul(b: &[u8]) -> (r: Vec<Vec<u8>>)
    ensures
        r@.len() == nul_fields(b@).len(),
        forall|i: int| 0 <= i < r@.len() ==> (#[trigger] r@[i])@ == nul_fields(b@)[i],
{
    let mut fields: Vec<Vec<u8>> = Vec::new();
    let mut current: Vec<u8> = Vec::new();
    let mut i: usize = 0;
    assert(b@.take(0) =~= Seq::<u8>::empty());
    while i < b.len()
        invariant
            i <= b@.len(),
            fields@.len() + 1 == nul_fields(b@.take(i as int)).len(),
            forall|k: int| 0 <= k < fields@.len() ==> (#[trigger] fields@[k])@ == nul_fields(b@.take(i as int))[k],
            current@ == nul_fields(b@.take(i as int)).last(),
        decreases b@.len() - i,
    {
        proof {
            assert(b@.take(i + 1).drop_last() =~= b@.take(i as int));
            lemma_nul_fields_nonempty(b@.take(i as int));
        }
        if b[i] == 0 {
            let done = current;
            fields.push(done);
            current = Vec::new();
        } else {
            current.push(b[i]);
        }
        i = i + 1;
    }
    assert(b@.take(b@.len() as int) =~= b@);
    fields.push(current);
    fields
}

/// `(status, path)` of the records of `git status --porcelain=v1 -z`, from
/// field `index` on. Fields shorter than four bytes are skipped; a rename or
/// copy record (status starting with `R` or `C`) is followed by its source
/// path, which is not a record of its own.
pub open spec fn porcelain_entries(recs: Seq<Seq<u8>>, index: nat) -> Seq<(Seq<char>, Seq<char>)>
    decreases recs.len() - index,
{
    if index >= recs.len() {
        Seq::empty()
    } else if recs[index as int].len() < 4 {
        porcelain_entries(recs, index + 1)
    } else {
        let e = recs[index as int];
        let step: nat = if e[0] == 82u8 || e[0] == 67u8 { 2 } else { 1 };
        let next: nat = if index + step > recs.len() { recs.len() } else { index + step };
        seq![(utf8_lossy(e.take(2)), utf8_lossy(e.skip(3)))] + porcelain_entries(recs, next)
    }
}

/// The entries that are shown for review: metadata paths are dropped, and a
/// path is kept only at its first occurrence.
pub open spec fn reviewable(entries: Seq<(Seq<char>, Seq<char>)>) -> Seq<(Seq<char>, Seq<char>)>
    decreases entries.len(),
{
    if entries.len() == 0 {
        Seq::empty()
    } else {
        let prev = reviewable(entries.drop_last());
        let e = entries.last();
        if is_metadata_path(e.1) || exists|i: int| 0 <= i < prev.len() && (#[trigger] prev[i]).1 == e.1 {
            prev
        } else {
            prev.push(e)
        }
    }
}

/// The changed files never include the application's metadata, list each
/// path once, and every listed entry comes from the porcelain records.
pub proof fn law_reviewable_entries(entries: Seq<(Seq<char>, Seq<char>)>)
    ensures
        forall|i: int| 0 <= i < reviewable(entries).len() ==> !is_metadata_path(#[trigger] reviewable(entries)[i].1),
        forall|i: int, j: int|
            0 <= i < j < reviewable(entries).len() ==> #[trigger] reviewable(entries)[i].1 != #[trigger] reviewable(
                entries,
            )[j].1,
        forall|i: int| 0 <= i < reviewable(entries).len() ==> entries.contains(#[trigger] reviewable(entries)[i]),
    decreases entries.len(),
{
    if entries.len() > 0 {
        law_reviewable_entries(entries.drop_last());
        let prev = reviewable(entries.drop_last());
        assert forall|i: int| 0 <= i < prev.len() implies entries.contains(#[trigger] prev[i]) by {
            assert(entries.drop_last().contains(prev[i]));
            let k = choose|k: int| 0 <= k < entries.drop_last().len() && entries.drop_last()[k] == prev[i];
            assert(entries[k] == prev[i]);
        }
        assert(entries[entries.len() - 1] == entries.last());
    }
}

proof fn lemma_reviewable_grows(entries: Seq<(Seq<char>, Seq<char>)>)
    requires
        entries.len() > 0,
    ensures
        forall|x: (Seq<char>, Seq<char>)| reviewable(entries.drop_last()).contains(x) ==> #[trigger] reviewable(entries).contains(x),
{
    let prev = reviewable(entries.drop_last());
    let r = reviewable(entries);
    assert forall|x: (Seq<char>, Seq<char>)| prev.contains(x) implies #[trigger] r.contains(x) by {
        let i = choose|i: int| 0 <= i < prev.len() && prev[i] == x;
        if r != prev {
            assert(r == prev.push(entries.last()));
            assert(r[i] == x);
        }
    }
}

proof fn lemma_last_kept(entries: Seq<(Seq<char>, Seq<char>)>)
    requires
        entries.len() > 0,
        !is_metadata_path(entries.last().1),
        forall|j: int| 0 <= j < entries.len() - 1 ==> (#[trigger] entries[j]).1 != entries.last().1,
    ensures
        reviewable(entries).contains(entries.last()),
{
    let d = entries.drop_last();
    law_reviewable_entries(d);
    let prev = reviewable(d);
    let e = entries.last();
    if exists|i: int| 0 <= i < prev.len() && (#[trigger] prev[i]).1 == e.1 {
        let i = choose|i: int| 0 <= i < prev.len() && (#[trigger] prev[i]).1 == e.1;
        assert(d.contains(prev[i]));
        let j = choose|j: int| 0 <= j < d.len() && d[j] == prev[i];
        assert(entries[j] == d[j]);
    }
    assert(reviewable(entries) == prev.push(e));
    assert(reviewable(entries)[prev.len() as int] == e);
}

proof fn lemma_first_records_kept(entries: Seq<(Seq<char>, Seq<char>)>, k: int)
    requires
        0 <= k < entries.len(),
        !is_metadata_path(entries[k].1),
        forall|j: int| 0 <= j < k ==> (#[trigger] entries[j]).1 != entries[k].1,
    ensures
        reviewable(entries).contains(entries[k]),
    decreases entries.len(),
{
    if k == entries.len() - 1 {
        lemma_last_kept(entries);
    } else {
        let d = entries.drop_last();
        assert(d[k] == entries[k]);
        assert forall|j: int| 0 <= j < k implies (#[trigger] d[j]).1 != d[k].1 by {
            assert(d[j] == entries[j]);
        }
        lemma_first_records_kept(d, k);
        lemma_reviewable_grows(entries);
    }
}

proof fn lemma_first_with_path(entries: Seq<(Seq<char>, Seq<char>)>, k: int) -> (f: int)
    requires
        0 <= k < entries.len(),
    ensures
        0 <= f <= k,
        entries[f].1 == entries[k].1,
        forall|j: int| 0 <= j < f ==> (#[trigger] entries[j]).1 != entries[f].1,
    decreases k,
{
    if exists|j: int| 0 <= j < k && (#[trigger] entries[j]).1 == entries[k].1 {
        let j = choose|j: int| 0 <= j < k && (#[trigger] entries[j]).1 == entries[k].1;
        lemma_first_with_path(entries, j)
    } else {
        k
    }
}

/// Every changed file is listed, whatever its status, unless it is metadata:
/// the first record of each path is listed as it is, and every non-metadata
/// path has a listed entry.
pub proof fn law_reviewable_lists_every_file(entries: Seq<(Seq<char>, Seq<char>)>)
    ensures
        forall|k: int|
            0 <= k < entries.len() && !is_metadata_path(#[trigger] entries[k].1) && (forall|j: int|
                0 <= j < k ==> entries[j].1 != entries[k].1) ==> reviewable(entries).contains(entries[k]),
        forall|k: int|
            0 <= k < entries.len() && !is_metadata_path(#[trigger] entries[k].1) ==> exists|i: int|
                0 <= i < reviewable(entries).len() && reviewable(entries)[i].1 == entries[k].1,
{
    assert forall|k: int|
        0 <= k < entries.len() && !is_metadata_path(#[trigger] entries[k].1) && (forall|j: int|
            0 <= j < k ==> entries[j].1 != entries[k].1) implies reviewable(entries).contains(entries[k]) by {
        lemma_first_records_kept(entries, k);
    }
    assert forall|k: int|
        0 <= k < entries.len() && !is_metadata_path(#[trigger] entries[k].1) implies exists|i: int|
            0 <= i < reviewable(entries).len() && reviewable(entries)[i].1 == entries[k].1 by {
        let f = lemma_first_with_path(entries, k);
        lemma_first_records_kept(entries, f);
        let i = choose|i: int| 0 <= i < reviewable(entries).len() && reviewable(entries)[i] == entries[f];
        assert(reviewable(entries)[i].1 == entries[k].1);
    }
}

/// `(status, path)` of each item.
pub open spec fn items_view(v: Seq<FileItem>) -> Seq<(Seq<char>, Seq<char>)> {
    v.map_values(|f: FileItem| (f.status@, f.path@))
}

fn byte_range(b: &[u8], start: usize, end: usize) -> (r: Vec<u8>)
    requires
        start <= end <= b@.len(),
    ensures
        r@ == b@.subrange(start as int, end as int),
{
    let mut r: Vec<u8> = Vec::new();
    let mut k = start;
    while k < end
        invariant
            start <= k <= end,
            end <= b@.len(),
            r@ == b@.subrange(start as int, k as int),
        decreases end - k,
    {
        r.push(b[k]);
        assert(b@.subrange(start as int, k + 1) =~= b@.subrange(start as int, k as int).push(b@[k as int]));
        k = k + 1;
    }
    r
}

fn has_path(files: &Vec<FileItem>, path: &String) -> (r: bool)
    ensures
        r == exists|i: int| 0 <= i < files@.len() && (#[trigger] items_view(files@)[i]).1 == path@,
{
    let mut i: usize = 0;
    while i < files.len()
        invariant
            i <= files@.len(),
            forall|k: int| 0 <= k < i ==> (#[trigger] items_view(files@)[k]).1 != path@,
        decreases files@.len() - i,
    {
        if files[i].path == *path {
            assert(items_view(files@)[i as int].1 == path@);
            return true;
        }
        i = i + 1;
    }
    false
}

/// Changed files from the output of `git status --porcelain=v1 -z
/// --untracked-files=all`.
pub fn changed_files(porcelain: &[u8]) -> (r: Vec<FileItem>)
    ensures
        items_view(r@) == reviewable(porcelain_entries(nul_fields(porcelain@), 0)),
{
    let records = split_nul(porcelain);
    let ghost recs = nul_fields(porcelain@);
    assert(records@.len() == recs.len());
    let mut files: Vec<FileItem> = Vec::new();
    let ghost mut seen: Seq<(Seq<char>, Seq<char>)> = Seq::empty();
    let mut index: usize = 0;
    assert(porcelain_entries(recs, 0) =~= seen + porcelain_entries(recs, 0));
    while index < records.len()
        invariant
            recs == nul_fields(porcelain@),
            records@.len() == recs.len(),
            forall|i: int| 0 <= i < records@.len() ==> (#[trigger] records@[i])@ == recs[i],
            porcelain_entries(recs, 0) == seen + porcelain_entries(recs, index as nat),
            items_view(files@) == reviewable(seen),
        decreases records@.len() - index,
    {
        let entry = &records[index];
        if entry.len() < 4 {
            index = index + 1;
            continue;
        }
        let status_bytes = byte_range(entry.as_slice(), 0, 2);
        let path_bytes = byte_range(entry.as_slice(), 3, entry.len());
        let status = lossy_string(status_bytes.as_slice());
        let path = lossy_string(path_bytes.as_slice());
        let ghost e = (status@, path@);
        proof {
            assert(status_bytes@ =~= recs[index as int].take(2));
            assert(path_bytes@ =~= recs[index as int].skip(3));
        }
        let step: usize = if entry[0] == 82u8 || entry[0] == 67u8 { 2 } else { 1 };
        let next: usize = if step > records.len() - index { records.len() } else { index + step };
        proof {
            let rest = porcelain_entries(recs, next as nat);
            assert(porcelain_entries(recs, index as nat) == seq![e] + rest);
            assert(seen + (seq![e] + rest) =~= seen.push(e) + rest);
            assert(seen.push(e).drop_last() =~= seen);
        }
        let metadata = is_luminatti_metadata(path.as_str());
        let known = has_path(&files, &path);
        if !metadata && !known {
            let ghost before = files@;
            files.push(FileItem { path, status });
            assert(items_view(files@) =~= items_view(before).push(e));
        }
        proof {
            seen = seen.push(e);
        }
        index = next;
    }
    assert(porcelain_entries(recs, index as nat) =~= Seq::<(Seq<char>, Seq<char>)>::empty());
    assert(seen + Seq::<(Seq<char>, Seq<char>)>::empty() =~= seen);
    files
}

/// Branch name and distance from the upstream branch.
pub struct RemoteStatus {
    pub branch: String,
    pub behind: Option<u32>,
    pub ahead: Option<u32>,
}

impl Default for RemoteStatus {
    fn default() -> (r: RemoteStatus)
        ensures
            r.branch@.len() == 0,
            r.behind is None,
            r.ahead is None,
    {
        RemoteStatus { branch: String::new(), behind: None, ahead: None }
    }
}

pub open spec fn detached_name() -> Seq<char> {
    seq!['d', 'e', 't', 'a', 'c', 'h', 'e', 'd']
}

/// Branch shown for the output of `git branch --show-current` (`None` when
/// the command failed): the trimmed name, or `detached` when there is none.
pub open spec fn branch_label(branch_output: Option<Seq<char>>) -> Seq<char> {
    let b = match branch_output {
        Some(o) => trim(o),
        None => detached_name(),
    };
    if b.len() == 0 { detached_name() } else { b }
}

/// Behind and ahead counts from the output of `git rev-list --left-right
/// --count @{upstream}...HEAD` (`None` when the command failed).
pub open spec fn upstream_counts(counts_output: Option<Seq<char>>) -> (Option<u32>, Option<u32>) {
    match counts_output {
        None => (None, None),
        Some(c) => {
            let parts = split_ws(c);
            (
                if parts.len() > 0 { parse_u32(parts[0]) } else { None },
                if parts.len() > 1 { parse_u32(parts[1]) } else { None },
            )
        },
    }
}

/// The characters of an optional string.
pub open spec fn opt_view(o: Option<&str>) -> Option<Seq<char>> {
    match o {
        Some(s) => Some(s@),
        None => None,
    }
}

fn detached() -> (r: String)
    ensures
        r@ == detached_name(),
{
    let v = vec!['d', 'e', 't', 'a', 'c', 'h', 'e', 'd'];
    assert(v@ =~= detached_name());
    string_from_chars(v.as_slice())
}

/// Branch status from the outputs of `git branch --show-current` and of the
/// upstream count query; `None` stands for a command that failed.
pub fn remote_status(branch_output: Option<&str>, counts_output: Option<&str>) -> (r: RemoteStatus)
    ensures
        r.branch@ == branch_label(opt_view(branch_output)),
        (r.behind, r.ahead) == upstream_counts(opt_view(counts_output)),
{
    let branch = match branch_output {
        Some(o) => {
            let t = trim_chars(chars_of(o).as_slice());
            string_from_chars(t.as_slice())
        },
        None => detached(),
    };
    let branch = if branch.as_str().is_empty() { detached() } else { branch };
    let (behind, ahead) = match counts_output {
        None => (None, None),
        Some(c) => {
            let parts = split_whitespace_chars(chars_of(c).as_slice());
            let behind = if parts.len() > 0 { parse_u32_chars(parts[0].as_slice()) } else { None };
            let ahead = if parts.len() > 1 { parse_u32_chars(parts[1].as_slice()) } else { None };
            (behind, ahead)
        },
    };
    RemoteStatus { branch, behind, ahead }
}

/// Current commit from the output of `git rev-parse HEAD` (`None` when it
/// failed, as before the first commit): the trimmed output, or empty.
pub fn head_commit(output: Option<&str>) -> (r: String)
    ensures
        r@ == match output {
            Some(o) => trim(o@),
            None => Seq::<char>::empty(),
        },
{
    match output {
        Some(o) => {
            let t = trim_chars(chars_of(o).as_slice());
            string_from_chars(t.as_slice())
        },
        None => String::new(),
    }
}

/// Contents of a file at `HEAD` from `git show HEAD:<path>`: its output when
/// the command succeeded, otherwise empty (the file is new).
pub fn git_show_head_file(succeeded: bool, stdout: &[u8]) -> (r: String)
    ensures
        r@ == if succeeded { utf8_lossy(stdout@) } else { Seq::<char>::empty() },
{
    if succeeded {
        lossy_string(stdout)
    } else {
        String::new()
    }
}


/// Arguments joined by single spaces.
pub open spec fn join_space(args: Seq<Seq<char>>) -> Seq<char>
    decreases args.len(),
{
    if args.len() == 0 {
        Seq::empty()
    } else if args.len() == 1 {
        args[0]
    } else {
        join_space(args.drop_last()) + seq![' '] + args.last()
    }
}

/// Message for a failed Git command: `git <args>: <trimmed stderr>`.
pub open spec fn git_failure(args: Seq<Seq<char>>, stderr: Seq<u8>) -> Seq<char> {
    seq!['g', 'i', 't', ' '] + join_space(args) + seq![':', ' '] + trim(utf8_lossy(stderr))
}

fn append_chars(out: &mut Vec<char>, s: &[char])
    ensures
        final(out)@ == old(out)@ + s@,
{
    let mut i: usize = 0;
    while i < s.len()
        invariant
            i <= s@.len(),
            out@ == old(out)@ + s@.take(i as int),
        decreases s@.len() - i,
    {
        out.push(s[i]);
        assert(s@.take(i + 1) =~= s@.take(i as int).push(s@[i as int]));
        i = i + 1;
    }
    assert(s@.take(s@.len() as int) =~= s@);
}

/// Text output of a Git command run with `args`: its standard output when it
/// succeeded, otherwise the failure message built from its standard error.
pub fn git_text(args: &[String], succeeded: bool, stdout: &[u8], stderr: &[u8]) -> (r: Result<String, String>)
    ensures
        succeeded ==> r == Ok::<String, String>(r->Ok_0) && r->Ok_0@ == utf8_lossy(stdout@),
        !succeeded ==> r == Err::<String, String>(r->Err_0) && r->Err_0@ == git_failure(
            args@.map_values(|a: String| a@),
            stderr@,
        ),
{
    if succeeded {
        return Ok(lossy_string(stdout));
    }
    let ghost views = args@.map_values(|a: String| a@);
    let mut msg: Vec<char> = vec!['g', 'i', 't', ' '];
    let ghost head = msg@;
    let mut i: usize = 0;
    while i < args.len()
        invariant
            views == args@.map_values(|a: String| a@),
            i <= args@.len(),
            msg@ == head + join_space(views.take(i as int)),
        decreases args@.len() - i,
    {
        let ghost before = msg@;
        assert(views.take(i + 1).drop_last() =~= views.take(i as int));
        if i > 0 {
            msg.push(' ');
        }
        append_chars(&mut msg, chars_of(args[i].as_str()).as_slice());
        proof {
            if i == 0 {
                assert(views.take(1) =~= seq![views[0]]);
                assert(msg@ =~= head + join_space(views.take(1)));
            } else {
                assert(msg@ =~= head + join_space(views.take(i + 1)));
            }
        }
        i = i + 1;
    }
    assert(views.take(args@.len() as int) =~= views);
    msg.push(':');
    msg.push(' ');
    let err = lossy_string(stderr);
    let trimmed = trim_chars(chars_of(err.as_str()).as_slice());
    append_chars(&mut msg, trimmed.as_slice());
    assert(msg@ =~= git_failure(views, stderr@));
    Err(string_from_chars(msg.as_slice()))
}

} // verus!
