//! Saved glob exclusions and changed-file partitioning.
use vstd::prelude::*;
use crate::git::{FileItem, items_view};
use globset::{Glob, GlobSet, GlobSetBuilder};

verus! {

#[verifier::external_type_specification]
#[verifier::external_body]
pub struct ExGlob(Glob);

#[verifier::external_type_specification]
#[verifier::external_body]
pub struct ExGlobSet(GlobSet);

#[verifier::external_type_specification]
#[verifier::external_body]
pub struct ExGlobSetBuilder(GlobSetBuilder);

#[verifier::external_type_specification]
#[verifier::external_body]
pub struct ExGlobError(globset::Error);

/// Whether `Glob::new` accepts `pattern`.
pub uninterp spec fn glob_valid(pattern: Seq<char>) -> bool;

/// Whether `GlobSetBuilder::build` succeeds for the globs of `patterns`.
pub uninterp spec fn globset_builds(patterns: Seq<Seq<char>>) -> bool;

/// What `GlobSet::is_match` answers for `path` on the set built from `patterns`.
pub uninterp spec fn globset_is_match(patterns: Seq<Seq<char>>, path: Seq<char>) -> bool;

/// A compiled glob together with the pattern it was compiled from.
pub struct ParsedGlob {
    glob: Glob,
    pattern: Ghost<Seq<char>>,
}

impl ParsedGlob {
    /// Pattern the glob was compiled from.
    pub closed spec fn pattern(self) -> Seq<char> {
        self.pattern@
    }
}

struct FilterBuilder {
    builder: GlobSetBuilder,
    patterns: Ghost<Seq<Seq<char>>>,
}

/// A compiled set of filter globs together with their patterns.
pub struct FilterSet {
    set: GlobSet,
    patterns: Ghost<Seq<Seq<char>>>,
}

impl FilterSet {
    /// Patterns the set was built from, in order.
    pub closed spec fn patterns(self) -> Seq<Seq<char>> {
        self.patterns@
    }
}

/// Why a list of filter patterns could not be compiled.
pub enum FilterError {
    /// `Glob::new` rejected this saved pattern.
    InvalidPattern(String),
    /// `GlobSetBuilder::build` failed.
    Build,
}

/// Calls `Glob::new`: succeeds exactly when [`glob_valid`] holds of the
/// pattern, and records the pattern beside the compiled glob.
#[verifier::external_body]
pub(crate) fn parse_glob(pattern: &str) -> (r: Result<ParsedGlob, globset::Error>)
    ensures
        r is Ok == glob_valid(pattern@),
        r matches Ok(g) ==> g.pattern() == pattern@,
{
    match Glob::new(pattern) {
        Ok(glob) => Ok(ParsedGlob { glob, pattern: Ghost(pattern@) }),
        Err(error) => Err(error),
    }
}

/// Calls `GlobSetBuilder::new`; the builder holds no pattern.
#[verifier::external_body]
fn new_builder() -> (r: FilterBuilder)
    ensures
        r.patterns@ == Seq::<Seq<char>>::empty(),
{
    FilterBuilder { builder: GlobSetBuilder::new(), patterns: Ghost(Seq::empty()) }
}

/// Calls `GlobSetBuilder::add`: the glob's pattern is appended.
#[verifier::external_body]
fn builder_add(b: &mut FilterBuilder, g: ParsedGlob)
    ensures
        final(b).patterns@ == old(b).patterns@.push(g.pattern()),
{
    b.builder.add(g.glob);
}

/// Calls `GlobSetBuilder::build`: succeeds exactly when [`globset_builds`]
/// holds of the added patterns, and the set keeps them.
#[verifier::external_body]
fn builder_build(b: &FilterBuilder) -> (r: Result<FilterSet, globset::Error>)
    ensures
        r is Ok == globset_builds(b.patterns@),
        r matches Ok(s) ==> s.patterns() == b.patterns@,
{
    match b.builder.build() {
        Ok(set) => Ok(FilterSet { set, patterns: Ghost(b.patterns@) }),
        Err(error) => Err(error),
    }
}

/// Calls `GlobSet::is_match`; its answer is named by [`globset_is_match`] of
/// the set's patterns and the path.
#[verifier::external_body]
fn set_matches(f: &FilterSet, path: &str) -> (r: bool)
    ensures
        r == globset_is_match(f.patterns(), path@),
{
    f.set.is_match(path)
}

/// Views of the patterns.
pub open spec fn patterns_view(patterns: Seq<String>) -> Seq<Seq<char>> {
    patterns.map_values(|p: String| p@)
}

/// Compiles saved filter patterns into one glob set.
pub fn compile_filters(patterns: &[String]) -> (r: Result<FilterSet, FilterError>)
    ensures
        ({
            let ps = patterns_view(patterns@);
            match r {
                Ok(set) => (forall|i: int| 0 <= i < ps.len() ==> glob_valid(#[trigger] ps[i]))
                    && globset_builds(ps) && set.patterns() == ps,
                Err(FilterError::InvalidPattern(p)) => exists|i: int|
                    0 <= i < ps.len() && !glob_valid(#[trigger] ps[i]) && p@ == ps[i] && forall|k: int|
                        0 <= k < i ==> glob_valid(#[trigger] ps[k]),
                Err(FilterError::Build) => (forall|i: int| 0 <= i < ps.len() ==> glob_valid(#[trigger] ps[i]))
                    && !globset_builds(ps),
            }
        }),
{
    let ghost ps = patterns_view(patterns@);
    let mut builder = new_builder();
    let mut i: usize = 0;
    assert(ps.take(0) =~= Seq::<Seq<char>>::empty());
    while i < patterns.len()
        invariant
            ps == patterns_view(patterns@),
            i <= patterns@.len(),
            builder.patterns@ == ps.take(i as int),
            forall|k: int| 0 <= k < i ==> glob_valid(#[trigger] ps[k]),
        decreases patterns@.len() - i,
    {
        match parse_glob(patterns[i].as_str()) {
            Ok(g) => {
                builder_add(&mut builder, g);
                assert(ps.take(i + 1) =~= ps.take(i as int).push(ps[i as int]));
            },
            Err(_) => {
                assert(ps[i as int] == patterns@[i as int]@);
                assert(!glob_valid(ps[i as int]));
                return Err(FilterError::InvalidPattern(patterns[i].clone()));
            },
        }
        i = i + 1;
    }
    assert(ps.take(patterns@.len() as int) =~= ps);
    match builder_build(&builder) {
        Ok(set) => Ok(set),
        Err(_) => Err(FilterError::Build),
    }
}

/// `(status, path)` of the files that the filter matches (`keep == true`) or
/// does not match, in their original order.
pub open spec fn filtered(entries: Seq<(Seq<char>, Seq<char>)>, patterns: Seq<Seq<char>>, keep: bool) -> Seq<(Seq<char>, Seq<char>)> {
    entries.filter(|e: (Seq<char>, Seq<char>)| globset_is_match(patterns, e.1) == keep)
}

/// Every changed file lands on exactly one side: the ignored side holds the
/// files that the filter globs match, the visible side the others, and the
/// two sides together are as long as the input.
pub proof fn law_partition_is_exact(entries: Seq<(Seq<char>, Seq<char>)>, patterns: Seq<Seq<char>>)
    ensures
        filtered(entries, patterns, true).len() + filtered(entries, patterns, false).len() == entries.len(),
        forall|i: int|
            0 <= i < filtered(entries, patterns, true).len() ==> globset_is_match(
                patterns,
                (#[trigger] filtered(entries, patterns, true)[i]).1,
            ),
        forall|i: int|
            0 <= i < filtered(entries, patterns, false).len() ==> !globset_is_match(
                patterns,
                (#[trigger] filtered(entries, patterns, false)[i]).1,
            ),
        forall|i: int|
            0 <= i < entries.len() ==> (filtered(entries, patterns, true).contains(#[trigger] entries[i])
                || filtered(entries, patterns, false).contains(entries[i])),
    decreases entries.len(),
{
    reveal_with_fuel(Seq::filter, 1);
    let t = |e: (Seq<char>, Seq<char>)| globset_is_match(patterns, e.1) == true;
    let f = |e: (Seq<char>, Seq<char>)| globset_is_match(patterns, e.1) == false;
    broadcast use vstd::seq_lib::group_filter_ensures;
    if entries.len() > 0 {
        law_partition_is_exact(entries.drop_last(), patterns);
    }
    assert forall|i: int| 0 <= i < entries.len() implies (filtered(entries, patterns, true).contains(
        #[trigger] entries[i],
    ) || filtered(entries, patterns, false).contains(entries[i])) by {
        if globset_is_match(patterns, entries[i].1) {
            assert(t(entries[i]));
        } else {
            assert(f(entries[i]));
        }
    }
}

/// Splits files into those excluded by the filter globs and those shown for
/// review, each in original order.
pub fn partition_filtered_files(files: Vec<FileItem>, filter: &FilterSet) -> (r: (Vec<FileItem>, Vec<FileItem>))
    ensures
        items_view(r.0@) == filtered(items_view(files@), filter.patterns(), true),
        items_view(r.1@) == filtered(items_view(files@), filter.patterns(), false),
{
    let ghost all = items_view(files@);
    let ghost ps = filter.patterns();
    let mut ignored: Vec<FileItem> = Vec::new();
    let mut visible: Vec<FileItem> = Vec::new();
    let mut rest = files;
    let mut taken: Vec<FileItem> = Vec::new();
    let n = rest.len();
    let mut i: usize = 0;
    while i < n
        invariant
            n == all.len(),
            i <= n,
            ps == filter.patterns(),
            items_view(rest@) == all.skip(i as int),
            items_view(ignored@) == filtered(all.take(i as int), ps, true),
            items_view(visible@) == filtered(all.take(i as int), ps, false),
        decreases n - i,
    {
        assert(items_view(rest@).len() == rest@.len());
        let ghost old_rest = rest@;
        let file = rest.remove(0);
        proof {
            assert(rest@ =~= old_rest.subrange(1, old_rest.len() as int));
            assert(items_view(old_rest)[0] == all.skip(i as int)[0]);
            assert(all[i as int] == (file.status@, file.path@));
            assert forall|k: int| 0 <= k < items_view(rest@).len() implies items_view(rest@)[k] == all.skip(i + 1)[k] by {
                assert(rest@[k] == old_rest[k + 1]);
                assert(items_view(old_rest)[k + 1] == all.skip(i as int)[k + 1]);
            }
            assert(items_view(rest@) =~= all.skip(i + 1));
            assert(all.take(i + 1) =~= all.take(i as int).push(all[i as int]));
            assert(all.take(i + 1).drop_last() =~= all.take(i as int));
        }
        let ghost before_i = ignored@;
        let ghost before_v = visible@;
        let ghost e = (file.status@, file.path@);
        if set_matches(filter, file.path.as_str()) {
            ignored.push(file);
            assert(items_view(ignored@) =~= items_view(before_i).push(all[i as int]));
        } else {
            visible.push(file);
            assert(items_view(visible@) =~= items_view(before_v).push(all[i as int]));
        }
        proof {
            reveal_with_fuel(Seq::filter, 1);
        }
        i = i + 1;
    }
    assert(all.take(n as int) =~= all);
    (ignored, visible)
}

} // verus!
