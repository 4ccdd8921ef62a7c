//! Fuzzy matching for the changed-file picker.
use vstd::prelude::*;
use crate::git::FileItem;
use crate::text::{byte_len, byte_len_of, chars_lt, chars_of, lemma_seq_lt_irreflexive, lemma_seq_lt_total, lemma_seq_lt_transitive, seq_lt, byte_offset, char_utf8_len, chars_contain, contains_seq, lemma_byte_len_bounds, lemma_byte_offset_monotone, lemma_byte_offset_step};

verus! {

/// The Unicode lowercase mapping of a string, as `str::to_lowercase` computes it.
pub uninterp spec fn lowercase(s: Seq<char>) -> Seq<char>;

/// Calls `str::to_lowercase`; its result is named by [`lowercase`] of the
/// input. Like every `String`, the result holds at most `isize::MAX` bytes
/// (a `Vec` never allocates more).
#[verifier::external_body]
fn to_lowercase(s: &str) -> (r: String)
    ensures
        r@ == lowercase(s@),
        byte_len(r@) <= isize::MAX,
{
    s.to_lowercase()
}

/// Characters after which a match starts a new word.
pub open spec fn is_word_separator(c: char) -> bool {
    c == '/' || c == '_' || c == '-' || c == '.'
}

/// First position at or after `start` that holds `ch`, or -1.
pub open spec fn first_match_from(c: Seq<char>, ch: char, start: nat) -> int
    decreases c.len() - start,
{
    if start >= c.len() {
        -1
    } else if c[start as int] == ch {
        start as int
    } else {
        first_match_from(c, ch, start + 1)
    }
}

/// Where the characters of `q` are found in `c` when each is matched at the
/// first position after the previous match.
pub open spec fn greedy_positions(c: Seq<char>, q: Seq<char>) -> Option<Seq<int>>
    decreases q.len(),
{
    if q.len() == 0 {
        Some(Seq::<int>::empty())
    } else {
        match greedy_positions(c, q.drop_last()) {
            None => None,
            Some(ps) => {
                let start: nat = if ps.len() == 0 { 0 } else { (ps.last() + 1) as nat };
                let k = first_match_from(c, q.last(), start);
                if k < 0 {
                    None
                } else {
                    Some(ps.push(k))
                }
            },
        }
    }
}

/// Score earned by the `j`-th matched character: its byte offset is a cost,
/// adjacency to the previous match and a word start are bonuses.
pub open spec fn step_score(c: Seq<char>, ps: Seq<int>, j: int) -> int {
    let off = byte_offset(c, ps[j]) as int;
    let adjacent: int = if j > 0 && off == byte_offset(c, ps[j - 1]) + 1 { 12 } else { 0 };
    let word_start: int = if ps[j] == 0 || is_word_separator(c[ps[j] - 1]) { 8 } else { 0 };
    adjacent + word_start - off
}

pub open spec fn positions_score(c: Seq<char>, ps: Seq<int>) -> int
    decreases ps.len(),
{
    if ps.len() == 0 {
        0
    } else {
        positions_score(c, ps.drop_last()) + step_score(c, ps, ps.len() - 1)
    }
}

/// Score and matched character positions of lowered query `q` in lowered
/// candidate `c`.
pub open spec fn fuzzy_result(c: Seq<char>, q: Seq<char>) -> Option<(int, Seq<int>)> {
    match greedy_positions(c, q) {
        None => None,
        Some(ps) => Some((positions_score(c, ps) + if contains_seq(c, q) { 24int } else { 0int }, ps)),
    }
}

pub open spec fn usize_seq(v: Seq<usize>) -> Seq<int> {
    v.map_values(|x: usize| x as int)
}

proof fn lemma_greedy_step(c: Seq<char>, q: Seq<char>, j: int)
    requires
        0 <= j < q.len(),
    ensures
        q.take(j + 1).drop_last() == q.take(j),
        q.take(j + 1).last() == q[j],
{
    assert(q.take(j + 1).drop_last() =~= q.take(j));
}

proof fn lemma_greedy_sorted(c: Seq<char>, q: Seq<char>)
    requires
        greedy_positions(c, q) is Some,
    ensures
        ({
            let ps = greedy_positions(c, q)->0;
            &&& ps.len() == q.len()
            &&& forall|i: int| 0 <= i < ps.len() ==> 0 <= #[trigger] ps[i] < c.len() && c[ps[i]] == q[i]
            &&& forall|i: int, j: int| 0 <= i < j < ps.len() ==> ps[i] < ps[j]
        }),
    decreases q.len(),
{
    if q.len() > 0 {
        lemma_greedy_sorted(c, q.drop_last());
        let ps = greedy_positions(c, q.drop_last())->0;
        let start: nat = if ps.len() == 0 { 0 } else { (ps.last() + 1) as nat };
        lemma_first_match(c, q.last(), start);
    }
}

proof fn lemma_first_match(c: Seq<char>, ch: char, start: nat)
    ensures
        first_match_from(c, ch, start) >= 0 ==> start <= first_match_from(c, ch, start) < c.len()
            && c[first_match_from(c, ch, start)] == ch,
        first_match_from(c, ch, start) < 0 ==> first_match_from(c, ch, start) == -1,
    decreases c.len() - start,
{
    if start < c.len() && c[start as int] != ch {
        lemma_first_match(c, ch, start + 1);
    }
}

/// Score and matched character positions of lowered `query` in lowered
/// `candidate`. The score is kept in 64 bits: a score outside that range
/// wraps, as 64-bit arithmetic without overflow checks does.
pub fn fuzzy_match_lowered(candidate: &[char], query: &[char]) -> (r: Option<(i64, Vec<usize>)>)
    requires
        byte_len(candidate@) <= isize::MAX,
    ensures
        match r {
            None => fuzzy_result(candidate@, query@) is None,
            Some(res) => fuzzy_result(candidate@, query@) matches Some(m) && res.0 == #[verifier::truncate] (m.0 as i64)
                && usize_seq(res.1@) == m.1,
        },
{
    let ghost c = candidate@;
    let ghost q = query@;
    proof {
        lemma_byte_len_bounds(c);
    }
    let mut score: i128 = 0;
    let mut positions: Vec<usize> = Vec::new();
    let mut k_start: usize = 0;
    let mut off_start: usize = 0;
    let mut prev_off: usize = 0;
    let ghost mut ps: Seq<int> = Seq::empty();
    let mut j: usize = 0;
    assert(q.take(0) =~= Seq::<char>::empty());
    while j < query.len()
        invariant
            c == candidate@,
            q == query@,
            byte_len(c) <= isize::MAX,
            c.len() <= byte_len(c),
            j <= query.len(),
            greedy_positions(c, q.take(j as int)) == Some(ps),
            ps.len() == j,
            usize_seq(positions@) == ps,
            score as int == positions_score(c, ps),
            k_start as int == if j == 0 { 0 } else { ps.last() + 1 },
            k_start <= c.len(),
            j <= k_start,
            off_start as int == byte_offset(c, k_start as int),
            j > 0 ==> prev_off as int == byte_offset(c, ps.last()),
            prev_off <= isize::MAX,
            -((j as int) * (isize::MAX + 20)) <= score <= 20 * (j as int),
        decreases query.len() - j,
    {
        let needle = query[j];
        let mut k: usize = k_start;
        let mut off: usize = off_start;
        proof {
            lemma_byte_offset_monotone(c, k_start as int, c.len() as int);
            assert(c.take(c.len() as int) =~= c);
        }
        while k < candidate.len() && candidate[k] != needle
            invariant
                c == candidate@,
                k_start <= k <= c.len(),
                off as int == byte_offset(c, k as int),
                byte_offset(c, c.len() as int) <= isize::MAX,
                first_match_from(c, needle, k_start as nat) == first_match_from(c, needle, k as nat),
            decreases c.len() - k,
        {
            proof {
                lemma_byte_offset_step(c, k as int);
                lemma_byte_offset_monotone(c, k + 1, c.len() as int);
            }
            off = off + char_utf8_len(candidate[k]);
            k = k + 1;
        }
        proof {
            lemma_greedy_step(c, q, j as int);
        }
        if k == candidate.len() {
            proof {
                assert(first_match_from(c, needle, k as nat) == -1);
            }
            assert(q.take(j + 1) =~= q.take(j as int).push(q[j as int]));
            assert(greedy_positions(c, q.take(j + 1)) is None);
            assert(q =~= q.take(j + 1) + q.skip(j + 1));
            proof {
                lemma_greedy_prefix_none(c, q, j + 1);
            }
            return None;
        }
        let ghost new_ps = ps.push(k as int);
        let index = off;
        let mut step: i64 = 0;
        if j > 0 && prev_off + 1 == index {
            step = step + 12;
        }
        if k == 0 || is_separator_char(candidate[k - 1]) {
            step = step + 8;
        }
        proof {
            lemma_byte_offset_monotone(c, k as int, c.len() as int);
            assert(new_ps.drop_last() =~= ps);
            assert(new_ps[j as int] == k);
            assert(j > 0 ==> new_ps[j - 1] == ps.last());
            let m: int = isize::MAX as int;
            let jj: int = j as int;
            assert((jj + 1) * (m + 20) <= m * (m + 20)) by (nonlinear_arith)
                requires
                    jj + 1 <= m,
                    0 <= jj,
                    0 <= m;
            assert(m * m <= 0x7fff_ffff_ffff_ffff * 0x7fff_ffff_ffff_ffff) by (nonlinear_arith)
                requires
                    0 <= m <= 0x7fff_ffff_ffff_ffff;
            assert(jj * (m + 20) + m <= (jj + 1) * (m + 20)) by (nonlinear_arith)
                requires
                    0 <= jj,
                    0 <= m;
            assert(m * (m + 20) == m * m + 20 * m) by (nonlinear_arith);
            assert(m * (m + 20) <= 0x7fff_ffff_ffff_ffff_ffff_ffff_ffff_ffff);
            assert(index <= m);
            assert(score + step - index >= -((jj + 1) * (m + 20)));
        }
        score = score + (step as i128) - (index as i128);
        let ghost old_pos = positions@;
        positions.push(k);
        proof {
            assert(usize_seq(positions@) =~= usize_seq(old_pos).push(k as int));
            ps = new_ps;
            lemma_byte_offset_step(c, k as int);
        }
        prev_off = index;
        off_start = off + char_utf8_len(needle);
        k_start = k + 1;
        j = j + 1;
    }
    assert(q.take(query.len() as int) =~= q);
    let contained = chars_contain(candidate, query);
    if contained {
        score = score + 24;
    }
    Some((#[verifier::truncate] (score as i64), positions))
}

proof fn lemma_greedy_prefix_none(c: Seq<char>, q: Seq<char>, n: int)
    requires
        0 <= n <= q.len(),
        greedy_positions(c, q.take(n)) is None,
    ensures
        greedy_positions(c, q) is None,
    decreases q.len() - n,
{
    if n < q.len() {
        assert(q.take(n + 1).drop_last() =~= q.take(n));
        lemma_greedy_prefix_none(c, q, n + 1);
    } else {
        assert(q.take(n) =~= q);
    }
}

fn is_separator_char(c: char) -> (r: bool)
    ensures
        r == is_word_separator(c),
{
    c == '/' || c == '_' || c == '-' || c == '.'
}


/// Score and matched character positions (in the lowercase path) with which
/// `query` matches `path`, as the picker computes them: an empty query
/// matches everything with no positions.
pub open spec fn file_match(path: Seq<char>, query: Seq<char>) -> Option<(int, Seq<int>)> {
    if query.len() == 0 {
        Some((0int, Seq::<int>::empty()))
    } else {
        fuzzy_result(lowercase(path), lowercase(query))
    }
}

/// `ps` places the characters of `q` in `c` at increasing positions.
pub open spec fn embeds(c: Seq<char>, q: Seq<char>, ps: Seq<int>) -> bool {
    &&& ps.len() == q.len()
    &&& forall|i: int| 0 <= i < ps.len() ==> 0 <= #[trigger] ps[i] < c.len() && c[ps[i]] == q[i]
    &&& forall|i: int, j: int| 0 <= i < j < ps.len() ==> ps[i] < ps[j]
}

/// Whether `q` is a (not necessarily contiguous) subsequence of `c`.
pub open spec fn is_subsequence(q: Seq<char>, c: Seq<char>) -> bool {
    exists|ps: Seq<int>| embeds(c, q, ps)
}

proof fn lemma_first_match_at_most(c: Seq<char>, ch: char, start: nat, k: int)
    requires
        start <= k < c.len(),
        c[k] == ch,
    ensures
        start <= first_match_from(c, ch, start) <= k,
    decreases k - start,
{
    if c[start as int] != ch {
        lemma_first_match_at_most(c, ch, start + 1, k);
    }
}

/// Greedy matching succeeds whenever some placement exists, and each of its
/// positions is no later than that placement's.
proof fn lemma_greedy_complete(c: Seq<char>, q: Seq<char>, ws: Seq<int>)
    requires
        embeds(c, q, ws),
    ensures
        greedy_positions(c, q) is Some,
        forall|i: int| 0 <= i < q.len() ==> (greedy_positions(c, q)->0)[i] <= #[trigger] ws[i],
    decreases q.len(),
{
    if q.len() > 0 {
        let qd = q.drop_last();
        let wd = ws.drop_last();
        assert forall|i: int| 0 <= i < wd.len() implies 0 <= #[trigger] wd[i] < c.len() && c[wd[i]] == qd[i] by {
            assert(wd[i] == ws[i]);
        }
        assert forall|i: int, j: int| 0 <= i < j < wd.len() implies wd[i] < wd[j] by {
            assert(wd[i] == ws[i] && wd[j] == ws[j]);
        }
        lemma_greedy_complete(c, qd, wd);
        lemma_greedy_sorted(c, qd);
        let ps = greedy_positions(c, qd)->0;
        let start: nat = if ps.len() == 0 { 0 } else { (ps.last() + 1) as nat };
        let n = q.len() - 1;
        if ps.len() > 0 {
            assert(ps[n - 1] <= wd[n - 1]);
            assert(ws[n - 1] < ws[n]);
        }
        lemma_first_match_at_most(c, q.last(), start, ws[n]);
        let k = first_match_from(c, q.last(), start);
        assert(greedy_positions(c, q) == Some(ps.push(k)));
        assert forall|i: int| 0 <= i < q.len() implies (greedy_positions(c, q)->0)[i] <= #[trigger] ws[i] by {
            if i < n {
                assert(wd[i] == ws[i]);
            }
        }
    }
}

/// The picker matches a file exactly when the lowercase query is a
/// subsequence of the lowercase path (for a non-empty query); the reported
/// positions are increasing and hold the query's characters.
pub proof fn law_matches_exactly_subsequences(path: Seq<char>, query: Seq<char>)
    requires
        query.len() > 0,
    ensures
        file_match(path, query) is Some <==> is_subsequence(lowercase(query), lowercase(path)),
        file_match(path, query) is Some ==> embeds(lowercase(path), lowercase(query), (file_match(path, query)->0).1),
{
    let c = lowercase(path);
    let q = lowercase(query);
    if greedy_positions(c, q) is Some {
        lemma_greedy_sorted(c, q);
        assert(embeds(c, q, greedy_positions(c, q)->0));
    }
    if is_subsequence(q, c) {
        let ws = choose|ws: Seq<int>| embeds(c, q, ws);
        lemma_greedy_complete(c, q, ws);
    }
}

/// Scores subsequence matches of `query` in `path`, case-insensitively, and
/// collects the character positions of the matches in the lowercase path.
/// The score wraps to 64 bits.
pub fn fuzzy_match_positions(path: &str, query: &str) -> (r: Option<(i64, Vec<usize>)>)
    ensures
        match r {
            None => file_match(path@, query@) is None,
            Some(res) => file_match(path@, query@) matches Some(m) && res.0 == m.0 as i64 && usize_seq(res.1@)
                == m.1,
        },
{
    if query.is_empty() {
        let none: Vec<usize> = Vec::new();
        assert(usize_seq(none@) =~= Seq::<int>::empty());
        return Some((0, none));
    }
    let candidate = chars_of(to_lowercase(path).as_str());
    let lowered = chars_of(to_lowercase(query).as_str());
    fuzzy_match_lowered(candidate.as_slice(), lowered.as_slice())
}

/// Score of `query` against `path`, if it matches.
pub fn fuzzy_score(path: &str, query: &str) -> (r: Option<i64>)
    ensures
        match r {
            None => file_match(path@, query@) is None,
            Some(score) => (file_match(path@, query@) matches Some(m) && score == m.0 as i64),
        },
{
    match fuzzy_match_positions(path, query) {
        Some((score, _)) => Some(score),
        None => None,
    }
}

/// Score of file `a`, wrapped to 64 bits.
pub open spec fn match_score(files: Seq<FileItem>, query: Seq<char>, a: int) -> i64 {
    (file_match(files[a].path@, query)->0).0 as i64
}

/// Picker order: higher score first, then shorter path (in bytes), then the
/// path in byte order, then the file's original position.
pub open spec fn rank_before(files: Seq<FileItem>, query: Seq<char>, a: int, b: int) -> bool {
    let sa = match_score(files, query, a);
    let sb = match_score(files, query, b);
    let la = byte_len(files[a].path@);
    let lb = byte_len(files[b].path@);
    let pa = files[a].path@;
    let pb = files[b].path@;
    sa > sb || (sa == sb && (la < lb || (la == lb && (seq_lt(pa, pb) || (pa == pb && a < b)))))
}

proof fn lemma_rank_transitive(files: Seq<FileItem>, query: Seq<char>, a: int, b: int, c: int)
    requires
        rank_before(files, query, a, b),
        rank_before(files, query, b, c),
    ensures
        rank_before(files, query, a, c),
{
    let pa = files[a].path@;
    let pb = files[b].path@;
    let pc = files[c].path@;
    if seq_lt(pa, pb) && seq_lt(pb, pc) {
        lemma_seq_lt_transitive(pa, pb, pc);
    }
}

proof fn lemma_rank_total(files: Seq<FileItem>, query: Seq<char>, a: int, b: int)
    requires
        a != b,
    ensures
        rank_before(files, query, a, b) || rank_before(files, query, b, a),
        !(rank_before(files, query, a, b) && rank_before(files, query, b, a)),
{
    let pa = files[a].path@;
    let pb = files[b].path@;
    if pa != pb {
        lemma_seq_lt_total(pa, pb);
    }
    lemma_seq_lt_irreflexive(pa);
    if seq_lt(pa, pb) && seq_lt(pb, pa) {
        lemma_seq_lt_transitive(pa, pb, pa);
    }
}

struct Candidate {
    index: usize,
    score: i64,
    positions: Vec<usize>,
    len: u128,
    chars: Vec<char>,
}

spec fn candidate_ok(files: Seq<FileItem>, query: Seq<char>, c: Candidate) -> bool {
    &&& c.index < files.len()
    &&& file_match(files[c.index as int].path@, query) matches Some(m)
    &&& c.score == m.0 as i64
    &&& usize_seq(c.positions@) == m.1
    &&& c.len == byte_len(files[c.index as int].path@)
    &&& c.chars@ == files[c.index as int].path@
}

fn candidate_before(a: &Candidate, b: &Candidate, Ghost(files): Ghost<Seq<FileItem>>, Ghost(query): Ghost<Seq<char>>) -> (r: bool)
    requires
        candidate_ok(files, query, *a),
        candidate_ok(files, query, *b),
    ensures
        r == rank_before(files, query, a.index as int, b.index as int),
{
    if a.score != b.score {
        return a.score > b.score;
    }
    if a.len != b.len {
        return a.len < b.len;
    }
    if chars_lt(a.chars.as_slice(), b.chars.as_slice()) {
        return true;
    }
    if chars_lt(b.chars.as_slice(), a.chars.as_slice()) {
        proof {
            lemma_seq_lt_irreflexive(a.chars@);
            if seq_lt(a.chars@, b.chars@) {
                lemma_seq_lt_transitive(a.chars@, b.chars@, a.chars@);
            }
        }
        return false;
    }
    proof {
        if a.chars@ != b.chars@ {
            lemma_seq_lt_total(a.chars@, b.chars@);
        }
    }
    a.index < b.index
}

fn unranked(n: usize) -> (r: Vec<(usize, Vec<usize>)>)
    ensures
        r@.len() == n,
        forall|i: int| 0 <= i < r@.len() ==> #[trigger] r@[i].0 == i && r@[i].1@.len() == 0,
{
    let mut all: Vec<(usize, Vec<usize>)> = Vec::new();
    let mut i: usize = 0;
    while i < n
        invariant
            i <= n,
            all@.len() == i,
            forall|k: int| 0 <= k < i ==> #[trigger] all@[k].0 == k && all@[k].1@.len() == 0,
        decreases n - i,
    {
        let none: Vec<usize> = Vec::new();
        all.push((i, none));
        i = i + 1;
    }
    all
}

/// Ranked `(file index, matched character positions)` pairs for the query. An empty
/// query lists every file in its original order with no offsets.
pub fn ranked_matches(files: &[FileItem], query: &str) -> (r: Vec<(usize, Vec<usize>)>)
    ensures
        query@.len() == 0 ==> r@.len() == files@.len() && forall|i: int|
            0 <= i < r@.len() ==> #[trigger] r@[i].0 == i && r@[i].1@.len() == 0,
        query@.len() > 0 ==> {
            &&& forall|i: int|
                0 <= i < r@.len() ==> #[trigger] r@[i].0 < files@.len() && (file_match(
                    files@[r@[i].0 as int].path@,
                    query@,
                ) matches Some(m) && usize_seq(r@[i].1@) == m.1)
            &&& forall|f: int|
                0 <= f < files@.len() && (file_match(files@[f].path@, query@) is Some) ==> exists|
                    i: int,
                | 0 <= i < r@.len() && #[trigger] r@[i].0 == f
            &&& forall|i: int, j: int|
                0 <= i < j < r@.len() ==> rank_before(
                    files@,
                    query@,
                    #[trigger] r@[i].0 as int,
                    #[trigger] r@[j].0 as int,
                )
        },
{
    let ghost fs = files@;
    let ghost q = query@;
    if query.is_empty() {
        return unranked(files.len());
    }
    let mut res: Vec<Candidate> = Vec::new();
    let mut i: usize = 0;
    while i < files.len()
        invariant
            fs == files@,
            q == query@,
            q.len() > 0,
            i <= files.len(),
            forall|m: int| 0 <= m < res@.len() ==> candidate_ok(fs, q, #[trigger] res@[m]),
            forall|m: int| 0 <= m < res@.len() ==> (#[trigger] res@[m]).index < i,
            forall|m: int, n: int|
                0 <= m < n < res@.len() ==> rank_before(
                    fs,
                    q,
                    (#[trigger] res@[m]).index as int,
                    (#[trigger] res@[n]).index as int,
                ),
            forall|f: int|
                0 <= f < i && (file_match(fs[f].path@, q) is Some) ==> exists|m: int|
                    0 <= m < res@.len() && (#[trigger] res@[m]).index == f,
        decreases files.len() - i,
    {
        let file = &files[i];
        match fuzzy_match_positions(file.path.as_str(), query) {
            None => {},
            Some((score, positions)) => {
                let chars = chars_of(file.path.as_str());
                let len = byte_len_of(chars.as_slice());
                let cand = Candidate { index: i, score, positions, len, chars };
                let mut p: usize = 0;
                while p < res.len() && !candidate_before(&cand, &res[p], Ghost(fs), Ghost(q))
                    invariant
                        fs == files@,
                        q == query@,
                        p <= res@.len(),
                        candidate_ok(fs, q, cand),
                        cand.index == i,
                        forall|m: int| 0 <= m < res@.len() ==> candidate_ok(fs, q, #[trigger] res@[m]),
                        forall|m: int| 0 <= m < p ==> !rank_before(fs, q, i as int, (#[trigger] res@[m]).index as int),
                    decreases res@.len() - p,
                {
                    p = p + 1;
                }
                let ghost old_res = res@;
                proof {
                    assert forall|m: int| 0 <= m < p implies rank_before(fs, q, (#[trigger] old_res[m]).index as int, i as int) by {
                        lemma_rank_total(fs, q, old_res[m].index as int, i as int);
                    }
                    assert forall|m: int| p <= m < old_res.len() implies rank_before(fs, q, i as int, (#[trigger] old_res[m]).index as int) by {
                        if m > p {
                            lemma_rank_transitive(fs, q, i as int, old_res[p as int].index as int, old_res[m].index as int);
                        }
                    }
                }
                res.insert(p, cand);
                proof {
                    assert(res@ =~= old_res.insert(p as int, cand));
                    assert forall|f: int|
                        0 <= f < i + 1 && (file_match(fs[f].path@, q) is Some) implies exists|m: int|
                            0 <= m < res@.len() && (#[trigger] res@[m]).index == f by {
                        if f == i {
                            assert(res@[p as int].index == f);
                        } else {
                            let m0 = choose|m: int| 0 <= m < old_res.len() && (#[trigger] old_res[m]).index == f;
                            if m0 < p {
                                assert(res@[m0].index == f);
                            } else {
                                assert(res@[m0 + 1].index == f);
                            }
                        }
                    }
                }
            },
        }
        i = i + 1;
    }
    let mut out: Vec<(usize, Vec<usize>)> = Vec::new();
    let mut k: usize = 0;
    while k < res.len()
        invariant
            fs == files@,
            q == query@,
            k <= res@.len(),
            out@.len() == k,
            forall|m: int| 0 <= m < res@.len() ==> candidate_ok(fs, q, #[trigger] res@[m]),
            forall|m: int| 0 <= m < k ==> (#[trigger] out@[m]).0 == res@[m].index && out@[m].1@ == res@[m].positions@,
        decreases res@.len() - k,
    {
        let positions = res[k].positions.clone();
        out.push((res[k].index, positions));
        k = k + 1;
    }
    proof {
        assert forall|f: int|
            0 <= f < fs.len() && (file_match(fs[f].path@, q) is Some) implies exists|i: int|
                0 <= i < out@.len() && #[trigger] out@[i].0 == f by {
            let m0 = choose|m: int| 0 <= m < res@.len() && (#[trigger] res@[m]).index == f;
            assert(out@[m0].0 == f);
        }
    }
    out
}

/// File indices in picker order for the query.
pub fn fuzzy_file_indices(files: &[FileItem], query: &str) -> (r: Vec<usize>)
    ensures
        ranked_matches_spec(files@, query@, r@),
{
    let ranked = ranked_matches(files, query);
    let mut out: Vec<usize> = Vec::new();
    let mut k: usize = 0;
    while k < ranked.len()
        invariant
            k <= ranked@.len(),
            out@.len() == k,
            forall|m: int| 0 <= m < k ==> #[trigger] out@[m] == ranked@[m].0,
        decreases ranked@.len() - k,
    {
        out.push(ranked[k].0);
        k = k + 1;
    }
    proof {
        assert forall|f: int|
            0 <= f < files@.len() && query@.len() > 0 && (file_match(files@[f].path@, query@) is Some) implies exists|i: int|
                0 <= i < out@.len() && #[trigger] out@[i] == f by {
            let i0 = choose|i: int| 0 <= i < ranked@.len() && #[trigger] ranked@[i].0 == f;
            assert(out@[i0] == f);
        }
    }
    out
}

/// What [`fuzzy_file_indices`] returns: every file index in order for an
/// empty query; otherwise exactly the matching files, each once, in
/// [`rank_before`] order.
pub open spec fn ranked_matches_spec(files: Seq<FileItem>, query: Seq<char>, r: Seq<usize>) -> bool {
    &&& query.len() == 0 ==> r.len() == files.len() && forall|i: int| 0 <= i < r.len() ==> #[trigger] r[i] == i
    &&& query.len() > 0 ==> {
        &&& forall|i: int| 0 <= i < r.len() ==> #[trigger] r[i] < files.len() && file_match(files[r[i] as int].path@, query) is Some
        &&& forall|f: int| 0 <= f < files.len() && (file_match(files[f].path@, query) is Some) ==> exists|i: int| 0 <= i < r.len() && #[trigger] r[i] == f
        &&& forall|i: int, j: int| 0 <= i < j < r.len() ==> rank_before(files, query, #[trigger] r[i] as int, #[trigger] r[j] as int)
    }
}

/// How the picker scores a match, with its weights: a match of `path`
/// scores +24 when the lowercase query occurs in the lowercase path as one
/// run, plus, for each matched character in turn, minus its byte offset,
/// +12 when it lies at the byte right after the previous match, and +8 when
/// it starts the path or follows `/`, `_`, `-` or `.`; no matched character
/// scores 0.
pub proof fn law_fuzzy_score_weights(path: Seq<char>, query: Seq<char>, c: Seq<char>, ps: Seq<int>)
    ensures
        positions_score(c, Seq::<int>::empty()) == 0,
        ps.len() > 0 ==> positions_score(c, ps) == positions_score(c, ps.drop_last()) - byte_offset(c, ps.last())
            + (if ps.len() > 1 && byte_offset(c, ps.last()) == byte_offset(c, ps[ps.len() - 2]) + 1 { 12int } else { 0int })
            + (if ps.last() == 0 || c[ps.last() - 1] == '/' || c[ps.last() - 1] == '_' || c[ps.last() - 1] == '-'
            || c[ps.last() - 1] == '.' { 8int } else { 0int }),
        query.len() > 0 ==> match file_match(path, query) {
            Some(m) => m.0 == positions_score(lowercase(path), m.1) + (if contains_seq(lowercase(path), lowercase(query)) {
                24int
            } else {
                0int
            }) && embeds(lowercase(path), lowercase(query), m.1),
            None => !is_subsequence(lowercase(query), lowercase(path)),
        },
        query.len() == 0 ==> file_match(path, query) == Some((0int, Seq::<int>::empty())),
{
    if query.len() > 0 {
        law_matches_exactly_subsequences(path, query);
    }
}

} // verus!
