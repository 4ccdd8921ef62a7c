//! The cache of loaded diffs: a document is reused only for the same
//! request, `HEAD` and file stamp; entries are kept in least-recently-used
//! order, one per request, within a few files and a byte budget, dropping the
//! oldest first, while the document being added always stays.
use vstd::prelude::*;
use crate::diff_view::DiffMode;

verus! {

/// Byte budget of the cached diffs (64 MiB).
pub const CACHE_BYTES: usize = 67108864;

/// Most diffs kept in the cache.
pub const CACHE_FILES: usize = 8;

/// Total size of the entries from `k` on.
pub open spec fn sum_from(s: Seq<usize>, k: nat) -> int
    decreases s.len() - k,
{
    if k >= s.len() {
        0
    } else {
        s[k as int] + sum_from(s, k + 1)
    }
}

/// Keeping the entries from `k` on and adding `incoming` bytes would exceed
/// the file count or the byte budget.
pub open spec fn over_budget(s: Seq<usize>, k: nat, incoming: int) -> bool {
    s.len() - k >= CACHE_FILES || sum_from(s, k) + incoming > CACHE_BYTES
}

/// Number of oldest entries dropped, starting the count at `k`.
pub open spec fn evictions_from(s: Seq<usize>, incoming: int, k: nat) -> nat
    decreases s.len() - k,
{
    if k >= s.len() || !over_budget(s, k, incoming) {
        k
    } else {
        evictions_from(s, incoming, k + 1)
    }
}

proof fn lemma_sum_from_nonneg(s: Seq<usize>, k: nat)
    ensures
        sum_from(s, k) >= 0,
    decreases s.len() - k,
{
    if k < s.len() {
        lemma_sum_from_nonneg(s, k + 1);
    }
}

fn tail_exceeds(sizes: &[usize], k: usize, incoming: usize) -> (r: bool)
    requires
        k <= sizes@.len(),
    ensures
        r == (sum_from(sizes@, k as nat) + incoming > CACHE_BYTES),
{
    if incoming > CACHE_BYTES {
        proof {
            lemma_sum_from_nonneg(sizes@, k as nat);
        }
        return true;
    }
    let mut acc: usize = incoming;
    let mut j: usize = k;
    while j < sizes.len()
        invariant
            k <= j <= sizes@.len(),
            acc <= CACHE_BYTES,
            acc == incoming + sum_from(sizes@, k as nat) - sum_from(sizes@, j as nat),
        decreases sizes@.len() - j,
    {
        if sizes[j] > CACHE_BYTES - acc {
            proof {
                lemma_sum_from_nonneg(sizes@, (j + 1) as nat);
            }
            return true;
        }
        acc = acc + sizes[j];
        j = j + 1;
    }
    false
}

/// How many of the oldest cached documents, of the given sizes, are dropped
/// before a document of `incoming` bytes is added.
pub fn cache_evictions(sizes: &[usize], incoming: usize) -> (r: usize)
    ensures
        r == evictions_from(sizes@, incoming as int, 0),
{
    let mut k: usize = 0;
    while k < sizes.len() && (sizes.len() - k >= CACHE_FILES || tail_exceeds(sizes, k, incoming))
        invariant
            k <= sizes@.len(),
            evictions_from(sizes@, incoming as int, 0) == evictions_from(sizes@, incoming as int, k as nat),
        decreases sizes@.len() - k,
    {
        k = k + 1;
    }
    k
}

/// After eviction the cache keeps fewer than the maximum number of files and
/// stays within its byte budget together with the new document, unless it was
/// emptied; an entry is dropped only while the cache is over a limit.
pub proof fn law_cache_within_budget(s: Seq<usize>, incoming: int, k: nat)
    requires
        k <= s.len(),
        forall|j: nat| j < k ==> over_budget(s, j, incoming),
    ensures
        evictions_from(s, incoming, k) <= s.len(),
        evictions_from(s, incoming, k) < s.len() ==> {
            &&& s.len() - evictions_from(s, incoming, k) < CACHE_FILES
            &&& sum_from(s, evictions_from(s, incoming, k)) + incoming <= CACHE_BYTES
        },
        forall|j: nat| j < evictions_from(s, incoming, k) ==> over_budget(s, j, incoming),
    decreases s.len() - k,
{
    if k < s.len() && over_budget(s, k, incoming) {
        law_cache_within_budget(s, incoming, k + 1);
    }
}

/// What a cached document was loaded from: the requested path and layout,
/// the `HEAD` commit, and the file's stamp (`None` when the file is missing).
/// A stamp is the modification time as whether it lies after the Unix epoch,
/// seconds and nanoseconds from it, and the file length.
pub struct CacheKey {
    pub path: String,
    pub mode: DiffMode,
    pub head: String,
    pub stamp: Option<(bool, u64, u32, u64)>,
}

/// `(path, mode, head, stamp)` of a key.
pub type KeyView = (Seq<char>, DiffMode, Seq<char>, Option<(bool, u64, u32, u64)>);

impl View for CacheKey {
    type V = KeyView;

    open spec fn view(&self) -> KeyView {
        (self.path@, self.mode, self.head@, self.stamp)
    }
}

/// Two keys name the same request (path and layout).
pub open spec fn same_request(a: KeyView, b: KeyView) -> bool {
    a.0 == b.0 && a.1 == b.1
}

fn same_stamp(a: Option<(bool, u64, u32, u64)>, b: Option<(bool, u64, u32, u64)>) -> (r: bool)
    ensures
        r == (a == b),
{
    match (a, b) {
        (None, None) => true,
        (Some(x), Some(y)) => x.0 == y.0 && x.1 == y.1 && x.2 == y.2 && x.3 == y.3,
        _ => false,
    }
}

fn request_matches(a: &CacheKey, b: &CacheKey) -> (r: bool)
    ensures
        r == same_request(a@, b@),
{
    a.path == b.path && a.mode == b.mode
}

fn key_matches(a: &CacheKey, b: &CacheKey) -> (r: bool)
    ensures
        r == (a@ == b@),
{
    request_matches(a, b) && a.head == b.head && same_stamp(a.stamp, b.stamp)
}

/// Loaded documents with their keys and sizes, oldest use first.
pub struct DiffCache<D> {
    entries: Vec<(CacheKey, usize, D)>,
}

/// `(key, bytes, document)` of an entry.
pub type EntryView<D> = (KeyView, usize, D);

/// Index of the first entry whose key is `key`, or -1.
pub open spec fn first_with_key<D>(s: Seq<EntryView<D>>, key: KeyView) -> int
    decreases s.len(),
{
    if s.len() == 0 {
        -1
    } else if s.last().0 != key && first_with_key(s.drop_last(), key) < 0 {
        -1
    } else if first_with_key(s.drop_last(), key) >= 0 {
        first_with_key(s.drop_last(), key)
    } else {
        s.len() - 1
    }
}

/// The entries whose request differs from that of `key`, in order.
pub open spec fn other_requests<D>(s: Seq<EntryView<D>>, key: KeyView) -> Seq<EntryView<D>>
    decreases s.len(),
{
    if s.len() == 0 {
        Seq::empty()
    } else if same_request(s[0].0, key) {
        other_requests(s.drop_first(), key)
    } else {
        seq![s[0]] + other_requests(s.drop_first(), key)
    }
}

/// Sizes of the entries.
pub open spec fn entry_sizes<D>(s: Seq<EntryView<D>>) -> Seq<usize> {
    s.map_values(|e: EntryView<D>| e.1)
}

/// The cache after adding `doc` under `key`: entries of the same request
/// leave, then the oldest are dropped while over a limit, then the new entry
/// is the most recent.
pub open spec fn admitted<D>(s: Seq<EntryView<D>>, key: KeyView, bytes: usize, doc: D) -> Seq<EntryView<D>> {
    let kept = other_requests(s, key);
    kept.skip(evictions_from(entry_sizes(kept), bytes as int, 0) as int).push((key, bytes, doc))
}

proof fn lemma_first_with_key<D>(s: Seq<EntryView<D>>, key: KeyView)
    ensures
        -1 <= first_with_key(s, key) < s.len(),
        first_with_key(s, key) >= 0 ==> s[first_with_key(s, key)].0 == key,
        forall|j: int| 0 <= j < s.len() && (first_with_key(s, key) < 0 || j < first_with_key(s, key)) ==> (#[trigger] s[j]).0 != key,
    decreases s.len(),
{
    if s.len() > 0 {
        lemma_first_with_key(s.drop_last(), key);
        assert forall|j: int| 0 <= j < s.len() - 1 implies s.drop_last()[j] == #[trigger] s[j] by {}
    }
}

proof fn lemma_evictions_bound(s: Seq<usize>, incoming: int, k: nat)
    requires
        k <= s.len(),
    ensures
        k <= evictions_from(s, incoming, k) <= s.len(),
    decreases s.len() - k,
{
    if k < s.len() && over_budget(s, k, incoming) {
        lemma_evictions_bound(s, incoming, k + 1);
    }
}

/// Total size of the entries.
pub open spec fn total_bytes<D>(s: Seq<EntryView<D>>) -> int {
    sum_from(entry_sizes(s), 0)
}

/// No two entries are for the same request.
pub open spec fn distinct_requests<D>(s: Seq<EntryView<D>>) -> bool {
    forall|i: int, j: int| 0 <= i < j < s.len() ==> !same_request(#[trigger] s[i].0, #[trigger] s[j].0)
}

/// The cache's limits: at most `CACHE_FILES` documents, one per request,
/// together within `CACHE_BYTES` unless a single document is cached.
pub open spec fn within_limits<D>(s: Seq<EntryView<D>>) -> bool {
    &&& s.len() <= CACHE_FILES
    &&& s.len() <= 1 || total_bytes(s) <= CACHE_BYTES
    &&& distinct_requests(s)
}

proof fn lemma_sum_shift(a: Seq<usize>, b: Seq<usize>, m: nat)
    ensures
        sum_from(a + b, a.len() + m) == sum_from(b, m),
    decreases b.len() - m,
{
    if m < b.len() {
        lemma_sum_shift(a, b, m + 1);
        assert((a + b)[(a.len() + m) as int] == b[m as int]);
    }
}

proof fn lemma_sum_concat(a: Seq<usize>, b: Seq<usize>, k: nat)
    requires
        k <= a.len(),
    ensures
        sum_from(a + b, k) == sum_from(a, k) + sum_from(b, 0),
    decreases a.len() - k,
{
    if k < a.len() {
        lemma_sum_concat(a, b, k + 1);
        assert((a + b)[k as int] == a[k as int]);
    } else {
        lemma_sum_shift(a, b, 0);
    }
}

proof fn lemma_sum_skip(a: Seq<usize>, e: nat, k: nat)
    requires
        e <= a.len(),
    ensures
        sum_from(a.skip(e as int), k) == sum_from(a, e + k),
    decreases a.len() - e - k,
{
    if e + k < a.len() {
        lemma_sum_skip(a, e, k + 1);
        assert(a.skip(e as int)[k as int] == a[(e + k) as int]);
    }
}

proof fn lemma_entry_sizes_concat<D>(x: Seq<EntryView<D>>, y: Seq<EntryView<D>>)
    ensures
        entry_sizes(x + y) == entry_sizes(x) + entry_sizes(y),
{
    assert(entry_sizes(x + y) =~= entry_sizes(x) + entry_sizes(y));
}

proof fn lemma_other_requests<D>(s: Seq<EntryView<D>>, key: KeyView)
    ensures
        forall|i: int|
            0 <= i < other_requests(s, key).len() ==> !same_request(#[trigger] other_requests(s, key)[i].0, key)
                && exists|j: int| 0 <= j < s.len() && s[j] == other_requests(s, key)[i],
        distinct_requests(s) ==> distinct_requests(other_requests(s, key)),
        other_requests(s, key).len() <= s.len(),
    decreases s.len(),
{
    if s.len() > 0 {
        let rest = s.drop_first();
        lemma_other_requests(rest, key);
        let o = other_requests(rest, key);
        assert forall|i: int| 0 <= i < o.len() implies exists|j: int| 0 <= j < s.len() && s[j] == #[trigger] o[i] by {
            assert(!same_request(o[i].0, key));
            let j = choose|j: int| 0 <= j < rest.len() && rest[j] == o[i];
            assert(s[j + 1] == rest[j]);
        }
        if distinct_requests(s) {
            assert(distinct_requests(rest)) by {
                assert forall|i: int, j: int| 0 <= i < j < rest.len() implies !same_request(#[trigger] rest[i].0, #[trigger] rest[j].0) by {
                    assert(rest[i] == s[i + 1] && rest[j] == s[j + 1]);
                }
            }
        }
        if !same_request(s[0].0, key) {
            let r = seq![s[0]] + o;
            assert(other_requests(s, key) == r);
            assert forall|i: int| 0 <= i < r.len() implies !same_request(#[trigger] r[i].0, key)
                && exists|j: int| 0 <= j < s.len() && s[j] == r[i] by {
                if i == 0 {
                    assert(s[0] == r[0]);
                } else {
                    assert(r[i] == o[i - 1]);
                }
            }
            if distinct_requests(s) {
                assert forall|i: int, j: int| 0 <= i < j < r.len() implies !same_request(#[trigger] r[i].0, #[trigger] r[j].0) by {
                    if i == 0 {
                        assert(r[j] == o[j - 1]);
                        assert(!same_request(o[j - 1].0, key));
                        let m = choose|m: int| 0 <= m < rest.len() && rest[m] == o[j - 1];
                        assert(s[m + 1] == rest[m]);
                        assert(!same_request(s[0].0, s[m + 1].0));
                    } else {
                        assert(r[i] == o[i - 1] && r[j] == o[j - 1]);
                    }
                }
            }
        }
    }
}

/// The cache keeps its limits over any sequence of requests: an empty cache
/// is within them, and from a cache within them, adding a document (after
/// dropping the entries of its request and the oldest while over a limit)
/// and marking an entry as recently used both stay within them.
pub proof fn law_cache_stays_within_limits<D>(s: Seq<EntryView<D>>, key: KeyView, bytes: usize, doc: D, i: int)
    ensures
        within_limits(Seq::<EntryView<D>>::empty()),
        within_limits(s) ==> within_limits(admitted(s, key, bytes, doc)),
        within_limits(s) && 0 <= i < s.len() ==> within_limits(s.remove(i).push(s[i])),
{
    lemma_admitted_within_limits(s, key, bytes, doc);
    if within_limits(s) && 0 <= i < s.len() {
        lemma_touch_within_limits(s, i);
    }
}

proof fn lemma_admitted_within_limits<D>(s: Seq<EntryView<D>>, key: KeyView, bytes: usize, doc: D)
    ensures
        admitted(s, key, bytes, doc).len() <= CACHE_FILES,
        admitted(s, key, bytes, doc).len() <= 1 || total_bytes(admitted(s, key, bytes, doc)) <= CACHE_BYTES,
        distinct_requests(s) ==> distinct_requests(admitted(s, key, bytes, doc)),
{
    let kept = other_requests(s, key);
    let sz = entry_sizes(kept);
    let e = evictions_from(sz, bytes as int, 0);
    law_cache_within_budget(sz, bytes as int, 0);
    let tail = kept.skip(e as int);
    let r = tail.push((key, bytes, doc));
    assert(admitted(s, key, bytes, doc) == r);
    lemma_other_requests(s, key);
    if e < kept.len() {
        lemma_entry_sizes_concat(tail, seq![(key, bytes, doc)]);
        assert(tail + seq![(key, bytes, doc)] == r);
        assert(entry_sizes(tail) == sz.skip(e as int));
        lemma_sum_concat(entry_sizes(tail), entry_sizes(seq![(key, bytes, doc)]), 0);
        lemma_sum_skip(sz, e, 0);
        assert(sum_from(entry_sizes(seq![(key, bytes, doc)]), 1) == 0);
        assert(sum_from(entry_sizes(seq![(key, bytes, doc)]), 0) == bytes);
    } else {
        assert(r.len() == 1);
    }
    if distinct_requests(s) {
        assert forall|a: int, b: int| 0 <= a < b < r.len() implies !same_request(#[trigger] r[a].0, #[trigger] r[b].0) by {
            assert(r[a] == kept[a + e]);
            if b == r.len() - 1 {
                assert(!same_request(kept[a + e].0, key));
            } else {
                assert(r[b] == kept[b + e]);
            }
        }
    }
}

proof fn lemma_touch_within_limits<D>(s: Seq<EntryView<D>>, i: int)
    requires
        within_limits(s),
        0 <= i < s.len(),
    ensures
        within_limits(s.remove(i).push(s[i])),
{
    let t = s.remove(i).push(s[i]);
    let a = s.take(i);
    let b = s.skip(i + 1);
    assert(s == a + seq![s[i]] + b);
    assert(t == a + b + seq![s[i]]);
    lemma_entry_sizes_concat(a + seq![s[i]], b);
    lemma_entry_sizes_concat(a, seq![s[i]]);
    lemma_entry_sizes_concat(a + b, seq![s[i]]);
    lemma_entry_sizes_concat(a, b);
    let (za, zx, zb) = (entry_sizes(a), entry_sizes(seq![s[i]]), entry_sizes(b));
    lemma_sum_concat(za + zx, zb, 0);
    lemma_sum_concat(za, zx, 0);
    lemma_sum_concat(za + zb, zx, 0);
    lemma_sum_concat(za, zb, 0);
    assert forall|p: int, q: int| 0 <= p < q < t.len() implies !same_request(#[trigger] t[p].0, #[trigger] t[q].0) by {
        let sp = if p < i { p } else if p < t.len() - 1 { p + 1 } else { i };
        let sq = if q < i { q } else if q < t.len() - 1 { q + 1 } else { i };
        assert(t[p] == s[sp] && t[q] == s[sq]);
        assert(sp != sq);
        if sp < sq {
            assert(!same_request(s[sp].0, s[sq].0));
        } else {
            assert(!same_request(s[sq].0, s[sp].0));
        }
    }
}

impl<D> DiffCache<D> {
    /// The entries, oldest use first.
    pub closed spec fn entries(&self) -> Seq<EntryView<D>> {
        self.entries@.map_values(|e: (CacheKey, usize, D)| (e.0@, e.1, e.2))
    }

    /// An empty cache.
    pub fn new() -> (r: Self)
        ensures
            r.entries().len() == 0,
            within_limits(r.entries()),
    {
        let r = DiffCache { entries: Vec::new() };
        assert(r.entries() =~= Seq::<EntryView<D>>::empty());
        r
    }

    /// Number of cached documents.
    pub fn len(&self) -> (r: usize)
        ensures
            r == self.entries().len(),
    {
        self.entries.len()
    }

    /// Position of the entry loaded for exactly `key` (request, `HEAD` and
    /// stamp), if any.
    pub fn find(&self, key: &CacheKey) -> (r: Option<usize>)
        ensures
            r == (if first_with_key(self.entries(), key@) < 0 {
                None::<usize>
            } else {
                Some(first_with_key(self.entries(), key@) as usize)
            }),
    {
        let ghost s = self.entries();
        proof {
            lemma_first_with_key(s, key@);
        }
        let mut i: usize = 0;
        while i < self.entries.len()
            invariant
                s == self.entries(),
                i <= s.len(),
                -1 <= first_with_key(s, key@) < s.len(),
                first_with_key(s, key@) >= 0 ==> s[first_with_key(s, key@)].0 == key@,
                forall|j: int| 0 <= j < s.len() && (first_with_key(s, key@) < 0 || j < first_with_key(s, key@)) ==> (#[trigger] s[j]).0 != key@,
                forall|j: int| 0 <= j < i ==> (#[trigger] s[j]).0 != key@,
            decreases s.len() - i,
        {
            assert(s[i as int] == (self.entries@[i as int].0@, self.entries@[i as int].1, self.entries@[i as int].2));
            if key_matches(&self.entries[i].0, key) {
                return Some(i);
            }
            i = i + 1;
        }
        None
    }

    /// The document of entry `i`.
    pub fn document(&self, i: usize) -> (r: &D)
        requires
            i < self.entries().len(),
        ensures
            *r == self.entries()[i as int].2,
    {
        &self.entries[i].2
    }

    /// Marks entry `i` as the most recently used: it moves to the back.
    pub fn touch(&mut self, i: usize)
        requires
            i < old(self).entries().len(),
        ensures
            final(self).entries() == old(self).entries().remove(i as int).push(old(self).entries()[i as int]),
            within_limits(old(self).entries()) ==> within_limits(final(self).entries()),
    {
        let e = self.entries.remove(i);
        self.entries.push(e);
        assert(self.entries() =~= old(self).entries().remove(i as int).push(old(self).entries()[i as int]));
        proof {
            if within_limits(old(self).entries()) {
                lemma_touch_within_limits(old(self).entries(), i as int);
            }
        }
    }

    /// Adds `doc`, of `bytes` bytes, loaded for `key`: the entries of the
    /// same request leave, the oldest others are dropped while the cache
    /// would exceed its file count or byte budget, and the new entry becomes
    /// the most recent, even when it alone exceeds the budget.
    pub fn insert(&mut self, key: CacheKey, bytes: usize, doc: D)
        ensures
            final(self).entries() == admitted(old(self).entries(), key@, bytes, doc),
            final(self).entries().len() <= CACHE_FILES,
            final(self).entries().len() <= 1 || total_bytes(final(self).entries()) <= CACHE_BYTES,
            within_limits(old(self).entries()) ==> within_limits(final(self).entries()),
    {
        proof {
            lemma_admitted_within_limits(self.entries(), key@, bytes, doc);
        }
        let ghost orig = self.entries();
        let ghost kv = key@;
        let mut rest: Vec<(CacheKey, usize, D)> = Vec::new();
        std::mem::swap(&mut rest, &mut self.entries);
        let mut kept: Vec<(CacheKey, usize, D)> = Vec::new();
        assert(kept@.map_values(|e: (CacheKey, usize, D)| (e.0@, e.1, e.2)) + other_requests(
            rest@.map_values(|e: (CacheKey, usize, D)| (e.0@, e.1, e.2)), kv) =~= other_requests(orig, kv));
        while rest.len() > 0
            invariant
                kv == key@,
                kept@.map_values(|e: (CacheKey, usize, D)| (e.0@, e.1, e.2)) + other_requests(
                    rest@.map_values(|e: (CacheKey, usize, D)| (e.0@, e.1, e.2)), kv) == other_requests(orig, kv),
            decreases rest@.len(),
        {
            let ghost rv = rest@.map_values(|e: (CacheKey, usize, D)| (e.0@, e.1, e.2));
            let ghost before = kept@.map_values(|e: (CacheKey, usize, D)| (e.0@, e.1, e.2));
            let e = rest.remove(0);
            assert(rest@.map_values(|e: (CacheKey, usize, D)| (e.0@, e.1, e.2)) =~= rv.drop_first());
            if !request_matches(&e.0, &key) {
                kept.push(e);
                assert(kept@.map_values(|e: (CacheKey, usize, D)| (e.0@, e.1, e.2)) =~= before.push(rv[0]));
                assert(before.push(rv[0]) + other_requests(rv.drop_first(), kv) =~= before + other_requests(rv, kv));
            }
        }
        let ghost kv_seq = kept@.map_values(|e: (CacheKey, usize, D)| (e.0@, e.1, e.2));
        assert(kv_seq =~= other_requests(orig, kv));
        let mut sizes: Vec<usize> = Vec::new();
        let mut j: usize = 0;
        while j < kept.len()
            invariant
                j <= kept@.len(),
                kv_seq == kept@.map_values(|e: (CacheKey, usize, D)| (e.0@, e.1, e.2)),
                sizes@ == entry_sizes(kv_seq).take(j as int),
            decreases kept@.len() - j,
        {
            sizes.push(kept[j].1);
            assert(sizes@ =~= entry_sizes(kv_seq).take(j + 1));
            j = j + 1;
        }
        assert(sizes@ =~= entry_sizes(kv_seq));
        let drop = cache_evictions(sizes.as_slice(), bytes);
        proof {
            lemma_evictions_bound(entry_sizes(kv_seq), bytes as int, 0);
        }
        let mut d: usize = 0;
        while d < drop
            invariant
                d <= drop <= kv_seq.len(),
                kept@.map_values(|e: (CacheKey, usize, D)| (e.0@, e.1, e.2)) == kv_seq.skip(d as int),
            decreases drop - d,
        {
            let ghost before = kept@.map_values(|e: (CacheKey, usize, D)| (e.0@, e.1, e.2));
            assert(before.len() == kept@.len());
            let ghost kb = kept@;
            kept.remove(0);
            assert(kept@ =~= kb.drop_first());
            assert(kept@.map_values(|e: (CacheKey, usize, D)| (e.0@, e.1, e.2)) =~= before.drop_first());
            assert(kv_seq.skip(d as int).drop_first() =~= kv_seq.skip(d + 1));
            d = d + 1;
        }
        let ghost before = kept@.map_values(|e: (CacheKey, usize, D)| (e.0@, e.1, e.2));
        kept.push((key, bytes, doc));
        self.entries = kept;
        assert(self.entries() =~= before.push((kv, bytes, doc)));
    }
}

} // verus!
