//! Discover (arXiv) logic: the cache keys of feed and search pages, the
//! on-disk feed cache's paths, expiry and pruning plan, the query strings
//! sent for a feed or a search, the file names of a download and the
//! pagination state of the background worker.

use vstd::prelude::*;
use vstd::relations::{sorted_by, total_ordering};
use vstd::seq_lib::{group_to_multiset_ensures, lemma_sorted_unique};

use crate::strings::{
    chars_of, char_is_alphanumeric, texts, trim_chars, trim_spec, decimal, is_alnum, push_char, push_chars, push_decimal, push_str_chars,
};

verus! {

/// Lexicographic order on character sequences, by code point. This is the
/// order of `String`'s `Ord` (UTF-8 byte order agrees with code-point
/// order), a prefix coming first.
pub open spec fn text_le(a: Seq<char>, b: Seq<char>) -> bool
    decreases a.len(),
{
    if a.len() == 0 {
        true
    } else if b.len() == 0 {
        false
    } else if a[0] != b[0] {
        a[0] < b[0]
    } else {
        text_le(a.drop_first(), b.drop_first())
    }
}

/// `text_le` as a relation.
pub open spec fn text_order() -> spec_fn(Seq<char>, Seq<char>) -> bool {
    |a: Seq<char>, b: Seq<char>| text_le(a, b)
}

proof fn lemma_text_le_refl(a: Seq<char>)
    ensures
        text_le(a, a),
    decreases a.len(),
{
    if a.len() > 0 {
        lemma_text_le_refl(a.drop_first());
    }
}

proof fn lemma_text_le_antisym(a: Seq<char>, b: Seq<char>)
    requires
        text_le(a, b),
        text_le(b, a),
    ensures
        a == b,
    decreases a.len(),
{
    if a.len() == 0 {
        assert(b.len() == 0);
        assert(a =~= b);
    } else {
        assert(b.len() > 0);
        assert(a[0] == b[0]);
        lemma_text_le_antisym(a.drop_first(), b.drop_first());
        assert(a =~= seq![a[0]] + a.drop_first());
        assert(b =~= seq![b[0]] + b.drop_first());
    }
}

proof fn lemma_text_le_trans(a: Seq<char>, b: Seq<char>, c: Seq<char>)
    requires
        text_le(a, b),
        text_le(b, c),
    ensures
        text_le(a, c),
    decreases a.len(),
{
    if a.len() > 0 && b.len() > 0 && c.len() > 0 {
        if a[0] == b[0] && b[0] == c[0] {
            lemma_text_le_trans(a.drop_first(), b.drop_first(), c.drop_first());
        }
    }
}

proof fn lemma_text_le_total(a: Seq<char>, b: Seq<char>)
    ensures
        text_le(a, b) || text_le(b, a),
    decreases a.len(),
{
    if a.len() > 0 && b.len() > 0 && a[0] == b[0] {
        lemma_text_le_total(a.drop_first(), b.drop_first());
    }
}

/// `text_le` is a total order.
pub proof fn lemma_text_order_total()
    ensures
        total_ordering(text_order()),
{
    let r = text_order();
    assert forall|a: Seq<char>| #[trigger] r(a, a) by {
        lemma_text_le_refl(a);
    }
    assert forall|a: Seq<char>, b: Seq<char>| #[trigger] r(a, b) && #[trigger] r(b, a) implies a
        == b by {
        lemma_text_le_antisym(a, b);
    }
    assert forall|a: Seq<char>, b: Seq<char>, c: Seq<char>| #[trigger] r(a, b) && #[trigger] r(
        b,
        c,
    ) implies r(a, c) by {
        lemma_text_le_trans(a, b, c);
    }
    assert forall|a: Seq<char>, b: Seq<char>| #[trigger] r(a, b) || #[trigger] r(b, a) by {
        lemma_text_le_total(a, b);
    }
}

/// `text_le` on two character slices.
fn text_le_exec(a: &[char], b: &[char]) -> (r: bool)
    ensures
        r == text_le(a@, b@),
{
    let na = a.len();
    let nb = b.len();
    let mut i: usize = 0;
    proof {
        assert(a@.skip(0) =~= a@);
        assert(b@.skip(0) =~= b@);
    }
    while i < na && i < nb && a[i] == b[i]
        invariant
            na == a@.len(),
            nb == b@.len(),
            i <= na,
            i <= nb,
            text_le(a@, b@) == text_le(a@.skip(i as int), b@.skip(i as int)),
        decreases na - i,
    {
        proof {
            assert(a@.skip(i as int).drop_first() =~= a@.skip(i as int + 1));
            assert(b@.skip(i as int).drop_first() =~= b@.skip(i as int + 1));
        }
        i = i + 1;
    }
    if i == na {
        true
    } else if i == nb {
        false
    } else {
        proof {
            assert(a@.skip(i as int)[0] == a@[i as int]);
            assert(b@.skip(i as int)[0] == b@[i as int]);
        }
        a[i] < b[i]
    }
}

/// `parts` joined with `sep` between consecutive parts.
pub open spec fn join_with(parts: Seq<Seq<char>>, sep: Seq<char>) -> Seq<char>
    decreases parts.len(),
{
    if parts.len() == 0 {
        Seq::empty()
    } else if parts.len() == 1 {
        parts[0]
    } else {
        join_with(parts.drop_last(), sep) + sep + parts.last()
    }
}

/// Position at which `t` goes into the sorted `v`: after every element
/// not above it.
fn insert_pos(v: &Vec<Vec<char>>, t: &Vec<char>, Ghost(g): Ghost<Seq<Seq<char>>>) -> (p: usize)
    requires
        v@.len() == g.len(),
        forall|k: int| 0 <= k < g.len() ==> (#[trigger] v@[k])@ == g[k],
        sorted_by(g, text_order()),
        total_ordering(text_order()),
    ensures
        p <= g.len(),
        forall|k: int| 0 <= k < p ==> text_le(#[trigger] g[k], t@),
        forall|k: int| p <= k < g.len() ==> text_le(t@, #[trigger] g[k]) && g[k] != t@,
{
    let n = v.len();
    let mut p: usize = 0;
    while p < n && text_le_exec(v[p].as_slice(), t.as_slice())
        invariant
            n == g.len(),
            v@.len() == g.len(),
            forall|k: int| 0 <= k < g.len() ==> (#[trigger] v@[k])@ == g[k],
            p <= n,
            forall|k: int| 0 <= k < p ==> text_le(#[trigger] g[k], t@),
        decreases n - p,
    {
        p = p + 1;
    }
    proof {
        if p < n {
            let r = text_order();
            assert(!text_le(g[p as int], t@));
            assert forall|k: int| p <= k < g.len() implies text_le(t@, #[trigger] g[k]) && g[k]
                != t@ by {
                if k > p {
                    assert(r(g[p as int], g[k]));
                    if text_le(g[k], t@) {
                        assert(r(g[k], t@));
                        assert(r(g[p as int], t@));
                    }
                }
                assert(r(g[k], t@) || r(t@, g[k]));
                if g[k] == t@ {
                    assert(r(t@, t@));
                }
            }
        }
    }
    p
}

/// The strings of `cats` as character vectors, sorted by `text_le`.
fn sorted_texts(cats: &[String]) -> (r: Vec<Vec<char>>)
    ensures
        r@.len() == cats@.len(),
        forall|k: int|
            0 <= k < r@.len() ==> (#[trigger] r@[k])@ == texts(cats@).sort_by(text_order())[k],
{
    let ghost src = texts(cats@);
    let n = cats.len();
    let mut v: Vec<Vec<char>> = Vec::new();
    let ghost mut g: Seq<Seq<char>> = Seq::empty();
    proof {
        lemma_text_order_total();
        broadcast use group_to_multiset_ensures;
        assert(src.take(0) =~= Seq::<Seq<char>>::empty());
    }
    let mut i: usize = 0;
    while i < n
        invariant
            n == cats@.len(),
            src == texts(cats@),
            i <= n,
            v@.len() == g.len(),
            g.len() == i,
            forall|k: int| 0 <= k < g.len() ==> (#[trigger] v@[k])@ == g[k],
            sorted_by(g, text_order()),
            total_ordering(text_order()),
            g.to_multiset() == src.take(i as int).to_multiset(),
        decreases n - i,
    {
        let t = chars_of(cats[i].as_str());
        let p = insert_pos(&v, &t, Ghost(g));
        let ghost g2 = g.insert(p as int, t@);
        let ghost vold = v@;
        v.insert(p, t);
        proof {
            broadcast use group_to_multiset_ensures;
            let r = text_order();
            assert forall|k: int| 0 <= k < g2.len() implies (#[trigger] v@[k])@ == g2[k] by {
                if k < p {
                } else if k == p {
                } else {
                    assert(v@[k] == vold[k - 1]);
                }
            }
            assert forall|a: int, b: int| 0 <= a < b < g2.len() implies #[trigger] r(
                g2[a],
                g2[b],
            ) by {
                if b < p {
                    assert(r(g[a], g[b]));
                } else if b == p {
                    assert(text_le(g[a], t@));
                } else if a < p {
                    assert(text_le(g[a], t@));
                    assert(text_le(t@, g[b - 1]));
                    assert(r(g[a], t@) && r(t@, g[b - 1]));
                } else if a == p {
                    assert(text_le(t@, g[b - 1]));
                } else {
                    assert(r(g[a - 1], g[b - 1]));
                }
            }
            assert(src.take(i as int + 1) =~= src.take(i as int).push(src[i as int]));
            assert(src[i as int] == cats@[i as int]@);
            g = g2;
        }
        i = i + 1;
    }
    proof {
        assert(src.take(n as int) =~= src);
        src.lemma_sort_by_ensures(text_order());
        lemma_sorted_unique(g, src.sort_by(text_order()), text_order());
    }
    v
}

/// Cache key of a feed page: `feed_<categories sorted and joined with
/// ','>_start_<start>`.
pub open spec fn feed_key(cats: Seq<Seq<char>>, start: nat) -> Seq<char> {
    seq!['f', 'e', 'e', 'd', '_'] + join_with(cats.sort_by(text_order()), seq![','])
        + seq!['_', 's', 't', 'a', 'r', 't', '_'] + decimal(start)
}

/// Deterministic cache key of a feed page for the categories `cats` from
/// offset `start`: the same for every order of the categories.
pub fn feed_cache_key(cats: &[String], start: usize) -> (key: String)
    ensures
        key@ == feed_key(texts(cats@), start as nat),
{
    let sorted = sorted_texts(cats);
    let ghost parts = texts(cats@).sort_by(text_order());
    proof {
        lemma_text_order_total();
        texts(cats@).lemma_sort_by_ensures(text_order());
        broadcast use group_to_multiset_ensures;
        assert(parts.to_multiset().len() == texts(cats@).to_multiset().len());
        assert(parts.len() == texts(cats@).len());
    }
    let mut key = String::new();
    push_str_chars(&mut key, "feed_");
    let ghost head = key@;
    let n = sorted.len();
    let mut k: usize = 0;
    while k < n
        invariant
            n == sorted@.len(),
            n == parts.len(),
            forall|j: int| 0 <= j < n ==> (#[trigger] sorted@[j])@ == parts[j],
            k <= n,
            key@ == head + join_with(parts.take(k as int), seq![',']),
        decreases n - k,
    {
        if k > 0 {
            push_char(&mut key, ',');
        }
        push_chars(&mut key, sorted[k].as_slice());
        proof {
            let t = parts.take(k as int + 1);
            assert(t.drop_last() =~= parts.take(k as int));
            if k == 0 {
                assert(parts.take(0) =~= Seq::<Seq<char>>::empty());
                assert(key@ =~= head + join_with(t, seq![',']));
            } else {
                assert(key@ =~= head + join_with(t, seq![',']));
            }
        }
        k = k + 1;
    }
    push_str_chars(&mut key, "_start_");
    push_decimal(&mut key, start);
    proof {
        reveal_strlit("feed_");
        reveal_strlit("_start_");
        assert(parts.take(n as int) =~= parts);
        assert(key@ =~= feed_key(texts(cats@), start as nat));
    }
    key
}

/// Feed keys do not depend on the order of the categories: two lists with
/// the same categories, each as often, give the same key.
pub proof fn law_feed_key_order_independent(a: Seq<Seq<char>>, b: Seq<Seq<char>>, start: nat)
    requires
        a.to_multiset() == b.to_multiset(),
    ensures
        feed_key(a, start) == feed_key(b, start),
{
    lemma_text_order_total();
    a.lemma_sort_by_ensures(text_order());
    b.lemma_sort_by_ensures(text_order());
    lemma_sorted_unique(a.sort_by(text_order()), b.sort_by(text_order()), text_order());
}

/// `query` with every character whose flag in `keep` is false replaced by
/// `'_'`.
pub open spec fn sanitize_with(query: Seq<char>, keep: Seq<bool>) -> Seq<char> {
    Seq::new(query.len(), |i: int| if keep[i] { query[i] } else { '_' })
}

/// Which characters of `query` are alphanumeric.
pub open spec fn alnum_flags(query: Seq<char>) -> Seq<bool> {
    query.map_values(|c: char| is_alnum(c))
}

/// `search_<query, each character that is not alphanumeric by its flag
/// replaced by '_'>_start_<start>`.
pub open spec fn search_key_from(query: Seq<char>, keep: Seq<bool>, start: nat) -> Seq<char> {
    seq!['s', 'e', 'a', 'r', 'c', 'h', '_'] + sanitize_with(query, keep) + seq![
        '_',
        's',
        't',
        'a',
        'r',
        't',
        '_',
    ] + decimal(start)
}

/// Cache key of a free-text search page: `search_<query with every
/// non-alphanumeric character replaced by '_'>_start_<start>`.
pub open spec fn search_key(query: Seq<char>, start: nat) -> Seq<char> {
    search_key_from(query, alnum_flags(query), start)
}

/// Search key of `query` from offset `start`, given for each character of
/// the query whether it is alphanumeric.
pub fn search_key_with(query: &str, keep: &[bool], start: usize) -> (key: String)
    requires
        keep@.len() == query@.len(),
    ensures
        key@ == search_key_from(query@, keep@, start as nat),
{
    let q = chars_of(query);
    let mut key = String::new();
    push_str_chars(&mut key, "search_");
    let ghost head = key@;
    let n = q.len();
    let mut i: usize = 0;
    while i < n
        invariant
            n == q@.len(),
            q@ == query@,
            keep@.len() == n,
            i <= n,
            key@ == head + sanitize_with(query@, keep@).take(i as int),
        decreases n - i,
    {
        if keep[i] {
            push_char(&mut key, q[i]);
        } else {
            push_char(&mut key, '_');
        }
        proof {
            assert(sanitize_with(query@, keep@).take(i as int + 1) =~= sanitize_with(
                query@,
                keep@,
            ).take(i as int).push(sanitize_with(query@, keep@)[i as int]));
        }
        i = i + 1;
    }
    push_str_chars(&mut key, "_start_");
    push_decimal(&mut key, start);
    proof {
        reveal_strlit("search_");
        reveal_strlit("_start_");
        assert(sanitize_with(query@, keep@).take(n as int) =~= sanitize_with(query@, keep@));
        assert(key@ =~= search_key_from(query@, keep@, start as nat));
    }
    key
}

/// Cache key of a free-text search page for `query` from offset `start`.
pub fn search_cache_key(query: &str, start: usize) -> (key: String)
    ensures
        key@ == search_key(query@, start as nat),
{
    let q = chars_of(query);
    let n = q.len();
    let mut keep: Vec<bool> = Vec::new();
    let mut i: usize = 0;
    while i < n
        invariant
            n == q@.len(),
            q@ == query@,
            i <= n,
            keep@ == alnum_flags(query@).take(i as int),
        decreases n - i,
    {
        let a = char_is_alphanumeric(q[i]);
        keep.push(a);
        proof {
            assert(alnum_flags(query@).take(i as int + 1) =~= alnum_flags(query@).take(
                i as int,
            ).push(a));
        }
        i = i + 1;
    }
    proof {
        assert(alnum_flags(query@).take(n as int) =~= alnum_flags(query@));
    }
    search_key_with(query, keep.as_slice(), start)
}

/// Size limit of the on-disk feed cache (4 MiB).
pub const FEED_CACHE_MAX_BYTES: u64 = 4194304;

/// Time to live of a feed cache entry, in seconds (10 minutes).
pub const FEED_CACHE_TTL_SECS: u64 = 600;

/// `a - b`, or 0 when `b > a`.
pub open spec fn sat_sub(a: u64, b: u64) -> u64 {
    if a >= b {
        (a - b) as u64
    } else {
        0
    }
}

/// `dir` joined with the relative or absolute file name `name`: an
/// absolute name replaces the directory; otherwise a `/` separates them
/// unless the directory is empty or already ends with one.
pub open spec fn joined_path(dir: Seq<char>, name: Seq<char>) -> Seq<char> {
    if name.len() > 0 && name[0] == '/' {
        name
    } else if dir.len() == 0 || dir.last() == '/' {
        dir + name
    } else {
        dir + seq!['/'] + name
    }
}

/// On-disk LRU cache of feed and search pages: one `<key>.json` file per
/// page in `dir`, at most `max_bytes` bytes in all, entries living
/// `ttl_secs` seconds.
pub struct FeedCache {
    pub dir: String,
    pub max_bytes: u64,
    pub ttl_secs: u64,
}

/// What pruning the cache directory does: delete the expired files, then,
/// while the rest exceeds the size limit, delete the oldest first.
pub struct PrunePlan {
    /// Files (by position in the listing) older than the time to live.
    pub expired: Vec<usize>,
    /// The other files, oldest modification first (ties by listing
    /// position); empty when their total fits the limit.
    pub evict_order: Vec<usize>,
    /// Bytes held by the files that are not expired.
    pub total: u64,
}

/// An entry stamped at `stamp` is stale at `now` when more than `ttl`
/// seconds have passed (a stamp in the future is fresh).
pub open spec fn stale(ttl: u64, now: u64, stamp: u64) -> bool {
    sat_sub(now, stamp) > ttl
}

/// Positions, among the first `n` files (`(length, mtime)` each), of
/// those that are stale (`want_stale`) or fresh (`!want_stale`), in order.
pub open spec fn files_where(
    files: Seq<(u64, u64)>,
    ttl: u64,
    now: u64,
    want_stale: bool,
    n: nat,
) -> Seq<usize>
    decreases n,
{
    if n == 0 {
        Seq::empty()
    } else {
        let p = files_where(files, ttl, now, want_stale, (n - 1) as nat);
        if stale(ttl, now, files[n - 1].1) == want_stale {
            p.push((n - 1) as usize)
        } else {
            p
        }
    }
}

/// Bytes of the fresh files among the first `n`.
pub open spec fn fresh_bytes(files: Seq<(u64, u64)>, ttl: u64, now: u64, n: nat) -> nat
    decreases n,
{
    if n == 0 {
        0
    } else {
        fresh_bytes(files, ttl, now, (n - 1) as nat) + if stale(ttl, now, files[n - 1].1) {
            0nat
        } else {
            files[n - 1].0 as nat
        }
    }
}

/// Bytes of the first `n` files.
pub open spec fn all_bytes(files: Seq<(u64, u64)>, n: nat) -> nat
    decreases n,
{
    if n == 0 {
        0
    } else {
        all_bytes(files, (n - 1) as nat) + files[n - 1].0 as nat
    }
}

/// Eviction order: file `i` goes before file `j` when it is older, or as
/// old and listed earlier.
pub open spec fn by_age(files: Seq<(u64, u64)>) -> spec_fn(usize, usize) -> bool {
    |i: usize, j: usize|
        files[i as int].1 < files[j as int].1 || (files[i as int].1 == files[j as int].1 && i <= j)
}

proof fn lemma_by_age_total(files: Seq<(u64, u64)>)
    ensures
        total_ordering(by_age(files)),
{
}

proof fn lemma_fresh_le_all(files: Seq<(u64, u64)>, ttl: u64, now: u64, n: nat)
    requires
        n <= files.len(),
    ensures
        fresh_bytes(files, ttl, now, n) <= all_bytes(files, n),
    decreases n,
{
    if n > 0 {
        lemma_fresh_le_all(files, ttl, now, (n - 1) as nat);
    }
}

proof fn lemma_files_where_below(files: Seq<(u64, u64)>, ttl: u64, now: u64, want: bool, n: nat)
    requires
        n <= usize::MAX,
    ensures
        forall|k: int|
            0 <= k < files_where(files, ttl, now, want, n).len() ==> #[trigger] files_where(
                files,
                ttl,
                now,
                want,
                n,
            )[k] < n,
    decreases n,
{
    if n > 0 {
        let p = files_where(files, ttl, now, want, (n - 1) as nat);
        lemma_files_where_below(files, ttl, now, want, (n - 1) as nat);
        let s = files_where(files, ttl, now, want, n);
        assert forall|k: int| 0 <= k < s.len() implies #[trigger] s[k] < n by {
            if k < p.len() {
                assert(s[k] == p[k]);
            }
        }
    }
}

impl FeedCache {
    /// A cache in `dir` with the standard limits.
    pub fn new(dir: String) -> (c: Self)
        ensures
            c.dir@ == dir@,
            c.max_bytes == FEED_CACHE_MAX_BYTES,
            c.ttl_secs == FEED_CACHE_TTL_SECS,
    {
        FeedCache { dir, max_bytes: FEED_CACHE_MAX_BYTES, ttl_secs: FEED_CACHE_TTL_SECS }
    }

    /// Path of the file that holds the page under `key`: `<dir>/<key>.json`.
    pub fn file_path(&self, key: &str) -> (p: String)
        ensures
            p@ == joined_path(self.dir@, key@ + seq!['.', 'j', 's', 'o', 'n']),
    {
        let mut name = String::new();
        push_str_chars(&mut name, key);
        push_str_chars(&mut name, ".json");
        proof {
            reveal_strlit(".json");
        }
        let d = chars_of(self.dir.as_str());
        let nm = chars_of(name.as_str());
        if nm.len() > 0 && nm[0] == '/' {
            return name;
        }
        let mut p = String::new();
        push_chars(&mut p, d.as_slice());
        if d.len() > 0 && d[d.len() - 1] != '/' {
            push_char(&mut p, '/');
        }
        push_chars(&mut p, nm.as_slice());
        p
    }

    /// Whether an entry stamped at `stamp` (seconds since the epoch) has
    /// outlived the time to live at `now`.
    pub fn is_expired(&self, now: u64, stamp: u64) -> (r: bool)
        ensures
            r == stale(self.ttl_secs, now, stamp),
    {
        now.saturating_sub(stamp) > self.ttl_secs
    }

    /// Whether `total` bytes exceed the cache's limit.
    pub fn over_budget(&self, total: u64) -> (r: bool)
        ensures
            r == (total > self.max_bytes),
    {
        total > self.max_bytes
    }

    /// Plans the pruning of the cache directory at `now`, given each
    /// `.json` file's `(length, modification time)` in listing order.
    pub fn plan_prune(&self, now: u64, files: &[(u64, u64)]) -> (plan: PrunePlan)
        requires
            all_bytes(files@, files@.len()) <= u64::MAX,
        ensures
            plan.expired@ == files_where(files@, self.ttl_secs, now, true, files@.len()),
            plan.total == fresh_bytes(files@, self.ttl_secs, now, files@.len()),
            plan.total <= self.max_bytes ==> plan.evict_order@.len() == 0,
            plan.total > self.max_bytes ==> {
                &&& sorted_by(plan.evict_order@, by_age(files@))
                &&& plan.evict_order@.to_multiset() == files_where(
                    files@,
                    self.ttl_secs,
                    now,
                    false,
                    files@.len(),
                ).to_multiset()
            },
    {
        let n = files.len();
        let ttl = self.ttl_secs;
        let mut expired: Vec<usize> = Vec::new();
        let mut kept: Vec<usize> = Vec::new();
        let mut total: u64 = 0;
        let mut i: usize = 0;
        while i < n
            invariant
                n == files@.len(),
                ttl == self.ttl_secs,
                i <= n,
                all_bytes(files@, n as nat) <= u64::MAX,
                expired@ == files_where(files@, ttl, now, true, i as nat),
                kept@ == files_where(files@, ttl, now, false, i as nat),
                total == fresh_bytes(files@, ttl, now, i as nat),
            decreases n - i,
        {
            proof {
                lemma_fresh_le_all(files@, ttl, now, (i + 1) as nat);
                lemma_all_bytes_mono(files@, (i + 1) as nat, n as nat);
            }
            let (len, mtime) = files[i];
            if self.is_expired(now, mtime) {
                expired.push(i);
            } else {
                total = total + len;
                kept.push(i);
            }
            i = i + 1;
        }
        let mut order: Vec<usize> = Vec::new();
        if total > self.max_bytes {
            proof {
                lemma_files_where_below(files@, ttl, now, false, n as nat);
            }
            order = sort_by_age(kept, files);
        }
        PrunePlan { expired, evict_order: order, total }
    }
}

proof fn lemma_all_bytes_mono(files: Seq<(u64, u64)>, a: nat, b: nat)
    requires
        a <= b,
    ensures
        all_bytes(files, a) <= all_bytes(files, b),
    decreases b,
{
    if a < b {
        lemma_all_bytes_mono(files, a, (b - 1) as nat);
    }
}

/// `by_age` on two listed files.
fn older_or_same(files: &[(u64, u64)], i: usize, j: usize) -> (r: bool)
    requires
        i < files@.len(),
        j < files@.len(),
    ensures
        r == by_age(files@)(i, j),
{
    let (_, mi) = files[i];
    let (_, mj) = files[j];
    mi < mj || (mi == mj && i <= j)
}

/// `ids` reordered oldest first (ties by position).
fn sort_by_age(ids: Vec<usize>, files: &[(u64, u64)]) -> (r: Vec<usize>)
    requires
        forall|k: int| 0 <= k < ids@.len() ==> #[trigger] ids@[k] < files@.len(),
    ensures
        sorted_by(r@, by_age(files@)),
        r@.to_multiset() == ids@.to_multiset(),
{
    let ghost ord = by_age(files@);
    proof {
        lemma_by_age_total(files@);
        broadcast use group_to_multiset_ensures;
        assert(ids@.take(0) =~= Seq::<usize>::empty());
    }
    let n = ids.len();
    let mut r: Vec<usize> = Vec::new();
    let mut i: usize = 0;
    while i < n
        invariant
            n == ids@.len(),
            ord == by_age(files@),
            total_ordering(ord),
            forall|k: int| 0 <= k < ids@.len() ==> #[trigger] ids@[k] < files@.len(),
            forall|k: int| 0 <= k < r@.len() ==> #[trigger] r@[k] < files@.len(),
            i <= n,
            sorted_by(r@, ord),
            r@.to_multiset() == ids@.take(i as int).to_multiset(),
        decreases n - i,
    {
        let x = ids[i];
        let m = r.len();
        let mut p: usize = 0;
        while p < m && older_or_same(files, r[p], x)
            invariant
                m == r@.len(),
                p <= m,
                x < files@.len(),
                forall|k: int| 0 <= k < r@.len() ==> #[trigger] r@[k] < files@.len(),
                forall|k: int| 0 <= k < p ==> ord(#[trigger] r@[k], x),
                ord == by_age(files@),
            decreases m - p,
        {
            p = p + 1;
        }
        proof {
            if p < m {
                assert(!ord(r@[p as int], x));
                assert forall|k: int| p <= k < m implies ord(x, #[trigger] r@[k]) by {
                    if k > p {
                        assert(ord(r@[p as int], r@[k]));
                        if ord(r@[k], x) {
                            assert(ord(r@[p as int], x));
                        }
                    }
                    assert(ord(r@[k], x) || ord(x, r@[k]));
                }
            }
        }
        let ghost old_r = r@;
        r.insert(p, x);
        proof {
            broadcast use group_to_multiset_ensures;
            assert forall|a: int, b: int| 0 <= a < b < r@.len() implies #[trigger] ord(
                r@[a],
                r@[b],
            ) by {
                if b < p {
                    assert(ord(old_r[a], old_r[b]));
                } else if b == p {
                } else if a < p {
                    assert(ord(old_r[a], x) && ord(x, old_r[b - 1]));
                } else if a == p {
                } else {
                    assert(ord(old_r[a - 1], old_r[b - 1]));
                }
            }
            assert(ids@.take(i as int + 1) =~= ids@.take(i as int).push(x));
        }
        i = i + 1;
    }
    proof {
        assert(ids@.take(n as int) =~= ids@);
    }
    r
}

/// Results asked for per page; a page this full means more may follow.
pub const PAGE_SIZE: usize = 25;

/// Whether a page of `count` results may have a successor.
pub fn has_more(count: usize) -> (r: bool)
    ensures
        r == (count >= PAGE_SIZE),
{
    count >= PAGE_SIZE
}

/// `"cat:" + c`.
pub open spec fn cat_term(c: Seq<char>) -> Seq<char> {
    seq!['c', 'a', 't', ':'] + c
}

/// The query used when no category is chosen.
pub open spec fn default_feed_query() -> Seq<char> {
    cat_term(seq!['c', 's', '.', 'A', 'I']) + seq![' ', 'O', 'R', ' '] + cat_term(
        seq!['c', 's', '.', 'L', 'G'],
    )
}

/// arXiv query of a feed: the categories as `cat:<c>` terms joined with
/// `" OR "`, or `cat:cs.AI OR cat:cs.LG` when there is none.
pub open spec fn feed_query_spec(cats: Seq<Seq<char>>) -> Seq<char> {
    if cats.len() == 0 {
        default_feed_query()
    } else {
        join_with(cats.map_values(|c: Seq<char>| cat_term(c)), seq![' ', 'O', 'R', ' '])
    }
}

/// The arXiv query string of a feed of the categories `cats`, in their
/// order.
pub fn feed_query(cats: &[String]) -> (q: String)
    ensures
        q@ == feed_query_spec(texts(cats@)),
{
    let mut q = String::new();
    let n = cats.len();
    if n == 0 {
        push_str_chars(&mut q, "cat:cs.AI OR cat:cs.LG");
        proof {
            reveal_strlit("cat:cs.AI OR cat:cs.LG");
            assert(q@ =~= default_feed_query());
        }
        return q;
    }
    let ghost terms = texts(cats@).map_values(|c: Seq<char>| cat_term(c));
    let mut k: usize = 0;
    while k < n
        invariant
            n == cats@.len(),
            terms == texts(cats@).map_values(|c: Seq<char>| cat_term(c)),
            k <= n,
            q@ == join_with(terms.take(k as int), seq![' ', 'O', 'R', ' ']),
        decreases n - k,
    {
        let ghost before = q@;
        if k > 0 {
            push_str_chars(&mut q, " OR ");
        }
        push_str_chars(&mut q, "cat:");
        push_str_chars(&mut q, cats[k].as_str());
        proof {
            reveal_strlit(" OR ");
            reveal_strlit("cat:");
            let t = terms.take(k as int + 1);
            assert(t.drop_last() =~= terms.take(k as int));
            assert(terms[k as int] == cat_term(cats@[k as int]@));
            if k == 0 {
                assert(terms.take(0) =~= Seq::<Seq<char>>::empty());
            }
            assert(q@ =~= join_with(t, seq![' ', 'O', 'R', ' ']));
        }
        k = k + 1;
    }
    proof {
        assert(terms.take(n as int) =~= terms);
    }
    q
}

/// arXiv query of a search: the text as is when it already holds a field
/// prefix (a `:`), else `all:<text>`.
pub open spec fn search_query_spec(text: Seq<char>) -> Seq<char> {
    if text.contains(':') {
        text
    } else {
        seq!['a', 'l', 'l', ':'] + text
    }
}

/// A search text that holds a `:` anywhere is already a field query and
/// is sent unchanged; any other text is searched in all fields, as
/// `all:<text>`. Either way the query holds a `:`, so turning a query into
/// a query again changes nothing.
pub proof fn law_search_query_field_prefix(text: Seq<char>)
    ensures
        (exists|j: int| 0 <= j < text.len() && text[j] == ':') ==> search_query_spec(text)
            == text,
        !(exists|j: int| 0 <= j < text.len() && text[j] == ':') ==> search_query_spec(text)
            == seq!['a', 'l', 'l', ':'] + text,
        search_query_spec(search_query_spec(text)) == search_query_spec(text),
{
    let q = search_query_spec(text);
    if !text.contains(':') {
        assert(q[3] == ':');
        assert(q.contains(':'));
    }
}

/// The arXiv query string of a search for `text`.
pub fn search_query(text: &str) -> (q: String)
    ensures
        q@ == search_query_spec(text@),
{
    let t = chars_of(text);
    let n = t.len();
    let mut i: usize = 0;
    let mut formatted = false;
    while i < n
        invariant
            n == t@.len(),
            t@ == text@,
            i <= n,
            formatted == exists|j: int| 0 <= j < i && t@[j] == ':',
        decreases n - i,
    {
        if t[i] == ':' {
            formatted = true;
        }
        i = i + 1;
    }
    let mut q = String::new();
    if !formatted {
        push_str_chars(&mut q, "all:");
        proof {
            reveal_strlit("all:");
        }
    }
    push_chars(&mut q, t.as_slice());
    q
}

/// The text of a search request: the request without white space at either
/// end, or `None` when nothing is left (such a request is ignored).
pub fn search_text(request: &str) -> (t: Option<String>)
    ensures
        t is None <==> trim_spec(request@).len() == 0,
        t matches Some(s) ==> s@ == trim_spec(request@),
{
    let c = chars_of(request);
    let tr = trim_chars(c.as_slice());
    if tr.len() == 0 {
        None
    } else {
        let mut s = String::new();
        push_chars(&mut s, tr.as_slice());
        Some(s)
    }
}

/// File name of a downloaded paper: `arxiv_<id with '/' as '_'>.pdf`.
pub open spec fn pdf_name_spec(id: Seq<char>) -> Seq<char> {
    seq!['a', 'r', 'x', 'i', 'v', '_'] + id.map_values(|c: char| if c == '/' { '_' } else { c })
        + seq!['.', 'p', 'd', 'f']
}

/// File name of the downloaded paper `id` (old-style ids hold a `/`).
pub fn pdf_file_name(id: &str) -> (name: String)
    ensures
        name@ == pdf_name_spec(id@),
{
    let c = chars_of(id);
    let n = c.len();
    let mut name = String::new();
    push_str_chars(&mut name, "arxiv_");
    let ghost head = name@;
    let ghost mapped = id@.map_values(|c: char| if c == '/' { '_' } else { c });
    let mut i: usize = 0;
    while i < n
        invariant
            n == c@.len(),
            c@ == id@,
            mapped == id@.map_values(|c: char| if c == '/' { '_' } else { c }),
            i <= n,
            name@ == head + mapped.take(i as int),
        decreases n - i,
    {
        if c[i] == '/' {
            push_char(&mut name, '_');
        } else {
            push_char(&mut name, c[i]);
        }
        proof {
            assert(mapped.take(i as int + 1) =~= mapped.take(i as int).push(mapped[i as int]));
        }
        i = i + 1;
    }
    push_str_chars(&mut name, ".pdf");
    proof {
        reveal_strlit("arxiv_");
        reveal_strlit(".pdf");
        assert(mapped.take(n as int) =~= mapped);
        assert(name@ =~= pdf_name_spec(id@));
    }
    name
}

/// Name of the partial file a download streams into before its atomic
/// rename: the final name followed by `.part`.
pub fn part_file_name(id: &str) -> (name: String)
    ensures
        name@ == pdf_name_spec(id@) + seq!['.', 'p', 'a', 'r', 't'],
{
    let mut name = pdf_file_name(id);
    push_str_chars(&mut name, ".part");
    proof {
        reveal_strlit(".part");
    }
    name
}

/// What a request for more results continues: nothing yet, the feed of
/// some categories, or a search; with the offset of the next page.
pub enum ActiveMode {
    Idle,
    Feed { cats: Vec<String>, start: usize },
    Search { query: String, start: usize },
}

/// Offset of the next page (0 when idle).
pub open spec fn mode_start(m: ActiveMode) -> usize {
    match m {
        ActiveMode::Idle => 0,
        ActiveMode::Feed { start, .. } => start,
        ActiveMode::Search { start, .. } => start,
    }
}

/// Cache key of the next page, if any.
pub open spec fn more_key_spec(m: ActiveMode) -> Option<Seq<char>> {
    match m {
        ActiveMode::Idle => None,
        ActiveMode::Feed { cats, start } => Some(feed_key(texts(cats@), start as nat)),
        ActiveMode::Search { query, start } => Some(search_key(query@, start as nat)),
    }
}

/// arXiv query of the next page, if any.
pub open spec fn more_query_spec(m: ActiveMode) -> Option<Seq<char>> {
    match m {
        ActiveMode::Idle => None,
        ActiveMode::Feed { cats, .. } => Some(feed_query_spec(texts(cats@))),
        ActiveMode::Search { query, .. } => Some(search_query_spec(query@)),
    }
}

impl ActiveMode {
    /// Offset of the next page (0 when idle).
    pub fn start(&self) -> (s: usize)
        ensures
            s == mode_start(*self),
    {
        match self {
            ActiveMode::Idle => 0,
            ActiveMode::Feed { start, .. } => *start,
            ActiveMode::Search { start, .. } => *start,
        }
    }

    /// Cache key of the next page; `None` when idle.
    pub fn more_key(&self) -> (k: Option<String>)
        ensures
            k is None <==> more_key_spec(*self) is None,
            k matches Some(s) ==> more_key_spec(*self) == Some(s@),
    {
        match self {
            ActiveMode::Idle => None,
            ActiveMode::Feed { cats, start } => Some(feed_cache_key(cats.as_slice(), *start)),
            ActiveMode::Search { query, start } => Some(search_cache_key(query.as_str(), *start)),
        }
    }

    /// arXiv query of the next page; `None` when idle.
    pub fn more_query(&self) -> (q: Option<String>)
        ensures
            q is None <==> more_query_spec(*self) is None,
            q matches Some(s) ==> more_query_spec(*self) == Some(s@),
    {
        match self {
            ActiveMode::Idle => None,
            ActiveMode::Feed { cats, .. } => Some(feed_query(cats.as_slice())),
            ActiveMode::Search { query, .. } => Some(search_query(query.as_str())),
        }
    }

    /// Moves past a page of `got` results (nothing happens when idle).
    pub fn advance(&mut self, got: usize)
        requires
            mode_start(*old(self)) + got <= usize::MAX,
        ensures
            mode_start(*final(self)) == if *old(self) is Idle {
                0
            } else {
                mode_start(*old(self)) + got
            },
            (*old(self) is Idle) ==> (*final(self) is Idle),
            (*old(self) is Feed) ==> (*final(self) is Feed && final(self)->Feed_cats@ == old(
                self,
            )->Feed_cats@),
            (*old(self) is Search) ==> (*final(self) is Search && final(self)->Search_query@
                == old(self)->Search_query@),
    {
        match self {
            ActiveMode::Idle => {},
            ActiveMode::Feed { start, .. } => {
                *start = *start + got;
            },
            ActiveMode::Search { start, .. } => {
                *start = *start + got;
            },
        }
    }
}

/// Kind of a command sent to the Discover worker.
#[derive(Clone, Copy, Debug, PartialEq, Eq, Structural)]
pub enum CmdKind {
    Feed,
    Search,
    More,
    Download,
    Cancel,
    Stop,
}

/// While the worker drains the commands queued behind the one it took, a
/// newer command replaces the current one; a stop or a cancel is taken at
/// once and ends the drain (the commands behind it stay queued).
pub fn ends_drain(kind: CmdKind) -> (r: bool)
    ensures
        r == (kind == CmdKind::Stop || kind == CmdKind::Cancel),
{
    match kind {
        CmdKind::Stop => true,
        CmdKind::Cancel => true,
        _ => false,
    }
}


/// A search key is `search_`, then the query with each character kept
/// when it is alphanumeric and `'_'` in its place otherwise, then
/// `_start_` and the offset in decimal.
pub proof fn law_search_key_sanitizes(query: Seq<char>, start: nat)
    ensures
        ({
            let k = search_key(query, start);
            &&& k.len() == 14 + query.len() + decimal(start).len()
            &&& k.take(7) == seq!['s', 'e', 'a', 'r', 'c', 'h', '_']
            &&& forall|i: int|
                0 <= i < query.len() ==> #[trigger] k[7 + i] == if is_alnum(query[i]) {
                    query[i]
                } else {
                    '_'
                }
            &&& k.subrange(7 + query.len() as int, 14 + query.len() as int) == seq![
                '_',
                's',
                't',
                'a',
                'r',
                't',
                '_',
            ]
            &&& k.skip(14 + query.len() as int) == decimal(start)
        }),
{
    let k = search_key(query, start);
    assert(k.take(7) =~= seq!['s', 'e', 'a', 'r', 'c', 'h', '_']);
    assert(k.subrange(7 + query.len() as int, 14 + query.len() as int) =~= seq!['_', 's', 't', 'a', 'r', 't', '_']);
    assert(k.skip(14 + query.len() as int) =~= decimal(start));
}

/// An entry stamped at `stamp` is expired at `now` exactly when more than
/// the time to live has passed since the stamp.
pub proof fn law_expiry_after_ttl(ttl: u64, now: u64, stamp: u64)
    ensures
        stale(ttl, now, stamp) <==> now as int - stamp as int > ttl as int,
{
}

/// The file name of a download is `arxiv_`, the id with every `/` turned
/// into `_` (other characters kept), then `.pdf`; it holds no `/`.
pub proof fn law_pdf_name_flattens_id(id: Seq<char>)
    ensures
        ({
            let n = pdf_name_spec(id);
            &&& n.len() == id.len() + 10
            &&& n.take(6) == seq!['a', 'r', 'x', 'i', 'v', '_']
            &&& n.skip(6 + id.len() as int) == seq!['.', 'p', 'd', 'f']
            &&& forall|i: int|
                0 <= i < id.len() ==> #[trigger] n[6 + i] == if id[i] == '/' {
                    '_'
                } else {
                    id[i]
                }
            &&& forall|j: int| 0 <= j < n.len() ==> #[trigger] n[j] != '/'
        }),
{
    let n = pdf_name_spec(id);
    assert(n.take(6) =~= seq!['a', 'r', 'x', 'i', 'v', '_']);
    assert(n.skip(6 + id.len() as int) =~= seq!['.', 'p', 'd', 'f']);
    assert forall|j: int| 0 <= j < n.len() implies #[trigger] n[j] != '/' by {
        if 6 <= j < 6 + id.len() {
            assert(n[j] == (if id[j - 6] == '/' { '_' } else { id[j - 6] }));
        }
    }
}


/// Pruning evicts oldest first: along an eviction order (as `plan_prune`
/// gives it), modification times never decrease, and files modified at
/// the same time go in listing order.
pub proof fn law_prune_oldest_first(files: Seq<(u64, u64)>, order: Seq<usize>)
    requires
        sorted_by(order, by_age(files)),
    ensures
        forall|i: int, j: int|
            0 <= i < j < order.len() ==> files[order[i] as int].1 <= files[order[j] as int].1,
        forall|i: int, j: int|
            0 <= i < j < order.len() && files[order[i] as int].1 == files[order[j] as int].1
                ==> order[i] <= order[j],
{
    assert forall|i: int, j: int| 0 <= i < j < order.len() implies files[order[i] as int].1
        <= files[order[j] as int].1 by {
        assert(by_age(files)(order[i], order[j]));
    }
    assert forall|i: int, j: int|
        0 <= i < j < order.len() && files[order[i] as int].1 == files[order[j] as int].1 implies order[i]
        <= order[j] by {
        assert(by_age(files)(order[i], order[j]));
    }
}


/// The query of a feed: `cat:cs.AI OR cat:cs.LG` without categories;
/// `cat:<c>` for one category; and one more category adds ` OR cat:<c>` at
/// the end of the query of the others.
pub proof fn law_feed_query_terms(cats: Seq<Seq<char>>)
    ensures
        cats.len() == 0 ==> feed_query_spec(cats) == seq![
            'c',
            'a',
            't',
            ':',
            'c',
            's',
            '.',
            'A',
            'I',
            ' ',
            'O',
            'R',
            ' ',
            'c',
            'a',
            't',
            ':',
            'c',
            's',
            '.',
            'L',
            'G',
        ],
        cats.len() == 1 ==> feed_query_spec(cats) == seq!['c', 'a', 't', ':'] + cats[0],
        cats.len() >= 2 ==> feed_query_spec(cats) == feed_query_spec(cats.drop_last()) + seq![
            ' ',
            'O',
            'R',
            ' ',
            'c',
            'a',
            't',
            ':',
        ] + cats.last(),
{
    let terms = cats.map_values(|c: Seq<char>| cat_term(c));
    if cats.len() == 0 {
        assert(default_feed_query() =~= seq![
            'c',
            'a',
            't',
            ':',
            'c',
            's',
            '.',
            'A',
            'I',
            ' ',
            'O',
            'R',
            ' ',
            'c',
            'a',
            't',
            ':',
            'c',
            's',
            '.',
            'L',
            'G',
        ]);
    }
    if cats.len() >= 2 {
        assert(terms.drop_last() =~= cats.drop_last().map_values(|c: Seq<char>| cat_term(c)));
        assert(join_with(terms, seq![' ', 'O', 'R', ' ']) == join_with(
            terms.drop_last(),
            seq![' ', 'O', 'R', ' '],
        ) + seq![' ', 'O', 'R', ' '] + terms.last());
        assert(seq![' ', 'O', 'R', ' '] + cat_term(cats.last()) =~= seq![
            ' ',
            'O',
            'R',
            ' ',
            'c',
            'a',
            't',
            ':',
        ] + cats.last());
        assert(join_with(terms.drop_last(), seq![' ', 'O', 'R', ' ']) + seq![' ', 'O', 'R', ' ']
            + terms.last() =~= join_with(terms.drop_last(), seq![' ', 'O', 'R', ' ']) + (seq![
            ' ',
            'O',
            'R',
            ' ',
        ] + cat_term(cats.last())));
    }
}

/// Categories already in order go into the key as given, joined with
/// `,`: `feed_<c1>,<c2>,…_start_<start>`.
pub proof fn law_feed_key_sorted_categories(cats: Seq<Seq<char>>, start: nat)
    requires
        forall|i: int, j: int| 0 <= i < j < cats.len() ==> text_le(cats[i], cats[j]),
    ensures
        feed_key(cats, start) == seq!['f', 'e', 'e', 'd', '_'] + join_with(cats, seq![',']) + seq![
            '_',
            's',
            't',
            'a',
            'r',
            't',
            '_',
        ] + decimal(start),
{
    lemma_text_order_total();
    cats.lemma_sort_by_ensures(text_order());
    assert(sorted_by(cats, text_order())) by {
        assert forall|i: int, j: int| 0 <= i < j < cats.len() implies #[trigger] text_order()(
            cats[i],
            cats[j],
        ) by {}
    }
    lemma_sorted_unique(cats.sort_by(text_order()), cats, text_order());
}

} // verus!
