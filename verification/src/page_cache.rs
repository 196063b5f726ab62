//! LRU cache of rendered pages (page index → cropped render) for the
//! single-sheet viewer.
//!
//! Policy: the key is the page index; every resident crop is rendered at the
//! same scale, so a change of zoom, window or document clears the cache.
//! `get` promotes the entry (real recency), `peek` does not. `insert`
//! evicts from the least recently used end only when the entry cap is
//! reached or when the bytes would exceed `byte_budget + EVICT_SLACK`
//! (deferred eviction); `trim_to_budget`, run from idle ticks, then trims to
//! the strict limits. A page larger than the whole budget evicts everything
//! and stays alone.

use std::collections::HashMap;
use std::collections::VecDeque;

use vstd::prelude::*;

use crate::bitmap::Bitmap;

verus! {

broadcast use {
    vstd::std_specs::hash::group_hash_axioms,
    vstd::std_specs::vecdeque::group_vec_dequeue_axioms,
};

/// Byte budget of the resident pages (48 MiB, about three window crops).
pub const CACHE_BYTE_BUDGET: usize = 50331648;

/// Cap on the number of resident pages.
pub const CACHE_MAX_ENTRIES: usize = 5;

/// Bytes over `CACHE_BYTE_BUDGET` that `insert` tolerates before evicting
/// (32 MiB): the renders of one page turn never free memory inside the
/// frame that presents the page; `trim_to_budget` collects the excess later.
pub const EVICT_SLACK: usize = 33554432;

/// Resident rendered page: the window crop of a full render plus the
/// geometry of that full render and the crop origin inside it.
pub struct CachedPage {
    /// Crop of the full render; its pixel (0, 0) is pixel
    /// (`crop_x`, `crop_y`) of the full render.
    pub bitmap: Bitmap,
    /// Width of the full render, in render pixels.
    pub full_w: u32,
    /// Height of the full render, in render pixels.
    pub full_h: u32,
    /// First column of the crop inside the full render.
    pub crop_x: u32,
    /// First row of the crop inside the full render.
    pub crop_y: u32,
}

/// Bytes taken by the bitmap of a cached page.
pub open spec fn page_bytes(c: CachedPage) -> nat {
    c.bitmap.width as nat * c.bitmap.height as nat * 4
}

/// Bytes of the pages named by `order`, read from `m`.
pub open spec fn sum_pages(order: Seq<u32>, m: Map<u32, CachedPage>) -> nat
    decreases order.len(),
{
    if order.len() == 0 {
        0
    } else {
        page_bytes(m[order[0]]) + sum_pages(order.drop_first(), m)
    }
}

/// `order` with `page` taken out (unchanged when `page` is absent).
pub open spec fn order_without(order: Seq<u32>, page: u32) -> Seq<u32> {
    if order.contains(page) {
        order.remove(order.index_of(page))
    } else {
        order
    }
}

/// Front evictions forced by the entry cap: entries leave while there are
/// `max` or more of them.
pub open spec fn entry_evictions(len: nat, max: nat) -> nat {
    if len < max {
        0
    } else if max == 0 {
        len
    } else {
        (len + 1 - max) as nat
    }
}

/// Front evictions forced by bytes: entries leave while the rest plus the
/// incoming page exceed `limit`.
pub open spec fn byte_evictions(order: Seq<u32>, m: Map<u32, CachedPage>, incoming: nat, limit: nat) -> nat
    decreases order.len(),
{
    if order.len() == 0 || sum_pages(order, m) + incoming <= limit {
        0
    } else {
        1 + byte_evictions(order.drop_first(), m, incoming, limit)
    }
}

/// Front evictions done by `insert` of `incoming` bytes for `page`.
pub open spec fn insert_evictions(
    order: Seq<u32>,
    m: Map<u32, CachedPage>,
    max: nat,
    limit: nat,
    page: u32,
    incoming: nat,
) -> nat {
    let o0 = order_without(order, page);
    let k1 = entry_evictions(o0.len(), max);
    k1 + byte_evictions(o0.skip(k1 as int), m, incoming, limit)
}

/// Recency order after `insert` of `page` (`incoming` bytes).
pub open spec fn order_after_insert(
    order: Seq<u32>,
    m: Map<u32, CachedPage>,
    max: nat,
    limit: nat,
    page: u32,
    incoming: nat,
) -> Seq<u32> {
    let o0 = order_without(order, page);
    o0.skip(insert_evictions(order, m, max, limit, page, incoming) as int).push(page)
}

/// Resident pages after `insert` of `cached` for `page`.
pub open spec fn pages_after_insert(
    order: Seq<u32>,
    m: Map<u32, CachedPage>,
    max: nat,
    limit: nat,
    page: u32,
    cached: CachedPage,
) -> Map<u32, CachedPage> {
    let o0 = order_without(order, page);
    let k = insert_evictions(order, m, max, limit, page, page_bytes(cached)) as int;
    m.remove_keys(o0.take(k).to_set()).insert(page, cached)
}

/// Front evictions done by `trim_to_budget`: entries leave while there are
/// more than `max` of them or their bytes exceed `budget`.
pub open spec fn trim_evictions(order: Seq<u32>, m: Map<u32, CachedPage>, max: nat, budget: nat) -> nat
    decreases order.len(),
{
    if order.len() == 0 || (order.len() <= max && sum_pages(order, m) <= budget) {
        0
    } else {
        1 + trim_evictions(order.drop_first(), m, max, budget)
    }
}

/// The sum only reads the pages named by the order.
pub proof fn lemma_sum_pages_agree(order: Seq<u32>, m1: Map<u32, CachedPage>, m2: Map<u32, CachedPage>)
    requires
        forall|i: int| 0 <= i < order.len() ==> m1[#[trigger] order[i]] == m2[order[i]],
    ensures
        sum_pages(order, m1) == sum_pages(order, m2),
    decreases order.len(),
{
    if order.len() > 0 {
        let t = order.drop_first();
        assert forall|i: int| 0 <= i < t.len() implies m1[#[trigger] t[i]] == m2[t[i]] by {
            assert(t[i] == order[i + 1]);
        }
        lemma_sum_pages_agree(t, m1, m2);
        assert(m1[order[0]] == m2[order[0]]);
    }
}

/// Summing distributes over concatenation.
pub proof fn lemma_sum_pages_add(a: Seq<u32>, b: Seq<u32>, m: Map<u32, CachedPage>)
    ensures
        sum_pages(a + b, m) == sum_pages(a, m) + sum_pages(b, m),
    decreases a.len(),
{
    if a.len() == 0 {
        assert(a + b =~= b);
    } else {
        lemma_sum_pages_add(a.drop_first(), b, m);
        assert((a + b).drop_first() =~= a.drop_first() + b);
    }
}

/// A one-element order sums to the bytes of that page.
pub proof fn lemma_sum_pages_single(p: u32, m: Map<u32, CachedPage>)
    ensures
        sum_pages(seq![p], m) == page_bytes(m[p]),
{
    assert(seq![p].drop_first() =~= Seq::<u32>::empty());
    assert(sum_pages(seq![p].drop_first(), m) == 0);
}

/// Appending a page adds its bytes.
pub proof fn lemma_sum_pages_push(order: Seq<u32>, p: u32, m: Map<u32, CachedPage>)
    ensures
        sum_pages(order.push(p), m) == sum_pages(order, m) + page_bytes(m[p]),
{
    assert(order.push(p) =~= order + seq![p]);
    lemma_sum_pages_add(order, seq![p], m);
    lemma_sum_pages_single(p, m);
}

/// Removing the page at `i` subtracts its bytes.
pub proof fn lemma_sum_pages_remove(order: Seq<u32>, i: int, m: Map<u32, CachedPage>)
    requires
        0 <= i < order.len(),
    ensures
        sum_pages(order.remove(i), m) + page_bytes(m[order[i]]) == sum_pages(order, m),
{
    let a = order.take(i);
    let b = order.skip(i + 1);
    assert(order =~= a + seq![order[i]] + b);
    assert(order.remove(i) =~= a + b);
    lemma_sum_pages_add(a, b, m);
    lemma_sum_pages_add(a + seq![order[i]], b, m);
    lemma_sum_pages_add(a, seq![order[i]], m);
    lemma_sum_pages_single(order[i], m);
}

/// Every page of the order weighs at most the sum.
pub proof fn lemma_sum_pages_elem(order: Seq<u32>, i: int, m: Map<u32, CachedPage>)
    requires
        0 <= i < order.len(),
    ensures
        page_bytes(m[order[i]]) <= sum_pages(order, m),
{
    lemma_sum_pages_remove(order, i, m);
}

/// `byte_evictions` is the least number of front evictions after which the
/// incoming page fits under `limit` (or nothing is left).
pub proof fn lemma_byte_evictions_unique(
    order: Seq<u32>,
    m: Map<u32, CachedPage>,
    incoming: nat,
    limit: nat,
    k: int,
)
    requires
        0 <= k <= order.len(),
        forall|j: int| 0 <= j < k ==> #[trigger] sum_pages(order.skip(j), m) + incoming > limit,
        sum_pages(order.skip(k), m) + incoming <= limit || k == order.len(),
    ensures
        k == byte_evictions(order, m, incoming, limit),
    decreases k,
{
    assert(order.skip(0) =~= order);
    if k > 0 {
        assert(sum_pages(order.skip(0), m) + incoming > limit);
        let t = order.drop_first();
        assert forall|j: int| 0 <= j < k - 1 implies #[trigger] sum_pages(t.skip(j), m) + incoming
            > limit by {
            assert(t.skip(j) =~= order.skip(j + 1));
            assert(sum_pages(order.skip(j + 1), m) + incoming > limit);
        }
        assert(t.skip(k - 1) =~= order.skip(k));
        lemma_byte_evictions_unique(t, m, incoming, limit, k - 1);
    }
}

/// Properties of `byte_evictions`: bounded by the length, evicts only while
/// the page does not fit, stops once it fits or nothing is left.
pub proof fn lemma_byte_evictions_props(order: Seq<u32>, m: Map<u32, CachedPage>, incoming: nat, limit: nat)
    ensures
        byte_evictions(order, m, incoming, limit) <= order.len(),
        forall|j: int|
            0 <= j < byte_evictions(order, m, incoming, limit) ==> #[trigger] sum_pages(
                order.skip(j),
                m,
            ) + incoming > limit,
        sum_pages(order.skip(byte_evictions(order, m, incoming, limit) as int), m) + incoming
            <= limit || byte_evictions(order, m, incoming, limit) == order.len(),
    decreases order.len(),
{
    let k = byte_evictions(order, m, incoming, limit);
    assert(order.skip(0) =~= order);
    if !(order.len() == 0 || sum_pages(order, m) + incoming <= limit) {
        let t = order.drop_first();
        lemma_byte_evictions_props(t, m, incoming, limit);
        assert forall|j: int| 0 <= j < k implies #[trigger] sum_pages(order.skip(j), m) + incoming
            > limit by {
            if j > 0 {
                assert(t.skip(j - 1) =~= order.skip(j));
            }
        }
        assert(t.skip(k - 1) =~= order.skip(k as int));
    }
}

/// `trim_evictions` is the least number of front evictions after which the
/// strict limits hold (or nothing is left).
pub proof fn lemma_trim_evictions_unique(
    order: Seq<u32>,
    m: Map<u32, CachedPage>,
    max: nat,
    budget: nat,
    k: int,
)
    requires
        0 <= k <= order.len(),
        forall|j: int|
            0 <= j < k ==> !(order.len() - j <= max && #[trigger] sum_pages(order.skip(j), m)
                <= budget),
        (order.len() - k <= max && sum_pages(order.skip(k), m) <= budget) || k == order.len(),
    ensures
        k == trim_evictions(order, m, max, budget),
    decreases k,
{
    assert(order.skip(0) =~= order);
    if k > 0 {
        assert(!(order.len() - 0 <= max && sum_pages(order.skip(0), m) <= budget));
        let t = order.drop_first();
        assert forall|j: int| 0 <= j < k - 1 implies !(t.len() - j <= max && #[trigger] sum_pages(
            t.skip(j),
            m,
        ) <= budget) by {
            assert(t.skip(j) =~= order.skip(j + 1));
            assert(!(order.len() - (j + 1) <= max && sum_pages(order.skip(j + 1), m) <= budget));
        }
        assert(t.skip(k - 1) =~= order.skip(k));
        lemma_trim_evictions_unique(t, m, max, budget, k - 1);
    }
}

/// Properties of `trim_evictions`.
pub proof fn lemma_trim_evictions_props(order: Seq<u32>, m: Map<u32, CachedPage>, max: nat, budget: nat)
    ensures
        trim_evictions(order, m, max, budget) <= order.len(),
        ({
            let k = trim_evictions(order, m, max, budget) as int;
            (order.len() - k <= max && sum_pages(order.skip(k), m) <= budget) || k == order.len()
        }),
    decreases order.len(),
{
    let k = trim_evictions(order, m, max, budget);
    assert(order.skip(0) =~= order);
    if !(order.len() == 0 || (order.len() <= max && sum_pages(order, m) <= budget)) {
        let t = order.drop_first();
        lemma_trim_evictions_props(t, m, max, budget);
        assert(t.skip(k - 1) =~= order.skip(k as int));
    }
}

/// The recency order names each resident page exactly once.
pub open spec fn well_shaped(order: Seq<u32>, m: Map<u32, CachedPage>) -> bool {
    order.no_duplicates() && m.dom() == order.to_set()
}

/// Recency order after `trim_to_budget`.
pub open spec fn order_after_trim(order: Seq<u32>, m: Map<u32, CachedPage>, max: nat, budget: nat) -> Seq<u32> {
    order.skip(trim_evictions(order, m, max, budget) as int)
}

/// Facts about `order_after_insert`/`pages_after_insert` shared by the
/// laws below.
proof fn lemma_insert_shape(
    order: Seq<u32>,
    m: Map<u32, CachedPage>,
    max: nat,
    limit: nat,
    page: u32,
    cached: CachedPage,
)
    requires
        well_shaped(order, m),
    ensures
        ({
            let o0 = order_without(order, page);
            let incoming = page_bytes(cached);
            let k1 = entry_evictions(o0.len(), max);
            let o1 = o0.skip(k1 as int);
            let k2 = byte_evictions(o1, m, incoming, limit);
            let k = insert_evictions(order, m, max, limit, page, incoming);
            let rest = o0.skip(k as int);
            let m2 = pages_after_insert(order, m, max, limit, page, cached);
            &&& k1 <= o0.len()
            &&& k2 <= o1.len()
            &&& k == k1 + k2
            &&& rest == o1.skip(k2 as int)
            &&& !rest.contains(page)
            &&& rest.no_duplicates()
            &&& (forall|i: int| 0 <= i < rest.len() ==> m2[#[trigger] rest[i]] == m[rest[i]])
            &&& (sum_pages(rest, m) + incoming <= limit || rest.len() == 0)
        }),
{
    let o0 = order_without(order, page);
    let incoming = page_bytes(cached);
    let k1 = entry_evictions(o0.len(), max);
    let o1 = o0.skip(k1 as int);
    let k2 = byte_evictions(o1, m, incoming, limit);
    lemma_byte_evictions_props(o1, m, incoming, limit);
    let k = k1 + k2;
    let rest = o0.skip(k as int);
    assert(rest =~= o1.skip(k2 as int));
    if order.contains(page) {
        let i = order.index_of(page);
        lemma_remove_push_set(order, i);
    }
    assert(o0.no_duplicates());
    assert(!o0.contains(page)) by {
        if order.contains(page) {
            let i = order.index_of(page);
            assert(o0.to_set() == order.to_set().remove(order[i]));
            if o0.contains(page) {
                assert(o0.to_set().contains(page));
            }
        }
    }
    assert forall|i: int| 0 <= i < rest.len() implies !o0.take(k as int).to_set().contains(
        #[trigger] rest[i],
    ) && rest[i] != page && m.dom().contains(rest[i]) by {
        if o0.take(k as int).contains(rest[i]) {
            let a = choose|a: int| 0 <= a < k && #[trigger] o0.take(k as int)[a] == rest[i];
            assert(o0[a] == o0[k + i]);
        }
        assert(o0.contains(rest[i]));
        assert(o0[k + i] == rest[i]);
        if order.contains(page) {
            let j = order.index_of(page);
            assert(o0.to_set() == order.to_set().remove(order[j]));
            assert(o0.to_set().contains(rest[i]));
        }
        assert(order.to_set().contains(rest[i]));
    }
    assert(rest.no_duplicates()) by {
        assert forall|a: int, b: int| 0 <= a < b < rest.len() implies rest[a] != rest[b] by {
            assert(rest[a] == o0[k + a]);
            assert(rest[b] == o0[k + b]);
        }
    }
    if k2 == o1.len() {
        assert(rest.len() == 0);
    }
}

/// Read after write: after `insert(page, cached)` the page is resident with
/// exactly `cached`, as the most recently used page (even when it is larger
/// than the whole budget).
pub proof fn law_insert_then_get(
    order: Seq<u32>,
    m: Map<u32, CachedPage>,
    max: nat,
    limit: nat,
    page: u32,
    cached: CachedPage,
)
    ensures
        pages_after_insert(order, m, max, limit, page, cached).contains_key(page),
        pages_after_insert(order, m, max, limit, page, cached)[page] == cached,
        order_after_insert(order, m, max, limit, page, page_bytes(cached)).last() == page,
{
}

/// Entry cap: with a cap of at least one page, `insert` never leaves more
/// than `max` pages resident.
pub proof fn law_insert_respects_entry_cap(
    order: Seq<u32>,
    m: Map<u32, CachedPage>,
    max: nat,
    limit: nat,
    page: u32,
    cached: CachedPage,
)
    requires
        well_shaped(order, m),
        max >= 1,
    ensures
        order_after_insert(order, m, max, limit, page, page_bytes(cached)).len() <= max,
{
    lemma_insert_shape(order, m, max, limit, page, cached);
}

/// Deferred eviction bound: after `insert` the resident bytes stay within
/// `limit` (= budget + slack), unless the new page is alone in the cache.
pub proof fn law_insert_within_limit_or_alone(
    order: Seq<u32>,
    m: Map<u32, CachedPage>,
    max: nat,
    limit: nat,
    page: u32,
    cached: CachedPage,
)
    requires
        well_shaped(order, m),
    ensures
        ({
            let o2 = order_after_insert(order, m, max, limit, page, page_bytes(cached));
            let m2 = pages_after_insert(order, m, max, limit, page, cached);
            sum_pages(o2, m2) <= limit || o2 == seq![page]
        }),
{
    lemma_insert_shape(order, m, max, limit, page, cached);
    let o0 = order_without(order, page);
    let k = insert_evictions(order, m, max, limit, page, page_bytes(cached));
    let rest = o0.skip(k as int);
    let m2 = pages_after_insert(order, m, max, limit, page, cached);
    lemma_sum_pages_agree(rest, m2, m);
    lemma_sum_pages_push(rest, page, m2);
    if rest.len() == 0 {
        assert(rest.push(page) =~= seq![page]);
    }
}

/// Without pressure nothing is evicted: inserting a new page into a cache
/// below its entry cap, whose bytes plus the page fit in `limit`, just adds
/// the page as the most recent one.
pub proof fn law_insert_without_pressure(
    order: Seq<u32>,
    m: Map<u32, CachedPage>,
    max: nat,
    limit: nat,
    page: u32,
    cached: CachedPage,
)
    requires
        well_shaped(order, m),
        !m.contains_key(page),
        order.len() + 1 <= max,
        sum_pages(order, m) + page_bytes(cached) <= limit,
    ensures
        order_after_insert(order, m, max, limit, page, page_bytes(cached)) == order.push(page),
        pages_after_insert(order, m, max, limit, page, cached) == m.insert(page, cached),
{
    assert(!order.contains(page)) by {
        if order.contains(page) {
            assert(order.to_set().contains(page));
        }
    }
    assert(order.skip(0) =~= order);
    assert(order.take(0).to_set() =~= Set::<u32>::empty());
    assert(m.remove_keys(Set::<u32>::empty()) =~= m);
}

/// Idle trimming reaches the strict limits: afterwards the cache holds at
/// most `max` pages and at most `budget` bytes, or is empty.
pub proof fn law_trim_reaches_limits(order: Seq<u32>, m: Map<u32, CachedPage>, max: nat, budget: nat)
    requires
        well_shaped(order, m),
    ensures
        ({
            let o2 = order_after_trim(order, m, max, budget);
            let k = trim_evictions(order, m, max, budget) as int;
            let m2 = m.remove_keys(order.take(k).to_set());
            (o2.len() <= max && sum_pages(o2, m2) <= budget) || o2.len() == 0
        }),
{
    let k = trim_evictions(order, m, max, budget) as int;
    lemma_trim_evictions_props(order, m, max, budget);
    lemma_prefix_agree(order, k, m);
    lemma_sum_pages_agree(order.skip(k), m.remove_keys(order.take(k).to_set()), m);
}

/// LRU cache of rendered pages, bounded by bytes and by number of entries.
pub struct PageCache {
    map: HashMap<u32, CachedPage>,
    /// Recency queue: the front is the least recently used page.
    lru: VecDeque<u32>,
    /// Bytes of all resident bitmaps.
    bytes: usize,
    byte_budget: usize,
    max_entries: usize,
    /// Monotone count of `insert` calls.
    insert_seq: u64,
}

impl PageCache {
    /// Resident pages by page index.
    pub closed spec fn pages_spec(&self) -> Map<u32, CachedPage> {
        self.map@
    }

    /// Page indices in recency order, least recently used first.
    pub closed spec fn order_spec(&self) -> Seq<u32> {
        self.lru@
    }

    /// The strict byte budget.
    pub closed spec fn byte_budget_spec(&self) -> nat {
        self.byte_budget as nat
    }

    /// The cap on resident pages.
    pub closed spec fn max_entries_spec(&self) -> nat {
        self.max_entries as nat
    }

    /// Number of `insert` calls so far.
    pub closed spec fn insert_count_spec(&self) -> nat {
        self.insert_seq as nat
    }

    /// Bytes of the resident pages.
    pub open spec fn resident_spec(&self) -> nat {
        sum_pages(self.order_spec(), self.pages_spec())
    }

    /// Internal consistency: the queue names each resident page once, and
    /// the byte counter is the sum of the resident bitmaps.
    pub closed spec fn wf(&self) -> bool {
        &&& self.lru@.no_duplicates()
        &&& self.map@.dom() == self.lru@.to_set()
        &&& self.bytes as nat == sum_pages(self.lru@, self.map@)
    }

    proof fn lemma_len(&self)
        requires
            self.wf(),
        ensures
            self.map@.len() == self.lru@.len(),
            self.map@.dom().finite(),
    {
        self.lru@.unique_seq_to_set();
    }

    /// The recency order names each resident page exactly once, and only
    /// resident pages.
    pub proof fn law_order_names_each_page_once(&self)
        requires
            self.wf(),
        ensures
            well_shaped(self.order_spec(), self.pages_spec()),
    {
    }

    /// Empty cache with the given limits.
    pub fn new(byte_budget: usize, max_entries: usize) -> (r: Self)
        ensures
            r.wf(),
            r.pages_spec() == Map::<u32, CachedPage>::empty(),
            r.order_spec() == Seq::<u32>::empty(),
            r.byte_budget_spec() == byte_budget,
            r.max_entries_spec() == max_entries,
            r.insert_count_spec() == 0,
    {
        let r = Self {
            map: HashMap::new(),
            lru: VecDeque::new(),
            bytes: 0,
            byte_budget,
            max_entries,
            insert_seq: 0,
        };
        assert(r.lru@.to_set() =~= Set::<u32>::empty());
        r
    }

    /// Position of `page` in the recency queue.
    fn lru_position(&self, page: u32) -> (r: Option<usize>)
        ensures
            match r {
                Some(i) => i < self.lru@.len() && self.lru@[i as int] == page,
                None => !self.lru@.contains(page),
            },
    {
        let mut i: usize = 0;
        while i < self.lru.len()
            invariant
                0 <= i <= self.lru@.len(),
                forall|j: int| 0 <= j < i ==> self.lru@[j] != page,
            decreases self.lru@.len() - i,
        {
            if self.lru[i] == page {
                return Some(i);
            }
            i += 1;
        }
        None
    }

    /// Moves `page` to the most recent end of the queue (no-op when absent).
    fn promote(&mut self, page: u32)
        requires
            old(self).wf(),
        ensures
            final(self).wf(),
            final(self).map@ == old(self).map@,
            final(self).lru@ == if old(self).lru@.contains(page) {
                order_without(old(self).lru@, page).push(page)
            } else {
                old(self).lru@
            },
            final(self).bytes == old(self).bytes,
            final(self).byte_budget == old(self).byte_budget,
            final(self).max_entries == old(self).max_entries,
            final(self).insert_seq == old(self).insert_seq,
    {
        if let Some(pos) = self.lru_position(page) {
            let ghost s = self.lru@;
            proof {
                lemma_unique_index(s, pos as int, page);
                lemma_sum_pages_remove(s, pos as int, self.map@);
                lemma_sum_pages_push(s.remove(pos as int), page, self.map@);
                lemma_remove_push_set(s, pos as int);
            }
            self.lru.remove(pos);
            self.lru.push_back(page);
        }
    }

    /// Evicts the least recently used page.
    fn evict_lru(&mut self)
        requires
            old(self).wf(),
            old(self).lru@.len() > 0,
        ensures
            final(self).wf(),
            final(self).lru@ == old(self).lru@.drop_first(),
            final(self).map@ == old(self).map@.remove(old(self).lru@[0]),
            final(self).byte_budget == old(self).byte_budget,
            final(self).max_entries == old(self).max_entries,
            final(self).insert_seq == old(self).insert_seq,
    {
        let ghost s = self.lru@;
        let ghost m = self.map@;
        proof {
            lemma_sum_pages_elem(s, 0, m);
            assert(s.contains(s[0]));
            assert(m.dom().contains(s[0]));
        }
        if let Some(victim) = self.lru.pop_front() {
            if let Some(cached) = self.map.remove(&victim) {
                let n = bitmap_bytes(&cached);
                self.bytes = self.bytes - n;
            }
            proof {
                assert(s.drop_first() =~= s.subrange(1, s.len() as int));
                lemma_drop_first_set(s);
                lemma_sum_pages_agree(s.drop_first(), m, self.map@);
            }
        }
    }

    /// Lookup that promotes the entry to most recently used.
    pub fn get(&mut self, page: u32) -> (r: Option<&CachedPage>)
        requires
            old(self).wf(),
        ensures
            final(self).wf(),
            final(self).pages_spec() == old(self).pages_spec(),
            final(self).order_spec() == if old(self).pages_spec().contains_key(page) {
                order_without(old(self).order_spec(), page).push(page)
            } else {
                old(self).order_spec()
            },
            final(self).byte_budget_spec() == old(self).byte_budget_spec(),
            final(self).max_entries_spec() == old(self).max_entries_spec(),
            final(self).insert_count_spec() == old(self).insert_count_spec(),
            match r {
                Some(c) => old(self).pages_spec().contains_key(page) && *c == old(
                    self,
                ).pages_spec()[page],
                None => !old(self).pages_spec().contains_key(page),
            },
    {
        if self.map.contains_key(&page) {
            proof {
                assert(self.lru@.to_set().contains(page));
            }
            self.promote(page);
        } else {
            proof {
                assert(!self.lru@.to_set().contains(page));
            }
        }
        self.map.get(&page)
    }

    /// Lookup without promotion.
    pub fn peek(&self, page: u32) -> (r: Option<&CachedPage>)
        ensures
            match r {
                Some(c) => self.pages_spec().contains_key(page) && *c == self.pages_spec()[page],
                None => !self.pages_spec().contains_key(page),
            },
    {
        self.map.get(&page)
    }

    /// Number of resident pages.
    pub fn len(&self) -> (r: usize)
        requires
            self.wf(),
        ensures
            r == self.pages_spec().len(),
            r == self.order_spec().len(),
    {
        proof {
            self.lemma_len();
        }
        self.map.len()
    }

    /// Bytes of all resident bitmaps.
    pub fn resident_bytes(&self) -> (r: usize)
        requires
            self.wf(),
        ensures
            r == self.resident_spec(),
    {
        self.bytes
    }

    /// Total number of `insert` calls.
    pub fn insert_count(&self) -> (r: u64)
        ensures
            r == self.insert_count_spec(),
    {
        self.insert_seq
    }

    /// Drops every page; the insert counter is kept.
    pub fn clear(&mut self)
        requires
            old(self).wf(),
        ensures
            final(self).wf(),
            final(self).pages_spec() == Map::<u32, CachedPage>::empty(),
            final(self).order_spec() == Seq::<u32>::empty(),
            final(self).byte_budget_spec() == old(self).byte_budget_spec(),
            final(self).max_entries_spec() == old(self).max_entries_spec(),
            final(self).insert_count_spec() == old(self).insert_count_spec(),
    {
        self.map.clear();
        self.lru.clear();
        self.bytes = 0;
        assert(self.lru@.to_set() =~= Set::<u32>::empty());
    }

    /// Trims to the strict limits (`max_entries` pages, `byte_budget`
    /// bytes) by evicting least recently used pages.
    pub fn trim_to_budget(&mut self)
        requires
            old(self).wf(),
        ensures
            final(self).wf(),
            ({
                let k = trim_evictions(
                    old(self).order_spec(),
                    old(self).pages_spec(),
                    old(self).max_entries_spec(),
                    old(self).byte_budget_spec(),
                ) as int;
                &&& final(self).order_spec() == order_after_trim(
                    old(self).order_spec(),
                    old(self).pages_spec(),
                    old(self).max_entries_spec(),
                    old(self).byte_budget_spec(),
                )
                &&& final(self).pages_spec() == old(self).pages_spec().remove_keys(
                    old(self).order_spec().take(k).to_set(),
                )
            }),
            final(self).byte_budget_spec() == old(self).byte_budget_spec(),
            final(self).max_entries_spec() == old(self).max_entries_spec(),
            final(self).insert_count_spec() == old(self).insert_count_spec(),
    {
        let ghost s = self.lru@;
        let ghost m = self.map@;
        let ghost mut k: int = 0;
        proof {
            self.lemma_len();
            assert(s.skip(0) =~= s);
            assert(m.remove_keys(s.take(0).to_set()) =~= m);
        }
        while (self.map.len() > self.max_entries || self.bytes > self.byte_budget)
            && self.lru.len() > 0
            invariant
                self.wf(),
                self.byte_budget == old(self).byte_budget,
                self.max_entries == old(self).max_entries,
                self.insert_seq == old(self).insert_seq,
                s == old(self).lru@,
                m == old(self).map@,
                m.dom() == s.to_set(),
                s.no_duplicates(),
                0 <= k <= s.len(),
                self.lru@ == s.skip(k),
                self.map@ == m.remove_keys(s.take(k).to_set()),
                forall|j: int|
                    0 <= j < k ==> !(s.len() - j <= self.max_entries && #[trigger] sum_pages(
                        s.skip(j),
                        m,
                    ) <= self.byte_budget),
            decreases self.lru@.len(),
        {
            proof {
                self.lemma_len();
                lemma_prefix_agree(s, k, m);
                lemma_sum_pages_agree(s.skip(k), m, self.map@);
            }
            self.evict_lru();
            proof {
                lemma_skip_step(s, k, m);
                k = k + 1;
            }
        }
        proof {
            self.lemma_len();
            lemma_prefix_agree(s, k, m);
            lemma_sum_pages_agree(s.skip(k), m, self.map@);
            lemma_trim_evictions_unique(s, m, self.max_entries as nat, self.byte_budget as nat, k);
        }
    }

    /// Inserts (or replaces) the page `page`. A replaced page first gives
    /// back its bytes and its place in the queue. Then least recently used
    /// pages are evicted while the entry cap is reached, and while the bytes
    /// plus the new page exceed `byte_budget + EVICT_SLACK`; a page larger
    /// than that evicts everything and stays alone.
    pub fn insert(&mut self, page: u32, cached: CachedPage)
        requires
            old(self).wf(),
            old(self).byte_budget_spec() + EVICT_SLACK <= usize::MAX,
            page_bytes(cached) <= usize::MAX,
            old(self).insert_count_spec() < u64::MAX,
        ensures
            final(self).wf(),
            final(self).order_spec() == order_after_insert(
                old(self).order_spec(),
                old(self).pages_spec(),
                old(self).max_entries_spec(),
                (old(self).byte_budget_spec() + EVICT_SLACK) as nat,
                page,
                page_bytes(cached),
            ),
            final(self).pages_spec() == pages_after_insert(
                old(self).order_spec(),
                old(self).pages_spec(),
                old(self).max_entries_spec(),
                (old(self).byte_budget_spec() + EVICT_SLACK) as nat,
                page,
                cached,
            ),
            final(self).byte_budget_spec() == old(self).byte_budget_spec(),
            final(self).max_entries_spec() == old(self).max_entries_spec(),
            final(self).insert_count_spec() == old(self).insert_count_spec() + 1,
    {
        let ghost m_old = self.map@;
        let ghost s_old = self.lru@;
        let incoming = bitmap_bytes(&cached);
        self.take_out(page);
        let ghost o0 = self.lru@;
        let ghost m0 = self.map@;
        self.evict_to_entry_cap();
        let ghost k1 = entry_evictions(o0.len(), self.max_entries as nat);
        let ghost o1 = self.lru@;
        let ghost m1 = self.map@;
        let limit = self.byte_budget + EVICT_SLACK;
        self.evict_for_bytes(incoming, limit);
        let ghost k2 = byte_evictions(o1, m1, incoming as nat, limit as nat);
        let ghost rest = self.lru@;
        let ghost mk = self.map@;
        proof {
            lemma_two_prefixes(o0, k1 as int, k2 as int, m0);
            lemma_map_agree(o0, k1 as int, m0, m_old, page);
            lemma_byte_evictions_agree(o1, m1, m_old, incoming as nat, limit as nat);
            assert(!rest.contains(page)) by {
                if rest.contains(page) {
                    let a = choose|a: int| 0 <= a < rest.len() && rest[a] == page;
                    assert(o0[k1 + k2 + a] == page);
                }
            }
            if rest.len() > 0 {
                lemma_sum_pages_elem(rest, 0, mk);
            }
        }
        self.bytes = self.bytes + incoming;
        self.map.insert(page, cached);
        self.lru.push_back(page);
        self.insert_seq = self.insert_seq + 1;
        proof {
            lemma_push_fresh(rest, mk, page, cached);
            assert(self.lru@ =~= rest.push(page));
            assert(self.map@ =~= m_old.remove_keys(o0.take((k1 + k2) as int).to_set()).insert(page, cached));
        }
    }

    /// Takes `page` out of the cache (if resident), giving back its bytes.
    fn take_out(&mut self, page: u32)
        requires
            old(self).wf(),
        ensures
            final(self).wf(),
            final(self).lru@ == order_without(old(self).lru@, page),
            final(self).map@ == old(self).map@.remove(page),
            !final(self).lru@.contains(page),
            final(self).byte_budget == old(self).byte_budget,
            final(self).max_entries == old(self).max_entries,
            final(self).insert_seq == old(self).insert_seq,
    {
        let ghost m_old = self.map@;
        let ghost s_old = self.lru@;
        let removed = self.map.remove(&page);
        match removed {
            Some(old_page) => {
                proof {
                    assert(m_old.dom().contains(page));
                    assert(old_page == m_old[page]);
                    assert(s_old.to_set().contains(page));
                    let i = s_old.index_of(page);
                    lemma_sum_pages_elem(s_old, i, m_old);
                }
                let n = bitmap_bytes(&old_page);
                self.bytes = self.bytes - n;
                match self.lru_position(page) {
                    Some(pos) => {
                        proof {
                            lemma_unique_index(s_old, pos as int, page);
                            lemma_sum_pages_remove(s_old, pos as int, m_old);
                            lemma_remove_push_set(s_old, pos as int);
                        }
                        self.lru.remove(pos);
                        proof {
                            let o0 = s_old.remove(pos as int);
                            assert(self.map@.dom() =~= o0.to_set());
                            assert(!o0.contains(page)) by {
                                if o0.contains(page) {
                                    assert(o0.to_set().contains(page));
                                }
                            }
                            assert forall|i: int| 0 <= i < o0.len() implies m_old[#[trigger] o0[i]]
                                == self.map@[o0[i]] by {
                                assert(o0[i] != page);
                            }
                            lemma_sum_pages_agree(o0, m_old, self.map@);
                            assert(s_old[pos as int] == page);
                            assert(self.bytes == sum_pages(o0, self.map@));
                            assert(o0.no_duplicates());
                            assert(self.lru@ == o0);
                        }
                    },
                    None => {
                        proof {
                            assert(false);
                        }
                    },
                }
            },
            None => {
                proof {
                    assert(!s_old.to_set().contains(page));
                    assert(self.map@ =~= m_old.remove(page));
                    assert(self.map@ =~= m_old);
                    assert(!s_old.contains(page));
                    assert(order_without(s_old, page) == s_old);
                }
            },
        }
    }

    /// Evicts least recently used pages while the entry cap is reached.
    fn evict_to_entry_cap(&mut self)
        requires
            old(self).wf(),
        ensures
            final(self).wf(),
            ({
                let k = entry_evictions(old(self).lru@.len(), old(self).max_entries as nat) as int;
                &&& 0 <= k <= old(self).lru@.len()
                &&& final(self).lru@ == old(self).lru@.skip(k)
                &&& final(self).map@ == old(self).map@.remove_keys(old(self).lru@.take(k).to_set())
            }),
            final(self).byte_budget == old(self).byte_budget,
            final(self).max_entries == old(self).max_entries,
            final(self).insert_seq == old(self).insert_seq,
    {
        let ghost o0 = self.lru@;
        let ghost m0 = self.map@;
        let ghost mut k: int = 0;
        proof {
            self.lemma_len();
            assert(o0.skip(0) =~= o0);
            assert(m0.remove_keys(o0.take(0).to_set()) =~= m0);
        }
        while self.map.len() >= self.max_entries && self.lru.len() > 0
            invariant
                self.wf(),
                self.byte_budget == old(self).byte_budget,
                self.max_entries == old(self).max_entries,
                self.insert_seq == old(self).insert_seq,
                o0 == old(self).lru@,
                m0 == old(self).map@,
                m0.dom() == o0.to_set(),
                o0.no_duplicates(),
                0 <= k <= o0.len(),
                self.lru@ == o0.skip(k),
                self.map@ == m0.remove_keys(o0.take(k).to_set()),
                k == 0 || o0.len() - (k - 1) >= self.max_entries,
            decreases self.lru@.len(),
        {
            proof {
                self.lemma_len();
            }
            self.evict_lru();
            proof {
                lemma_skip_step(o0, k, m0);
                k = k + 1;
            }
        }
        proof {
            self.lemma_len();
        }
    }

    /// Evicts least recently used pages while the resident bytes plus
    /// `incoming` exceed `limit`.
    fn evict_for_bytes(&mut self, incoming: usize, limit: usize)
        requires
            old(self).wf(),
        ensures
            final(self).wf(),
            ({
                let k = byte_evictions(old(self).lru@, old(self).map@, incoming as nat, limit as nat)
                    as int;
                &&& 0 <= k <= old(self).lru@.len()
                &&& final(self).lru@ == old(self).lru@.skip(k)
                &&& final(self).map@ == old(self).map@.remove_keys(old(self).lru@.take(k).to_set())
            }),
            final(self).bytes + incoming <= limit || final(self).lru@.len() == 0,
            final(self).byte_budget == old(self).byte_budget,
            final(self).max_entries == old(self).max_entries,
            final(self).insert_seq == old(self).insert_seq,
    {
        let ghost o0 = self.lru@;
        let ghost m0 = self.map@;
        let ghost mut k: int = 0;
        proof {
            assert(o0.skip(0) =~= o0);
            assert(m0.remove_keys(o0.take(0).to_set()) =~= m0);
        }
        while (incoming > limit || self.bytes > limit - incoming) && self.lru.len() > 0
            invariant
                self.wf(),
                self.byte_budget == old(self).byte_budget,
                self.max_entries == old(self).max_entries,
                self.insert_seq == old(self).insert_seq,
                o0 == old(self).lru@,
                m0 == old(self).map@,
                m0.dom() == o0.to_set(),
                o0.no_duplicates(),
                0 <= k <= o0.len(),
                self.lru@ == o0.skip(k),
                self.map@ == m0.remove_keys(o0.take(k).to_set()),
                forall|j: int|
                    0 <= j < k ==> #[trigger] sum_pages(o0.skip(j), m0) + incoming > limit,
            decreases self.lru@.len(),
        {
            proof {
                lemma_prefix_agree(o0, k, m0);
                lemma_sum_pages_agree(o0.skip(k), self.map@, m0);
            }
            self.evict_lru();
            proof {
                lemma_skip_step(o0, k, m0);
                k = k + 1;
            }
        }
        proof {
            lemma_prefix_agree(o0, k, m0);
            lemma_sum_pages_agree(o0.skip(k), self.map@, m0);
            lemma_byte_evictions_unique(o0, m0, incoming as nat, limit as nat, k);
        }
    }
}

/// Two rounds of front evictions are one round of their total.
proof fn lemma_two_prefixes(o0: Seq<u32>, k1: int, k2: int, m0: Map<u32, CachedPage>)
    requires
        0 <= k1 <= o0.len(),
        0 <= k2 <= o0.len() - k1,
    ensures
        o0.skip(k1).skip(k2) == o0.skip(k1 + k2),
        m0.remove_keys(o0.take(k1).to_set()).remove_keys(o0.skip(k1).take(k2).to_set())
            == m0.remove_keys(o0.take(k1 + k2).to_set()),
{
    assert(o0.skip(k1).skip(k2) =~= o0.skip(k1 + k2));
    assert(o0.take(k1 + k2) =~= o0.take(k1) + o0.skip(k1).take(k2));
    assert(o0.take(k1 + k2).to_set() =~= o0.take(k1).to_set().union(o0.skip(k1).take(k2).to_set())) by {
        assert forall|x: u32| #[trigger] o0.take(k1 + k2).to_set().contains(x) == o0.take(k1).to_set().union(
            o0.skip(k1).take(k2).to_set(),
        ).contains(x) by {
            if o0.take(k1 + k2).contains(x) {
                let a = choose|a: int| 0 <= a < k1 + k2 && #[trigger] o0.take(k1 + k2)[a] == x;
                if a < k1 {
                    assert(o0.take(k1)[a] == x);
                } else {
                    assert(o0.skip(k1).take(k2)[a - k1] == x);
                }
            }
            if o0.take(k1).contains(x) {
                let a = choose|a: int| 0 <= a < k1 && #[trigger] o0.take(k1)[a] == x;
                assert(o0.take(k1 + k2)[a] == x);
            }
            if o0.skip(k1).take(k2).contains(x) {
                let a = choose|a: int| 0 <= a < k2 && #[trigger] o0.skip(k1).take(k2)[a] == x;
                assert(o0.take(k1 + k2)[k1 + a] == x);
            }
        }
    }
    assert(m0.remove_keys(o0.take(k1).to_set()).remove_keys(o0.skip(k1).take(k2).to_set())
        =~= m0.remove_keys(o0.take(k1 + k2).to_set()));
}

/// `byte_evictions` only reads the pages named by the order.
proof fn lemma_byte_evictions_agree(
    order: Seq<u32>,
    m1: Map<u32, CachedPage>,
    m2: Map<u32, CachedPage>,
    incoming: nat,
    limit: nat,
)
    requires
        forall|i: int| 0 <= i < order.len() ==> m1[#[trigger] order[i]] == m2[order[i]],
    ensures
        byte_evictions(order, m1, incoming, limit) == byte_evictions(order, m2, incoming, limit),
    decreases order.len(),
{
    lemma_sum_pages_agree(order, m1, m2);
    if order.len() > 0 {
        let t = order.drop_first();
        assert forall|i: int| 0 <= i < t.len() implies m1[#[trigger] t[i]] == m2[t[i]] by {
            assert(t[i] == order[i + 1]);
        }
        lemma_byte_evictions_agree(t, m1, m2, incoming, limit);
    }
}

/// Appending a page that is not resident keeps the queue and the map in
/// step and adds its bytes.
proof fn lemma_push_fresh(rest: Seq<u32>, mk: Map<u32, CachedPage>, page: u32, cached: CachedPage)
    requires
        rest.no_duplicates(),
        mk.dom() == rest.to_set(),
        !rest.contains(page),
    ensures
        rest.push(page).no_duplicates(),
        mk.insert(page, cached).dom() == rest.push(page).to_set(),
        sum_pages(rest.push(page), mk.insert(page, cached)) == sum_pages(rest, mk) + page_bytes(
            cached,
        ),
{
    let u = rest.push(page);
    let m = mk.insert(page, cached);
    assert forall|a: int, b: int| 0 <= a < b < u.len() implies u[a] != u[b] by {
        if b == rest.len() {
            assert(rest[a] != page);
        } else {
            assert(rest[a] != rest[b]);
        }
    }
    assert forall|x: u32| #[trigger] u.to_set().contains(x) == m.dom().contains(x) by {
        if x != page {
            if u.contains(x) {
                let a = choose|a: int| 0 <= a < u.len() && u[a] == x;
                assert(rest[a] == x);
                assert(rest.to_set().contains(x));
            }
            if rest.contains(x) {
                let a = choose|a: int| 0 <= a < rest.len() && rest[a] == x;
                assert(u[a] == x);
            }
        } else {
            assert(u[rest.len() as int] == page);
        }
    }
    assert(u.to_set() =~= m.dom());
    assert forall|a: int| 0 <= a < rest.len() implies m[#[trigger] rest[a]] == mk[rest[a]] by {
        assert(rest[a] != page);
    }
    lemma_sum_pages_agree(rest, mk, m);
    lemma_sum_pages_push(rest, page, m);
}

/// Bytes taken by the bitmap of a cached page.
fn bitmap_bytes(page: &CachedPage) -> (r: usize)
    requires
        page_bytes(*page) <= usize::MAX,
    ensures
        r == page_bytes(*page),
{
    let w = page.bitmap.width as usize;
    let h = page.bitmap.height as usize;
    proof {
        assert(w * h <= w * h * 4) by (nonlinear_arith);
    }
    w * h * 4
}

/// The map left after removing `page` and a prefix of `o0` agrees with the
/// starting map on the rest of `o0`.
proof fn lemma_map_agree(o0: Seq<u32>, k: int, m0: Map<u32, CachedPage>, m: Map<u32, CachedPage>, page: u32)
    requires
        o0.no_duplicates(),
        0 <= k <= o0.len(),
        m0.dom() == o0.to_set(),
        m0 == m.remove(page),
        !o0.contains(page),
    ensures
        forall|i: int|
            0 <= i < o0.skip(k).len() ==> m0.remove_keys(o0.take(k).to_set())[#[trigger] o0.skip(
                k,
            )[i]] == m[o0.skip(k)[i]],
{
    lemma_prefix_agree(o0, k, m0);
    assert forall|i: int| 0 <= i < o0.skip(k).len() implies m0.remove_keys(o0.take(k).to_set())[
        #[trigger] o0.skip(k)[i]] == m[o0.skip(k)[i]] by {
        assert(o0[k + i] != page);
    }
}

/// In a sequence without duplicates, an index holding `x` is its only one.
proof fn lemma_unique_index(s: Seq<u32>, i: int, x: u32)
    requires
        s.no_duplicates(),
        0 <= i < s.len(),
        s[i] == x,
    ensures
        s.index_of(x) == i,
        order_without(s, x) == s.remove(i),
{
    assert(s.contains(x));
    let j = s.index_of(x);
    assert(0 <= j < s.len() && s[j] == x);
    assert(j == i);
}

/// Moving one element to the back keeps the set and the absence of
/// duplicates.
proof fn lemma_remove_push_set(s: Seq<u32>, i: int)
    requires
        s.no_duplicates(),
        0 <= i < s.len(),
    ensures
        s.remove(i).push(s[i]).to_set() == s.to_set(),
        s.remove(i).push(s[i]).no_duplicates(),
        s.remove(i).to_set() == s.to_set().remove(s[i]),
        s.remove(i).no_duplicates(),
{
    let t = s.remove(i);
    let u = t.push(s[i]);
    assert forall|a: int, b: int| 0 <= a < b < t.len() implies t[a] != t[b] by {
        let a2 = if a < i { a } else { a + 1 };
        let b2 = if b < i { b } else { b + 1 };
        assert(s[a2] != s[b2]);
    }
    assert forall|a: int| 0 <= a < t.len() implies t[a] != s[i] by {
        let a2 = if a < i { a } else { a + 1 };
        assert(s[a2] != s[i]);
    }
    assert forall|x: u32| #[trigger] t.to_set().contains(x) == s.to_set().remove(s[i]).contains(x) by {
        if t.contains(x) {
            let a = choose|a: int| 0 <= a < t.len() && t[a] == x;
            let a2 = if a < i { a } else { a + 1 };
            assert(s[a2] == x);
        }
        if s.contains(x) && x != s[i] {
            let a = choose|a: int| 0 <= a < s.len() && s[a] == x;
            assert(a != i);
            if a < i {
                assert(t[a] == x);
            } else {
                assert(t[a - 1] == x);
            }
        }
    }
    assert(t.to_set() =~= s.to_set().remove(s[i]));
    assert forall|x: u32| #[trigger] u.to_set().contains(x) == s.to_set().contains(x) by {
        if x == s[i] {
            assert(u[u.len() - 1] == x);
            assert(s.contains(x));
        } else {
            if u.contains(x) {
                let a = choose|a: int| 0 <= a < u.len() && u[a] == x;
                assert(a < t.len());
                assert(t.contains(x));
            }
            if t.contains(x) {
                let a = choose|a: int| 0 <= a < t.len() && t[a] == x;
                assert(u[a] == x);
            }
        }
    }
    assert(u.to_set() =~= s.to_set());
}

/// Dropping the first element of a duplicate-free sequence removes it
/// from the set.
proof fn lemma_drop_first_set(s: Seq<u32>)
    requires
        s.no_duplicates(),
        s.len() > 0,
    ensures
        s.drop_first().to_set() == s.to_set().remove(s[0]),
        s.drop_first().no_duplicates(),
{
    assert(s.drop_first() =~= s.remove(0));
    lemma_remove_push_set(s, 0);
}

/// After `k` front evictions the remaining map agrees with the starting one on
/// the remaining pages.
proof fn lemma_prefix_agree(s: Seq<u32>, k: int, m: Map<u32, CachedPage>)
    requires
        s.no_duplicates(),
        0 <= k <= s.len(),
        m.dom() == s.to_set(),
    ensures
        forall|i: int|
            0 <= i < s.skip(k).len() ==> m.remove_keys(s.take(k).to_set())[#[trigger] s.skip(
                k,
            )[i]] == m[s.skip(k)[i]],
        forall|i: int|
            0 <= i < s.skip(k).len() ==> !s.take(k).to_set().contains(#[trigger] s.skip(k)[i]),
{
    assert forall|i: int| 0 <= i < s.skip(k).len() implies !s.take(k).to_set().contains(
        #[trigger] s.skip(k)[i],
    ) by {
        if s.take(k).contains(s.skip(k)[i]) {
            let a = choose|a: int| 0 <= a < s.take(k).len() && s.take(k)[a] == s.skip(k)[i];
            assert(s[a] == s[k + i]);
        }
    }
    assert forall|i: int| 0 <= i < s.skip(k).len() implies m.remove_keys(s.take(k).to_set())[
        #[trigger] s.skip(k)[i]] == m[s.skip(k)[i]] by {
        assert(s.contains(s[k + i]));
        assert(m.dom().contains(s.skip(k)[i]));
    }
}

/// One more front eviction: bookkeeping of the remaining order and map.
proof fn lemma_skip_step(s: Seq<u32>, k: int, m: Map<u32, CachedPage>)
    requires
        s.no_duplicates(),
        0 <= k < s.len(),
    ensures
        s.skip(k).drop_first() == s.skip(k + 1),
        m.remove_keys(s.take(k).to_set()).remove(s.skip(k)[0]) == m.remove_keys(
            s.take(k + 1).to_set(),
        ),
{
    assert(s.skip(k).drop_first() =~= s.skip(k + 1));
    assert(s.take(k + 1) =~= s.take(k).push(s[k]));
    assert(s.take(k + 1).to_set() =~= s.take(k).to_set().insert(s[k])) by {
        assert forall|x: u32| #[trigger] s.take(k + 1).to_set().contains(x) == s.take(
            k,
        ).to_set().insert(s[k]).contains(x) by {
            if s.take(k + 1).contains(x) {
                let a = choose|a: int| 0 <= a < k + 1 && #[trigger] s.take(k + 1)[a] == x;
                if a < k {
                    assert(s.take(k)[a] == x);
                }
            }
            if s.take(k).contains(x) {
                let a = choose|a: int| 0 <= a < k && #[trigger] s.take(k)[a] == x;
                assert(s.take(k + 1)[a] == x);
            }
            if x == s[k] {
                assert(s.take(k + 1)[k] == x);
            }
        }
    }
    assert(m.remove_keys(s.take(k).to_set()).remove(s.skip(k)[0]) =~= m.remove_keys(
        s.take(k + 1).to_set(),
    ));
}

} // verus!
