//! Byte-budgeted LRU policy for the overlay textures.
//!
//! Entries are `(id, bytes)` pairs kept in recency order: the front is the
//! least recently used entry (the next victim), the back the most recent
//! one. `insert` evicts from the front until the new entry fits in the
//! budget and hands back the evicted ids so that the caller can delete their
//! textures. An entry larger than the whole budget is not kept at all.
//! The key is the generation id of the overlay bitmap, never the address of
//! its pixels.

use vstd::prelude::*;

verus! {

/// Total byte budget of the resident overlay textures (8 MiB).
pub const OVL_BYTE_BUDGET: usize = 8388608;

/// Ids of a sequence of `(id, bytes)` entries, in the same order.
pub open spec fn ids_of(s: Seq<(u64, usize)>) -> Seq<u64> {
    s.map_values(|e: (u64, usize)| e.0)
}

/// Sum of the byte sizes of a sequence of entries.
pub open spec fn sum_bytes(s: Seq<(u64, usize)>) -> nat
    decreases s.len(),
{
    if s.len() == 0 {
        0
    } else {
        s[0].1 as nat + sum_bytes(s.drop_first())
    }
}

/// `p` is the position of the first entry of `s` whose id is `id`.
pub open spec fn is_first_with_id(s: Seq<(u64, usize)>, id: u64, p: int) -> bool {
    &&& 0 <= p < s.len()
    &&& s[p].0 == id
    &&& forall|j: int| 0 <= j < p ==> s[j].0 != id
}

/// Some entry of `s` has id `id`.
pub open spec fn has_id(s: Seq<(u64, usize)>, id: u64) -> bool {
    exists|j: int| 0 <= j < s.len() && s[j].0 == id
}

/// Recency order after using `id`: its first entry moves to the back
/// (most recently used); without such an entry nothing changes.
pub open spec fn touched(s: Seq<(u64, usize)>, id: u64) -> Seq<(u64, usize)> {
    if exists|p: int| is_first_with_id(s, id, p) {
        let p = choose|p: int| is_first_with_id(s, id, p);
        s.remove(p).push(s[p])
    } else {
        s
    }
}

/// Number of least recently used entries of `s` that must go before an
/// entry of `incoming` bytes fits in `budget`: entries leave from the front
/// while the rest plus the newcomer exceed the budget.
pub open spec fn evict_count(s: Seq<(u64, usize)>, incoming: nat, budget: nat) -> nat
    decreases s.len(),
{
    if s.len() == 0 || sum_bytes(s) + incoming <= budget {
        0
    } else {
        1 + evict_count(s.drop_first(), incoming, budget)
    }
}

/// Entries after `insert(id, bytes)` on entries `s` with budget `budget`.
pub open spec fn entries_after_insert(s: Seq<(u64, usize)>, budget: nat, id: u64, bytes: usize) -> Seq<
    (u64, usize),
> {
    let s1 = touched(s, id);
    let rest = s1.skip(evict_count(s1, bytes as nat, budget) as int);
    if sum_bytes(rest) + bytes <= budget {
        rest.push((id, bytes))
    } else {
        rest
    }
}

/// Ids evicted by `insert(id, bytes)` on entries `s`, in eviction order.
pub open spec fn evicted_by_insert(s: Seq<(u64, usize)>, budget: nat, id: u64, bytes: usize) -> Seq<
    u64,
> {
    let s1 = touched(s, id);
    ids_of(s1.take(evict_count(s1, bytes as nat, budget) as int))
}

/// `evict_count` is the least number of front evictions after which the
/// newcomer fits (or nothing is left).
pub proof fn lemma_evict_count_unique(s: Seq<(u64, usize)>, incoming: nat, budget: nat, k: int)
    requires
        0 <= k <= s.len(),
        forall|j: int| 0 <= j < k ==> #[trigger] sum_bytes(s.skip(j)) + incoming > budget,
        sum_bytes(s.skip(k)) + incoming <= budget || k == s.len(),
    ensures
        k == evict_count(s, incoming, budget),
    decreases k,
{
    if k == 0 {
        assert(s.skip(0) =~= s);
    } else {
        assert(s.skip(0) =~= s);
        assert(sum_bytes(s.skip(0)) + incoming > budget);
        let t = s.drop_first();
        assert forall|j: int| 0 <= j < k - 1 implies #[trigger] sum_bytes(t.skip(j)) + incoming
            > budget by {
            assert(t.skip(j) =~= s.skip(j + 1));
            assert(sum_bytes(s.skip(j + 1)) + incoming > budget);
        }
        assert(t.skip(k - 1) =~= s.skip(k));
        lemma_evict_count_unique(t, incoming, budget, k - 1);
    }
}

/// `evict_count` never exceeds the length, evicts only while the newcomer
/// does not fit, and stops once it fits or nothing is left.
pub proof fn lemma_evict_count_props(s: Seq<(u64, usize)>, incoming: nat, budget: nat)
    ensures
        evict_count(s, incoming, budget) <= s.len(),
        forall|j: int|
            0 <= j < evict_count(s, incoming, budget) ==> #[trigger] sum_bytes(s.skip(j))
                + incoming > budget,
        sum_bytes(s.skip(evict_count(s, incoming, budget) as int)) + incoming <= budget
            || evict_count(s, incoming, budget) == s.len(),
    decreases s.len(),
{
    let k = evict_count(s, incoming, budget);
    if s.len() == 0 || sum_bytes(s) + incoming <= budget {
        assert(s.skip(0) =~= s);
    } else {
        let t = s.drop_first();
        lemma_evict_count_props(t, incoming, budget);
        assert forall|j: int| 0 <= j < k implies #[trigger] sum_bytes(s.skip(j)) + incoming
            > budget by {
            if j == 0 {
                assert(s.skip(0) =~= s);
            } else {
                assert(t.skip(j - 1) =~= s.skip(j));
            }
        }
        assert(t.skip(k - 1) =~= s.skip(k as int));
    }
}

/// Summing bytes distributes over appending one entry.
pub proof fn lemma_sum_bytes_push(s: Seq<(u64, usize)>, e: (u64, usize))
    ensures
        sum_bytes(s.push(e)) == sum_bytes(s) + e.1,
    decreases s.len(),
{
    if s.len() == 0 {
        assert(s.push(e).drop_first() =~= Seq::<(u64, usize)>::empty());
        assert(sum_bytes(s.push(e).drop_first()) == 0);
        assert(s.push(e)[0] == e);
    } else {
        lemma_sum_bytes_push(s.drop_first(), e);
        assert(s.push(e).drop_first() =~= s.drop_first().push(e));
        assert(s.push(e)[0] == s[0]);
    }
}

/// Summing bytes distributes over concatenation.
pub proof fn lemma_sum_bytes_add(a: Seq<(u64, usize)>, b: Seq<(u64, usize)>)
    ensures
        sum_bytes(a + b) == sum_bytes(a) + sum_bytes(b),
    decreases a.len(),
{
    if a.len() == 0 {
        assert(a + b =~= b);
    } else {
        lemma_sum_bytes_add(a.drop_first(), b);
        assert((a + b).drop_first() =~= a.drop_first() + b);
    }
}

/// Removing the entry at `p` subtracts exactly its bytes.
pub proof fn lemma_sum_bytes_remove(s: Seq<(u64, usize)>, p: int)
    requires
        0 <= p < s.len(),
    ensures
        sum_bytes(s.remove(p)) + s[p].1 == sum_bytes(s),
{
    let a = s.take(p);
    let b = s.skip(p + 1);
    assert(s =~= a + seq![s[p]] + b);
    assert(s.remove(p) =~= a + b);
    lemma_sum_bytes_add(a, b);
    lemma_sum_bytes_add(a + seq![s[p]], b);
    lemma_sum_bytes_add(a, seq![s[p]]);
    assert(seq![s[p]].drop_first() =~= Seq::<(u64, usize)>::empty());
    assert(sum_bytes(seq![s[p]].drop_first()) == 0);
    assert(sum_bytes(seq![s[p]]) == s[p].1);
}

/// Moving one entry to the back keeps the byte total.
pub proof fn lemma_sum_bytes_touched(s: Seq<(u64, usize)>, id: u64)
    ensures
        sum_bytes(touched(s, id)) == sum_bytes(s),
        touched(s, id).len() == s.len(),
{
    if exists|p: int| is_first_with_id(s, id, p) {
        let p = choose|p: int| is_first_with_id(s, id, p);
        lemma_sum_bytes_remove(s, p);
        lemma_sum_bytes_push(s.remove(p), s[p]);
    }
}

/// Every entry of a sequence weighs at most the sum of the sequence.
pub proof fn lemma_sum_bytes_bounds(s: Seq<(u64, usize)>, k: int)
    requires
        0 <= k <= s.len(),
    ensures
        sum_bytes(s.skip(k)) <= sum_bytes(s),
        sum_bytes(s) == sum_bytes(s.take(k)) + sum_bytes(s.skip(k)),
{
    assert(s =~= s.take(k) + s.skip(k));
    lemma_sum_bytes_add(s.take(k), s.skip(k));
}

/// Using an entry only reorders the entries: the same entries (as a
/// multiset), the same byte total and the same resident ids.
pub proof fn law_touch_only_reorders(s: Seq<(u64, usize)>, id: u64)
    ensures
        touched(s, id).to_multiset() == s.to_multiset(),
        sum_bytes(touched(s, id)) == sum_bytes(s),
        forall|x: u64| has_id(touched(s, id), x) == has_id(s, x),
        has_id(s, id) ==> touched(s, id).last().0 == id,
{
    lemma_sum_bytes_touched(s, id);
    if exists|p: int| is_first_with_id(s, id, p) {
        let p = choose|p: int| is_first_with_id(s, id, p);
        vstd::seq_lib::to_multiset_remove(s, p);
        vstd::seq_lib::to_multiset_build(s.remove(p), s[p]);
        broadcast use vstd::multiset::group_multiset_axioms;
        vstd::seq_lib::to_multiset_contains(s, s[p]);
        assert(s.contains(s[p]));
        assert(s.to_multiset().remove(s[p]).insert(s[p]) =~= s.to_multiset());
        let t = touched(s, id);
        assert forall|x: u64| has_id(t, x) == has_id(s, x) by {
            if has_id(s, x) {
                let j = choose|j: int| 0 <= j < s.len() && s[j].0 == x;
                if j < p {
                    assert(t[j] == s[j]);
                } else if j == p {
                    assert(t[t.len() - 1] == s[p]);
                } else {
                    assert(t[j - 1] == s[j]);
                }
            }
            if has_id(t, x) {
                let j = choose|j: int| 0 <= j < t.len() && t[j].0 == x;
                if j < p {
                    assert(t[j] == s[j]);
                } else if j == t.len() - 1 {
                    assert(t[j] == s[p]);
                } else {
                    assert(t[j] == s[j + 1]);
                }
            }
        }
    } else {
        assert(!has_id(s, id)) by {
            if has_id(s, id) {
                let j = choose|j: int| 0 <= j < s.len() && s[j].0 == id;
                let first = first_index_with_id(s, id, j);
                assert(is_first_with_id(s, id, first));
            }
        }
    }
}

/// Some position with id `id` at or before `j` is the first one.
proof fn first_index_with_id(s: Seq<(u64, usize)>, id: u64, j: int) -> (p: int)
    requires
        0 <= j < s.len(),
        s[j].0 == id,
    ensures
        is_first_with_id(s, id, p),
    decreases j,
{
    if exists|i: int| 0 <= i < j && s[i].0 == id {
        let i = choose|i: int| 0 <= i < j && s[i].0 == id;
        first_index_with_id(s, id, i)
    } else {
        j
    }
}

/// The cache never holds more than its budget: inserting into a cache that
/// respects the budget leaves one that still respects it.
pub proof fn law_insert_respects_budget(s: Seq<(u64, usize)>, budget: nat, id: u64, bytes: usize)
    requires
        sum_bytes(s) <= budget,
    ensures
        sum_bytes(entries_after_insert(s, budget, id, bytes)) <= budget,
{
    let s1 = touched(s, id);
    let k = evict_count(s1, bytes as nat, budget);
    lemma_sum_bytes_touched(s, id);
    lemma_evict_count_props(s1, bytes as nat, budget);
    lemma_sum_bytes_bounds(s1, k as int);
    let rest = s1.skip(k as int);
    if sum_bytes(rest) + bytes <= budget {
        lemma_sum_bytes_push(rest, (id, bytes));
    }
}

/// An entry that fits in the budget is resident after `insert`, as the most
/// recently used entry.
pub proof fn law_insert_keeps_fitting_entry(s: Seq<(u64, usize)>, budget: nat, id: u64, bytes: usize)
    requires
        bytes <= budget,
    ensures
        entries_after_insert(s, budget, id, bytes).len() > 0,
        entries_after_insert(s, budget, id, bytes).last() == (id, bytes),
        has_id(entries_after_insert(s, budget, id, bytes), id),
{
    let s1 = touched(s, id);
    let k = evict_count(s1, bytes as nat, budget);
    lemma_evict_count_props(s1, bytes as nat, budget);
    let rest = s1.skip(k as int);
    if k == s1.len() {
        assert(rest =~= Seq::<(u64, usize)>::empty());
        assert(sum_bytes(rest) == 0);
    }
    let r = entries_after_insert(s, budget, id, bytes);
    assert(r[r.len() - 1].0 == id);
}

/// An entry larger than the whole budget evicts every entry and is not kept.
pub proof fn law_insert_drops_oversized_entry(s: Seq<(u64, usize)>, budget: nat, id: u64, bytes: usize)
    requires
        bytes > budget,
    ensures
        entries_after_insert(s, budget, id, bytes) == Seq::<(u64, usize)>::empty(),
        evicted_by_insert(s, budget, id, bytes) == ids_of(touched(s, id)),
        !has_id(entries_after_insert(s, budget, id, bytes), id),
{
    let s1 = touched(s, id);
    let k = evict_count(s1, bytes as nat, budget);
    lemma_evict_count_props(s1, bytes as nat, budget);
    assert(k == s1.len());
    assert(s1.skip(k as int) =~= Seq::<(u64, usize)>::empty());
    assert(s1.take(k as int) =~= s1);
    assert(sum_bytes(s1.skip(k as int)) == 0);
}

/// While the new entry fits next to the resident ones nothing is evicted:
/// the entry is simply added as the most recent one.
pub proof fn law_insert_without_pressure_evicts_nothing(
    s: Seq<(u64, usize)>,
    budget: nat,
    id: u64,
    bytes: usize,
)
    requires
        sum_bytes(s) + bytes <= budget,
    ensures
        evicted_by_insert(s, budget, id, bytes) == Seq::<u64>::empty(),
        entries_after_insert(s, budget, id, bytes) == touched(s, id).push((id, bytes)),
{
    let s1 = touched(s, id);
    lemma_sum_bytes_touched(s, id);
    assert(evict_count(s1, bytes as nat, budget) == 0);
    assert(s1.skip(0) =~= s1);
    assert(s1.take(0) =~= Seq::<(u64, usize)>::empty());
}

/// Eviction takes least recently used entries first and nothing more than
/// needed: the evicted ids are a front prefix of the recency order, the
/// survivors keep their order, and evicting one entry fewer would not have
/// made room.
pub proof fn law_insert_evicts_lru_prefix(s: Seq<(u64, usize)>, budget: nat, id: u64, bytes: usize)
    ensures
        ({
            let s1 = touched(s, id);
            let k = evict_count(s1, bytes as nat, budget) as int;
            &&& 0 <= k <= s1.len()
            &&& evicted_by_insert(s, budget, id, bytes) == ids_of(s1.take(k))
            &&& entries_after_insert(s, budget, id, bytes).take(s1.len() - k) == s1.skip(k)
            &&& (k > 0 ==> sum_bytes(s1.skip(k - 1)) + bytes > budget)
        }),
{
    let s1 = touched(s, id);
    let k = evict_count(s1, bytes as nat, budget) as int;
    lemma_evict_count_props(s1, bytes as nat, budget);
    let r = entries_after_insert(s, budget, id, bytes);
    let rest = s1.skip(k);
    if sum_bytes(rest) + bytes <= budget {
        assert(r.take(s1.len() - k) =~= rest);
    } else {
        assert(r.take(s1.len() - k) =~= rest);
    }
}

/// Byte-budgeted LRU of overlay textures.
pub struct OvlBudget {
    /// `(id, bytes)` in recency order (front = least recently used).
    entries: Vec<(u64, usize)>,
    /// Sum of the bytes of `entries`.
    bytes: usize,
    budget: usize,
}

impl OvlBudget {
    /// Entries in recency order, least recently used first.
    pub closed spec fn entries_spec(&self) -> Seq<(u64, usize)> {
        self.entries@
    }

    /// The byte budget the cache was made with.
    pub closed spec fn budget_spec(&self) -> nat {
        self.budget as nat
    }

    /// Bytes of all resident entries.
    pub open spec fn resident_bytes(&self) -> nat {
        sum_bytes(self.entries_spec())
    }

    /// Internal consistency: the byte counter is the sum of the entries and
    /// never exceeds the budget.
    pub closed spec fn wf(&self) -> bool {
        &&& self.bytes as nat == sum_bytes(self.entries@)
        &&& self.bytes <= self.budget
    }

    /// Empty policy with the given byte budget.
    pub fn new(budget: usize) -> (r: Self)
        ensures
            r.wf(),
            r.entries_spec() == Seq::<(u64, usize)>::empty(),
            r.budget_spec() == budget,
    {
        Self { entries: Vec::new(), bytes: 0, budget }
    }

    /// Position of the first entry with id `id`, if any.
    fn position(&self, id: u64) -> (r: Option<usize>)
        ensures
            match r {
                Some(p) => is_first_with_id(self.entries@, id, p as int),
                None => !has_id(self.entries@, id),
            },
    {
        let mut i: usize = 0;
        while i < self.entries.len()
            invariant
                0 <= i <= self.entries.len(),
                forall|j: int| 0 <= j < i ==> self.entries@[j].0 != id,
            decreases self.entries.len() - i,
        {
            if self.entries[i].0 == id {
                return Some(i);
            }
            i += 1;
        }
        None
    }

    /// Marks `id` as the most recently used entry; a non-resident id is a
    /// no-op.
    pub fn touch(&mut self, id: u64)
        requires
            old(self).wf(),
        ensures
            final(self).wf(),
            final(self).entries_spec() == touched(old(self).entries_spec(), id),
            final(self).budget_spec() == old(self).budget_spec(),
    {
        match self.position(id) {
            Some(pos) => {
                let ghost s = self.entries@;
                proof {
                    assert(is_first_with_id(s, id, pos as int));
                    let q = choose|q: int| is_first_with_id(s, id, q);
                    assert(q == pos as int) by {
                        if q < pos as int {
                            assert(s[q].0 != id);
                        } else if q > pos as int {
                            assert(s[pos as int].0 != id);
                        }
                    }
                    lemma_sum_bytes_touched(s, id);
                }
                let e = self.entries.remove(pos);
                self.entries.push(e);
                assert(self.entries@ =~= touched(s, id));
            },
            None => {
                proof {
                    assert(!(exists|p: int| is_first_with_id(self.entries@, id, p)));
                }
            },
        }
    }

    /// Registers `bytes` for `id` as the most recent entry, evicting from
    /// the front until it fits; returns the evicted ids in eviction order.
    /// An entry that does not fit even in an empty cache evicts everything
    /// and is not kept.
    pub fn insert(&mut self, id: u64, bytes: usize) -> (evicted: Vec<u64>)
        requires
            old(self).wf(),
        ensures
            final(self).wf(),
            final(self).budget_spec() == old(self).budget_spec(),
            final(self).resident_bytes() <= final(self).budget_spec(),
            final(self).entries_spec() == entries_after_insert(
                old(self).entries_spec(),
                old(self).budget_spec(),
                id,
                bytes,
            ),
            evicted@ == evicted_by_insert(old(self).entries_spec(), old(self).budget_spec(), id, bytes),
    {
        self.touch(id);
        let ghost s1 = self.entries@;
        let mut evicted: Vec<u64> = Vec::new();
        let ghost mut k: int = 0;
        proof {
            assert(s1.skip(0) =~= s1);
            assert(s1.take(0) =~= Seq::<(u64, usize)>::empty());
        }
        while bytes > self.budget - self.bytes && self.entries.len() > 0
            invariant
                self.wf(),
                self.budget == old(self).budget,
                0 <= k <= s1.len(),
                self.entries@ == s1.skip(k),
                evicted@ == ids_of(s1.take(k)),
                forall|j: int|
                    0 <= j < k ==> #[trigger] sum_bytes(s1.skip(j)) + bytes > self.budget,
            decreases self.entries.len(),
        {
            proof {
                assert(sum_bytes(s1.skip(k)) + bytes > self.budget);
            }
            let ghost before = self.entries@;
            let (vid, vb) = self.entries.remove(0);
            proof {
                assert(before.drop_first() =~= before.remove(0));
                assert(sum_bytes(before) == vb + sum_bytes(before.drop_first()));
            }
            self.bytes = self.bytes - vb;
            evicted.push(vid);
            proof {
                assert(s1.skip(k + 1) =~= s1.skip(k).drop_first());
                assert(s1.take(k + 1) =~= s1.take(k).push(s1[k]));
                assert(ids_of(s1.take(k + 1)) =~= ids_of(s1.take(k)).push(vid));
                k = k + 1;
            }
        }
        proof {
            assert(evicted@.len() == k) by {
                assert(ids_of(s1.take(k)).len() == s1.take(k).len());
            }
            if self.entries.len() == 0 {
                assert(k == s1.len()) by {
                    assert(s1.skip(k).len() == s1.len() - k);
                }
            }
            lemma_evict_count_unique(s1, bytes as nat, self.budget as nat, k);
        }
        if bytes <= self.budget - self.bytes {
            let ghost before = self.entries@;
            self.entries.push((id, bytes));
            self.bytes = self.bytes + bytes;
            proof {
                lemma_sum_bytes_push(before, (id, bytes));
            }
        }
        evicted
    }

    /// Is some entry with id `id` resident?
    pub fn contains(&self, id: u64) -> (r: bool)
        ensures
            r == has_id(self.entries_spec(), id),
    {
        self.position(id).is_some()
    }
}

} // verus!
