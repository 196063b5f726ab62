//! Bookkeeping of the GPU textures of UI overlays and of the opening fade.
//!
//! Overlay textures are cached by the generation id of their bitmap and
//! held to a byte budget (`OvlBudget`): a hit makes the entry most recently
//! used; a miss reserves the bitmap's bytes, which evicts least recently used
//! entries whose textures must be deleted, and — when the bitmap fits at
//! all — the caller uploads it and records the new texture. The renderer
//! does the GL work; these types decide it.

use vstd::prelude::*;

use crate::ovl_budget::{
    entries_after_insert, evict_count, evicted_by_insert, has_id, ids_of, law_touch_only_reorders,
    touched, OvlBudget, OVL_BYTE_BUDGET,
};

verus! {

/// No id occurs twice among the entries.
pub open spec fn distinct_entries(s: Seq<(u64, usize)>) -> bool {
    forall|i: int, j: int| 0 <= i < j < s.len() ==> s[i].0 != s[j].0
}

/// No id occurs twice among the textures.
pub open spec fn distinct_textures(c: Seq<(u64, u32)>) -> bool {
    forall|i: int, j: int| 0 <= i < j < c.len() ==> c[i].0 != c[j].0
}

/// Some texture is recorded for `id`.
pub open spec fn has_texture(c: Seq<(u64, u32)>, id: u64) -> bool {
    exists|j: int| 0 <= j < c.len() && c[j].0 == id
}

/// The texture recorded for `id` (meaningful when there is one).
pub open spec fn texture_of(c: Seq<(u64, u32)>, id: u64) -> u32 {
    let j = choose|j: int| 0 <= j < c.len() && c[j].0 == id;
    c[j].1
}

/// Cache of overlay textures under a byte budget. Between a reservation
/// that fits and the recording of the uploaded texture, the reserved id is
/// pending: accounted in the budget, without a texture yet.
pub struct OverlayTextures {
    textures: Vec<(u64, u32)>,
    budget: OvlBudget,
    pending: Option<u64>,
}

impl OverlayTextures {
    /// `(id, texture)` of the cached overlays.
    pub closed spec fn textures_spec(&self) -> Seq<(u64, u32)> {
        self.textures@
    }

    /// Entries of the byte budget, least recently used first.
    pub closed spec fn entries_spec(&self) -> Seq<(u64, usize)> {
        self.budget.entries_spec()
    }

    /// The byte budget.
    pub closed spec fn budget_spec(&self) -> nat {
        self.budget.budget_spec()
    }

    /// The reserved id waiting for its texture, if any.
    pub closed spec fn pending_spec(&self) -> Option<u64> {
        self.pending
    }

    /// Every texture is accounted in the budget and every budget entry has a
    /// texture (or is the pending reservation); no id occurs twice; the
    /// resident bytes stay within the budget.
    pub closed spec fn wf(&self) -> bool {
        &&& self.budget.wf()
        &&& self.budget.resident_bytes() <= self.budget.budget_spec()
        &&& distinct_entries(self.budget.entries_spec())
        &&& distinct_textures(self.textures@)
        &&& forall|id: u64|
            #[trigger] has_texture(self.textures@, id) ==> has_id(self.budget.entries_spec(), id)
                && self.pending != Some(id)
        &&& forall|id: u64|
            #[trigger] has_id(self.budget.entries_spec(), id) ==> has_texture(self.textures@, id)
                || self.pending == Some(id)
        &&& self.pending matches Some(p) ==> has_id(self.budget.entries_spec(), p)
    }

    /// Bytes held by the budget's entries.
    pub open spec fn resident_bytes(&self) -> nat {
        crate::ovl_budget::sum_bytes(self.entries_spec())
    }

    /// An empty cache with the overlay byte budget.
    pub fn new() -> (r: Self)
        ensures
            r.wf(),
            r.textures_spec() == Seq::<(u64, u32)>::empty(),
            r.entries_spec() == Seq::<(u64, usize)>::empty(),
            r.budget_spec() == OVL_BYTE_BUDGET,
            r.pending_spec() is None,
    {
        let r = OverlayTextures {
            textures: Vec::new(),
            budget: OvlBudget::new(OVL_BYTE_BUDGET),
            pending: None,
        };
        proof {
            assert(r.budget.resident_bytes() == 0);
        }
        r
    }

    /// Position of the texture of `id`, if any.
    fn position(&self, id: u64) -> (r: Option<usize>)
        ensures
            match r {
                Some(p) => p < self.textures@.len() && self.textures@[p as int].0 == id,
                None => !has_texture(self.textures@, id),
            },
    {
        let n = self.textures.len();
        let mut i: usize = 0;
        while i < n
            invariant
                n == self.textures@.len(),
                i <= n,
                forall|j: int| 0 <= j < i ==> self.textures@[j].0 != id,
            decreases n - i,
        {
            if self.textures[i].0 == id {
                return Some(i);
            }
            i = i + 1;
        }
        None
    }

    /// The cached texture of overlay `id`; a hit makes the overlay the most
    /// recently used.
    pub fn lookup(&mut self, id: u64) -> (r: Option<u32>)
        requires
            old(self).wf(),
        ensures
            final(self).wf(),
            final(self).textures_spec() == old(self).textures_spec(),
            final(self).pending_spec() == old(self).pending_spec(),
            final(self).budget_spec() == old(self).budget_spec(),
            r is Some <==> has_texture(old(self).textures_spec(), id),
            r matches Some(t) ==> t == texture_of(old(self).textures_spec(), id),
            final(self).entries_spec() == if r is Some {
                touched(old(self).entries_spec(), id)
            } else {
                old(self).entries_spec()
            },
    {
        match self.position(id) {
            Some(p) => {
                let tex = self.textures[p].1;
                let ghost s = self.budget.entries_spec();
                proof {
                    assert(has_texture(self.textures@, id));
                    assert(texture_of(self.textures@, id) == tex) by {
                        let j = choose|j: int| 0 <= j < self.textures@.len() && self.textures@[j].0 == id;
                        if j != p {
                            if j < p {
                                assert(self.textures@[j].0 != self.textures@[p as int].0);
                            } else {
                                assert(self.textures@[p as int].0 != self.textures@[j].0);
                            }
                        }
                    }
                    law_touch_only_reorders(s, id);
                    lemma_touched_distinct(s, id);
                }
                self.budget.touch(id);
                proof {
                    let t = self.budget.entries_spec();
                    assert forall|x: u64| #[trigger] has_texture(self.textures@, x) implies has_id(t, x) by {
                        assert(has_id(s, x));
                    }
                    assert forall|x: u64| #[trigger] has_id(t, x) implies has_texture(self.textures@, x)
                        || self.pending == Some(x) by {
                        assert(has_id(s, x));
                    }
                    if self.pending is Some {
                        assert(has_id(s, self.pending->0));
                    }
                }
                Some(tex)
            },
            None => None,
        }
    }

    /// Reserves the `bytes` of overlay `id`, which has no texture yet:
    /// least recently used entries leave until it fits (or the cache is
    /// empty). Returns the textures of the evicted overlays, to delete, and
    /// whether the overlay fits; when it does it is pending until `record`.
    pub fn reserve(&mut self, id: u64, bytes: usize) -> (r: (Vec<u32>, bool))
        requires
            old(self).wf(),
            old(self).pending_spec() is None,
            !has_texture(old(self).textures_spec(), id),
        ensures
            final(self).wf(),
            final(self).budget_spec() == old(self).budget_spec(),
            final(self).entries_spec() == entries_after_insert(
                old(self).entries_spec(),
                old(self).budget_spec(),
                id,
                bytes,
            ),
            r.0@ == evicted_by_insert(
                old(self).entries_spec(),
                old(self).budget_spec(),
                id,
                bytes,
            ).map_values(|v: u64| texture_of(old(self).textures_spec(), v)),
            r.1 == has_id(final(self).entries_spec(), id),
            final(self).pending_spec() == if r.1 {
                Some(id)
            } else {
                None::<u64>
            },
            forall|x: u64|
                #[trigger] has_texture(final(self).textures_spec(), x) <==> (has_texture(
                    old(self).textures_spec(),
                    x,
                ) && !evicted_by_insert(
                    old(self).entries_spec(),
                    old(self).budget_spec(),
                    id,
                    bytes,
                ).contains(x)),
    {
        let ghost s = self.budget.entries_spec();
        let ghost old_tex = self.textures@;
        let ghost bud = self.budget.budget_spec();
        proof {
            assert(!has_id(s, id));
            lemma_touched_absent(s, id);
        }
        let evicted = self.budget.insert(id, bytes);
        let ghost c = evict_count(s, bytes as nat, bud);
        proof {
            crate::ovl_budget::lemma_evict_count_props(s, bytes as nat, bud);
            assert(evicted@ == ids_of(s.take(c as int)));
        }
        let n = evicted.len();
        let mut gone: Vec<u32> = Vec::new();
        let mut k: usize = 0;
        while k < n
            invariant
                n == evicted@.len(),
                evicted@ == ids_of(s.take(c as int)),
                c <= s.len(),
                distinct_entries(s),
                distinct_textures(old_tex),
                forall|x: u64| #[trigger] has_texture(old_tex, x) <==> has_id(s, x),
                k <= n,
                distinct_textures(self.textures@),
                forall|j: int| 0 <= j < self.textures@.len() ==> old_tex.contains(#[trigger] self.textures@[j]),
                forall|x: u64|
                    #[trigger] has_texture(self.textures@, x) <==> (has_texture(old_tex, x)
                        && !evicted@.take(k as int).contains(x)),
                gone@ == evicted@.take(k as int).map_values(|v: u64| texture_of(old_tex, v)),
                self.budget.entries_spec() == entries_after_insert(s, bud, id, bytes),
                self.budget.wf(),
                self.budget.budget_spec() == bud,
                self.budget.resident_bytes() <= bud,
                self.pending is None,
            decreases n - k,
        {
            let vid = evicted[k];
            proof {
                assert(evicted@.take(k as int + 1) =~= evicted@.take(k as int).push(vid));
                assert(has_id(s, vid)) by {
                    assert(s.take(c as int)[k as int].0 == vid);
                    assert(s[k as int].0 == vid);
                }
                assert(!evicted@.take(k as int).contains(vid)) by {
                    let e = evicted@.take(k as int);
                    if e.contains(vid) {
                        let j = choose|j: int| 0 <= j < e.len() && e[j] == vid;
                        assert(s[j].0 == vid);
                        assert(s[k as int].0 == vid);
                    }
                }
                assert(has_texture(self.textures@, vid));
            }
            match self.position(vid) {
                Some(p) => {
                    let ghost before = self.textures@;
                    let (_, tex) = self.textures.swap_remove(p);
                    proof {
                        lemma_swap_remove(before, p as int);
                        assert(texture_of(old_tex, vid) == tex) by {
                            assert(old_tex.contains(before[p as int]));
                            let q = choose|q: int| 0 <= q < old_tex.len() && old_tex[q] == before[p as int];
                            let j = choose|j: int| 0 <= j < old_tex.len() && old_tex[j].0 == vid;
                            if j != q {
                                if j < q {
                                    assert(old_tex[j].0 != old_tex[q].0);
                                } else {
                                    assert(old_tex[q].0 != old_tex[j].0);
                                }
                            }
                        }
                        assert forall|x: u64| #[trigger] has_texture(self.textures@, x) <==> (
                        has_texture(old_tex, x) && !evicted@.take(k as int + 1).contains(x)) by {
                            assert(evicted@.take(k as int + 1).contains(x) <==> (evicted@.take(
                                k as int,
                            ).contains(x) || x == vid)) by {
                                let e = evicted@.take(k as int);
                                let e1 = evicted@.take(k as int + 1);
                                if e1.contains(x) {
                                    let j = choose|j: int| 0 <= j < e1.len() && e1[j] == x;
                                    if j < k {
                                        assert(e[j] == x);
                                    }
                                }
                                if e.contains(x) {
                                    let j = choose|j: int| 0 <= j < e.len() && e[j] == x;
                                    assert(e1[j] == x);
                                }
                                if x == vid {
                                    assert(e1[k as int] == x);
                                }
                            }
                        }
                    }
                    gone.push(tex);
                },
                None => {},
            }
            k = k + 1;
        }
        let fits = self.budget.contains(id);
        if fits {
            self.pending = Some(id);
        }
        proof {
            assert(evicted@.take(n as int) =~= evicted@);
            let t = self.budget.entries_spec();
            let rest = s.skip(c as int);
            lemma_skip_distinct(s, c as int);
            assert forall|x: u64| has_id(rest, x) <==> (has_id(s, x) && !ids_of(s.take(c as int)).contains(x)) by {
                if has_id(rest, x) {
                    let j = choose|j: int| 0 <= j < rest.len() && rest[j].0 == x;
                    assert(s[j + c].0 == x);
                    let ev = ids_of(s.take(c as int));
                    if ev.contains(x) {
                        let q = choose|q: int| 0 <= q < ev.len() && ev[q] == x;
                        assert(s[q].0 == x);
                    }
                }
                if has_id(s, x) && !ids_of(s.take(c as int)).contains(x) {
                    let j = choose|j: int| 0 <= j < s.len() && s[j].0 == x;
                    if j < c {
                        assert(ids_of(s.take(c as int))[j] == x);
                    } else {
                        assert(rest[j - c].0 == x);
                    }
                }
            }
            if crate::ovl_budget::sum_bytes(rest) + bytes <= bud {
                assert(t == rest.push((id, bytes)));
                assert(!has_id(rest, id));
                assert forall|i: int, j: int| 0 <= i < j < t.len() implies t[i].0 != t[j].0 by {
                    if j == t.len() - 1 {
                        assert(t[i] == rest[i]);
                    } else {
                        assert(t[i] == rest[i] && t[j] == rest[j]);
                    }
                }
                assert forall|x: u64| has_id(t, x) <==> (has_id(rest, x) || x == id) by {
                    if has_id(t, x) {
                        let j = choose|j: int| 0 <= j < t.len() && t[j].0 == x;
                        if j < rest.len() {
                            assert(rest[j].0 == x);
                        }
                    }
                    if has_id(rest, x) {
                        let j = choose|j: int| 0 <= j < rest.len() && rest[j].0 == x;
                        assert(t[j].0 == x);
                    }
                    if x == id {
                        assert(t[rest.len() as int].0 == x);
                    }
                }
            } else {
                assert(t == rest);
            }
        }
        (gone, fits)
    }

    /// Records `tex` as the texture of the pending overlay.
    pub fn record(&mut self, tex: u32)
        requires
            old(self).wf(),
            old(self).pending_spec() is Some,
        ensures
            final(self).wf(),
            final(self).pending_spec() is None,
            final(self).entries_spec() == old(self).entries_spec(),
            final(self).budget_spec() == old(self).budget_spec(),
            final(self).textures_spec() == old(self).textures_spec().push(
                (old(self).pending_spec()->0, tex),
            ),
    {
        let id = match self.pending {
            Some(p) => p,
            None => 0,
        };
        let ghost before = self.textures@;
        self.textures.push((id, tex));
        self.pending = None;
        proof {
            assert(!has_texture(before, id));
            let t = self.textures@;
            assert forall|i: int, j: int| 0 <= i < j < t.len() implies t[i].0 != t[j].0 by {
                if j == t.len() - 1 {
                    assert(t[i] == before[i]);
                    assert(has_texture(before, t[i].0));
                } else {
                    assert(t[i] == before[i] && t[j] == before[j]);
                }
            }
            assert forall|x: u64| #[trigger] has_texture(t, x) <==> (has_texture(before, x) || x == id) by {
                if has_texture(t, x) {
                    let j = choose|j: int| 0 <= j < t.len() && t[j].0 == x;
                    if j < before.len() {
                        assert(before[j].0 == x);
                    }
                }
                if has_texture(before, x) {
                    let j = choose|j: int| 0 <= j < before.len() && before[j].0 == x;
                    assert(t[j].0 == x);
                }
                if x == id {
                    assert(t[before.len() as int].0 == x);
                }
            }
        }
    }
}

/// Every overlay texture is accounted in the byte budget, every budget
/// entry has its texture (or is the one pending reservation), no overlay
/// has two textures, and the resident bytes never exceed the budget.
pub proof fn law_textures_accounted(c: &OverlayTextures)
    requires
        c.wf(),
    ensures
        forall|id: u64|
            #[trigger] has_texture(c.textures_spec(), id) ==> has_id(c.entries_spec(), id),
        forall|id: u64|
            #[trigger] has_id(c.entries_spec(), id) ==> has_texture(c.textures_spec(), id)
                || c.pending_spec() == Some(id),
        distinct_textures(c.textures_spec()),
        c.resident_bytes() <= c.budget_spec(),
{
}

/// Touching an id that is not resident changes nothing.
proof fn lemma_touched_absent(s: Seq<(u64, usize)>, id: u64)
    requires
        !has_id(s, id),
    ensures
        touched(s, id) == s,
{
    if exists|p: int| crate::ovl_budget::is_first_with_id(s, id, p) {
        let p = choose|p: int| crate::ovl_budget::is_first_with_id(s, id, p);
        assert(s[p].0 == id);
    }
}

/// Touching keeps ids distinct.
proof fn lemma_touched_distinct(s: Seq<(u64, usize)>, id: u64)
    requires
        distinct_entries(s),
    ensures
        distinct_entries(touched(s, id)),
{
    if exists|p: int| crate::ovl_budget::is_first_with_id(s, id, p) {
        let p = choose|p: int| crate::ovl_budget::is_first_with_id(s, id, p);
        let t = touched(s, id);
        let r = s.remove(p);
        assert(t == r.push(s[p]));
        assert forall|i: int, j: int| 0 <= i < j < t.len() implies t[i].0 != t[j].0 by {
            let si = if i < p {
                i
            } else {
                i + 1
            };
            if j == t.len() - 1 {
                assert(t[i] == s[si]);
                assert(t[j] == s[p]);
                if si < p {
                    assert(s[si].0 != s[p].0);
                } else {
                    assert(s[p].0 != s[si].0);
                }
            } else {
                let sj = if j < p {
                    j
                } else {
                    j + 1
                };
                assert(t[i] == s[si]);
                assert(t[j] == s[sj]);
                assert(s[si].0 != s[sj].0);
            }
        }
    }
}

/// A suffix of distinct entries is distinct.
proof fn lemma_skip_distinct(s: Seq<(u64, usize)>, c: int)
    requires
        distinct_entries(s),
        0 <= c <= s.len(),
    ensures
        distinct_entries(s.skip(c)),
{
    let r = s.skip(c);
    assert forall|i: int, j: int| 0 <= i < j < r.len() implies r[i].0 != r[j].0 by {
        assert(r[i] == s[i + c] && r[j] == s[j + c]);
    }
}

/// `swap_remove` keeps the other entries, distinct, and drops the removed
/// one's id.
proof fn lemma_swap_remove(c: Seq<(u64, u32)>, p: int)
    requires
        distinct_textures(c),
        0 <= p < c.len(),
    ensures
        ({
            let r = c.update(p, c.last()).drop_last();
            &&& distinct_textures(r)
            &&& forall|j: int| 0 <= j < r.len() ==> c.contains(#[trigger] r[j])
            &&& forall|x: u64| #[trigger] has_texture(r, x) <==> (has_texture(c, x) && x != c[p].0)
        }),
{
    let r = c.update(p, c.last()).drop_last();
    let last = c.len() - 1;
    assert forall|j: int| 0 <= j < r.len() implies c.contains(#[trigger] r[j]) by {
        if j == p {
            assert(r[j] == c[last]);
        } else {
            assert(r[j] == c[j]);
        }
    }
    assert forall|i: int, j: int| 0 <= i < j < r.len() implies r[i].0 != r[j].0 by {
        let ci = if i == p {
            last
        } else {
            i
        };
        let cj = if j == p {
            last
        } else {
            j
        };
        assert(r[i] == c[ci] && r[j] == c[cj]);
        if ci < cj {
            assert(c[ci].0 != c[cj].0);
        } else {
            assert(c[cj].0 != c[ci].0);
        }
    }
    assert forall|x: u64| #[trigger] has_texture(r, x) <==> (has_texture(c, x) && x != c[p].0) by {
        if has_texture(r, x) {
            let j = choose|j: int| 0 <= j < r.len() && r[j].0 == x;
            let cj = if j == p {
                last
            } else {
                j
            };
            assert(r[j] == c[cj]);
            if cj != p {
                if cj < p {
                    assert(c[cj].0 != c[p].0);
                } else {
                    assert(c[p].0 != c[cj].0);
                }
            }
        }
        if has_texture(c, x) && x != c[p].0 {
            let j = choose|j: int| 0 <= j < c.len() && c[j].0 == x;
            if j == last {
                assert(r[p].0 == x);
            } else {
                assert(r[j].0 == x);
            }
        }
    }
}

/// The dedicated texture of the opening fade: one snapshot id and its
/// texture at a time, outside the overlay budget.
pub struct FadeTexture {
    pub current: Option<(u64, u32)>,
}

impl FadeTexture {
    /// No fade texture.
    pub fn new() -> (r: Self)
        ensures
            r.current is None,
    {
        FadeTexture { current: None }
    }

    /// The texture already uploaded for snapshot `id`, if it is the current
    /// one.
    pub fn cached(&self, id: u64) -> (r: Option<u32>)
        ensures
            r == match self.current {
                Some((old, tex)) => if old == id {
                    Some(tex)
                } else {
                    None
                },
                None => None,
            },
    {
        match self.current {
            Some((old, tex)) => if old == id {
                Some(tex)
            } else {
                None
            },
            None => None,
        }
    }

    /// Makes `tex` the texture of snapshot `id`; returns the texture it
    /// replaces, to delete.
    pub fn replace(&mut self, id: u64, tex: u32) -> (r: Option<u32>)
        ensures
            final(self).current == Some((id, tex)),
            r == match old(self).current {
                Some((_, t)) => Some(t),
                None => None,
            },
    {
        let r = match self.current {
            Some((_, t)) => Some(t),
            None => None,
        };
        self.current = Some((id, tex));
        r
    }

    /// Gives up the fade texture; returns it, to delete.
    pub fn take(&mut self) -> (r: Option<u32>)
        ensures
            final(self).current is None,
            r == match old(self).current {
                Some((_, t)) => Some(t),
                None => None,
            },
    {
        let r = match self.current {
            Some((_, t)) => Some(t),
            None => None,
        };
        self.current = None;
        r
    }
}

} // verus!
