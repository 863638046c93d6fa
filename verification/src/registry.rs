//! The registry of authorized workspace roots, and the short-lived cache of
//! canonicalized paths that sits beside it.
use crate::paths::{normalized_path, path_key, path_prefix, path_starts_with};
use vstd::prelude::*;
use vstd::string::*;

verus! {

/// How long a canonicalized path stays in the cache, in nanoseconds. Short, so
/// that the window between a check and its use stays small, yet long enough
/// to serve the burst of lookups of one panel refresh.
pub const CANONICAL_TTL_NANOS: u64 = 1_000_000_000;

/// The most entries the cache holds.
pub const CANONICAL_CACHE_CAP: usize = 256;

/// A cached canonicalization, as the specs see it.
pub struct CacheSlot {
    pub key: Seq<char>,
    pub canonical: Seq<char>,
    pub inserted_at: u64,
}

/// A cached canonicalization: the path asked for, its canonical form, and the
/// time (in nanoseconds on the caller's monotonic clock) it was stored.
struct CanonicalEntry {
    key: String,
    canonical: String,
    inserted_at: u64,
}

impl CanonicalEntry {
    spec fn slot(self) -> CacheSlot {
        CacheSlot { key: self.key@, canonical: self.canonical@, inserted_at: self.inserted_at }
    }
}

spec fn slots_of(v: Seq<CanonicalEntry>) -> Seq<CacheSlot> {
    v.map_values(|e: CanonicalEntry| e.slot())
}

/// The set of authorized roots and the canonicalization cache.
pub struct WorkspaceRegistry {
    roots: Vec<String>,
    canonical_cache: Vec<CanonicalEntry>,
}

// ---------------------------------------------------------------------------
// The specs of roots and of the cache.

/// Whether `target` lies under one of `roots`, by whole path components. A
/// root lies under itself.
pub open spec fn authorizes(roots: Set<Seq<char>>, target: Seq<char>) -> bool {
    ||| roots.contains(target)
    ||| exists|root: Seq<char>| roots.contains(root) && #[trigger] path_prefix(target, root)
}

/// Authorizing a root authorizes that root, and everything that was
/// authorized before stays authorized.
pub proof fn lemma_authorize_grants(roots: Set<Seq<char>>, root: Seq<char>, target: Seq<char>)
    ensures
        authorizes(roots.insert(root), root),
        authorizes(roots, target) ==> authorizes(roots.insert(root), target),
{
    if authorizes(roots, target) && !roots.contains(target) {
        let r = choose|r: Seq<char>| roots.contains(r) && #[trigger] path_prefix(target, r);
        assert(roots.insert(root).contains(r));
    }
}

/// How long ago `at` was at time `now` (zero when `at` is later: a clock
/// difference never goes negative).
pub open spec fn age(now: u64, at: u64) -> int {
    if now >= at {
        now - at
    } else {
        0
    }
}

/// Whether a cached slot may still be served at time `now`.
pub open spec fn is_fresh(slot: CacheSlot, now: u64) -> bool {
    age(now, slot.inserted_at) < CANONICAL_TTL_NANOS
}

/// The slots of `s` that may still be served at `now`, in order.
pub open spec fn fresh_slots(s: Seq<CacheSlot>, now: u64) -> Seq<CacheSlot>
    decreases s.len(),
{
    if s.len() == 0 {
        Seq::empty()
    } else if is_fresh(s.last(), now) {
        fresh_slots(s.drop_last(), now).push(s.last())
    } else {
        fresh_slots(s.drop_last(), now)
    }
}

/// No two slots of `s` share a key.
pub open spec fn keys_unique(s: Seq<CacheSlot>) -> bool {
    forall|i: int, j: int|
        0 <= i < s.len() && 0 <= j < s.len() && i != j ==> (#[trigger] s[i]).key != (#[trigger] s[j]).key
}

/// Whether some slot of `s` has key `key`.
pub open spec fn has_key(s: Seq<CacheSlot>, key: Seq<char>) -> bool {
    exists|i: int| 0 <= i < s.len() && (#[trigger] s[i]).key == key
}

/// The position of the slot with key `key` (meaningful when `has_key`).
pub open spec fn key_index(s: Seq<CacheSlot>, key: Seq<char>) -> int {
    choose|i: int| 0 <= i < s.len() && (#[trigger] s[i]).key == key
}

/// The slot with key `key`, if any.
pub open spec fn slot_for(s: Seq<CacheSlot>, key: Seq<char>) -> Option<CacheSlot> {
    if has_key(s, key) {
        Some(s[key_index(s, key)])
    } else {
        None
    }
}

/// What the cache serves for `key` at time `now`: the canonical path of its
/// slot while that slot is fresh.
pub open spec fn lookup_spec(s: Seq<CacheSlot>, key: Seq<char>, now: u64) -> Option<Seq<char>> {
    match slot_for(s, key) {
        Some(slot) => if is_fresh(slot, now) {
            Some(slot.canonical)
        } else {
            None
        },
        None => None,
    }
}

/// The cache made ready for one more entry at `now`: a full cache drops its
/// stale slots, and is emptied when it is still full after that.
pub open spec fn pruned_spec(s: Seq<CacheSlot>, now: u64) -> Seq<CacheSlot> {
    if s.len() >= CANONICAL_CACHE_CAP {
        let f = fresh_slots(s, now);
        if f.len() >= CANONICAL_CACHE_CAP {
            Seq::empty()
        } else {
            f
        }
    } else {
        s
    }
}

/// `s` with `slot` stored: it replaces the slot with the same key, or is added.
pub open spec fn insert_slot(s: Seq<CacheSlot>, slot: CacheSlot) -> Seq<CacheSlot> {
    if has_key(s, slot.key) {
        s.update(key_index(s, slot.key), slot)
    } else {
        s.push(slot)
    }
}

/// The cache after remembering that `key` canonicalizes to `canonical` at `now`.
pub open spec fn remember_spec(s: Seq<CacheSlot>, key: Seq<char>, canonical: Seq<char>, now: u64) -> Seq<
    CacheSlot,
> {
    insert_slot(pruned_spec(s, now), CacheSlot { key, canonical, inserted_at: now })
}

// ---------------------------------------------------------------------------
// Lemmas about the cache.

/// The fresh slots are slots of `s`, each of them fresh, no more of them than
/// of `s`, and their keys are unique when those of `s` are.
pub proof fn lemma_fresh_slots(s: Seq<CacheSlot>, now: u64)
    ensures
        fresh_slots(s, now).len() <= s.len(),
        forall|i: int|
            0 <= i < fresh_slots(s, now).len() ==> s.contains(#[trigger] fresh_slots(s, now)[i])
                && is_fresh(fresh_slots(s, now)[i], now),
        keys_unique(s) ==> keys_unique(fresh_slots(s, now)),
    decreases s.len(),
{
    if s.len() > 0 {
        let init = s.drop_last();
        lemma_fresh_slots(init, now);
        let fi = fresh_slots(init, now);
        assert forall|i: int| 0 <= i < fi.len() implies s.contains(#[trigger] fi[i]) by {
            let j = choose|j: int| 0 <= j < init.len() && init[j] == fi[i];
            assert(s[j] == fi[i]);
        }
        if is_fresh(s.last(), now) {
            let f = fi.push(s.last());
            assert(f == fresh_slots(s, now));
            assert forall|i: int| 0 <= i < f.len() implies s.contains(#[trigger] f[i]) && is_fresh(
                f[i],
                now,
            ) by {
                if i < fi.len() {
                    assert(f[i] == fi[i]);
                } else {
                    assert(s[s.len() - 1] == f[i]);
                }
            }
            if keys_unique(s) {
                assert(keys_unique(init));
                assert forall|i: int, j: int|
                    0 <= i < f.len() && 0 <= j < f.len() && i != j implies (#[trigger] f[i]).key
                    != (#[trigger] f[j]).key by {
                    if i < fi.len() && j < fi.len() {
                        assert(f[i] == fi[i] && f[j] == fi[j]);
                    } else if i < fi.len() {
                        let k = choose|k: int| 0 <= k < init.len() && init[k] == fi[i];
                        assert(s[k] == f[i]);
                        assert(s[s.len() - 1] == f[j]);
                    } else {
                        let k = choose|k: int| 0 <= k < init.len() && init[k] == fi[j];
                        assert(s[k] == f[j]);
                        assert(s[s.len() - 1] == f[i]);
                    }
                }
            }
        } else {
            if keys_unique(s) {
                assert(keys_unique(init));
            }
        }
    }
}

/// With unique keys, the slot found for a key is the one at any position that
/// holds that key.
pub proof fn lemma_slot_at(s: Seq<CacheSlot>, i: int)
    requires
        keys_unique(s),
        0 <= i < s.len(),
    ensures
        slot_for(s, s[i].key) == Some(s[i]),
        key_index(s, s[i].key) == i,
{
    assert(has_key(s, s[i].key));
}

/// A slot of a sub-collection with unique keys is the slot of the whole.
proof fn lemma_slot_for_sub(big: Seq<CacheSlot>, small: Seq<CacheSlot>, key: Seq<char>)
    requires
        keys_unique(big),
        keys_unique(small),
        forall|i: int| 0 <= i < small.len() ==> big.contains(#[trigger] small[i]),
    ensures
        slot_for(small, key) is Some ==> slot_for(small, key) == slot_for(big, key),
{
    if has_key(small, key) {
        let i = key_index(small, key);
        let j = choose|j: int| 0 <= j < big.len() && big[j] == small[i];
        lemma_slot_at(big, j);
    }
}

/// What remembering a canonicalization does to the cache: keys stay unique,
/// it never holds more than the cap, the new slot is served for the whole time
/// to live, and any other key is either served as before or not at all.
pub proof fn lemma_remember(s: Seq<CacheSlot>, key: Seq<char>, canonical: Seq<char>, now: u64)
    requires
        keys_unique(s),
        s.len() <= CANONICAL_CACHE_CAP,
    ensures
        keys_unique(remember_spec(s, key, canonical, now)),
        remember_spec(s, key, canonical, now).len() <= CANONICAL_CACHE_CAP,
        forall|t: u64|
            age(t, now) < CANONICAL_TTL_NANOS ==> #[trigger] lookup_spec(
                remember_spec(s, key, canonical, now),
                key,
                t,
            ) == Some(canonical),
        forall|k: Seq<char>, t: u64|
            k != key && (#[trigger] lookup_spec(remember_spec(s, key, canonical, now), k, t)) is Some
                ==> lookup_spec(remember_spec(s, key, canonical, now), k, t) == lookup_spec(
                s,
                k,
                t,
            ),
{
    let p = pruned_spec(s, now);
    let slot = CacheSlot { key, canonical, inserted_at: now };
    let r = remember_spec(s, key, canonical, now);
    lemma_fresh_slots(s, now);
    assert(keys_unique(p));
    assert(forall|i: int| 0 <= i < p.len() ==> s.contains(#[trigger] p[i]));
    assert(p.len() < CANONICAL_CACHE_CAP || (p == s && s.len() < CANONICAL_CACHE_CAP));
    let idx = if has_key(p, key) {
        key_index(p, key)
    } else {
        p.len() as int
    };
    assert(r[idx] == slot);
    assert(forall|i: int| 0 <= i < r.len() && i != idx ==> #[trigger] r[i] == p[i]);
    assert forall|i: int, j: int|
        0 <= i < r.len() && 0 <= j < r.len() && i != j implies (#[trigger] r[i]).key != (#[trigger] r[j]).key by {
        if i != idx && j != idx {
            assert(r[i] == p[i] && r[j] == p[j]);
        } else if i == idx {
            assert(r[j] == p[j]);
            if has_key(p, key) {
                assert(p[idx].key == key);
            }
        } else {
            assert(r[i] == p[i]);
            if has_key(p, key) {
                assert(p[idx].key == key);
            }
        }
    }
    assert(keys_unique(r));
    lemma_slot_at(r, idx);
    assert forall|t: u64| age(t, now) < CANONICAL_TTL_NANOS implies #[trigger] lookup_spec(
        r,
        key,
        t,
    ) == Some(canonical) by {}
    assert forall|k: Seq<char>, t: u64|
        k != key && (#[trigger] lookup_spec(r, k, t)) is Some implies lookup_spec(r, k, t)
        == lookup_spec(s, k, t) by {
        let i = key_index(r, k);
        assert(has_key(r, k));
        assert(r[i].key == k);
        assert(i != idx);
        assert(r[i] == p[i]);
        lemma_slot_at(p, i);
        lemma_slot_for_sub(s, p, k);
    }
}

/// Every fresh slot of `s` is among its fresh slots.
proof fn lemma_fresh_slots_keep(s: Seq<CacheSlot>, now: u64, i: int)
    requires
        0 <= i < s.len(),
        is_fresh(s[i], now),
    ensures
        fresh_slots(s, now).contains(s[i]),
    decreases s.len(),
{
    let init = s.drop_last();
    if i == s.len() - 1 {
        assert(fresh_slots(s, now).last() == s[i]);
    } else {
        lemma_fresh_slots_keep(init, now, i);
        assert(init[i] == s[i]);
        let fi = fresh_slots(init, now);
        let j = choose|j: int| 0 <= j < fi.len() && fi[j] == s[i];
        if is_fresh(s.last(), now) {
            assert(fresh_slots(s, now)[j] == fi[j]);
        }
    }
}

/// Storing another key leaves what the cache serves for `key` unchanged, at
/// any time, unless the store finds the cache full and has to drop the entry
/// for `key` (because it is stale by then, or because the fresh entries alone
/// still fill the cache and it is cleared). With `lemma_remember`, a path
/// looked up again within its time to live is served what was stored for it,
/// whatever the file system holds by then, as long as no store in between
/// finds the cache full.
pub proof fn lemma_lookup_survives_remember(
    s: Seq<CacheSlot>,
    key: Seq<char>,
    other: Seq<char>,
    canonical: Seq<char>,
    now: u64,
    t: u64,
)
    requires
        keys_unique(s),
        s.len() <= CANONICAL_CACHE_CAP,
        other != key,
        s.len() < CANONICAL_CACHE_CAP || (fresh_slots(s, now).len() < CANONICAL_CACHE_CAP && (
        slot_for(s, key) matches Some(sl) ==> is_fresh(sl, now))),
    ensures
        lookup_spec(remember_spec(s, other, canonical, now), key, t) == lookup_spec(s, key, t),
{
    let p = pruned_spec(s, now);
    let r = remember_spec(s, other, canonical, now);
    lemma_fresh_slots(s, now);
    lemma_remember(s, other, canonical, now);
    assert(keys_unique(p));
    assert(forall|i: int| 0 <= i < p.len() ==> s.contains(#[trigger] p[i]));
    // The pruning keeps the slot for `key`, or there was none.
    if has_key(s, key) {
        let i = key_index(s, key);
        lemma_slot_at(s, i);
        if s.len() >= CANONICAL_CACHE_CAP {
            lemma_fresh_slots_keep(s, now, i);
        }
        assert(p.contains(s[i]));
        let j = choose|j: int| 0 <= j < p.len() && p[j] == s[i];
        lemma_slot_at(p, j);
        assert(slot_for(p, key) == slot_for(s, key));
    } else {
        assert(!has_key(p, key)) by {
            if has_key(p, key) {
                let j = key_index(p, key);
                let i = choose|i: int| 0 <= i < s.len() && s[i] == p[j];
                assert(s[i].key == key);
            }
        }
    }
    // Storing `other` does not touch the slot for `key`.
    let idx = if has_key(p, other) {
        key_index(p, other)
    } else {
        p.len() as int
    };
    assert(forall|i: int| 0 <= i < r.len() && i != idx ==> #[trigger] r[i] == p[i]);
    assert(r[idx].key == other);
    if has_key(p, key) {
        let j = key_index(p, key);
        assert(p[j].key == key);
        assert(j != idx);
        assert(r[j] == p[j]);
        lemma_slot_at(r, j);
        lemma_slot_at(p, j);
    } else {
        assert(!has_key(r, key)) by {
            if has_key(r, key) {
                let j = key_index(r, key);
                assert(j != idx);
                assert(r[j] == p[j]);
            }
        }
    }
}

// ---------------------------------------------------------------------------
// The registry.

impl WorkspaceRegistry {
    /// The authorized roots.
    pub closed spec fn roots(&self) -> Set<Seq<char>> {
        self.roots@.map_values(|r: String| r@).to_set()
    }

    /// The cached canonicalizations.
    pub closed spec fn cache(&self) -> Seq<CacheSlot> {
        slots_of(self.canonical_cache@)
    }

    /// Well-formed: no root is held twice, no key is cached twice, and the
    /// cache is within its cap.
    pub closed spec fn wf(&self) -> bool {
        &&& self.roots@.map_values(|r: String| r@).no_duplicates()
        &&& keys_unique(self.cache())
        &&& self.cache().len() <= CANONICAL_CACHE_CAP
    }

    /// An empty registry: no roots, nothing cached.
    pub fn new() -> (r: Self)
        ensures
            r.wf(),
            r.roots() == Set::<Seq<char>>::empty(),
            r.cache() == Seq::<CacheSlot>::empty(),
    {
        let r = WorkspaceRegistry { roots: Vec::new(), canonical_cache: Vec::new() };
        assert(r.roots@.map_values(|s: String| s@) =~= Seq::<Seq<char>>::empty());
        assert(r.cache() =~= Seq::<CacheSlot>::empty());
        r
    }

    /// Adds an (already canonical) root.
    pub fn authorize(&mut self, canonical: &str)
        requires
            old(self).wf(),
        ensures
            final(self).wf(),
            final(self).roots() == old(self).roots().insert(canonical@),
            final(self).cache() == old(self).cache(),
    {
        let ghost old_views = self.roots@.map_values(|r: String| r@);
        let c = String::from_str(canonical);
        let mut i: usize = 0;
        while i < self.roots.len()
            invariant
                self.roots@.map_values(|r: String| r@) == old_views,
                old(self).roots@.map_values(|r: String| r@) == old_views,
                *self == *old(self),
                self.wf(),
                i <= self.roots@.len(),
                c@ == canonical@,
                forall|k: int| 0 <= k < i ==> (#[trigger] self.roots@[k])@ != canonical@,
            decreases self.roots@.len() - i,
        {
            if self.roots[i] == c {
                assert(old_views[i as int] == canonical@);
                assert(self.roots().insert(canonical@) =~= self.roots());
                return;
            }
            i = i + 1;
        }
        self.roots.push(c);
        let ghost new_views = self.roots@.map_values(|r: String| r@);
        assert(new_views =~= old_views.push(canonical@));
        assert(!old_views.contains(canonical@)) by {
            if old_views.contains(canonical@) {
                let k = choose|k: int| 0 <= k < old_views.len() && old_views[k] == canonical@;
                assert(self.roots@[k]@ == canonical@);
            }
        }
        assert forall|y: Seq<char>|
            new_views.contains(y) <==> (old_views.contains(y) || y == canonical@) by {
            if new_views.contains(y) {
                let k = choose|k: int| 0 <= k < new_views.len() && new_views[k] == y;
                if k < old_views.len() {
                    assert(old_views[k] == y);
                }
            }
            if old_views.contains(y) {
                let k = choose|k: int| 0 <= k < old_views.len() && old_views[k] == y;
                assert(new_views[k] == y);
            }
            if y == canonical@ {
                assert(new_views[old_views.len() as int] == y);
            }
        }
        assert(new_views.to_set() =~= old_views.to_set().insert(canonical@));
        assert(new_views.no_duplicates());
    }

    /// Whether `target` lies under an authorized root.
    pub fn is_authorized(&self, target: &str) -> (b: bool)
        ensures
            b == authorizes(self.roots(), target@),
    {
        let ghost views = self.roots@.map_values(|r: String| r@);
        let mut i: usize = 0;
        while i < self.roots.len()
            invariant
                views == self.roots@.map_values(|r: String| r@),
                i <= self.roots@.len(),
                forall|k: int|
                    0 <= k < i ==> !path_prefix(target@, #[trigger] views[k]) && views[k]
                        != target@,
            decreases self.roots@.len() - i,
        {
            if path_starts_with(target, self.roots[i].as_str()) {
                assert(views[i as int] == self.roots@[i as int]@);
                assert(self.roots().contains(views[i as int]));
                return true;
            }
            i = i + 1;
        }
        assert forall|root: Seq<char>| self.roots().contains(root) implies !#[trigger] path_prefix(
            target@,
            root,
        ) by {
            assert(views.contains(root));
        }
        assert(!self.roots().contains(target@));
        false
    }

    /// The canonical path cached for `key`, if it is still fresh at `now`.
    /// Keys are compared as paths (see `path_key`): `/a//b/` and `/a/b` are one
    /// key.
    pub fn cached_canonical(&self, key: &str, now: u64) -> (r: Option<String>)
        requires
            self.wf(),
        ensures
            match r {
                Some(c) => lookup_spec(self.cache(), path_key(key@), now) == Some(c@),
                None => lookup_spec(self.cache(), path_key(key@), now) is None,
            },
    {
        let k = normalized_path(key);
        match find_key(&self.canonical_cache, &k) {
            Some(i) => {
                proof {
                    lemma_slot_at(self.cache(), i as int);
                }
                let e = &self.canonical_cache[i];
                let fresh = if now >= e.inserted_at {
                    now - e.inserted_at < CANONICAL_TTL_NANOS
                } else {
                    true
                };
                if fresh {
                    Some(e.canonical.clone())
                } else {
                    None
                }
            },
            None => None,
        }
    }

    /// Remembers that `key` canonicalizes to `canonical` at `now`. A full
    /// cache first drops its stale entries, and is cleared when that is not
    /// enough; the entry then replaces any entry for the same key (keys are
    /// compared as paths, see `path_key`).
    pub fn remember_canonical(&mut self, key: &str, canonical: &str, now: u64)
        requires
            old(self).wf(),
        ensures
            final(self).wf(),
            final(self).roots() == old(self).roots(),
            final(self).cache() == remember_spec(
                old(self).cache(),
                path_key(key@),
                canonical@,
                now,
            ),
            final(self).cache().len() <= CANONICAL_CACHE_CAP,
            forall|t: u64|
                age(t, now) < CANONICAL_TTL_NANOS ==> #[trigger] lookup_spec(
                    final(self).cache(),
                    path_key(key@),
                    t,
                ) == Some(canonical@),
            forall|k: Seq<char>, t: u64|
                k != path_key(key@) && (#[trigger] lookup_spec(final(self).cache(), k, t)) is Some
                    ==> lookup_spec(final(self).cache(), k, t) == lookup_spec(old(self).cache(), k, t),
    {
        proof {
            lemma_remember(self.cache(), path_key(key@), canonical@, now);
            lemma_fresh_slots(self.cache(), now);
        }
        let ghost s = self.cache();
        if self.canonical_cache.len() >= CANONICAL_CACHE_CAP {
            let kept = fresh_entries(&self.canonical_cache, now);
            if kept.len() >= CANONICAL_CACHE_CAP {
                self.canonical_cache = Vec::new();
                assert(self.cache() =~= Seq::<CacheSlot>::empty());
            } else {
                self.canonical_cache = kept;
            }
        }
        assert(self.cache() == pruned_spec(s, now));
        let k = normalized_path(key);
        let entry = CanonicalEntry {
            key: k.clone(),
            canonical: String::from_str(canonical),
            inserted_at: now,
        };
        let ghost p = self.cache();
        match find_key(&self.canonical_cache, &k) {
            Some(i) => {
                proof {
                    lemma_slot_at(p, i as int);
                }
                self.canonical_cache.set(i, entry);
                assert(self.cache() =~= p.update(i as int, entry.slot()));
            },
            None => {
                self.canonical_cache.push(entry);
                assert(self.cache() =~= p.push(entry.slot()));
            },
        }
    }
}

impl Default for WorkspaceRegistry {
    fn default() -> (r: Self)
        ensures
            r.wf(),
            r.roots() == Set::<Seq<char>>::empty(),
            r.cache() == Seq::<CacheSlot>::empty(),
    {
        WorkspaceRegistry::new()
    }
}

/// The position of the entry with key `key`, if any.
fn find_key(v: &Vec<CanonicalEntry>, key: &String) -> (r: Option<usize>)
    ensures
        match r {
            Some(i) => i < v@.len() && slots_of(v@)[i as int].key == key@,
            None => !has_key(slots_of(v@), key@),
        },
{
    let mut i: usize = 0;
    while i < v.len()
        invariant
            i <= v@.len(),
            forall|k: int| 0 <= k < i ==> (#[trigger] slots_of(v@)[k]).key != key@,
        decreases v@.len() - i,
    {
        if v[i].key == *key {
            return Some(i);
        }
        i = i + 1;
    }
    None
}

/// The entries of `v` that are still fresh at `now`, in order.
fn fresh_entries(v: &Vec<CanonicalEntry>, now: u64) -> (r: Vec<CanonicalEntry>)
    ensures
        slots_of(r@) == fresh_slots(slots_of(v@), now),
{
    let ghost s = slots_of(v@);
    let mut r: Vec<CanonicalEntry> = Vec::new();
    let mut i: usize = 0;
    assert(s.take(0) =~= Seq::<CacheSlot>::empty());
    assert(slots_of(r@) =~= Seq::<CacheSlot>::empty());
    while i < v.len()
        invariant
            s == slots_of(v@),
            i <= v@.len(),
            slots_of(r@) == fresh_slots(s.take(i as int), now),
        decreases v@.len() - i,
    {
        let e = &v[i];
        assert(s.take(i + 1).drop_last() =~= s.take(i as int));
        assert(s.take(i + 1).last() == e.slot());
        let fresh = if now >= e.inserted_at {
            now - e.inserted_at < CANONICAL_TTL_NANOS
        } else {
            true
        };
        if fresh {
            let copy = CanonicalEntry {
                key: e.key.clone(),
                canonical: e.canonical.clone(),
                inserted_at: e.inserted_at,
            };
            r.push(copy);
            assert(slots_of(r@) =~= fresh_slots(s.take(i as int), now).push(e.slot()));
        }
        i = i + 1;
    }
    assert(s.take(v@.len() as int) =~= s);
    r
}

} // verus!
