//! The sector cache.
//!
//! Tile extraction reads overlapping sectors, so decoded sector rasters are
//! held in a bounded, key-addressed cache.  Loading is deduplicated: the
//! first request for a key starts the (asynchronous, unverified) load and
//! decode, and every further request for the same key joins it — within a
//! scheduling window, at most one decode happens per key.  Eviction is
//! least-recently-used and never touches an entry with outstanding
//! references, so the resident-entry count exceeds the configured capacity
//! only while every entry is referenced.
//!
//! The unverified rim drives the cache through `get`, performs the actual
//! file read and decode when `get` answers `StartLoad`, hands the raster
//! back through `complete_load`, and calls `release` when a tile is done
//! with a sector.

use vstd::prelude::*;

use crate::sector::Sector;

verus! {

/// Cache key: a sector at a pyramid level.
#[derive(Clone, Copy, Debug, PartialEq, Eq, Structural)]
pub struct CacheKey {
    pub sector: Sector,
    pub level: u8,
}

/// State of one cache entry: its load is either still in flight or done.
pub enum EntryState {
    Loading,
    Resident { data: Vec<i16> },
}

/// One cache entry, with its reference count of outstanding readers.
pub struct CacheEntry {
    pub key: CacheKey,
    pub state: EntryState,
    pub refs: usize,
}

/// What a request observed: the raster is resident, its load is already in
/// flight, or this request is the one that must start the load.
#[derive(Clone, Copy, Debug, PartialEq, Eq, Structural)]
pub enum CacheOutcome {
    Resident,
    InFlight,
    StartLoad,
}

/// Whether an entry for `k` is present.
pub open spec fn has_key(s: Seq<CacheEntry>, k: CacheKey) -> bool {
    exists|i: int| 0 <= i < s.len() && (#[trigger] s[i]).key == k
}

/// Index of the entry for `k`.
pub open spec fn key_index(s: Seq<CacheEntry>, k: CacheKey) -> int {
    choose|i: int| 0 <= i < s.len() && (#[trigger] s[i]).key == k
}

/// The entry for `k`.
pub open spec fn entry_for(s: Seq<CacheEntry>, k: CacheKey) -> CacheEntry {
    s[key_index(s, k)]
}

/// No two entries share a key.
pub open spec fn keys_unique(s: Seq<CacheEntry>) -> bool {
    forall|i: int, j: int| 0 <= i < j < s.len() ==> s[i].key != s[j].key
}

/// Every in-flight load has at least its starting requester.
pub open spec fn loading_referenced(s: Seq<CacheEntry>) -> bool {
    forall|i: int| 0 <= i < s.len() && (#[trigger] s[i]).state is Loading ==> s[i].refs >= 1
}

/// Under key uniqueness, any entry whose key is `k` is the entry for `k`.
proof fn lemma_unique_entry(s: Seq<CacheEntry>, k: CacheKey, j: int)
    requires
        keys_unique(s),
        0 <= j < s.len(),
        s[j].key == k,
    ensures
        has_key(s, k),
        key_index(s, k) == j,
        entry_for(s, k) == s[j],
{
    assert(has_key(s, k));
    let i = key_index(s, k);
    if i != j {
        if i < j {
            assert(s[i].key != s[j].key);
        } else {
            assert(s[j].key != s[i].key);
        }
    }
}

/// Moving the entry at `i` to the back — possibly with a changed state or
/// reference count, but the same key — keeps the key set, and every other
/// key's entry.
proof fn lemma_refresh_entry(s: Seq<CacheEntry>, i: int, e: CacheEntry)
    requires
        keys_unique(s),
        0 <= i < s.len(),
        e.key == s[i].key,
    ensures
        keys_unique(s.remove(i).push(e)),
        s.remove(i).push(e).len() == s.len(),
        forall|k: CacheKey| has_key(s.remove(i).push(e), k) <==> has_key(s, k),
        entry_for(s.remove(i).push(e), e.key) == e,
        forall|k: CacheKey|
            k != e.key && has_key(s, k) ==> entry_for(s.remove(i).push(e), k) == entry_for(s, k),
        forall|p: int|
            0 <= p < s.remove(i).push(e).len() ==> #[trigger] s.remove(i).push(e)[p] == e || exists|
                q: int,
            | 0 <= q < s.len() && s.remove(i).push(e)[p] == s[q],
{
    let t = s.remove(i).push(e);
    assert(t.len() == s.len());
    assert forall|p: int| 0 <= p < t.len() implies #[trigger] t[p] == (if p < i {
        s[p]
    } else if p < s.len() - 1 {
        s[p + 1]
    } else {
        e
    }) by {}
    assert forall|p: int, q: int| 0 <= p < q < t.len() implies t[p].key != t[q].key by {
        if q < s.len() - 1 {
            if p < i {
                assert(t[p] == s[p]);
            } else {
                assert(t[p] == s[p + 1]);
            }
        } else {
            assert(t[q] == e);
            if p < i {
                assert(t[p] == s[p]);
                assert(s[p].key != s[i].key);
            } else {
                assert(t[p] == s[p + 1]);
                assert(s[i].key != s[p + 1].key);
            }
        }
    }
    assert forall|k: CacheKey| has_key(t, k) implies has_key(s, k) by {
        let p = choose|p: int| 0 <= p < t.len() && (#[trigger] t[p]).key == k;
        if p < i {
            assert(s[p].key == k);
        } else if p < s.len() - 1 {
            assert(s[p + 1].key == k);
        } else {
            assert(s[i].key == k);
        }
    }
    assert forall|k: CacheKey| has_key(s, k) implies has_key(t, k) by {
        let p = choose|p: int| 0 <= p < s.len() && (#[trigger] s[p]).key == k;
        if p == i {
            assert(t[t.len() - 1].key == k);
        } else if p < i {
            assert(t[p].key == k);
        } else {
            assert(t[p - 1].key == k);
        }
    }
    lemma_unique_entry(t, e.key, t.len() - 1);
    assert forall|k: CacheKey| k != e.key && has_key(s, k) implies entry_for(t, k) == entry_for(
        s,
        k,
    ) by {
        let p = choose|p: int| 0 <= p < s.len() && (#[trigger] s[p]).key == k;
        lemma_unique_entry(s, k, p);
        if p < i {
            lemma_unique_entry(t, k, p);
        } else {
            assert(p != i);
            assert(t[p - 1] == s[p]);
            lemma_unique_entry(t, k, p - 1);
        }
    }
    assert forall|p: int| 0 <= p < t.len() implies #[trigger] t[p] == e || exists|q: int|
        0 <= q < s.len() && t[p] == s[q] by {
        if p < i {
            assert(t[p] == s[p]);
        } else if p < s.len() - 1 {
            assert(t[p] == s[p + 1]);
        }
    }
}

/// Removing the entry at `i` keeps every other key's entry and removes its
/// own key.
proof fn lemma_drop_entry(s: Seq<CacheEntry>, i: int)
    requires
        keys_unique(s),
        0 <= i < s.len(),
    ensures
        keys_unique(s.remove(i)),
        !has_key(s.remove(i), s[i].key),
        forall|k: CacheKey| has_key(s.remove(i), k) ==> has_key(s, k),
        forall|k: CacheKey|
            k != s[i].key && has_key(s, k) ==> has_key(s.remove(i), k) && entry_for(s.remove(i), k)
                == entry_for(s, k),
        forall|p: int|
            0 <= p < s.remove(i).len() ==> exists|q: int|
                0 <= q < s.len() && #[trigger] s.remove(i)[p] == s[q],
{
    let t = s.remove(i);
    assert forall|p: int| 0 <= p < t.len() implies #[trigger] t[p] == (if p < i {
        s[p]
    } else {
        s[p + 1]
    }) by {}
    assert forall|p: int, q: int| 0 <= p < q < t.len() implies t[p].key != t[q].key by {
        if p < i {
            assert(t[p] == s[p]);
        } else {
            assert(t[p] == s[p + 1]);
        }
    }
    assert forall|k: CacheKey| has_key(t, k) implies has_key(s, k) && k != s[i].key by {
        let p = choose|p: int| 0 <= p < t.len() && (#[trigger] t[p]).key == k;
        if p < i {
            assert(s[p].key == k);
            assert(s[p].key != s[i].key);
        } else {
            assert(s[p + 1].key == k);
            assert(s[i].key != s[p + 1].key);
        }
    }
    assert forall|k: CacheKey| k != s[i].key && has_key(s, k) implies has_key(t, k) && entry_for(
        t,
        k,
    ) == entry_for(s, k) by {
        let p = choose|p: int| 0 <= p < s.len() && (#[trigger] s[p]).key == k;
        lemma_unique_entry(s, k, p);
        if p < i {
            assert(t[p] == s[p]);
            lemma_unique_entry(t, k, p);
        } else {
            assert(p != i);
            assert(t[p - 1] == s[p]);
            lemma_unique_entry(t, k, p - 1);
        }
    }
    assert forall|p: int| 0 <= p < t.len() implies exists|q: int|
        0 <= q < s.len() && #[trigger] t[p] == s[q] by {
        if p < i {
            assert(t[p] == s[p]);
        } else {
            assert(t[p] == s[p + 1]);
        }
    }
}

/// Appending an entry with a fresh key keeps every existing key's entry.
proof fn lemma_add_entry(s: Seq<CacheEntry>, e: CacheEntry)
    requires
        keys_unique(s),
        !has_key(s, e.key),
    ensures
        keys_unique(s.push(e)),
        has_key(s.push(e), e.key),
        entry_for(s.push(e), e.key) == e,
        forall|k: CacheKey| has_key(s.push(e), k) <==> has_key(s, k) || k == e.key,
        forall|k: CacheKey|
            k != e.key && has_key(s, k) ==> entry_for(s.push(e), k) == entry_for(s, k),
        forall|p: int|
            0 <= p < s.push(e).len() ==> #[trigger] s.push(e)[p] == e || exists|q: int|
                0 <= q < s.len() && s.push(e)[p] == s[q],
{
    let t = s.push(e);
    assert forall|p: int, q: int| 0 <= p < q < t.len() implies t[p].key != t[q].key by {
        if q < s.len() {
        } else {
            assert(t[q] == e);
            assert(t[p] == s[p]);
            if s[p].key == e.key {
                assert(has_key(s, e.key));
            }
        }
    }
    lemma_unique_entry(t, e.key, t.len() - 1);
    assert forall|k: CacheKey| has_key(t, k) implies has_key(s, k) || k == e.key by {
        let p = choose|p: int| 0 <= p < t.len() && (#[trigger] t[p]).key == k;
        if p < s.len() {
            assert(s[p].key == k);
        }
    }
    assert forall|k: CacheKey| has_key(s, k) implies has_key(t, k) by {
        let p = choose|p: int| 0 <= p < s.len() && (#[trigger] s[p]).key == k;
        assert(t[p].key == k);
    }
    assert forall|p: int| 0 <= p < t.len() implies #[trigger] t[p] == e || exists|q: int|
        0 <= q < s.len() && t[p] == s[q] by {
        if p < s.len() {
            assert(t[p] == s[p]);
        }
    }
    assert forall|k: CacheKey| k != e.key && has_key(s, k) implies entry_for(t, k) == entry_for(
        s,
        k,
    ) by {
        let p = choose|p: int| 0 <= p < s.len() && (#[trigger] s[p]).key == k;
        lemma_unique_entry(s, k, p);
        lemma_unique_entry(t, k, p);
    }
}

/// Bounded, key-addressed cache of decoded sector rasters with deduplicated
/// loading and least-recently-used eviction.  Entries are kept in recency
/// order, least recently used first.
pub struct SectorCache {
    pub capacity: usize,
    pub entries: Vec<CacheEntry>,
}

impl SectorCache {
    /// Whether an entry for `k` is present — resident or still loading.
    pub open spec fn has_entry(self, k: CacheKey) -> bool {
        has_key(self.entries@, k)
    }

    /// Outstanding references to `k`'s entry.
    pub open spec fn refs_of(self, k: CacheKey) -> int {
        if self.has_entry(k) {
            entry_for(self.entries@, k).refs as int
        } else {
            0
        }
    }

    /// Whether `k`'s raster is resident.
    pub open spec fn is_resident(self, k: CacheKey) -> bool {
        self.has_entry(k) && entry_for(self.entries@, k).state is Resident
    }

    /// Whether `k`'s load is in flight.
    pub open spec fn is_loading(self, k: CacheKey) -> bool {
        self.has_entry(k) && entry_for(self.entries@, k).state is Loading
    }

    /// The resident raster of `k`.
    pub open spec fn data_of(self, k: CacheKey) -> Seq<i16> {
        entry_for(self.entries@, k).state->Resident_data@
    }

    /// The cache bound: the resident-entry count never exceeds the
    /// configured capacity, except when every entry has outstanding
    /// references.
    pub open spec fn bounded(self) -> bool {
        self.entries@.len() > self.capacity ==> forall|i: int|
            0 <= i < self.entries@.len() ==> (#[trigger] self.entries@[i]).refs >= 1
    }

    /// Cache invariant: unique keys, every in-flight load referenced, and
    /// the capacity bound.
    pub open spec fn wf(self) -> bool {
        keys_unique(self.entries@) && loading_referenced(self.entries@) && self.bounded()
    }

    /// An empty cache with the given capacity.
    pub fn new(capacity: usize) -> (r: SectorCache)
        ensures
            r.wf(),
            r.capacity == capacity,
            r.entries@.len() == 0,
    {
        SectorCache { capacity, entries: Vec::new() }
    }

    /// Index of `k`'s entry, scanning from the least recently used end.
    fn find_entry(&self, k: CacheKey) -> (r: Option<usize>)
        requires
            keys_unique(self.entries@),
        ensures
            r matches Some(i) ==> i < self.entries@.len() && self.entries@[i as int].key == k
                && self.has_entry(k) && key_index(self.entries@, k) == i,
            r is None ==> !self.has_entry(k),
    {
        let n = self.entries.len();
        let mut i: usize = 0;
        while i < n
            invariant
                n == self.entries@.len(),
                i <= n,
                keys_unique(self.entries@),
                forall|j: int| 0 <= j < i ==> (#[trigger] self.entries@[j]).key != k,
            decreases n - i,
        {
            if self.entries[i].key == k {
                proof {
                    lemma_unique_entry(self.entries@, k, i as int);
                }
                return Some(i);
            }
            i = i + 1;
        }
        None
    }

    /// Index of the least recently used entry with no outstanding
    /// references, if any.
    fn find_evictable(&self) -> (r: Option<usize>)
        ensures
            r matches Some(i) ==> i < self.entries@.len() && self.entries@[i as int].refs == 0,
            r is None ==> forall|j: int|
                0 <= j < self.entries@.len() ==> (#[trigger] self.entries@[j]).refs >= 1,
    {
        let n = self.entries.len();
        let mut i: usize = 0;
        while i < n
            invariant
                n == self.entries@.len(),
                i <= n,
                forall|j: int| 0 <= j < i ==> (#[trigger] self.entries@[j]).refs >= 1,
            decreases n - i,
        {
            if self.entries[i].refs == 0 {
                return Some(i);
            }
            i = i + 1;
        }
        None
    }

    /// Evicts least-recently-used unreferenced entries until at most
    /// `limit` entries remain or only referenced entries remain.
    fn evict_to(&mut self, limit: usize)
        requires
            keys_unique(old(self).entries@),
            loading_referenced(old(self).entries@),
        ensures
            keys_unique(final(self).entries@),
            loading_referenced(final(self).entries@),
            final(self).capacity == old(self).capacity,
            final(self).entries@.len() <= limit || forall|j: int|
                0 <= j < final(self).entries@.len() ==> (#[trigger] final(self).entries@[j]).refs
                    >= 1,
            forall|k: CacheKey|
                final(self).has_entry(k) ==> old(self).has_entry(k) && entry_for(
                    final(self).entries@,
                    k,
                ) == entry_for(old(self).entries@, k),
            forall|k: CacheKey|
                old(self).has_entry(k) && old(self).refs_of(k) >= 1 ==> final(self).has_entry(k),
    {
        loop
            invariant
                keys_unique(self.entries@),
                loading_referenced(self.entries@),
                self.capacity == old(self).capacity,
                forall|k: CacheKey|
                    self.has_entry(k) ==> old(self).has_entry(k) && entry_for(self.entries@, k)
                        == entry_for(old(self).entries@, k),
                forall|k: CacheKey|
                    old(self).has_entry(k) && old(self).refs_of(k) >= 1 ==> self.has_entry(k),
            ensures
                self.entries@.len() <= limit || forall|j: int|
                    0 <= j < self.entries@.len() ==> (#[trigger] self.entries@[j]).refs >= 1,
            decreases self.entries@.len(),
        {
            if self.entries.len() <= limit {
                break ;
            }
            let victim = self.find_evictable();
            match victim {
                None => {
                    break ;
                },
                Some(i) => {
                    let ghost s = self.entries@;
                    proof {
                        lemma_drop_entry(s, i as int);
                    }
                    self.entries.remove(i);
                    proof {
                        assert(self.entries@ == s.remove(i as int));
                        assert forall|k: CacheKey| self.has_entry(k) implies old(self).has_entry(k)
                            && entry_for(self.entries@, k) == entry_for(old(self).entries@, k) by {
                            assert(has_key(s, k));
                        }
                        assert forall|k: CacheKey|
                            old(self).has_entry(k) && old(self).refs_of(k) >= 1 implies self.has_entry(
                            k,
                        ) by {
                            if k == s[i as int].key {
                                lemma_unique_entry(s, k, i as int);
                            }
                        }
                    }
                },
            }
        }
    }

    /// Requests the raster of sector `sector` at pyramid level `level`,
    /// taking a reference to it.
    ///
    /// Exactly the requests that find no entry — resident or loading —
    /// answer `StartLoad`; the caller then performs the one load and hands
    /// the raster to `complete_load`.  Every other request joins the
    /// existing entry, so concurrent requests for one key within a window
    /// share a single decode.  A miss may first evict unreferenced entries,
    /// least recently used first; entries with outstanding references are
    /// never evicted.
    pub fn get(&mut self, sector: Sector, level: u8) -> (r: CacheOutcome)
        requires
            old(self).wf(),
            old(self).refs_of(CacheKey { sector, level }) < usize::MAX,
        ensures
            final(self).wf(),
            final(self).capacity == old(self).capacity,
            get_transition(
                *old(self),
                *final(self),
                CacheKey { sector, level },
                r,
            ),
    {
        let k = CacheKey { sector, level };
        let found = self.find_entry(k);
        match found {
            Some(i) => {
                let ghost s = self.entries@;
                let mut e = self.entries.remove(i);
                let resident = match e.state {
                    EntryState::Resident { .. } => true,
                    EntryState::Loading => false,
                };
                e.refs = e.refs + 1;
                proof {
                    lemma_refresh_entry(
                        s,
                        i as int,
                        CacheEntry { key: e.key, state: e.state, refs: e.refs },
                    );
                }
                self.entries.push(e);
                if resident {
                    CacheOutcome::Resident
                } else {
                    CacheOutcome::InFlight
                }
            },
            None => {
                let limit = if self.capacity >= 1 {
                    self.capacity - 1
                } else {
                    0
                };
                self.evict_to(limit);
                let ghost s = self.entries@;
                proof {
                    lemma_add_entry(s, CacheEntry { key: k, state: EntryState::Loading, refs: 1 });
                }
                self.entries.push(CacheEntry { key: k, state: EntryState::Loading, refs: 1 });
                CacheOutcome::StartLoad
            },
        }
    }

    /// Hands the cache the raster decoded for a load that `get` started.
    pub fn complete_load(&mut self, sector: Sector, level: u8, data: Vec<i16>)
        requires
            old(self).wf(),
            old(self).is_loading(CacheKey { sector, level }),
        ensures
            final(self).wf(),
            final(self).capacity == old(self).capacity,
            final(self).is_resident(CacheKey { sector, level }),
            final(self).data_of(CacheKey { sector, level }) == data@,
            final(self).refs_of(CacheKey { sector, level }) == old(self).refs_of(
                CacheKey { sector, level },
            ),
            forall|k2: CacheKey|
                final(self).has_entry(k2) <==> old(self).has_entry(k2) || k2 == (CacheKey {
                    sector,
                    level,
                }),
            forall|k2: CacheKey|
                k2 != (CacheKey { sector, level }) && old(self).has_entry(k2) ==> entry_for(
                    final(self).entries@,
                    k2,
                ) == entry_for(old(self).entries@, k2),
    {
        let k = CacheKey { sector, level };
        let found = self.find_entry(k);
        match found {
            Some(i) => {
                let ghost s = self.entries@;
                let mut e = self.entries.remove(i);
                e.state = EntryState::Resident { data };
                proof {
                    lemma_refresh_entry(
                        s,
                        i as int,
                        CacheEntry { key: e.key, state: e.state, refs: e.refs },
                    );
                }
                self.entries.push(e);
            },
            None => {
                proof {
                    assert(false);
                }
            },
        }
    }

    /// Releases one reference to a resident entry; an entry whose last
    /// reference is released becomes evictable, and the cache is trimmed
    /// back under its capacity if eviction had been deferred.
    pub fn release(&mut self, sector: Sector, level: u8)
        requires
            old(self).wf(),
            old(self).is_resident(CacheKey { sector, level }),
            old(self).refs_of(CacheKey { sector, level }) >= 1,
        ensures
            final(self).wf(),
            final(self).capacity == old(self).capacity,
            forall|k2: CacheKey|
                final(self).has_entry(k2) ==> old(self).has_entry(k2),
            forall|k2: CacheKey|
                k2 != (CacheKey { sector, level }) && old(self).has_entry(k2) && old(self).refs_of(
                    k2,
                ) >= 1 ==> final(self).has_entry(k2) && entry_for(final(self).entries@, k2)
                    == entry_for(old(self).entries@, k2),
            final(self).has_entry(CacheKey { sector, level }) ==> final(self).refs_of(
                CacheKey { sector, level },
            ) == old(self).refs_of(CacheKey { sector, level }) - 1,
    {
        let k = CacheKey { sector, level };
        let found = self.find_entry(k);
        match found {
            Some(i) => {
                let ghost s = self.entries@;
                let mut e = self.entries.remove(i);
                e.refs = e.refs - 1;
                proof {
                    lemma_refresh_entry(
                        s,
                        i as int,
                        CacheEntry { key: e.key, state: e.state, refs: e.refs },
                    );
                }
                self.entries.push(e);
                let limit = self.capacity;
                self.evict_to(limit);
            },
            None => {
                proof {
                    assert(false);
                }
            },
        }
    }

    /// Borrows the resident raster of a sector.
    pub fn get_data(&self, sector: Sector, level: u8) -> (r: &Vec<i16>)
        requires
            self.wf(),
            self.is_resident(CacheKey { sector, level }),
        ensures
            r@ == self.data_of(CacheKey { sector, level }),
    {
        let k = CacheKey { sector, level };
        let found = self.find_entry(k);
        match found {
            Some(i) => {
                match &self.entries[i].state {
                    EntryState::Resident { data } => data,
                    EntryState::Loading => {
                        proof {
                            assert(false);
                        }
                        unreached()
                    },
                }
            },
            None => {
                proof {
                    assert(false);
                }
                unreached()
            },
        }
    }
}

/// What one `get` does, observed through the cache's contents: the request
/// answers `StartLoad` exactly on a miss, the requested key is afterwards
/// present and referenced, and no other referenced entry is disturbed.
pub open spec fn get_transition(
    pre: SectorCache,
    post: SectorCache,
    k: CacheKey,
    r: CacheOutcome,
) -> bool {
    &&& (r is StartLoad <==> !pre.has_entry(k))
    &&& post.has_entry(k)
    &&& (!pre.has_entry(k) ==> post.is_loading(k) && post.refs_of(k) == 1)
    &&& (pre.has_entry(k) ==> post.refs_of(k) == pre.refs_of(k) + 1)
    &&& (pre.is_resident(k) ==> r is Resident && post.is_resident(k) && post.data_of(k)
        == pre.data_of(k))
    &&& (pre.is_loading(k) ==> r is InFlight && post.is_loading(k))
    &&& (forall|k2: CacheKey| post.has_entry(k2) ==> pre.has_entry(k2) || k2 == k)
    &&& (forall|k2: CacheKey|
        k2 != k && pre.has_entry(k2) && pre.refs_of(k2) >= 1 ==> post.has_entry(k2) && entry_for(
            post.entries@,
            k2,
        ) == entry_for(pre.entries@, k2))
}

/// Law of deduplication: once some request for a key has been made, a later
/// request for the same key in the same window never starts a second load,
/// no matter how many requests for other keys run in between — so of N
/// concurrent requests for one key, exactly the first may answer
/// `StartLoad`, and one decode occurs.
pub proof fn lemma_request_deduplicated(
    pre: SectorCache,
    mid: SectorCache,
    post: SectorCache,
    k: CacheKey,
    r1: CacheOutcome,
    r2: CacheOutcome,
)
    requires
        get_transition(pre, mid, k, r1),
        get_transition(mid, post, k, r2),
    ensures
        !(r2 is StartLoad),
{
}

/// The window of a request stays open across requests for other keys: the
/// requester's reference keeps its entry in the cache through any
/// interleaved `get`.
pub proof fn lemma_referenced_entry_survives(
    pre: SectorCache,
    post: SectorCache,
    k: CacheKey,
    other: CacheKey,
    r: CacheOutcome,
)
    requires
        get_transition(pre, post, other, r),
        pre.has_entry(k),
        pre.refs_of(k) >= 1,
        k != other,
    ensures
        post.has_entry(k),
        post.refs_of(k) >= 1,
{
}

/// Number of the first `n` requests that were for key `k` and answered
/// `StartLoad` — the number of decodes started for `k`.
pub open spec fn start_loads_for(
    keys: Seq<CacheKey>,
    results: Seq<CacheOutcome>,
    k: CacheKey,
    n: int,
) -> int
    decreases n,
{
    if n <= 0 {
        0
    } else {
        start_loads_for(keys, results, k, n - 1) + if keys[n - 1] == k && results[n - 1]
            is StartLoad {
            1int
        } else {
            0int
        }
    }
}

/// Law of deduplication over a whole scheduling window: across any sequence
/// of requests — `states[i]` stepping to `states[i + 1]` by a `get` for
/// `keys[i]` with outcome `results[i]`, and no release in between — at most
/// one request for a given key answers `StartLoad`, so at most one decode
/// of that key's sector occurs.
pub proof fn lemma_window_single_decode(
    states: Seq<SectorCache>,
    keys: Seq<CacheKey>,
    results: Seq<CacheOutcome>,
    k: CacheKey,
    n: int,
)
    requires
        0 <= n <= keys.len(),
        states.len() == keys.len() + 1,
        results.len() == keys.len(),
        forall|i: int|
            0 <= i < keys.len() ==> #[trigger] get_transition(
                states[i],
                states[i + 1],
                keys[i],
                results[i],
            ),
    ensures
        start_loads_for(keys, results, k, n) <= 1,
        (exists|i: int| 0 <= i < n && keys[i] == k) ==> states[n].has_entry(k) && states[n].refs_of(
            k,
        ) >= 1,
        (forall|i: int| 0 <= i < n ==> keys[i] != k) ==> start_loads_for(keys, results, k, n) == 0,
    decreases n,
{
    if n > 0 {
        lemma_window_single_decode(states, keys, results, k, n - 1);
        let i = n - 1;
        assert(get_transition(states[i], states[i + 1], keys[i], results[i]));
        assert(get_transition(states[n - 1], states[n], keys[n - 1], results[n - 1]));
        if keys[n - 1] == k {
            if results[n - 1] is StartLoad {
                assert(!states[n - 1].has_entry(k));
                assert(forall|i: int| 0 <= i < n - 1 ==> keys[i] != k);
            }
            assert(states[n].has_entry(k) && states[n].refs_of(k) >= 1);
        } else {
            if exists|i: int| 0 <= i < n - 1 && keys[i] == k {
                assert(states[n - 1].has_entry(k) && states[n - 1].refs_of(k) >= 1);
                assert(states[n].has_entry(k) && entry_for(states[n].entries@, k) == entry_for(
                    states[n - 1].entries@,
                    k,
                ));
            }
        }
    }
}

/// Law of the cache bound: whenever the cache holds more entries than its
/// capacity, every one of them has outstanding references — the resident
/// count exceeds the capacity only on behalf of in-use entries.
pub proof fn lemma_capacity_bound(c: SectorCache)
    requires
        c.wf(),
    ensures
        c.entries@.len() > c.capacity ==> forall|i: int|
            0 <= i < c.entries@.len() ==> (#[trigger] c.entries@[i]).refs >= 1,
{
}

} // verus!
