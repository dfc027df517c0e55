//! What a cache store knows about each cache, by cache id: the texture of
//! its last record, or that its last request was too large to cache.

use std::collections::HashMap;
use vstd::prelude::*;

use crate::size::PixelSize;
use crate::texture_cache::TextureCacheId;

verus! {

broadcast use vstd::std_specs::hash::group_hash_axioms;

/// What a store knows about one cache. `L` is the store's weak handle on
/// the cache, through which it learns that the last handle was dropped.
pub enum Entry<T, L> {
    /// The cache was recorded at `size` into `texture`.
    Recorded { texture: T, size: PixelSize, liveness: L },
    /// The last request exceeded the backend's limits. Replaced when a size
    /// fits again.
    Uncacheable { liveness: L },
}

impl<T, L> Entry<T, L> {
    /// The weak handle of the cache this entry belongs to.
    pub open spec fn spec_liveness(&self) -> L {
        match self {
            Entry::Recorded { liveness, .. } => *liveness,
            Entry::Uncacheable { liveness } => *liveness,
        }
    }

    /// The weak handle of the cache this entry belongs to.
    pub fn liveness(&self) -> (liveness: &L)
        ensures
            *liveness == self.spec_liveness(),
    {
        match self {
            Entry::Recorded { liveness, .. } => liveness,
            Entry::Uncacheable { liveness } => liveness,
        }
    }
}

/// The texture and size recorded for `id` in `entries`, if it was recorded
/// and is not uncacheable.
pub open spec fn recorded_in<T, L>(entries: Map<u64, Entry<T, L>>, id: u64) -> Option<(T, PixelSize)> {
    if entries.contains_key(id) {
        match entries[id] {
            Entry::Recorded { texture, size, .. } => Some((texture, size)),
            Entry::Uncacheable { .. } => None,
        }
    } else {
        None
    }
}

/// Whether `id` is marked uncacheable in `entries`.
pub open spec fn uncacheable_in<T, L>(entries: Map<u64, Entry<T, L>>, id: u64) -> bool {
    entries.contains_key(id) && entries[id] is Uncacheable
}

/// A texture kept for `id` is what the store gives back for `id`, and the
/// other caches' entries are untouched.
pub proof fn lemma_keep_then_recorded<T, L>(
    entries: Map<u64, Entry<T, L>>,
    id: u64,
    texture: T,
    size: PixelSize,
    liveness: L,
    other: u64,
)
    ensures
        recorded_in(entries.insert(id, Entry::Recorded { texture, size, liveness }), id) == Some(
            (texture, size),
        ),
        !uncacheable_in(entries.insert(id, Entry::Recorded { texture, size, liveness }), id),
        other != id ==> recorded_in(entries.insert(id, Entry::Recorded { texture, size, liveness }), other)
            == recorded_in(entries, other),
{
}

/// A cache marked uncacheable has no texture to give back, a second mark is
/// no news, and a later texture replaces the mark.
pub proof fn lemma_uncacheable_then_recovers<T, L>(
    entries: Map<u64, Entry<T, L>>,
    id: u64,
    liveness: L,
    texture: T,
    size: PixelSize,
)
    ensures
        ({
            let marked = entries.insert(id, Entry::Uncacheable { liveness });
            &&& recorded_in(marked, id).is_none()
            &&& uncacheable_in(marked, id)
            &&& recorded_in(marked.insert(id, Entry::Recorded { texture, size, liveness }), id)
                == Some((texture, size))
        }),
{
}

/// The entries of a store, by the number of each cache's id.
pub struct Entries<T, L> {
    map: HashMap<u64, Entry<T, L>>,
}

impl<T, L> Entries<T, L> {
    /// The entries, by cache id.
    pub closed spec fn view(&self) -> Map<u64, Entry<T, L>> {
        self.map@
    }

    /// A store that knows no cache.
    pub fn new() -> (entries: Self)
        ensures
            entries.view() == Map::<u64, Entry<T, L>>::empty(),
    {
        Entries { map: HashMap::new() }
    }

    /// How many caches the store knows.
    pub fn len(&self) -> (len: usize)
        ensures
            len == self.view().len(),
    {
        self.map.len()
    }

    /// The texture and size of the last record of `id`; `None` if it was
    /// never recorded or is uncacheable.
    pub fn recorded(&self, id: TextureCacheId) -> (found: Option<(&T, PixelSize)>)
        ensures
            match found {
                Some((texture, size)) => recorded_in(self.view(), id.spec_number()) == Some((*texture, size)),
                None => recorded_in(self.view(), id.spec_number()).is_none(),
            },
    {
        match self.map.get(&id.number()) {
            Some(Entry::Recorded { texture, size, .. }) => Some((texture, *size)),
            _ => None,
        }
    }

    /// The weak handle kept for `id`, recorded or not; `None` if the store
    /// does not know `id`.
    pub fn liveness_of(&self, id: TextureCacheId) -> (found: Option<&L>)
        ensures
            match found {
                Some(liveness) => self.view().contains_key(id.spec_number()) && *liveness == self.view()[id.spec_number()].spec_liveness(),
                None => !self.view().contains_key(id.spec_number()),
            },
    {
        match self.map.get(&id.number()) {
            Some(entry) => Some(entry.liveness()),
            None => None,
        }
    }

    /// Whether `id` is marked uncacheable.
    pub fn is_uncacheable(&self, id: TextureCacheId) -> (uncacheable: bool)
        ensures
            uncacheable == uncacheable_in(self.view(), id.spec_number()),
    {
        match self.map.get(&id.number()) {
            Some(Entry::Uncacheable { .. }) => true,
            _ => false,
        }
    }

    /// Records that `id` cannot be cached (any texture it had is dropped).
    /// Returns whether this is news: false when `id` was already marked, so
    /// a warning is given once per cache.
    pub fn mark_uncacheable(&mut self, id: TextureCacheId, liveness: L) -> (news: bool)
        ensures
            final(self).view() == old(self).view().insert(id.spec_number(), Entry::Uncacheable { liveness }),
            news == !uncacheable_in(old(self).view(), id.spec_number()),
    {
        let news = !self.is_uncacheable(id);
        let _ = self.map.insert(id.number(), Entry::Uncacheable { liveness });
        news
    }

    /// Takes the recorded texture of `id` out of the store, to be updated
    /// and given back with [`Entries::keep`]; `None`, and nothing changes,
    /// if `id` has none.
    pub fn take_recorded(&mut self, id: TextureCacheId) -> (taken: Option<(T, PixelSize, L)>)
        ensures
            match taken {
                Some((texture, size, liveness)) => {
                    &&& old(self).view().contains_key(id.spec_number())
                    &&& old(self).view()[id.spec_number()] == Entry::Recorded { texture, size, liveness }
                    &&& final(self).view() == old(self).view().remove(id.spec_number())
                },
                None => {
                    &&& recorded_in(old(self).view(), id.spec_number()).is_none()
                    &&& final(self).view() == old(self).view()
                },
            },
    {
        if self.map.get(&id.number()).is_none() || self.is_uncacheable(id) {
            return None;
        }
        match self.map.remove(&id.number()) {
            Some(Entry::Recorded { texture, size, liveness }) => Some((texture, size, liveness)),
            _ => None,
        }
    }

    /// Keeps `texture`, recorded at `size`, as the texture of `id`.
    pub fn keep(&mut self, id: TextureCacheId, texture: T, size: PixelSize, liveness: L)
        ensures
            final(self).view() == old(self).view().insert(id.spec_number(), Entry::Recorded { texture, size, liveness }),
    {
        let _ = self.map.insert(id.number(), Entry::Recorded { texture, size, liveness });
    }

    /// The ids the store knows, each once.
    fn ids(&self) -> (ids: Vec<u64>)
        ensures
            ids@.no_duplicates(),
            forall|id: u64| ids@.contains(id) <==> self.view().contains_key(id),
    {
        let mut ids: Vec<u64> = Vec::new();
        for id in it: self.map.keys()
            invariant
                ids@ == it.seq().take(it.index() as int).unref(),
                it.seq().unref().to_set() == self.view().dom(),
                it.seq().unref().no_duplicates(),
                it.index() == it.seq().len() ==> forall|x: u64| #[trigger] self.view().contains_key(x) ==> ids@.contains(x),
                forall|x: u64| ids@.contains(x) ==> #[trigger] self.view().contains_key(x),
                ids@.no_duplicates(),
        {
            ids.push(*id);
            assert(ids@ == it.seq().take(it.index() + 1).unref());
            assert forall|x: u64|
                it.index() + 1 == it.seq().len() && #[trigger] self.view().contains_key(x) implies ids@.contains(x) by {
                assert(it.seq().take(it.index() + 1) == it.seq());
                assert(it.seq().unref().to_set().contains(x));
            }
            assert forall|x: u64| ids@.contains(x) implies #[trigger] self.view().contains_key(x) by {
                let k = choose|k: int| 0 <= k < ids@.len() && ids@[k] == x;
                assert(it.seq().unref()[k] == x);
                assert(it.seq().unref().to_set().contains(x));
            }
            assert forall|a: int, b: int| 0 <= a < ids@.len() && 0 <= b < ids@.len() && a != b implies ids@[a] != ids@[b] by {
                assert(ids@[a] == it.seq().unref()[a]);
                assert(ids@[b] == it.seq().unref()[b]);
            }
        }
        ids
    }

    /// Drops the entries of caches that `alive` reports dead, and keeps the
    /// rest unchanged. `alive` is asked about each entry's weak handle once.
    pub fn trim<F: Fn(&L) -> bool>(&mut self, alive: F)
        requires
            forall|liveness: &L| #[trigger] alive.requires((liveness,)),
        ensures
            forall|id: u64| #[trigger]
                final(self).view().contains_key(id) ==> {
                    &&& old(self).view().contains_key(id)
                    &&& final(self).view()[id] == old(self).view()[id]
                    &&& alive.ensures((&old(self).view()[id].spec_liveness(),), true)
                },
            forall|id: u64| #[trigger]
                old(self).view().contains_key(id) && !final(self).view().contains_key(id)
                    ==> alive.ensures((&old(self).view()[id].spec_liveness(),), false),
    {
        let ids = self.ids();
        let ghost before = self.view();
        assert forall|k: int| #![trigger ids@[k]] 0 <= k < ids@.len() implies self.view().contains_key(ids@[k]) by {
            assert(ids@.contains(ids@[k]));
        }
        let mut i: usize = 0;
        while i < ids.len()
            invariant
                i <= ids@.len(),
                ids@.no_duplicates(),
                forall|id: u64| ids@.contains(id) <==> before.contains_key(id),
                forall|liveness: &L| #[trigger] alive.requires((liveness,)),
                forall|id: u64| #[trigger]
                    self.view().contains_key(id) ==> {
                        &&& before.contains_key(id)
                        &&& self.view()[id] == before[id]
                    },
                forall|k: int| #![trigger ids@[k]]
                    i <= k < ids@.len() ==> self.view().contains_key(ids@[k]),
                forall|k: int| #![trigger ids@[k]]
                    0 <= k < i && self.view().contains_key(ids@[k]) ==> alive.ensures(
                        (&before[ids@[k]].spec_liveness(),),
                        true,
                    ),
                forall|k: int| #![trigger ids@[k]]
                    0 <= k < i && !self.view().contains_key(ids@[k]) ==> alive.ensures(
                        (&before[ids@[k]].spec_liveness(),),
                        false,
                    ),
            decreases ids@.len() - i,
        {
            let id = ids[i];
            let dead = match self.map.get(&id) {
                Some(entry) => !alive(entry.liveness()),
                None => false,
            };
            if dead {
                let _ = self.map.remove(&id);
            }
            assert forall|k: int| #![trigger ids@[k]] i < k < ids@.len() implies self.view().contains_key(ids@[k]) by {
                assert(ids@[k] != id);
            }
            i = i + 1;
        }
        assert forall|id: u64| #[trigger]
            before.contains_key(id) && !self.view().contains_key(id) implies alive.ensures((&before[id].spec_liveness(),), false) by {
            assert(ids@.contains(id));
            let k = choose|k: int| 0 <= k < ids@.len() && ids@[k] == id;
        }
        assert forall|id: u64| #[trigger] self.view().contains_key(id) implies alive.ensures((&before[id].spec_liveness(),), true) by {
            assert(ids@.contains(id));
            let k = choose|k: int| 0 <= k < ids@.len() && ids@[k] == id;
        }
    }
}

} // verus!
