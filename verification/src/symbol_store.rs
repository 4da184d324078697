//! The cache of file metadata, keyed by the identity of the file.

use crate::elf::{lookup_symbol, ElfMetadata, ElfView, FileId, Lookup};
use crate::error::SymbolizerError;
use crate::symbol::Symbol;
use moka::sync::Cache;
use std::collections::hash_map::RandomState;
use vstd::prelude::*;

verus! {

/// The limit that the store's cache is made with. The cache evicts its least
/// recently used entries above this number, in upkeep that it runs during
/// later calls, so between two calls it may hold more.
pub const STORE_CAPACITY: u64 = 100;

#[verifier::external_type_specification]
#[verifier::external_body]
#[verifier::reject_recursive_types(K)]
#[verifier::reject_recursive_types(V)]
#[verifier::reject_recursive_types(S)]
pub struct ExCache<K, V, S>(Cache<K, V, S>);

/// The cache that the store rests on: from `(dev, inode)` to metadata.
pub type ElfCache = Cache<(u64, u64), ElfMetadata, RandomState>;

/// The entries that a cache holds: for each key `(dev, inode)` that is
/// present, the value of the metadata stored under it.
pub uninterp spec fn cached(cache: ElfCache) -> Map<(u64, u64), ElfView>;

/// The limit that a cache was made with: the number of entries above which
/// it evicts.
pub uninterp spec fn cache_limit(cache: ElfCache) -> u64;

/// Makes an empty cache that evicts the least recently used entry.
///
/// Trusted: builds a `moka::sync::Cache` with `max_capacity` and
/// `eviction_policy(EvictionPolicy::lru())`. The contract claims that the
/// new cache holds nothing and names the limit that it was given.
#[verifier::external_body]
fn cache_new(capacity: u64) -> (res: ElfCache)
    ensures
        (cached(res) == Map::<(u64, u64), ElfView>::empty()),
        cache_limit(res) == capacity,
{
    Cache::builder().max_capacity(capacity).eviction_policy(moka::policy::EvictionPolicy::lru()).build()
}

/// Whether the cache holds the key.
///
/// Trusted: calls `Cache::contains_key`, which reads the cache's table and
/// changes nothing.
#[verifier::external_body]
fn cache_contains(cache: &ElfCache, key: (u64, u64)) -> (res: bool)
    ensures
        res == cached(*cache).dom().contains(key),
{
    cache.contains_key(&key)
}

/// A clone of the value under the key, if the cache holds it.
///
/// Trusted: calls `Cache::get`. It returns a clone of the value that the
/// table holds and marks the entry as used; the upkeep that it may run
/// afterwards can evict entries, so the cache holds no more than before. The
/// clone is that of `derive(Clone)`, taken to keep the value.
#[verifier::external_body]
fn cache_get(cache: &mut ElfCache, key: (u64, u64)) -> (res: Option<ElfMetadata>)
    ensures
        match res {
            Some(elf) => cached(*old(cache)).dom().contains(key) && elf@ == cached(*old(cache))[key],
            None => !cached(*old(cache)).dom().contains(key),
        },
        cached(*final(cache)).submap_of(cached(*old(cache))),
        cache_limit(*final(cache)) == cache_limit(*old(cache)),
{
    cache.get(&key)
}

/// Stores the value under the key, in place of what was there.
///
/// Trusted: calls `Cache::insert`. It puts the entry into the table first;
/// the upkeep that it runs before it queues the write can evict older
/// entries, but under the policy chosen here it admits every entry and
/// passes over one whose write is still queued. So a cache with a limit above
/// zero holds the new entry afterwards, and otherwise at most what it held.
#[verifier::external_body]
fn cache_insert(
    cache: &mut ElfCache,
    key: (u64, u64),
    value: ElfMetadata,
)
    ensures
        cached(*final(cache)).submap_of(cached(*old(cache)).insert(key, value@)),
        cache_limit(*old(cache)) > 0 ==> cached(*final(cache)).dom().contains(key),
        cache_limit(*final(cache)) == cache_limit(*old(cache)),
{
    cache.insert(key, value)
}

/// A cache of file metadata, made with a limit. The key is the identity of
/// the file, not its path: two paths to one file share an entry, and a file
/// replaced under its path is loaded anew.
pub struct SymbolStore {
    cache: ElfCache,
}

impl SymbolStore {
    /// What the store holds, by file identity.
    pub closed spec fn entries(&self) -> Map<FileId, ElfView> {
        Map::new(
            |id: FileId| cached(self.cache).dom().contains((id.dev, id.inode)),
            |id: FileId| cached(self.cache)[(id.dev, id.inode)],
        )
    }

    /// The limit that the store was made with.
    pub closed spec fn limit(&self) -> u64 {
        cache_limit(self.cache)
    }

    /// The invariant of the store: it was made with its capacity as the
    /// limit, and every entry is well-formed metadata of the file that it is
    /// stored under.
    pub open spec fn wf(&self) -> bool {
        &&& self.limit() == STORE_CAPACITY
        &&& forall|id: FileId| #[trigger]
            self.entries().dom().contains(id) ==> self.entries()[id].wf() && self.entries()[id].id
                == id
    }

    /// An empty store.
    pub fn new() -> (res: SymbolStore)
        ensures
            res.wf(),
            res.entries() == Map::<FileId, ElfView>::empty(),
    {
        let res = SymbolStore { cache: cache_new(STORE_CAPACITY) };
        assert(res.entries() =~= Map::<FileId, ElfView>::empty());
        res
    }

    /// Whether the store holds metadata of the file.
    pub fn contains(&self, id: FileId) -> (res: bool)
        ensures
            res == self.entries().dom().contains(id),
    {
        cache_contains(&self.cache, (id.dev, id.inode))
    }

    /// Stores metadata under the identity that it carries, in place of what
    /// was there. Afterwards the store holds the new entry, and besides it at
    /// most what it held.
    pub fn insert(&mut self, elf: ElfMetadata)
        requires
            old(self).wf(),
            elf.wf(),
        ensures
            final(self).wf(),
            stored(old(self).entries(), final(self).entries(), elf@.id, elf@),
    {
        let id = elf.id();
        let ghost value = elf@;
        cache_insert(&mut self.cache, (id.dev, id.inode), elf);
        proof {
            let target = old(self).entries().insert(id, value);
            assert forall|k: FileId| #[trigger] self.entries().dom().contains(k) implies target.dom().contains(
                k,
            ) && self.entries()[k] == target[k] by {
                assert(cached(old(self).cache).insert((id.dev, id.inode), value).dom().contains(
                    (k.dev, k.inode),
                ));
                if (k.dev, k.inode) != (id.dev, id.inode) {
                    assert(old(self).entries().dom().contains(k));
                }
            }
            assert(cached(self.cache).dom().contains((id.dev, id.inode)));
            assert(self.entries().dom().contains(id));
            assert(target.dom().contains(id));
        }
    }

    /// Parses the file at `dso` with identity `id` from its bytes and debug
    /// information, unless the store holds the file already, and stores the
    /// result. A failure stores nothing, so that a later call tries again.
    pub fn load_elf(&mut self, dso: &String, id: FileId, bytes: &[u8], debug: &Vec<(u64, String)>) -> (res:
        Result<FileId, SymbolizerError>)
        requires
            old(self).wf(),
        ensures
            final(self).wf(),
            if old(self).entries().dom().contains(id) {
                res == Ok::<FileId, SymbolizerError>(id) && final(self).entries() == old(
                    self
                ).entries()
            } else {
                match crate::elf::parsed_elf(bytes@) {
                    None => res == Err::<FileId, SymbolizerError>(SymbolizerError::ElfParse(*dso))
                        && final(self).entries() == old(self).entries(),
                    Some(image) => res == Ok::<FileId, SymbolizerError>(id) && exists|elf: ElfView|
                        #[trigger] elf.built_from(dso@, id, image, crate::elf::debug_view(debug@))
                            && stored(old(self).entries(), final(self).entries(), id, elf),
                }
            },
    {
        if !self.contains(id) {
            match ElfMetadata::new(dso.clone(), id, bytes, debug) {
                Ok(elf) => {
                    let ghost value = elf@;
                    self.insert(elf);
                    assert(value.built_from(
                        dso@,
                        id,
                        crate::elf::parsed_elf(bytes@).unwrap(),
                        crate::elf::debug_view(debug@),
                    ));
                },
                Err(e) => {
                    return Err(e);
                },
            }
        }
        Ok(id)
    }

    /// A copy of the metadata of the file, marked as recently used;
    /// `FetchElfFailed` exactly where the store does not hold the file.
    pub fn fetch_elf(&mut self, dso: &String, id: FileId) -> (res: Result<
        ElfMetadata,
        SymbolizerError,
    >)
        requires
            old(self).wf(),
        ensures
            final(self).wf(),
            final(self).entries().submap_of(old(self).entries()),
            match res {
                Ok(elf) => old(self).entries().dom().contains(id) && elf@ == old(self).entries()[id]
                    && elf.wf() && elf@.id == id,
                Err(e) => !old(self).entries().dom().contains(id) && e
                    == SymbolizerError::FetchElfFailed(*dso),
            },
    {
        let found = cache_get(&mut self.cache, (id.dev, id.inode));
        proof {
            assert forall|k: FileId| #[trigger]
                self.entries().dom().contains(k) implies old(self).entries().dom().contains(k)
                && self.entries()[k] == old(self).entries()[k] by {
                assert(cached(old(self).cache).dom().contains((k.dev, k.inode)));
            }
            if found.is_some() {
                assert(old(self).entries().dom().contains(id));
            }
        }
        match found {
            Some(elf) => Ok(elf),
            None => Err(SymbolizerError::FetchElfFailed(dso.clone())),
        }
    }

    /// Looks the file offset up in the metadata of the file.
    pub fn get_symbol(&mut self, dso: &String, id: FileId, offset: u64) -> (res: Result<
        Symbol,
        SymbolizerError,
    >)
        requires
            old(self).wf(),
        ensures
            final(self).wf(),
            final(self).entries().submap_of(old(self).entries()),
            symbol_outcome(
                if old(self).entries().dom().contains(id) {
                    Some(old(self).entries()[id])
                } else {
                    None
                },
                dso@,
                offset,
                res,
            ),
    {
        match self.fetch_elf(dso, id) {
            Ok(elf) => elf.find_symbol(offset),
            Err(e) => Err(e),
        }
    }
}

/// Whether `after` is a store in which `elf` was stored under `id`, coming
/// from `before`: it holds that entry, and besides it at most what `before`
/// held.
pub open spec fn stored(
    before: Map<FileId, ElfView>,
    after: Map<FileId, ElfView>,
    id: FileId,
    elf: ElfView,
) -> bool {
    &&& after.submap_of(before.insert(id, elf))
    &&& after.dom().contains(id)
    &&& after[id] == elf
}

/// What the store gives for a file does not change while the file stays in
/// the store: a later state of the store, which holds at most what an
/// earlier one held, gives the same metadata.
pub proof fn lemma_fetch_is_stable(
    earlier: Map<FileId, ElfView>,
    later: Map<FileId, ElfView>,
    id: FileId,
)
    requires
        later.submap_of(earlier),
        later.dom().contains(id),
    ensures
        earlier.dom().contains(id),
        later[id] == earlier[id],
{
    assert(earlier.dom().contains(id));
}

/// Whether `res` is what looking `offset` up gives, with `elf` the metadata
/// that the store held for the file at `dso`, if it held any.
pub open spec fn symbol_outcome(
    elf: Option<ElfView>,
    dso: Seq<char>,
    offset: u64,
    res: Result<Symbol, SymbolizerError>,
) -> bool {
    match elf {
        None => res matches Err(SymbolizerError::FetchElfFailed(p)) && p@ == dso,
        Some(e) => match lookup_symbol(e, offset) {
            Lookup::Found(s) => res matches Ok(r) && r@ == s,
            Lookup::NoSymbol(v) => res matches Err(SymbolizerError::SymbolNotFound(p, o)) && p@
                == e.path && o == v,
            Lookup::NoSegment => res matches Err(
                SymbolizerError::OffsetOutsideLoadableSegments(p, o),
            ) && p@ == e.path && o == offset,
        },
    }
}

} // verus!
