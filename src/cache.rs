use std::num::NonZeroUsize;
use std::sync::Arc;

use lru::LruCache;
use vstd::prelude::*;

use crate::coverage::CoverageTile;

verus! {

/// `lru::LruCache`, held opaquely; what it holds is named per use below and
/// in the terrain module.
#[verifier::external_type_specification]
#[verifier::external_body]
#[verifier::reject_recursive_types(K)]
#[verifier::reject_recursive_types(V)]
#[verifier::reject_recursive_types(S)]
pub struct ExLruCache<K, V, S>(LruCache<K, V, S>);

/// The hasher `lru::LruCache` uses by default, held opaquely.
#[verifier::external_type_specification]
#[verifier::external_body]
pub struct ExLruHasher(lru::DefaultHasher);

/// Identity of a computed coverage tile: the tile, the target height above
/// ground (whole meters) and the digest of the radar configuration it was
/// computed for.
#[derive(Clone, Copy, Debug, PartialEq, Eq, Hash, Structural)]
pub struct CoverageKey {
    pub lat: i32,
    pub lon: i32,
    pub target_agl_m: i16,
    pub radar_hash: u64,
}

/// The key as a tuple of integers, the form the cache is keyed by.
pub open spec fn key_tuple(k: CoverageKey) -> (i32, i32, i16, u64) {
    (k.lat, k.lon, k.target_agl_m, k.radar_hash)
}

/// Counters shown to the operator.
#[derive(Clone, Copy, Debug, PartialEq, Eq, Structural)]
pub struct CoverageMetrics {
    pub tiles_computed: u32,
    pub cache_hits: u32,
    pub last_compute_time_ms: u64,
}

impl Default for CoverageMetrics {
    fn default() -> (r: CoverageMetrics)
        ensures
            r == (CoverageMetrics { tiles_computed: 0, cache_hits: 0, last_compute_time_ms: 0 }),
    {
        CoverageMetrics { tiles_computed: 0, cache_hits: 0, last_compute_time_ms: 0 }
    }
}

/// Least-recently-used cache of coverage tiles keyed by `key_tuple`.
pub type CoverageLru = LruCache<(i32, i32, i16, u64), Arc<CoverageTile>>;

/// Tiles held by a coverage cache.
pub uninterp spec fn coverage_lru_entries(c: CoverageLru) -> Map<(i32, i32, i16, u64), Arc<CoverageTile>>;

/// Number of tiles a coverage cache was built to hold.
pub uninterp spec fn coverage_lru_capacity(c: CoverageLru) -> nat;

/// The empty coverage map.
pub open spec fn no_coverage() -> Map<(i32, i32, i16, u64), Arc<CoverageTile>> {
    Map::empty()
}

/// A coverage cache holds finitely many tiles, at most its capacity.
pub open spec fn coverage_lru_bounded(c: CoverageLru) -> bool {
    coverage_lru_entries(c).dom().finite() && coverage_lru_entries(c).len() <= coverage_lru_capacity(c)
}

/// Relies on `lru::LruCache::new`: an empty cache that holds at most
/// `capacity` entries.
#[verifier::external_body]
fn coverage_lru_new(capacity: usize) -> (r: CoverageLru)
    requires
        capacity > 0,
    ensures
        coverage_lru_entries(r) == no_coverage(),
        coverage_lru_capacity(r) == capacity,
{
    LruCache::new(NonZeroUsize::new(capacity).unwrap())
}

/// Relies on `lru::LruCache::get`: the value stored under `key`, if any.
/// Only the recency order changes.
#[verifier::external_body]
fn coverage_lru_get(c: &mut CoverageLru, key: (i32, i32, i16, u64)) -> (r: Option<Arc<CoverageTile>>)
    ensures
        coverage_lru_entries(*final(c)) == coverage_lru_entries(*old(c)),
        coverage_lru_capacity(*final(c)) == coverage_lru_capacity(*old(c)),
        r == (if coverage_lru_entries(*old(c)).contains_key(key) {
            Some(coverage_lru_entries(*old(c))[key])
        } else {
            None
        }),
{
    c.get(&key).cloned()
}

/// Relies on `lru::LruCache::put`: stores `value` under `key`, replacing
/// any value there; a new key in a full cache first evicts one other
/// (least recently used) entry.
#[verifier::external_body]
fn coverage_lru_put(c: &mut CoverageLru, key: (i32, i32, i16, u64), value: Arc<CoverageTile>)
    ensures
        coverage_lru_capacity(*final(c)) == coverage_lru_capacity(*old(c)),
        coverage_lru_bounded(*old(c)) ==> coverage_lru_bounded(*final(c)),
        coverage_lru_entries(*final(c)).contains_key(key),
        coverage_lru_entries(*final(c))[key] == value,
        forall|k: (i32, i32, i16, u64)|
            #![trigger coverage_lru_entries(*final(c)).contains_key(k)]
            k != key && coverage_lru_entries(*final(c)).contains_key(k) ==> coverage_lru_entries(
                *old(c),
            ).contains_key(k) && coverage_lru_entries(*final(c))[k] == coverage_lru_entries(*old(c))[k],
        coverage_lru_entries(*old(c)).contains_key(key) || coverage_lru_entries(*old(c)).len()
            < coverage_lru_capacity(*old(c)) ==> coverage_lru_entries(*final(c)) == coverage_lru_entries(
            *old(c),
        ).insert(key, value),
{
    c.put(key, value);
}

/// Relies on `lru::LruCache::clear`: removes every entry.
#[verifier::external_body]
fn coverage_lru_clear(c: &mut CoverageLru)
    ensures
        coverage_lru_entries(*final(c)) == no_coverage(),
        coverage_lru_capacity(*final(c)) == coverage_lru_capacity(*old(c)),
{
    c.clear();
}

/// Default number of coverage tiles kept.
pub const DEFAULT_COVERAGE_CAPACITY: usize = 100;

/// Completed coverage tiles behind a bounded least-recently-used cache.
pub struct CoverageCache {
    cache: CoverageLru,
}

impl CoverageCache {
    /// Tiles currently cached, by key tuple.
    pub closed spec fn entries(&self) -> Map<(i32, i32, i16, u64), Arc<CoverageTile>> {
        coverage_lru_entries(self.cache)
    }

    /// Most tiles the cache keeps.
    pub closed spec fn capacity(&self) -> nat {
        coverage_lru_capacity(self.cache)
    }

    /// The cache never holds more tiles than its capacity.
    pub closed spec fn well_formed(&self) -> bool {
        coverage_lru_bounded(self.cache)
    }

    /// What a lookup of `key` finds.
    pub open spec fn lookup(&self, key: CoverageKey) -> Option<Arc<CoverageTile>> {
        if self.entries().contains_key(key_tuple(key)) {
            Some(self.entries()[key_tuple(key)])
        } else {
            None
        }
    }

    pub fn new(capacity: usize) -> (r: CoverageCache)
        requires
            capacity > 0,
        ensures
            r.well_formed(),
            r.entries() == no_coverage(),
            r.capacity() == capacity,
    {
        let cache = coverage_lru_new(capacity);
        proof {
            assert(coverage_lru_entries(cache).dom() =~= Set::<(i32, i32, i16, u64)>::empty());
        }
        CoverageCache { cache }
    }

    /// The tile cached under `key`, if any (a hit also marks it most
    /// recently used).
    pub fn get(&mut self, key: &CoverageKey) -> (r: Option<Arc<CoverageTile>>)
        requires
            old(self).well_formed(),
        ensures
            final(self).well_formed(),
            final(self).entries() == old(self).entries(),
            final(self).capacity() == old(self).capacity(),
            r == old(self).lookup(*key),
    {
        coverage_lru_get(&mut self.cache, (key.lat, key.lon, key.target_agl_m, key.radar_hash))
    }

    /// Caches `tile` under `key`, replacing any tile there; a new key in a
    /// full cache first evicts the least recently used tile.
    pub fn insert(&mut self, key: CoverageKey, tile: Arc<CoverageTile>)
        requires
            old(self).well_formed(),
        ensures
            final(self).well_formed(),
            final(self).capacity() == old(self).capacity(),
            final(self).lookup(key) == Some(tile),
            forall|k: CoverageKey|
                #![trigger final(self).lookup(k)]
                key_tuple(k) != key_tuple(key) && final(self).lookup(k) is Some ==> final(self).lookup(k)
                    == old(self).lookup(k),
            old(self).entries().contains_key(key_tuple(key)) || old(self).entries().len()
                < old(self).capacity() ==> final(self).entries() == old(self).entries().insert(
                key_tuple(key),
                tile,
            ),
    {
        coverage_lru_put(&mut self.cache, (key.lat, key.lon, key.target_agl_m, key.radar_hash), tile);
        proof {
            assert forall|k: CoverageKey|
                #![trigger self.lookup(k)]
                key_tuple(k) != key_tuple(key) && self.lookup(k) is Some implies self.lookup(k) == old(
                    self,
                ).lookup(k) by {
                assert(coverage_lru_entries(self.cache).contains_key(key_tuple(k)));
            }
        }
    }

    /// Drops every cached tile.
    pub fn clear(&mut self)
        requires
            old(self).well_formed(),
        ensures
            final(self).well_formed(),
            final(self).entries() == no_coverage(),
            final(self).capacity() == old(self).capacity(),
    {
        coverage_lru_clear(&mut self.cache);
        proof {
            assert(coverage_lru_entries(self.cache).dom() =~= Set::<(i32, i32, i16, u64)>::empty());
        }
    }
}

impl Default for CoverageCache {
    fn default() -> (r: CoverageCache)
        ensures
            r.well_formed(),
            r.entries() == no_coverage(),
            r.capacity() == DEFAULT_COVERAGE_CAPACITY,
    {
        CoverageCache::new(DEFAULT_COVERAGE_CAPACITY)
    }
}

} // verus!
