use std::sync::Arc;

use vstd::prelude::*;

use crate::cache::{key_tuple, CoverageCache, CoverageKey, CoverageMetrics};
use crate::coverage::{classes_of, margins_of, CoverageTile, PixelSample};

verus! {

/// A coverage tile that is shown, or being computed, for one radar.
#[derive(Clone, Copy, Debug, PartialEq, Eq, Structural)]
pub struct TileOutput {
    pub key: CoverageKey,
    /// Stable identity of the radar (a digest of its name).
    pub radar_id: u64,
}

/// `n + 1`, held at `u32::MAX`.
pub open spec fn bump(n: u32) -> u32 {
    if n < u32::MAX {
        (n + 1) as u32
    } else {
        n
    }
}

fn bump_counter(n: u32) -> (r: u32)
    ensures
        r == bump(n),
{
    if n < u32::MAX {
        n + 1
    } else {
        n
    }
}

/// Tile `t` has south-west corner `(lat, lon)`.
pub open spec fn is_tile(t: (i32, i32), lat: int, lon: int) -> bool {
    t.0 == lat && t.1 == lon
}

/// Largest half-width of a tile window; any window round the globe fits.
pub const MAX_WINDOW_RADIUS: i32 = 0x7FFF;

/// The square window of `(2 * radius + 1)²` tiles around a center tile,
/// row by row from the south-west: entry `row * side + col` is
/// `(center_lat - radius + row, center_lon - radius + col)`.
pub fn tile_window(center_lat: i32, center_lon: i32, radius: i32) -> (r: Vec<(i32, i32)>)
    requires
        0 <= radius,
        i32::MIN <= center_lat - radius,
        center_lat + radius <= i32::MAX,
        i32::MIN <= center_lon - radius,
        center_lon + radius <= i32::MAX,
        radius <= MAX_WINDOW_RADIUS,
    ensures
        r@.len() == (2 * radius + 1) * (2 * radius + 1),
        forall|row: int, col: int|
            0 <= row < 2 * radius + 1 && 0 <= col < 2 * radius + 1 ==> is_tile(#[trigger] r@[row * (2 * radius + 1) + col], center_lat - radius + row, center_lon - radius + col),
{
    let ghost side = 2 * radius + 1;
    assert(side * side <= 0x1_0000 * 0x1_0000) by (nonlinear_arith)
        requires
            1 <= side <= 0x1_0000,
    ;
    let mut r: Vec<(i32, i32)> = Vec::new();
    assert(0 * side == 0);
    let mut dlat: i64 = -(radius as i64);
    while dlat <= radius as i64
        invariant
            -radius <= dlat <= radius + 1,
            0 <= radius,
            side == 2 * radius + 1,
            i32::MIN <= center_lat - radius,
            center_lat + radius <= i32::MAX,
            i32::MIN <= center_lon - radius,
            center_lon + radius <= i32::MAX,
            r@.len() == (dlat + radius) * side,
            forall|row: int, col: int|
                0 <= row < dlat + radius && 0 <= col < side ==> is_tile(#[trigger] r@[row * side + col], center_lat - radius + row, center_lon - radius + col),
        decreases radius + 1 - dlat,
    {
        let ghost row = dlat + radius;
        let mut dlon: i64 = -(radius as i64);
        while dlon <= radius as i64
            invariant
                -radius <= dlat <= radius,
                -radius <= dlon <= radius + 1,
                0 <= radius,
                side == 2 * radius + 1,
                row == dlat + radius,
                i32::MIN <= center_lat - radius,
                center_lat + radius <= i32::MAX,
                i32::MIN <= center_lon - radius,
                center_lon + radius <= i32::MAX,
                r@.len() == row * side + (dlon + radius),
                forall|rw: int, col: int|
                    0 <= rw < row && 0 <= col < side ==> is_tile(#[trigger] r@[rw * side + col], center_lat - radius + rw, center_lon - radius + col),
                forall|col: int|
                    0 <= col < dlon + radius ==> is_tile(#[trigger] r@[row * side + col], center_lat - radius + row, center_lon - radius + col),
            decreases radius + 1 - dlon,
        {
            proof {
                assert forall|rw: int, col: int|
                    0 <= rw < row && 0 <= col < side implies #[trigger] (rw * side + col) < row * side by {
                    assert(rw * side + col < row * side) by (nonlinear_arith)
                        requires
                            0 <= rw < row,
                            0 <= col < side,
                    ;
                }
            }
            r.push(((center_lat as i64 + dlat) as i32, (center_lon as i64 + dlon) as i32));
            dlon = dlon + 1;
        }
        proof {
            assert((row + 1) * side == row * side + side) by (nonlinear_arith);
            assert forall|rw: int, col: int|
                0 <= rw < row + 1 && 0 <= col < side implies is_tile(#[trigger] r@[rw * side + col], center_lat - radius + rw, center_lon - radius + col) by {
                if rw == row {
                    assert(is_tile(r@[row * side + col], center_lat - radius + row, center_lon - radius + col));
                }
            }
        }
        dlat = dlat + 1;
    }
    r
}

/// Whether an output is the given tile for the given radar configuration.
pub open spec fn same_tile(o: TileOutput, lat: i32, lon: i32, radar_hash: u64) -> bool {
    o.key.lat == lat && o.key.lon == lon && o.key.radar_hash == radar_hash
}

/// Whether an output belongs to the radar but to another configuration.
pub open spec fn is_stale(o: TileOutput, radar_id: u64, radar_hash: u64) -> bool {
    o.radar_id == radar_id && o.key.radar_hash != radar_hash
}

/// Positions, in order, of the outputs among `outs[..n]` that are stale
/// for the radar and configuration (see [`is_stale`]).
pub open spec fn stale_positions(outs: Seq<TileOutput>, radar_id: u64, radar_hash: u64, n: int) -> Seq<usize>
    decreases n,
{
    if n <= 0 {
        seq![]
    } else {
        let before = stale_positions(outs, radar_id, radar_hash, n - 1);
        if is_stale(outs[n - 1], radar_id, radar_hash) {
            before.push((n - 1) as usize)
        } else {
            before
        }
    }
}

/// Positions of the outputs of radar `radar_id` computed for another
/// configuration than `radar_hash`: they are stale and are to be dropped.
pub fn stale_outputs(outs: &Vec<TileOutput>, radar_id: u64, radar_hash: u64) -> (r: Vec<usize>)
    ensures
        r@ == stale_positions(outs@, radar_id, radar_hash, outs@.len() as int),
{
    let mut r: Vec<usize> = Vec::new();
    let mut i: usize = 0;
    while i < outs.len()
        invariant
            i <= outs@.len(),
            r@ == stale_positions(outs@, radar_id, radar_hash, i as int),
        decreases outs@.len() - i,
    {
        let o = outs[i];
        if o.radar_id == radar_id && o.key.radar_hash != radar_hash {
            r.push(i);
        }
        i = i + 1;
    }
    r
}

/// Whether `outs` holds the tile for the configuration.
pub fn holds_tile(outs: &Vec<TileOutput>, lat: i32, lon: i32, radar_hash: u64) -> (r: bool)
    ensures
        r == exists|i: int| 0 <= i < outs@.len() && same_tile(#[trigger] outs@[i], lat, lon, radar_hash),
{
    let mut i: usize = 0;
    while i < outs.len()
        invariant
            i <= outs@.len(),
            forall|j: int| 0 <= j < i ==> !same_tile(#[trigger] outs@[j], lat, lon, radar_hash),
        decreases outs@.len() - i,
    {
        let o = outs[i];
        if o.key.lat == lat && o.key.lon == lon && o.key.radar_hash == radar_hash {
            assert(same_tile(outs@[i as int], lat, lon, radar_hash));
            return true;
        }
        i = i + 1;
    }
    false
}

/// A tile of the window needs attention unless it is already shown or
/// already being computed for the same configuration.
pub fn needs_tile(shown: &Vec<TileOutput>, computing: &Vec<TileOutput>, lat: i32, lon: i32, radar_hash: u64) -> (r:
    bool)
    ensures
        r == (!(exists|i: int| 0 <= i < shown@.len() && same_tile(#[trigger] shown@[i], lat, lon, radar_hash))
            && !(exists|i: int| 0 <= i < computing@.len() && same_tile(#[trigger] computing@[i], lat, lon, radar_hash))),
{
    !holds_tile(shown, lat, lon, radar_hash) && !holds_tile(computing, lat, lon, radar_hash)
}

/// Serves coverage tiles from the cache and records fresh ones.
pub struct CoverageService {
    pub cache: CoverageCache,
    pub metrics: CoverageMetrics,
}

impl CoverageService {
    pub open spec fn well_formed(&self) -> bool {
        self.cache.well_formed()
    }

    pub fn new(cache: CoverageCache) -> (r: CoverageService)
        ensures
            r.cache == cache,
            r.metrics == (CoverageMetrics { tiles_computed: 0, cache_hits: 0, last_compute_time_ms: 0 }),
    {
        CoverageService {
            cache,
            metrics: CoverageMetrics { tiles_computed: 0, cache_hits: 0, last_compute_time_ms: 0 },
        }
    }

    /// The cached tile for `key`, if any; a hit counts in `cache_hits`, a
    /// miss means the caller computes the tile.
    pub fn request_tile(&mut self, key: &CoverageKey) -> (r: Option<Arc<CoverageTile>>)
        requires
            old(self).well_formed(),
        ensures
            final(self).well_formed(),
            r == old(self).cache.lookup(*key),
            final(self).cache.entries() == old(self).cache.entries(),
            final(self).cache.capacity() == old(self).cache.capacity(),
            final(self).metrics == (if r is Some {
                CoverageMetrics { cache_hits: bump(old(self).metrics.cache_hits), ..old(self).metrics }
            } else {
                old(self).metrics
            }),
    {
        let r = self.cache.get(key);
        if r.is_some() {
            self.metrics.cache_hits = bump_counter(self.metrics.cache_hits);
        }
        r
    }

    /// Records a freshly computed tile: caches it under `key`, counts it in
    /// `tiles_computed` and notes how long it took.
    pub fn record_computed(&mut self, key: CoverageKey, tile: CoverageTile, elapsed_ms: u64) -> (r: Arc<
        CoverageTile,
    >)
        requires
            old(self).well_formed(),
        ensures
            final(self).well_formed(),
            r == tile,
            final(self).cache.lookup(key) == Some(r),
            final(self).cache.capacity() == old(self).cache.capacity(),
            forall|k: CoverageKey|
                #![trigger final(self).cache.lookup(k)]
                key_tuple(k) != key_tuple(key) && final(self).cache.lookup(k) is Some ==> final(self).cache.lookup(
                    k,
                ) == old(self).cache.lookup(k),
            final(self).metrics == (CoverageMetrics {
                tiles_computed: bump(old(self).metrics.tiles_computed),
                last_compute_time_ms: elapsed_ms,
                ..old(self).metrics
            }),
    {
        let handle = Arc::new(tile);
        self.cache.insert(key, handle.clone());
        self.metrics.tiles_computed = bump_counter(self.metrics.tiles_computed);
        self.metrics.last_compute_time_ms = elapsed_ms;
        handle
    }
}

/// Cache consistency: when the tile a cache holds under `key` was computed
/// from `samples`, a fresh computation from the same samples yields a
/// raster and margins bitwise equal to the cached ones.
pub proof fn lemma_cached_tile_reproducible(
    cache: CoverageCache,
    key: CoverageKey,
    samples: Seq<PixelSample>,
    fresh: CoverageTile,
)
    requires
        cache.lookup(key) is Some,
        cache.lookup(key).unwrap().data@ == classes_of(samples),
        cache.lookup(key).unwrap().snr_margin@ == margins_of(samples),
        fresh.data@ == classes_of(samples),
        fresh.snr_margin@ == margins_of(samples),
    ensures
        fresh.data@ == cache.lookup(key).unwrap().data@,
        fresh.snr_margin@ == cache.lookup(key).unwrap().snr_margin@,
{
}

} // verus!
