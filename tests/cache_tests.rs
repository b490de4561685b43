use std::sync::Arc;

use radar_coverage::cache::{CoverageCache, CoverageKey, CoverageMetrics, DEFAULT_COVERAGE_CAPACITY};
use radar_coverage::coverage::{compute_coverage_tile, CoverageTile, PixelSample};
use radar_coverage::scheduler::{needs_tile, stale_outputs, tile_window, CoverageService, TileOutput};
use radar_coverage::target::RCSProfile;
use radar_coverage::terrain::TerrainChunk;

fn key(lat: i32, lon: i32, agl: i16, hash: u64) -> CoverageKey {
    CoverageKey { lat, lon, target_agl_m: agl, radar_hash: hash }
}

fn tile(lat: i32, lon: i32, fill: u8) -> CoverageTile {
    CoverageTile { lat_idx: lat, lon_idx: lon, size: 2, data: vec![fill; 4], snr_margin: vec![0; 4] }
}

#[test]
fn cache_returns_what_was_inserted() {
    let mut c = CoverageCache::new(4);
    let k = key(45, 5, 50, 7);
    assert!(c.get(&k).is_none());
    c.insert(k, Arc::new(tile(45, 5, 1)));
    assert_eq!(c.get(&k).unwrap().data, vec![1; 4]);
    c.insert(k, Arc::new(tile(45, 5, 2)));
    assert_eq!(c.get(&k).unwrap().data, vec![2; 4]);
    assert!(c.get(&key(45, 5, 51, 7)).is_none());
    assert!(c.get(&key(45, 5, 50, 8)).is_none());
}

#[test]
fn cache_evicts_least_recently_used() {
    let mut c = CoverageCache::new(2);
    let (a, b, d) = (key(1, 1, 0, 0), key(2, 2, 0, 0), key(3, 3, 0, 0));
    c.insert(a, Arc::new(tile(1, 1, 1)));
    c.insert(b, Arc::new(tile(2, 2, 2)));
    assert!(c.get(&a).is_some());
    c.insert(d, Arc::new(tile(3, 3, 3)));
    assert!(c.get(&b).is_none());
    assert!(c.get(&a).is_some());
    assert!(c.get(&d).is_some());
}

#[test]
fn cache_clear_drops_everything() {
    let mut c = CoverageCache::default();
    for i in 0..10 {
        c.insert(key(i, i, 0, 0), Arc::new(tile(i, i, 1)));
    }
    c.clear();
    for i in 0..10 {
        assert!(c.get(&key(i, i, 0, 0)).is_none());
    }
    assert_eq!(DEFAULT_COVERAGE_CAPACITY, 100);
}

#[test]
fn handles_outlive_eviction() {
    let mut c = CoverageCache::new(1);
    c.insert(key(1, 1, 0, 0), Arc::new(tile(1, 1, 1)));
    let held = c.get(&key(1, 1, 0, 0)).unwrap();
    c.insert(key(2, 2, 0, 0), Arc::new(tile(2, 2, 2)));
    assert!(c.get(&key(1, 1, 0, 0)).is_none());
    assert_eq!(held.data, vec![1; 4]);
}

#[test]
fn metrics_start_at_zero() {
    let m = CoverageMetrics::default();
    assert_eq!(m, CoverageMetrics { tiles_computed: 0, cache_hits: 0, last_compute_time_ms: 0 });
}

#[test]
fn identical_requests_compute_once_and_hit_once() {
    let mut s = CoverageService::new(CoverageCache::default());
    let k = key(45, 5, 50, 99);
    assert!(s.request_tile(&k).is_none());
    s.record_computed(k, tile(45, 5, 1), 12);
    let served = s.request_tile(&k).unwrap();
    assert_eq!(served.data, vec![1; 4]);
    assert_eq!(s.metrics.tiles_computed, 1);
    assert_eq!(s.metrics.cache_hits, 1);
    assert_eq!(s.metrics.last_compute_time_ms, 12);
}

#[test]
fn target_height_change_is_not_served_stale() {
    let mut s = CoverageService::new(CoverageCache::default());
    let before = key(45, 5, 50, 1111);
    s.record_computed(before, tile(45, 5, 1), 3);
    let after = key(45, 5, 51, 2222);
    assert!(s.request_tile(&after).is_none());
    s.record_computed(after, tile(45, 5, 2), 4);
    assert_eq!(s.request_tile(&after).unwrap().data, vec![2; 4]);
    assert_eq!(s.metrics.tiles_computed, 2);
    assert_eq!(s.metrics.cache_hits, 1);
    let shown = vec![TileOutput { key: before, radar_id: 5 }];
    assert_eq!(stale_outputs(&shown, 5, 2222), vec![0]);
}

#[test]
fn stale_outputs_pick_changed_configurations_of_one_radar() {
    let outs = vec![
        TileOutput { key: key(1, 1, 50, 10), radar_id: 1 },
        TileOutput { key: key(1, 2, 50, 11), radar_id: 1 },
        TileOutput { key: key(1, 1, 50, 10), radar_id: 2 },
        TileOutput { key: key(2, 2, 50, 12), radar_id: 1 },
    ];
    assert_eq!(stale_outputs(&outs, 1, 11), vec![0, 3]);
    assert_eq!(stale_outputs(&outs, 2, 10), Vec::<usize>::new());
    assert_eq!(stale_outputs(&outs, 3, 10), Vec::<usize>::new());
    assert_eq!(stale_outputs(&Vec::new(), 1, 1), Vec::<usize>::new());
}

#[test]
fn tiles_shown_or_in_flight_are_skipped() {
    let shown = vec![TileOutput { key: key(45, 5, 50, 10), radar_id: 1 }];
    let computing = vec![TileOutput { key: key(45, 6, 50, 10), radar_id: 1 }];
    assert!(!needs_tile(&shown, &computing, 45, 5, 10));
    assert!(!needs_tile(&shown, &computing, 45, 6, 10));
    assert!(needs_tile(&shown, &computing, 45, 5, 11));
    assert!(needs_tile(&shown, &computing, 46, 5, 10));
    assert!(needs_tile(&Vec::new(), &Vec::new(), 0, 0, 0));
}

#[test]
fn window_lists_tiles_row_by_row() {
    let w = tile_window(45, 5, 1);
    assert_eq!(w, vec![(44, 4), (44, 5), (44, 6), (45, 4), (45, 5), (45, 6), (46, 4), (46, 5), (46, 6)]);
    assert_eq!(tile_window(0, 0, 0), vec![(0, 0)]);
    assert_eq!(tile_window(45, 5, 5).len(), 121);
}

#[test]
fn rcs_labels() {
    assert_eq!(RCSProfile::StealthFighter.label(), "5G Stealth Fighter (0.1 m²)");
    assert_eq!(RCSProfile::Fighter.label(), "4G Fighter (5.0 m²)");
    assert_eq!(RCSProfile::SmallAircraft.label(), "Small Aircraft (2.0 m²)");
    assert_eq!(RCSProfile::LargeAircraft.label(), "Large Aircraft (50.0 m²)");
    assert_eq!(RCSProfile::Ship.label(), "Ship (5000.0 m²)");
}

#[test]
fn terrain_chunk_fields() {
    let c = TerrainChunk { lat_idx: 45, lon_idx: 5, lod_step: 16 };
    assert_eq!(c, TerrainChunk { lat_idx: 45, lon_idx: 5, lod_step: 16 });
}

#[test]
fn cached_tile_matches_fresh_computation() {
    let samples: Vec<PixelSample> = (0..4u32)
        .map(|i| PixelSample {
            in_range: i != 2,
            horizon: if i == 3 { None } else { Some((0.1f32 * i as f32).to_bits()) },
            target_angle: 0.15f32.to_bits(),
            margin_deg: (0.5f32 - i as f32).to_bits(),
        })
        .collect();
    let mut c = CoverageCache::default();
    let k = key(45, 5, 50, 3);
    c.insert(k, Arc::new(compute_coverage_tile(45, 5, 1200, &samples)));
    let cached = c.get(&k).unwrap();
    let fresh = compute_coverage_tile(45, 5, 1200, &samples);
    assert_eq!(cached.data, fresh.data);
    assert_eq!(cached.snr_margin, fresh.snr_margin);
    assert_eq!(fresh.data, vec![1, 1, 0, 0]);
}
