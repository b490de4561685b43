use std::path::PathBuf;

use radar_coverage::terrain::{
    decode_hgt, hgt_file_name, hgt_size, sample_from_be_bytes, TerrainError, TerrainLoader, TerrainManager,
    TerrainTile, SRTM1_FILE_LEN, SRTM1_SIZE, SRTM3_FILE_LEN, SRTM3_SIZE,
};

fn tile(size: usize, data: Vec<i16>) -> TerrainTile {
    TerrainTile { latitude: 45, longitude: 5, size, data }
}

#[test]
fn get_height_reads_row_major() {
    let t = tile(3, vec![1, 2, 3, 4, 5, 6, 7, 8, 9]);
    assert_eq!(t.get_height(0, 0), 1);
    assert_eq!(t.get_height(2, 0), 3);
    assert_eq!(t.get_height(0, 1), 4);
    assert_eq!(t.get_height(1, 2), 8);
}

#[test]
fn max_height_over_block() {
    let t = tile(3, vec![1, 2, 3, 4, 50, 6, 7, 8, 9]);
    assert_eq!(t.get_max_height(0, 0, 2), 50);
    assert_eq!(t.get_max_height(2, 0, 2), 6);
    assert_eq!(t.get_max_height(1, 1, 2), 50);
    assert_eq!(t.get_max_height(0, 2, 1), 7);
}

#[test]
fn max_height_clips_to_tile_and_handles_empty_blocks() {
    let t = tile(3, vec![-5, -6, -7, -8, -9, -10, -11, -12, -13]);
    assert_eq!(t.get_max_height(1, 1, 10), -9);
    assert_eq!(t.get_max_height(3, 0, 2), 0);
    assert_eq!(t.get_max_height(0, 0, 0), 0);
}

#[test]
fn max_height_of_voids_only_is_zero() {
    let t = tile(2, vec![i16::MIN, i16::MIN, i16::MIN, i16::MIN]);
    assert_eq!(t.get_max_height(0, 0, 2), 0);
    let u = tile(2, vec![i16::MIN, -3, i16::MIN, i16::MIN]);
    assert_eq!(u.get_max_height(0, 0, 2), -3);
}

#[test]
fn flat_tile_is_sea_level() {
    let t = TerrainTile::flat(-12, 130);
    assert_eq!(t.latitude, -12);
    assert_eq!(t.longitude, 130);
    assert_eq!(t.size, SRTM3_SIZE);
    assert_eq!(t.data.len(), SRTM3_SIZE * SRTM3_SIZE);
    assert!(t.data.iter().all(|h| *h == 0));
    assert_eq!(t.get_max_height(600, 600, 16), 0);
}

#[test]
fn big_endian_samples() {
    assert_eq!(sample_from_be_bytes(0x01, 0x02), 258);
    assert_eq!(sample_from_be_bytes(0xFF, 0xFF), -1);
    assert_eq!(sample_from_be_bytes(0x80, 0x00), i16::MIN);
    assert_eq!(sample_from_be_bytes(0x7F, 0xFF), i16::MAX);
}

#[test]
fn file_length_picks_grid_side() {
    assert_eq!(hgt_size(2_884_802), Some(1201));
    assert_eq!(hgt_size(25_934_402), Some(3601));
    assert_eq!(hgt_size(2_884_800), None);
    assert_eq!(hgt_size(0), None);
    assert_eq!(SRTM1_SIZE, 3601);
    assert_eq!(SRTM1_FILE_LEN, 25_934_402);
}

#[test]
fn decode_three_arc_second_file() {
    let mut bytes = vec![0u8; SRTM3_FILE_LEN as usize];
    bytes[0] = 0x03;
    bytes[1] = 0xE8;
    bytes[2] = 0xFF;
    bytes[3] = 0x38;
    let last = bytes.len() - 2;
    bytes[last] = 0x80;
    bytes[last + 1] = 0x00;
    let t = decode_hgt(45, 6, &bytes).unwrap();
    assert_eq!(t.latitude, 45);
    assert_eq!(t.longitude, 6);
    assert_eq!(t.size, 1201);
    assert_eq!(t.data.len(), 1201 * 1201);
    assert_eq!(t.get_height(0, 0), 1000);
    assert_eq!(t.get_height(1, 0), -200);
    assert_eq!(t.get_height(1200, 1200), i16::MIN);
}

#[test]
fn decode_rejects_other_lengths() {
    let bytes = vec![0u8; 1000];
    assert_eq!(decode_hgt(1, 2, &bytes).err(), Some(TerrainError::SizeMismatch { len: 1000 }));
    assert_eq!(decode_hgt(1, 2, &[]).err(), Some(TerrainError::SizeMismatch { len: 0 }));
}

#[test]
fn error_kinds_are_distinct() {
    assert_ne!(TerrainError::MissingAsset, TerrainError::IoError);
    assert_ne!(TerrainError::MissingAsset, TerrainError::SizeMismatch { len: 0 });
}

#[test]
fn hgt_names_follow_the_corner() {
    assert_eq!(hgt_file_name(45, 5), "N45E005.hgt");
    assert_eq!(hgt_file_name(-9, -123), "S09W123.hgt");
    assert_eq!(hgt_file_name(0, 0), "N00E000.hgt");
    assert_eq!(hgt_file_name(-1, 179), "S01E179.hgt");
    assert_eq!(hgt_file_name(7, -7), "N07W007.hgt");
}

#[test]
fn loader_keeps_its_root_and_names_files() {
    let loader = TerrainLoader::new(PathBuf::from("/data/srtm"));
    assert_eq!(loader.assets_path, PathBuf::from("/data/srtm"));
    assert_eq!(loader.tile_file_name(43, 7), "N43E007.hgt");
}

#[test]
fn terrain_cache_hits_after_store() {
    let mut m = TerrainManager::new(TerrainLoader::new(PathBuf::from("assets")), 2);
    assert!(m.cached_tile(45, 5).is_none());
    let stored = m.store_tile(tile(2, vec![1, 2, 3, 4]));
    assert_eq!(stored.get_height(1, 1), 4);
    let hit = m.cached_tile(45, 5).unwrap();
    assert_eq!(hit.data, vec![1, 2, 3, 4]);
    assert_eq!(m.loader().assets_path, PathBuf::from("assets"));
}

#[test]
fn terrain_cache_evicts_least_recently_used() {
    let mut m = TerrainManager::new(TerrainLoader::new(PathBuf::from("assets")), 2);
    m.store_tile(TerrainTile { latitude: 1, longitude: 1, size: 1, data: vec![1] });
    m.store_tile(TerrainTile { latitude: 2, longitude: 2, size: 1, data: vec![2] });
    assert!(m.cached_tile(1, 1).is_some());
    m.store_tile(TerrainTile { latitude: 3, longitude: 3, size: 1, data: vec![3] });
    assert!(m.cached_tile(2, 2).is_none());
    assert_eq!(m.cached_tile(1, 1).unwrap().data, vec![1]);
    assert_eq!(m.cached_tile(3, 3).unwrap().data, vec![3]);
}

#[test]
fn terrain_cache_replaces_same_corner() {
    let mut m = TerrainManager::new(TerrainLoader::new(PathBuf::from("assets")), 1);
    m.store_tile(TerrainTile { latitude: 1, longitude: 1, size: 1, data: vec![1] });
    m.store_tile(TerrainTile { latitude: 1, longitude: 1, size: 1, data: vec![9] });
    assert_eq!(m.cached_tile(1, 1).unwrap().data, vec![9]);
}
