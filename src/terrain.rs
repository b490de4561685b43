use std::num::NonZeroUsize;
use std::path::PathBuf;
use std::sync::Arc;

use lru::LruCache;
use vstd::prelude::*;

verus! {

/// Side of a 3-arc-second tile.
pub const SRTM3_SIZE: usize = 1201;

/// Side of a 1-arc-second tile.
pub const SRTM1_SIZE: usize = 3601;

/// Byte length of a 3-arc-second HGT file (1201² big-endian samples).
pub const SRTM3_FILE_LEN: u64 = 2884802;

/// Byte length of a 1-arc-second HGT file (3601² big-endian samples).
pub const SRTM1_FILE_LEN: u64 = 25934402;

/// One 1° by 1° elevation tile whose south-west corner is
/// `(latitude, longitude)`. `data` is row-major, `size` by `size`, in
/// meters; row 0 is the northernmost row.
#[derive(Debug, Clone)]
pub struct TerrainTile {
    pub latitude: i32,
    pub longitude: i32,
    pub size: usize,
    pub data: Vec<i16>,
}

/// A terrain tile placed in the scene, drawn every `lod_step` samples.
#[derive(Clone, Copy, Debug, PartialEq, Eq, Structural)]
pub struct TerrainChunk {
    pub lat_idx: i32,
    pub lon_idx: i32,
    pub lod_step: usize,
}

/// Why a tile could not be read.
#[derive(Debug, Clone, Copy, PartialEq, Eq, Structural)]
pub enum TerrainError {
    /// No file for the tile.
    MissingAsset,
    /// The file's length is neither of the two HGT lengths.
    SizeMismatch { len: u64 },
    /// Reading the file failed.
    IoError,
}

/// Larger of two samples.
pub open spec fn max_i16(a: i16, b: i16) -> i16 {
    if a < b {
        b
    } else {
        a
    }
}

/// Highest of `data[y * size + x]` for `x0 <= x < x1`, or `i16::MIN` when
/// the row segment is empty.
pub open spec fn row_max(data: Seq<i16>, size: int, y: int, x0: int, x1: int) -> i16
    decreases x1 - x0,
{
    if x1 <= x0 {
        i16::MIN
    } else {
        max_i16(row_max(data, size, y, x0, x1 - 1), data[y * size + x1 - 1])
    }
}

/// Highest sample of the block `[x0, x1) x [y0, y1)`, or `i16::MIN` when
/// the block is empty.
pub open spec fn block_max(data: Seq<i16>, size: int, x0: int, x1: int, y0: int, y1: int) -> i16
    decreases y1 - y0,
{
    if y1 <= y0 {
        i16::MIN
    } else {
        max_i16(block_max(data, size, x0, x1, y0, y1 - 1), row_max(data, size, y1 - 1, x0, x1))
    }
}

/// End, exclusive, of a block of `step` samples starting at `start`,
/// clamped to the tile.
pub open spec fn block_end(start: int, step: int, size: int) -> int {
    if start + step < size {
        start + step
    } else {
        size
    }
}

/// The signed 16-bit value whose big-endian bytes are `hi`, `lo`.
pub open spec fn be_i16(hi: u8, lo: u8) -> i16 {
    let v = hi as int * 256 + lo as int;
    (if v >= 0x8000 {
        v - 0x1_0000
    } else {
        v
    }) as i16
}

/// Grid side of an HGT file of `len` bytes, if it is one of the two sizes.
pub open spec fn hgt_size_of(len: int) -> Option<usize> {
    if len == SRTM3_FILE_LEN {
        Some(SRTM3_SIZE)
    } else if len == SRTM1_FILE_LEN {
        Some(SRTM1_SIZE)
    } else {
        None
    }
}

/// Samples of an HGT file: one big-endian pair of bytes each.
pub open spec fn hgt_samples(bytes: Seq<u8>) -> Seq<i16> {
    Seq::new(bytes.len() / 2, |i: int| be_i16(bytes[2 * i], bytes[2 * i + 1]))
}

impl TerrainTile {
    /// `data` holds exactly `size * size` samples.
    pub open spec fn well_formed(&self) -> bool {
        self.data@.len() == self.size * self.size
    }

    /// A flat tile at sea level, standing in for a missing file.
    pub fn flat(lat: i32, lon: i32) -> (r: TerrainTile)
        ensures
            r.well_formed(),
            r.latitude == lat,
            r.longitude == lon,
            r.size == SRTM3_SIZE,
            forall|i: int| 0 <= i < r.data@.len() ==> r.data@[i] == 0,
    {
        let n: usize = SRTM3_SIZE * SRTM3_SIZE;
        let mut data: Vec<i16> = Vec::new();
        while data.len() < n
            invariant
                data@.len() <= n,
                forall|i: int| 0 <= i < data@.len() ==> data@[i] == 0,
            decreases n - data@.len(),
        {
            data.push(0);
        }
        TerrainTile { latitude: lat, longitude: lon, size: SRTM3_SIZE, data }
    }

    /// Sample at column `x`, row `y`.
    pub fn get_height(&self, x: usize, y: usize) -> (r: i16)
        requires
            self.well_formed(),
            x < self.size,
            y < self.size,
        ensures
            r == self.data@[y * self.size + x],
    {
        // The index is below `size * size`, the length of `data`.
        let len = self.data.len();
        proof {
            lemma_sample_index(self.size as int, x as int, y as int);
            assert(y * self.size + x < len);
        }
        self.data[y * self.size + x]
    }

    /// Highest sample of the `step` by `step` block whose north-west corner
    /// is `(x, y)`, clipped to the tile; 0 when the block is empty or holds
    /// only `i16::MIN`.
    pub fn get_max_height(&self, x: usize, y: usize, step: usize) -> (r: i16)
        requires
            self.well_formed(),
        ensures
            ({
                let m = block_max(
                    self.data@,
                    self.size as int,
                    x as int,
                    block_end(x as int, step as int, self.size as int),
                    y as int,
                    block_end(y as int, step as int, self.size as int),
                );
                r == if m == i16::MIN { 0 } else { m }
            }),
    {
        let size = self.size;
        let n = self.data.len();
        let x_end: usize = if x >= size || step >= size - x { size } else { x + step };
        let y_end: usize = if y >= size || step >= size - y { size } else { y + step };
        let mut max_h: i16 = i16::MIN;
        let mut sample_y = y;
        while sample_y < y_end
            invariant
                n == self.data@.len(),
                self.well_formed(),
                size == self.size,
                y_end <= size,
                x_end <= size,
                y <= sample_y || y_end <= y,
                y_end <= y ==> sample_y == y,
                sample_y <= y_end || y_end <= y,
                max_h == block_max(self.data@, size as int, x as int, x_end as int, y as int, sample_y as int),
            decreases y_end - sample_y,
        {
            let mut sample_x = x;
            let ghost before = max_h;
            while sample_x < x_end
                invariant
                    n == self.data@.len(),
                    self.well_formed(),
                    size == self.size,
                    x_end <= size,
                    sample_y < size,
                    x <= sample_x <= x_end || (x_end <= x && sample_x == x),
                    max_h == max_i16(before, row_max(self.data@, size as int, sample_y as int, x as int, sample_x as int)),
                    before == block_max(self.data@, size as int, x as int, x_end as int, y as int, sample_y as int),
                decreases x_end - sample_x,
            {
                proof {
                    lemma_sample_index(size as int, sample_x as int, sample_y as int);
                }
                let h = self.data[sample_y * size + sample_x];
                if h > max_h {
                    max_h = h;
                }
                sample_x = sample_x + 1;
            }
            sample_y = sample_y + 1;
        }
        if max_h == i16::MIN {
            0
        } else {
            max_h
        }
    }
}

proof fn lemma_sample_index(size: int, x: int, y: int)
    requires
        0 <= x < size,
        0 <= y < size,
    ensures
        0 <= y * size + x < size * size,
{
    assert(0 <= y * size + x < size * size) by (nonlinear_arith)
        requires
            0 <= x < size,
            0 <= y < size,
    ;
}

/// Grid side of an HGT file of `len` bytes; see [`hgt_size_of`].
pub fn hgt_size(len: u64) -> (r: Option<usize>)
    ensures
        r == hgt_size_of(len as int),
{
    if len == SRTM3_FILE_LEN {
        Some(SRTM3_SIZE)
    } else if len == SRTM1_FILE_LEN {
        Some(SRTM1_SIZE)
    } else {
        None
    }
}

/// The signed sample stored big-endian in `hi`, `lo`.
pub fn sample_from_be_bytes(hi: u8, lo: u8) -> (r: i16)
    ensures
        r == be_i16(hi, lo),
{
    let v: i32 = hi as i32 * 256 + lo as i32;
    if v >= 0x8000 {
        (v - 0x1_0000) as i16
    } else {
        v as i16
    }
}

/// Decodes the contents of an HGT file into the tile whose south-west
/// corner is `(lat, lon)`. The file's length picks the grid side; any other
/// length is a `SizeMismatch`.
pub fn decode_hgt(lat: i32, lon: i32, bytes: &[u8]) -> (r: Result<TerrainTile, TerrainError>)
    ensures
        match hgt_size_of(bytes@.len() as int) {
            Some(size) => r matches Ok(t) && t.well_formed() && t.latitude == lat && t.longitude == lon
                && t.size == size && t.data@ == hgt_samples(bytes@),
            None => r == Err::<TerrainTile, TerrainError>(TerrainError::SizeMismatch { len: bytes@.len() as u64 }),
        },
{
    let len = bytes.len();
    let size = match hgt_size(len as u64) {
        Some(s) => s,
        None => {
            return Err(TerrainError::SizeMismatch { len: len as u64 });
        },
    };
    let count = len / 2;
    let mut data: Vec<i16> = Vec::new();
    let mut i: usize = 0;
    while i < count
        invariant
            count == bytes@.len() / 2,
            len == bytes@.len(),
            i <= count,
            data@.len() == i,
            forall|j: int| 0 <= j < i ==> data@[j] == be_i16(bytes@[2 * j], bytes@[2 * j + 1]),
        decreases count - i,
    {
        let v = sample_from_be_bytes(bytes[2 * i], bytes[2 * i + 1]);
        data.push(v);
        i = i + 1;
    }
    assert(data@ =~= hgt_samples(bytes@));
    assert(SRTM3_SIZE * SRTM3_SIZE == SRTM3_FILE_LEN / 2);
    assert(SRTM1_SIZE * SRTM1_SIZE == SRTM1_FILE_LEN / 2);
    Ok(TerrainTile { latitude: lat, longitude: lon, size, data })
}

/// Decimal digit `d` as a character.
pub open spec fn digit_char(d: int) -> char {
    if d == 0 {
        '0'
    } else if d == 1 {
        '1'
    } else if d == 2 {
        '2'
    } else if d == 3 {
        '3'
    } else if d == 4 {
        '4'
    } else if d == 5 {
        '5'
    } else if d == 6 {
        '6'
    } else if d == 7 {
        '7'
    } else if d == 8 {
        '8'
    } else {
        '9'
    }
}

/// Decimal form of `n`, left-padded with zeros to at least `width` digits.
pub open spec fn padded_decimal(n: nat, width: nat) -> Seq<char>
    decreases n + width,
{
    if n < 10 && width <= 1 {
        seq![digit_char(n as int)]
    } else {
        padded_decimal(n / 10, if width > 0 { (width - 1) as nat } else { 0 }) + seq![digit_char((n % 10) as int)]
    }
}

/// Magnitude of a signed degree count.
pub open spec fn degrees_abs(v: i32) -> nat {
    if v < 0 {
        (-(v as int)) as nat
    } else {
        v as nat
    }
}

/// Name of the HGT file of the tile whose south-west corner is
/// `(lat, lon)`: `{N|S}{|lat|:02}{E|W}{|lon|:03}.hgt`.
pub open spec fn hgt_name(lat: i32, lon: i32) -> Seq<char> {
    seq![if lat >= 0 { 'N' } else { 'S' }] + padded_decimal(degrees_abs(lat), 2) + seq![
        if lon >= 0 { 'E' } else { 'W' },
    ] + padded_decimal(degrees_abs(lon), 3) + seq!['.', 'h', 'g', 't']
}

fn digit_text(d: u32) -> (r: &'static str)
    requires
        d < 10,
    ensures
        r@ == seq![digit_char(d as int)],
{
    proof {
        reveal_strlit("0");
        reveal_strlit("1");
        reveal_strlit("2");
        reveal_strlit("3");
        reveal_strlit("4");
        reveal_strlit("5");
        reveal_strlit("6");
        reveal_strlit("7");
        reveal_strlit("8");
        reveal_strlit("9");
    }
    if d == 0 {
        "0"
    } else if d == 1 {
        "1"
    } else if d == 2 {
        "2"
    } else if d == 3 {
        "3"
    } else if d == 4 {
        "4"
    } else if d == 5 {
        "5"
    } else if d == 6 {
        "6"
    } else if d == 7 {
        "7"
    } else if d == 8 {
        "8"
    } else {
        "9"
    }
}

fn push_padded_decimal(s: &mut String, n: u32, width: u32)
    ensures
        final(s)@ == old(s)@ + padded_decimal(n as nat, width as nat),
    decreases n + width,
{
    if n < 10 && width <= 1 {
        s.append(digit_text(n));
    } else {
        let w = if width > 0 { width - 1 } else { 0 };
        push_padded_decimal(s, n / 10, w);
        s.append(digit_text(n % 10));
        proof {
            assert(final(s)@ =~= old(s)@ + padded_decimal(n as nat, width as nat));
        }
    }
}

/// File name of the tile whose south-west corner is `(lat, lon)`.
pub fn hgt_file_name(lat: i32, lon: i32) -> (r: String)
    ensures
        r@ == hgt_name(lat, lon),
{
    proof {
        reveal_strlit("N");
        reveal_strlit("S");
        reveal_strlit("E");
        reveal_strlit("W");
        reveal_strlit(".hgt");
    }
    let mut name = String::new();
    name.append(if lat >= 0 { "N" } else { "S" });
    let lat_abs: u32 = if lat < 0 { (-(lat as i64)) as u32 } else { lat as u32 };
    push_padded_decimal(&mut name, lat_abs, 2);
    name.append(if lon >= 0 { "E" } else { "W" });
    let lon_abs: u32 = if lon < 0 { (-(lon as i64)) as u32 } else { lon as u32 };
    push_padded_decimal(&mut name, lon_abs, 3);
    name.append(".hgt");
    assert(name@ =~= hgt_name(lat, lon));
    name
}

/// `std::path::PathBuf`, carried opaquely.
#[verifier::external_type_specification]
#[verifier::external_body]
pub struct ExPathBuf(PathBuf);

/// Where the HGT files live.
pub struct TerrainLoader {
    pub assets_path: PathBuf,
}

impl TerrainLoader {
    pub fn new(assets_path: PathBuf) -> (r: TerrainLoader)
        ensures
            r.assets_path == assets_path,
    {
        TerrainLoader { assets_path }
    }

    /// Name, relative to `assets_path`, of the file of tile `(lat, lon)`.
    pub fn tile_file_name(&self, lat: i32, lon: i32) -> (r: String)
        ensures
            r@ == hgt_name(lat, lon),
    {
        hgt_file_name(lat, lon)
    }
}

/// Least-recently-used cache of shared tiles, keyed by south-west corner.
pub type TileLru = LruCache<(i32, i32), Arc<TerrainTile>>;

/// Tiles held by a terrain cache, by south-west corner.
pub uninterp spec fn tile_cache_entries(c: TileLru) -> Map<(i32, i32), Arc<TerrainTile>>;

/// Number of tiles a terrain cache was built to hold.
pub uninterp spec fn tile_cache_capacity(c: TileLru) -> nat;

/// The empty tile map.
pub open spec fn no_tiles() -> Map<(i32, i32), Arc<TerrainTile>> {
    Map::empty()
}

/// A terrain cache holds finitely many tiles, at most its capacity.
pub open spec fn tile_cache_bounded(c: TileLru) -> bool {
    tile_cache_entries(c).dom().finite() && tile_cache_entries(c).len() <= tile_cache_capacity(c)
}

/// Relies on `lru::LruCache::new`: an empty cache that holds at most
/// `capacity` entries.
#[verifier::external_body]
fn tile_cache_new(capacity: usize) -> (r: TileLru)
    requires
        capacity > 0,
    ensures
        tile_cache_entries(r) == no_tiles(),
        tile_cache_capacity(r) == capacity,
{
    LruCache::new(NonZeroUsize::new(capacity).unwrap())
}

/// Relies on `lru::LruCache::get`: the value stored under `key`, if any.
/// Only the recency order changes.
#[verifier::external_body]
fn tile_cache_get(c: &mut TileLru, key: (i32, i32)) -> (r: Option<Arc<TerrainTile>>)
    ensures
        tile_cache_entries(*final(c)) == tile_cache_entries(*old(c)),
        tile_cache_capacity(*final(c)) == tile_cache_capacity(*old(c)),
        r == (if tile_cache_entries(*old(c)).contains_key(key) {
            Some(tile_cache_entries(*old(c))[key])
        } else {
            None
        }),
{
    c.get(&key).cloned()
}

/// Relies on `lru::LruCache::put`: stores `value` under `key`, replacing
/// any value there; a new key in a full cache first evicts one other
/// (least recently used) entry.
#[verifier::external_body]
fn tile_cache_put(c: &mut TileLru, key: (i32, i32), value: Arc<TerrainTile>)
    ensures
        tile_cache_capacity(*final(c)) == tile_cache_capacity(*old(c)),
        tile_cache_bounded(*old(c)) ==> tile_cache_bounded(*final(c)),
        tile_cache_entries(*final(c)).contains_key(key),
        tile_cache_entries(*final(c))[key] == value,
        forall|k: (i32, i32)|
            #![trigger tile_cache_entries(*final(c)).contains_key(k)]
            k != key && tile_cache_entries(*final(c)).contains_key(k) ==> tile_cache_entries(*old(c)).contains_key(k)
                && tile_cache_entries(*final(c))[k] == tile_cache_entries(*old(c))[k],
        tile_cache_entries(*old(c)).contains_key(key) || tile_cache_entries(*old(c)).len()
            < tile_cache_capacity(*old(c)) ==> tile_cache_entries(*final(c)) == tile_cache_entries(
            *old(c),
        ).insert(key, value),
{
    c.put(key, value);
}

/// Decoded tiles behind a bounded least-recently-used cache.
pub struct TerrainManager {
    loader: TerrainLoader,
    cache: TileLru,
}

impl TerrainManager {
    /// Where tiles are loaded from.
    pub closed spec fn source(&self) -> TerrainLoader {
        self.loader
    }

    /// Tiles currently cached, by south-west corner.
    pub closed spec fn cached(&self) -> Map<(i32, i32), Arc<TerrainTile>> {
        tile_cache_entries(self.cache)
    }

    /// Most tiles the cache keeps.
    pub closed spec fn capacity(&self) -> nat {
        tile_cache_capacity(self.cache)
    }

    /// The cache never holds more tiles than its capacity.
    pub closed spec fn well_formed(&self) -> bool {
        tile_cache_bounded(self.cache)
    }

    pub fn new(loader: TerrainLoader, cache_capacity: usize) -> (r: TerrainManager)
        requires
            cache_capacity > 0,
        ensures
            r.well_formed(),
            r.source() == loader,
            r.cached() == no_tiles(),
            r.capacity() == cache_capacity,
    {
        let cache = tile_cache_new(cache_capacity);
        proof {
            assert(tile_cache_entries(cache).dom() =~= Set::<(i32, i32)>::empty());
        }
        TerrainManager { loader, cache }
    }

    pub fn loader(&self) -> (r: &TerrainLoader)
        ensures
            *r == self.source(),
    {
        &self.loader
    }

    /// The cached tile `(lat, lon)`, if any (a hit also marks it most
    /// recently used).
    pub fn cached_tile(&mut self, lat: i32, lon: i32) -> (r: Option<Arc<TerrainTile>>)
        requires
            old(self).well_formed(),
        ensures
            final(self).well_formed(),
            final(self).source() == old(self).source(),
            final(self).cached() == old(self).cached(),
            final(self).capacity() == old(self).capacity(),
            r == (if old(self).cached().contains_key((lat, lon)) {
                Some(old(self).cached()[(lat, lon)])
            } else {
                None
            }),
    {
        tile_cache_get(&mut self.cache, (lat, lon))
    }

    /// Caches a freshly loaded tile under its corner and hands back the
    /// shared handle; when the cache is full and the tile is new, the least
    /// recently used tile goes.
    pub fn store_tile(&mut self, tile: TerrainTile) -> (r: Arc<TerrainTile>)
        requires
            old(self).well_formed(),
        ensures
            final(self).well_formed(),
            final(self).source() == old(self).source(),
            final(self).capacity() == old(self).capacity(),
            r == tile,
            final(self).cached().contains_key((tile.latitude, tile.longitude)),
            final(self).cached()[(tile.latitude, tile.longitude)] == r,
            forall|k: (i32, i32)|
                #![trigger final(self).cached().contains_key(k)]
                k != (tile.latitude, tile.longitude) && final(self).cached().contains_key(k)
                    ==> old(self).cached().contains_key(k) && final(self).cached()[k] == old(self).cached()[k],
    {
        let key = (tile.latitude, tile.longitude);
        let handle = Arc::new(tile);
        tile_cache_put(&mut self.cache, key, handle.clone());
        handle
    }
}

} // verus!
