use vstd::prelude::*;

use crate::angle::{angle_ge, angle_le, ordinal, HALF_PI_BITS, NEG_HALF_PI_BITS};
use crate::terrain::SRTM3_SIZE;
use crate::viewshed::{ground_at_most, horizon_of, lemma_horizon_at_most, MAX_GRID_WIDTH};

verus! {

/// Pixel class: the target is beyond the maximum detection range, or
/// outside the radar's horizon grid.
pub const OUT_OF_RANGE: u8 = 0;

/// Pixel class: the target clears the horizon.
pub const VISIBLE: u8 = 1;

/// Pixel class: terrain hides the target.
pub const SHADOWED: u8 = 2;

/// Coverage of one 1° by 1° tile, on the HGT grid convention (row 0 is
/// north). `data` holds one class per pixel and `snr_margin` the bit
/// pattern of the `f32` angular margin above the horizon, in degrees
/// (`+0.0` for out-of-range pixels).
#[derive(Debug, Clone)]
pub struct CoverageTile {
    pub lat_idx: i32,
    pub lon_idx: i32,
    pub size: usize,
    pub data: Vec<u8>,
    pub snr_margin: Vec<u32>,
}

/// What the geometry says about one output pixel; angles are `f32` bit
/// patterns.
#[derive(Clone, Copy, Debug, PartialEq, Eq, Structural)]
pub struct PixelSample {
    /// The geodesic distance to the radar is within the maximum detection
    /// range.
    pub in_range: bool,
    /// Horizon angle of the viewshed cell under the pixel, `None` outside
    /// the horizon grid.
    pub horizon: Option<u32>,
    /// Elevation angle from the radar to the target above the pixel
    /// (π/2 when the target is overhead).
    pub target_angle: u32,
    /// `target_angle - horizon`, in degrees.
    pub margin_deg: u32,
}

/// Class of a pixel: out of range first, then outside the grid, then
/// visible when the target's angle is at least the horizon.
pub open spec fn pixel_class(s: PixelSample) -> u8 {
    if !s.in_range {
        OUT_OF_RANGE
    } else {
        match s.horizon {
            None => OUT_OF_RANGE,
            Some(h) => if angle_le(h, s.target_angle) {
                VISIBLE
            } else {
                SHADOWED
            },
        }
    }
}

/// Margin recorded for a pixel: its angular margin unless out of range.
pub open spec fn pixel_margin(s: PixelSample) -> u32 {
    if pixel_class(s) == OUT_OF_RANGE {
        0
    } else {
        s.margin_deg
    }
}

/// Side of a coverage tile sampled every `step` HGT samples:
/// `ceil(1201 / step)`.
pub open spec fn tile_side(step: int) -> int {
    (SRTM3_SIZE + step - 1) / step
}

/// HGT sample index of output pixel `i`, clamped to the last sample.
pub open spec fn sample_at(i: int, step: int) -> int {
    if i * step < SRTM3_SIZE - 1 {
        i * step
    } else {
        SRTM3_SIZE - 1
    }
}

/// Classes of a raster of samples.
pub open spec fn classes_of(samples: Seq<PixelSample>) -> Seq<u8> {
    Seq::new(samples.len(), |i: int| pixel_class(samples[i]))
}

/// Margins of a raster of samples.
pub open spec fn margins_of(samples: Seq<PixelSample>) -> Seq<u32> {
    Seq::new(samples.len(), |i: int| pixel_margin(samples[i]))
}

/// Class and margin of one pixel.
pub fn classify_pixel(s: &PixelSample) -> (r: (u8, u32))
    ensures
        r == (pixel_class(*s), pixel_margin(*s)),
{
    if !s.in_range {
        return (OUT_OF_RANGE, 0);
    }
    match s.horizon {
        None => (OUT_OF_RANGE, 0),
        Some(h) => {
            if angle_ge(s.target_angle, h) {
                (VISIBLE, s.margin_deg)
            } else {
                (SHADOWED, s.margin_deg)
            }
        },
    }
}

/// Side of a coverage tile sampled every `step` HGT samples.
pub fn coverage_tile_size(step: usize) -> (r: usize)
    requires
        step > 0,
    ensures
        r == tile_side(step as int),
        r >= 1,
        r <= SRTM3_SIZE,
{
    let r = (SRTM3_SIZE - 1) / step + 1;
    proof {
        lemma_tile_side(step as int);
    }
    r
}

proof fn lemma_tile_side(step: int)
    requires
        step > 0,
    ensures
        tile_side(step) == (SRTM3_SIZE - 1) / step + 1,
        1 <= tile_side(step) <= SRTM3_SIZE,
        forall|i: int| 0 <= i < tile_side(step) ==> #[trigger] (i * step) < SRTM3_SIZE,
{
    let n = SRTM3_SIZE - 1;
    assert((n + step) / step == n / step + 1) by {
        vstd::arithmetic::div_mod::lemma_div_plus_one(n as int, step);
    }
    assert(n / step <= n) by {
        vstd::arithmetic::div_mod::lemma_div_is_ordered_by_denominator(n as int, 1, step);
    }
    assert forall|i: int| 0 <= i < tile_side(step) implies #[trigger] (i * step) < SRTM3_SIZE by {
        assert(i <= n / step);
        vstd::arithmetic::div_mod::lemma_fundamental_div_mod(n as int, step);
        assert(i * step <= (n / step) * step) by (nonlinear_arith)
            requires
                i <= n / step,
                step > 0,
        ;
        assert((n / step) * step <= n) by {
            vstd::arithmetic::div_mod::lemma_mod_pos_bound(n as int, step);
        }
    }
}

/// HGT sample index of output pixel `i` when sampling every `step`.
pub fn sample_index(i: usize, step: usize) -> (r: usize)
    requires
        step > 0,
        i < tile_side(step as int),
    ensures
        r == sample_at(i as int, step as int),
        r == i * step,
        r < SRTM3_SIZE,
{
    proof {
        lemma_tile_side(step as int);
        assert(i * step < SRTM3_SIZE);
    }
    let p = i * step;
    if p < SRTM3_SIZE - 1 {
        p
    } else {
        SRTM3_SIZE - 1
    }
}

/// Assembles the coverage tile `(lat_idx, lon_idx)` sampled every `step`
/// HGT samples from its pixels' geometry, `samples[y * size + x]` for the
/// pixel over HGT sample `(sample_index(x, step), sample_index(y, step))`.
pub fn compute_coverage_tile(lat_idx: i32, lon_idx: i32, step: usize, samples: &Vec<PixelSample>) -> (r:
    CoverageTile)
    requires
        step > 0,
        samples@.len() == tile_side(step as int) * tile_side(step as int),
    ensures
        r.lat_idx == lat_idx,
        r.lon_idx == lon_idx,
        r.size == tile_side(step as int),
        r.data@ == classes_of(samples@),
        r.snr_margin@ == margins_of(samples@),
        forall|i: int| 0 <= i < samples@.len() && !(#[trigger] samples@[i]).in_range ==> r.data@[i] == OUT_OF_RANGE,
{
    let size = coverage_tile_size(step);
    let n = samples.len();
    let mut data: Vec<u8> = Vec::new();
    let mut snr_margin: Vec<u32> = Vec::new();
    let mut i: usize = 0;
    while i < n
        invariant
            n == samples@.len(),
            i <= n,
            data@.len() == i,
            snr_margin@.len() == i,
            forall|j: int| 0 <= j < i ==> data@[j] == pixel_class(#[trigger] samples@[j]),
            forall|j: int| 0 <= j < i ==> snr_margin@[j] == pixel_margin(#[trigger] samples@[j]),
        decreases n - i,
    {
        let (class, margin) = classify_pixel(&samples[i]);
        data.push(class);
        snr_margin.push(margin);
        i = i + 1;
    }
    assert(data@ =~= classes_of(samples@));
    assert(snr_margin@ =~= margins_of(samples@));
    CoverageTile { lat_idx, lon_idx, size, data, snr_margin }
}

/// RGBA colour of a pixel class: translucent green when visible, dark red
/// when shadowed, transparent otherwise.
pub open spec fn class_rgba(class: u8) -> Seq<u8> {
    if class == VISIBLE {
        seq![0u8, 255u8, 0u8, 100u8]
    } else if class == SHADOWED {
        seq![128u8, 0u8, 0u8, 120u8]
    } else {
        seq![0u8, 0u8, 0u8, 0u8]
    }
}

/// Texture bytes of a raster of classes: four RGBA bytes per pixel, in
/// pixel order.
pub open spec fn texture_of(data: Seq<u8>) -> Seq<u8>
    decreases data.len(),
{
    if data.len() == 0 {
        seq![]
    } else {
        texture_of(data.drop_last()) + class_rgba(data.last())
    }
}

/// RGBA overlay bytes of a coverage tile.
pub fn create_coverage_texture(tile: &CoverageTile) -> (r: Vec<u8>)
    requires
        tile.data@.len() * 4 <= usize::MAX,
    ensures
        r@ == texture_of(tile.data@),
{
    let n = tile.data.len();
    let mut pixels: Vec<u8> = Vec::new();
    let mut i: usize = 0;
    while i < n
        invariant
            n == tile.data@.len(),
            i <= n,
            pixels@ == texture_of(tile.data@.take(i as int)),
        decreases n - i,
    {
        let class = tile.data[i];
        proof {
            assert(tile.data@.take(i + 1).drop_last() =~= tile.data@.take(i as int));
        }
        if class == VISIBLE {
            pixels.push(0);
            pixels.push(255);
            pixels.push(0);
            pixels.push(100);
        } else if class == SHADOWED {
            pixels.push(128);
            pixels.push(0);
            pixels.push(0);
            pixels.push(120);
        } else {
            pixels.push(0);
            pixels.push(0);
            pixels.push(0);
            pixels.push(0);
        }
        proof {
            assert(pixels@ =~= texture_of(tile.data@.take(i + 1)));
        }
        i = i + 1;
    }
    assert(tile.data@.take(n as int) =~= tile.data@);
    pixels
}

/// Range gate: a pixel beyond the maximum detection range is out of range
/// whatever its horizon and target angle.
pub proof fn lemma_range_gate(s: PixelSample)
    requires
        !s.in_range,
    ensures
        pixel_class(s) == OUT_OF_RANGE,
        pixel_margin(s) == 0,
{
}

/// Flat-Earth limit: over terrain whose ground angles are nowhere above
/// the horizontal (no number above `+0`), a pixel in range whose horizon
/// comes from the horizon map and whose target angle is at least `+0` is
/// visible.
pub proof fn lemma_flat_terrain_visible(ground: Seq<u32>, w: int, reach_sq: int, cell: int, s: PixelSample)
    requires
        0 < w <= MAX_GRID_WIDTH,
        ground.len() == w * w,
        ground_at_most(ground, 0),
        0 <= cell < w * w,
        s.in_range,
        s.horizon == Some(horizon_of(ground, w, reach_sq)[cell]),
        angle_le(0u32, s.target_angle),
    ensures
        pixel_class(s) == VISIBLE,
{
    lemma_horizon_at_most(ground, w, reach_sq, 0);
    assert(ordinal(NEG_HALF_PI_BITS) <= 0);
    let h = horizon_of(ground, w, reach_sq)[cell];
    assert(ordinal(h) <= 0);
}

/// Overhead targets are visible: when no ground angle is steeper than π/2,
/// a pixel in range whose target angle is π/2 (the target within 0.1 m of
/// the radar) and whose horizon comes from the horizon map is visible.
pub proof fn lemma_overhead_visible(ground: Seq<u32>, w: int, reach_sq: int, cell: int, s: PixelSample)
    requires
        0 < w <= MAX_GRID_WIDTH,
        ground.len() == w * w,
        ground_at_most(ground, ordinal(HALF_PI_BITS)),
        0 <= cell < w * w,
        s.in_range,
        s.horizon == Some(horizon_of(ground, w, reach_sq)[cell]),
        s.target_angle == HALF_PI_BITS,
    ensures
        pixel_class(s) == VISIBLE,
{
    lemma_horizon_at_most(ground, w, reach_sq, ordinal(HALF_PI_BITS));
    let h = horizon_of(ground, w, reach_sq)[cell];
    assert(ordinal(h) <= ordinal(HALF_PI_BITS));
}

/// Idempotence: two computations of a coverage tile from the same samples
/// give identical rasters and margins.
pub proof fn lemma_coverage_deterministic(a: CoverageTile, b: CoverageTile, samples: Seq<PixelSample>)
    requires
        a.data@ == classes_of(samples),
        a.snr_margin@ == margins_of(samples),
        b.data@ == classes_of(samples),
        b.snr_margin@ == margins_of(samples),
    ensures
        a.data@ == b.data@,
        a.snr_margin@ == b.snr_margin@,
{
}

/// Down-sampling agrees with full resolution at co-located samples: pixel
/// `(x, y)` of a tile sampled every `step` reads the same HGT sample as
/// pixel `(x * step, y * step)` of the full-resolution tile, and with the
/// same geometry there both pixels get the same class and margin.
pub proof fn lemma_step_agreement(step: int, x: int, y: int, coarse: Seq<PixelSample>, fine: Seq<PixelSample>)
    requires
        step > 0,
        0 <= x < tile_side(step),
        0 <= y < tile_side(step),
        coarse.len() == tile_side(step) * tile_side(step),
        fine.len() == tile_side(1) * tile_side(1),
        coarse[y * tile_side(step) + x] == fine[(y * step) * tile_side(1) + x * step],
    ensures
        tile_side(1) == SRTM3_SIZE,
        0 <= x * step < tile_side(1),
        0 <= y * step < tile_side(1),
        sample_at(x, step) == sample_at(x * step, 1),
        sample_at(y, step) == sample_at(y * step, 1),
        0 <= y * tile_side(step) + x < coarse.len(),
        0 <= (y * step) * tile_side(1) + x * step < fine.len(),
        classes_of(coarse)[y * tile_side(step) + x] == classes_of(fine)[(y * step) * tile_side(1) + x * step],
        margins_of(coarse)[y * tile_side(step) + x] == margins_of(fine)[(y * step) * tile_side(1) + x * step],
{
    lemma_tile_side(step);
    lemma_tile_side(1);
    let side = tile_side(step);
    let n = tile_side(1);
    assert(x * step >= 0 && y * step >= 0) by (nonlinear_arith)
        requires
            x >= 0,
            y >= 0,
            step > 0,
    ;
    assert(0 <= y * side + x < side * side) by (nonlinear_arith)
        requires
            0 <= x < side,
            0 <= y < side,
    ;
    let xs = x * step;
    let ys = y * step;
    assert(0 <= ys * n + xs < n * n) by (nonlinear_arith)
        requires
            0 <= xs < n,
            0 <= ys < n,
    ;
}

} // verus!
