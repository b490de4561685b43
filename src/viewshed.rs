use std::sync::atomic::{AtomicBool, AtomicU32, Ordering};
use std::sync::Arc;

use vstd::prelude::*;

use crate::angle::{angle_gt, is_nan, ordinal, running_max, NEG_HALF_PI_BITS};

verus! {

/// Largest side, in cells, of a horizon grid. At 100 m cells this is far
/// beyond any range the local projection is valid for.
pub const MAX_GRID_WIDTH: usize = 0x10_0000;

/// Dense square grid of horizon angles around one radar.
///
/// Cell `(x, y)` is stored at `y * width + x`; the radar sits in cell
/// `(width / 2, width / 2)`, `+x` points east and `+y` north. Each stored
/// value is the bit pattern of the largest elevation angle (radians) seen
/// from the radar on the way to that cell.
pub struct Viewshed {
    pub width: usize,
    pub height: usize,
    pub horizon_map: Vec<u32>,
}

pub open spec fn abs(v: int) -> int {
    if v < 0 {
        -v
    } else {
        v
    }
}

/// Unit step from `from` toward `to` (`-1` when they are equal).
pub open spec fn unit_step(from: int, to: int) -> int {
    if from < to {
        1
    } else {
        -1
    }
}

/// Bresenham state `(x, y, err)` after `k` steps of a ray cast from
/// `(cx, cy)` toward `(ex, ey)`.
pub open spec fn ray_state(cx: int, cy: int, ex: int, ey: int, k: nat) -> (int, int, int)
    decreases k,
{
    let dx = abs(ex - cx);
    let dy = abs(ey - cy);
    if k == 0 {
        (cx, cy, dx - dy)
    } else {
        let s = ray_state(cx, cy, ex, ey, (k - 1) as nat);
        let e2 = 2 * s.2;
        let x1 = if e2 > -dy { s.0 + unit_step(cx, ex) } else { s.0 };
        let err1 = if e2 > -dy { s.2 - dy } else { s.2 };
        let y1 = if e2 < dx { s.1 + unit_step(cy, ey) } else { s.1 };
        let err2 = if e2 < dx { err1 + dx } else { err1 };
        (x1, y1, err2)
    }
}

/// Index of the last cell of a ray: the ray visits `ray_last + 1` cells.
pub open spec fn ray_last(cx: int, cy: int, ex: int, ey: int) -> nat {
    let dx = abs(ex - cx);
    let dy = abs(ey - cy);
    if dx >= dy {
        dx as nat
    } else {
        dy as nat
    }
}

/// Squared distance, in cells, from the center to cell `(x, y)`.
pub open spec fn dist_sq(cx: int, cy: int, x: int, y: int) -> int {
    (x - cx) * (x - cx) + (y - cy) * (y - cy)
}

/// Effect of a ray visiting cell `(x, y)` while its running maximum is
/// `m`: the new map and the new running maximum.
///
/// The radar's own cell is written with -π/2; a cell within reach takes the
/// running maximum after its own ground angle; any other cell is left alone.
pub open spec fn visit(
    map: Seq<u32>,
    ground: Seq<u32>,
    w: int,
    reach_sq: int,
    cx: int,
    cy: int,
    x: int,
    y: int,
    m: u32,
) -> (Seq<u32>, u32) {
    if 0 <= x < w && 0 <= y < w {
        let q = dist_sq(cx, cy, x, y);
        let idx = y * w + x;
        if 0 < q <= reach_sq {
            let m1 = running_max(m, ground[idx]);
            (map.update(idx, m1), m1)
        } else if q == 0 {
            (map.update(idx, NEG_HALF_PI_BITS), m)
        } else {
            (map, m)
        }
    } else {
        (map, m)
    }
}

/// Map and running maximum after the first `k` cells of a ray.
pub open spec fn ray_prefix(
    map: Seq<u32>,
    ground: Seq<u32>,
    w: int,
    reach_sq: int,
    cx: int,
    cy: int,
    ex: int,
    ey: int,
    k: nat,
) -> (Seq<u32>, u32)
    decreases k,
{
    if k == 0 {
        (map, NEG_HALF_PI_BITS)
    } else {
        let p = ray_prefix(map, ground, w, reach_sq, cx, cy, ex, ey, (k - 1) as nat);
        let s = ray_state(cx, cy, ex, ey, (k - 1) as nat);
        visit(p.0, ground, w, reach_sq, cx, cy, s.0, s.1, p.1)
    }
}

/// Map after a whole ray from the grid center to `(ex, ey)`.
pub open spec fn cast(map: Seq<u32>, ground: Seq<u32>, w: int, reach_sq: int, ex: int, ey: int) -> Seq<u32> {
    let c = w / 2;
    ray_prefix(map, ground, w, reach_sq, c, c, ex, ey, ray_last(c, c, ex, ey) + 1).0
}

/// End cell of perimeter ray `r` (of `4 * w`): first the top and bottom
/// rows, column by column, then the left and right columns, row by row.
pub open spec fn perimeter_end(w: int, r: int) -> (int, int) {
    if r < 2 * w {
        (r / 2, if r % 2 == 0 { 0 } else { w - 1 })
    } else {
        let s = r - 2 * w;
        (if s % 2 == 0 { 0 } else { w - 1 }, s / 2)
    }
}

/// Map after perimeter rays `first .. first + n`.
pub open spec fn cast_rays(map: Seq<u32>, ground: Seq<u32>, w: int, reach_sq: int, first: int, n: nat) -> Seq<u32>
    decreases n,
{
    if n == 0 {
        map
    } else {
        let before = cast_rays(map, ground, w, reach_sq, first, (n - 1) as nat);
        let e = perimeter_end(w, first + n - 1);
        cast(before, ground, w, reach_sq, e.0, e.1)
    }
}

/// A fresh grid: every cell at -π/2.
pub open spec fn blank_map(w: int) -> Seq<u32> {
    Seq::new((w * w) as nat, |i: int| NEG_HALF_PI_BITS)
}

/// The horizon map of a grid of side `w` over the given ground angles.
pub open spec fn horizon_of(ground: Seq<u32>, w: int, reach_sq: int) -> Seq<u32> {
    cast_rays(blank_map(w), ground, w, reach_sq, 0, (4 * w) as nat)
}

/// Offset, in steps, of `x` from `cx` toward `ex`.
pub open spec fn walked(cx: int, ex: int, x: int) -> int {
    if cx < ex {
        x - cx
    } else {
        cx - x
    }
}

proof fn lemma_ray_step(cx: int, cy: int, ex: int, ey: int, k: nat)
    requires
        0 < k <= ray_last(cx, cy, ex, ey),
        ({
            let s = ray_state(cx, cy, ex, ey, (k - 1) as nat);
            let dx = abs(ex - cx);
            let dy = abs(ey - cy);
            let i = walked(cx, ex, s.0);
            let j = walked(cy, ey, s.1);
            &&& 0 <= i <= dx
            &&& 0 <= j <= dy
            &&& s.2 == dx - dy - i * dy + j * dx
            &&& dx >= dy ==> i == k - 1 && j <= k - 1 && 2 * s.2 > -dy
            &&& dx < dy ==> j == k - 1 && i <= k - 1 && 2 * s.2 < dx
        }),
    ensures
        ({
            let s = ray_state(cx, cy, ex, ey, k);
            let dx = abs(ex - cx);
            let dy = abs(ey - cy);
            let i = walked(cx, ex, s.0);
            let j = walked(cy, ey, s.1);
            &&& 0 <= i <= dx
            &&& 0 <= j <= dy
            &&& s.2 == dx - dy - i * dy + j * dx
            &&& dx >= dy ==> i == k && j <= k && 2 * s.2 > -dy
            &&& dx < dy ==> j == k && i <= k && 2 * s.2 < dx
        }),
{
    let p = ray_state(cx, cy, ex, ey, (k - 1) as nat);
    let s = ray_state(cx, cy, ex, ey, k);
    let dx = abs(ex - cx);
    let dy = abs(ey - cy);
    let i = walked(cx, ex, p.0);
    let j = walked(cy, ey, p.1);
    let kk = k as int;
    let t = 2 * p.2;
    let xs = t > -dy;
    let ys = t < dx;
    assert(s.0 == if xs { p.0 + unit_step(cx, ex) } else { p.0 });
    assert(s.1 == if ys { p.1 + unit_step(cy, ey) } else { p.1 });
    assert(s.2 == p.2 - (if xs { dy } else { 0 }) + (if ys { dx } else { 0 }));
    if dx >= dy {
        assert(xs);
        // A step along y never overshoots the end row.
        if j == dy {
            assert(t >= 2 * dx) by (nonlinear_arith)
                requires
                    t == 2 * (dx - dy - i * dy + j * dx),
                    j == dy,
                    i == kk - 1,
                    kk <= dx,
                    dy >= 0,
            ;
            assert(!ys);
        }
        if dx == dy {
            assert(t == 2 * dx * (j - i)) by (nonlinear_arith)
                requires
                    t == 2 * (dx - dy - i * dy + j * dx),
                    dx == dy,
            ;
            assert(2 * dx * (j - i) <= 0) by (nonlinear_arith)
                requires
                    j <= i,
                    dx >= 0,
            ;
        }
        assert(walked(cx, ex, s.0) == i + 1);
        assert(walked(cy, ey, s.1) == if ys { j + 1 } else { j });
        assert(s.2 == dx - dy - walked(cx, ex, s.0) * dy + walked(cy, ey, s.1) * dx) by (nonlinear_arith)
            requires
                p.2 == dx - dy - i * dy + j * dx,
                walked(cx, ex, s.0) == i + 1,
                walked(cy, ey, s.1) == j || walked(cy, ey, s.1) == j + 1,
                walked(cy, ey, s.1) == j ==> s.2 == p.2 - dy,
                walked(cy, ey, s.1) == j + 1 ==> s.2 == p.2 - dy + dx,
        ;
    } else {
        assert(ys);
        if i == dx {
            assert(t <= -2 * dy) by (nonlinear_arith)
                requires
                    t == 2 * (dx - dy - i * dy + j * dx),
                    i == dx,
                    j == kk - 1,
                    kk <= dy,
                    dx >= 0,
            ;
            assert(!xs);
        }
        assert(walked(cy, ey, s.1) == j + 1);
        assert(walked(cx, ex, s.0) == if xs { i + 1 } else { i });
        assert(s.2 == dx - dy - walked(cx, ex, s.0) * dy + walked(cy, ey, s.1) * dx) by (nonlinear_arith)
            requires
                p.2 == dx - dy - i * dy + j * dx,
                walked(cy, ey, s.1) == j + 1,
                walked(cx, ex, s.0) == i || walked(cx, ex, s.0) == i + 1,
                walked(cx, ex, s.0) == i ==> s.2 == p.2 + dx,
                walked(cx, ex, s.0) == i + 1 ==> s.2 == p.2 - dy + dx,
        ;
    }
}

/// Shape of a ray: each step moves one cell along the major axis, never
/// past the end cell, and the ray reaches its end exactly at `ray_last`.
pub proof fn lemma_ray_shape(cx: int, cy: int, ex: int, ey: int, k: nat)
    requires
        k <= ray_last(cx, cy, ex, ey),
    ensures
        ({
            let s = ray_state(cx, cy, ex, ey, k);
            let dx = abs(ex - cx);
            let dy = abs(ey - cy);
            let i = walked(cx, ex, s.0);
            let j = walked(cy, ey, s.1);
            &&& 0 <= i <= dx
            &&& 0 <= j <= dy
            &&& s.2 == dx - dy - i * dy + j * dx
            &&& dx >= dy && dx > 0 ==> i == k && j <= k && 2 * s.2 > -dy
            &&& dx < dy ==> j == k && i <= k && 2 * s.2 < dx
            &&& (s.0 == ex && s.1 == ey) <==> k == ray_last(cx, cy, ex, ey)
        }),
    decreases k,
{
    let dx = abs(ex - cx);
    let dy = abs(ey - cy);
    if k > 0 {
        lemma_ray_shape(cx, cy, ex, ey, (k - 1) as nat);
        lemma_ray_step(cx, cy, ex, ey, k);
    }
    let s = ray_state(cx, cy, ex, ey, k);
    let i = walked(cx, ex, s.0);
    let j = walked(cy, ey, s.1);
    if k == ray_last(cx, cy, ex, ey) && k > 0 {
        if dx >= dy {
            // 2 * err > -dy forces the minor axis to be complete as well.
            if j < dy {
                assert(2 * s.2 <= -2 * dy) by (nonlinear_arith)
                    requires
                        s.2 == dx - dy - i * dy + j * dx,
                        i == dx,
                        j + 1 <= dy,
                        dx >= 0,
                ;
            }
        } else {
            if i < dx {
                assert(2 * s.2 >= 2 * dx) by (nonlinear_arith)
                    requires
                        s.2 == dx - dy - i * dy + j * dx,
                        j == dy,
                        i + 1 <= dx,
                        dy >= 0,
                ;
            }
        }
    }
}

/// Cell indices are in bounds and tell cells apart.
pub proof fn lemma_cell_index(w: int, x1: int, y1: int, x2: int, y2: int)
    requires
        0 <= x1 < w,
        0 <= y1 < w,
        0 <= x2 < w,
        0 <= y2 < w,
    ensures
        0 <= y1 * w + x1 < w * w,
        w <= MAX_GRID_WIDTH ==> w * w <= MAX_GRID_WIDTH * MAX_GRID_WIDTH,
        y1 * w + x1 == y2 * w + x2 ==> x1 == x2 && y1 == y2,
{
    assert(0 <= y1 * w + x1 < w * w) by (nonlinear_arith)
        requires
            0 <= x1 < w,
            0 <= y1 < w,
    ;
    if w <= MAX_GRID_WIDTH {
        assert(w * w <= MAX_GRID_WIDTH * MAX_GRID_WIDTH) by (nonlinear_arith)
            requires
                0 <= w <= MAX_GRID_WIDTH,
        ;
    }
    if y1 < y2 {
        assert(y1 * w + x1 < y2 * w + x2) by (nonlinear_arith)
            requires
                0 <= x1 < w,
                0 <= x2,
                y1 + 1 <= y2,
        ;
    } else if y2 < y1 {
        assert(y2 * w + x2 < y1 * w + x1) by (nonlinear_arith)
            requires
                0 <= x2 < w,
                0 <= x1,
                y2 + 1 <= y1,
        ;
    }
}

impl Viewshed {
    /// Side fits the builder's bound and the map holds one value per cell.
    pub open spec fn well_formed(&self) -> bool {
        &&& self.height == self.width
        &&& self.width <= MAX_GRID_WIDTH
        &&& self.horizon_map@.len() == self.width * self.width
    }

    /// A `size` by `size` grid with every cell at -π/2.
    pub fn new(size: usize) -> (r: Viewshed)
        requires
            size <= MAX_GRID_WIDTH,
            size * size <= usize::MAX,
        ensures
            r.well_formed(),
            r.width == size,
            r.horizon_map@ == blank_map(size as int),
    {
        let n: usize = size * size;
        let mut horizon_map: Vec<u32> = Vec::new();
        while horizon_map.len() < n
            invariant
                horizon_map@.len() <= n,
                forall|i: int| 0 <= i < horizon_map@.len() ==> horizon_map@[i] == NEG_HALF_PI_BITS,
            decreases n - horizon_map@.len(),
        {
            horizon_map.push(NEG_HALF_PI_BITS);
        }
        assert(horizon_map@ =~= blank_map(size as int));
        Viewshed { width: size, height: size, horizon_map }
    }

    /// Horizon value of cell `(x, y)`, or `None` outside the grid.
    pub fn horizon_at(&self, x: usize, y: usize) -> (r: Option<u32>)
        requires
            self.well_formed(),
        ensures
            r == (if x < self.width && y < self.width {
                Some(self.horizon_map@[y * self.width + x])
            } else {
                None::<u32>
            }),
    {
        let n = self.horizon_map.len();
        if x < self.width && y < self.width {
            proof {
                lemma_cell_index(self.width as int, x as int, y as int, x as int, y as int);
                assert(y * self.width + x < n);
            }
            Some(self.horizon_map[y * self.width + x])
        } else {
            None
        }
    }

    /// Casts one ray from the radar's cell to cell `(end_x, end_y)` with
    /// Bresenham steps, keeping a running maximum of the ground angles met
    /// within reach (`0 < dx² + dy² <= reach_sq`, in cells) and writing it
    /// into every such cell; the radar's own cell gets -π/2.
    pub fn cast_ray(&mut self, ground: &Vec<u32>, reach_sq: u64, end_x: usize, end_y: usize)
        requires
            old(self).well_formed(),
            ground@.len() == old(self).width * old(self).width,
            end_x < old(self).width,
            end_y < old(self).width,
        ensures
            final(self).well_formed(),
            final(self).width == old(self).width,
            final(self).horizon_map@ == cast(
                old(self).horizon_map@,
                ground@,
                old(self).width as int,
                reach_sq as int,
                end_x as int,
                end_y as int,
            ),
    {
        let ghost map0 = self.horizon_map@;
        let ghost wi = self.width as int;
        let w = self.width as i64;
        let ex = end_x as i64;
        let ey = end_y as i64;
        let cx: i64 = w / 2;
        let cy: i64 = w / 2;
        let dx: i64 = if ex >= cx { ex - cx } else { cx - ex };
        let dy: i64 = if ey >= cy { ey - cy } else { cy - ey };
        let sx: i64 = if cx < ex { 1 } else { -1 };
        let sy: i64 = if cy < ey { 1 } else { -1 };
        let mut x: i64 = cx;
        let mut y: i64 = cy;
        let mut err: i64 = dx - dy;
        let mut max_angle: u32 = NEG_HALF_PI_BITS;
        let ghost mut k: nat = 0;
        let ghost last = ray_last(cx as int, cy as int, ex as int, ey as int);
        let n = self.horizon_map.len();
        proof {
            lemma_ray_shape(cx as int, cy as int, ex as int, ey as int, 0);
        }
        loop
            invariant_except_break
                k <= last,
                (x as int, y as int, err as int) == ray_state(cx as int, cy as int, ex as int, ey as int, k),
                (self.horizon_map@, max_angle) == ray_prefix(
                    map0,
                    ground@,
                    wi,
                    reach_sq as int,
                    cx as int,
                    cy as int,
                    ex as int,
                    ey as int,
                    k,
                ),
            invariant
                self.well_formed(),
                self.width as int == wi,
                w as int == wi,
                n as int == wi * wi,
                wi <= MAX_GRID_WIDTH,
                ground@.len() == wi * wi,
                0 <= cx < wi,
                cy == cx,
                0 <= ex < wi,
                0 <= ey < wi,
                dx == abs(ex - cx),
                dy == abs(ey - cy),
                sx == unit_step(cx as int, ex as int),
                sy == unit_step(cy as int, ey as int),
                last == ray_last(cx as int, cy as int, ex as int, ey as int),
            ensures
                self.well_formed(),
                self.width as int == wi,
                k == last + 1,
                self.horizon_map@ == ray_prefix(
                    map0,
                    ground@,
                    wi,
                    reach_sq as int,
                    cx as int,
                    cy as int,
                    ex as int,
                    ey as int,
                    k,
                ).0,
            decreases last - k,
        {
            proof {
                lemma_ray_shape(cx as int, cy as int, ex as int, ey as int, k);
                let i = walked(cx as int, ex as int, x as int);
                let j = walked(cy as int, ey as int, y as int);
                assert(-0x100_0000_0000 <= err <= 0x100_0000_0000) by (nonlinear_arith)
                    requires
                        err == dx - dy - i * dy + j * dx,
                        0 <= i <= dx,
                        0 <= j <= dy,
                        dx <= 0x10_0000,
                        dy <= 0x10_0000,
                ;
            }
            let ghost before = self.horizon_map@;
            let ghost m_before = max_angle;
            // x and y lie between the center and the end cell, inside the grid.
            let ux = x as usize;
            let uy = y as usize;
            let rx = x - cx;
            let ry = y - cy;
            proof {
                assert(rx * rx <= 0x100_0000_0000) by (nonlinear_arith)
                    requires
                        -0x10_0000 <= rx <= 0x10_0000,
                ;
                assert(ry * ry <= 0x100_0000_0000) by (nonlinear_arith)
                    requires
                        -0x10_0000 <= ry <= 0x10_0000,
                ;
                assert(rx * rx >= 0) by (nonlinear_arith);
                assert(ry * ry >= 0) by (nonlinear_arith);
                lemma_cell_index(wi, x as int, y as int, x as int, y as int);
            }
            let q: i64 = rx * rx + ry * ry;
            let idx: usize = uy * self.width + ux;
            if q > 0 && (q as u64) <= reach_sq {
                let angle = ground[idx];
                if angle_gt(angle, max_angle) {
                    max_angle = angle;
                }
                self.horizon_map.set(idx, max_angle);
            } else if q == 0 {
                self.horizon_map.set(idx, NEG_HALF_PI_BITS);
            }
            proof {
                assert(dist_sq(cx as int, cy as int, x as int, y as int) == q);
                assert((self.horizon_map@, max_angle) == visit(
                    before,
                    ground@,
                    wi,
                    reach_sq as int,
                    cx as int,
                    cy as int,
                    x as int,
                    y as int,
                    m_before,
                ));
            }
            if x == ex && y == ey {
                proof {
                    assert(k == last);
                    k = k + 1;
                }
                break;
            }
            let e2 = 2 * err;
            if e2 > -dy {
                err -= dy;
                x += sx;
            }
            if e2 < dx {
                err += dx;
                y += sy;
            }
            proof {
                k = k + 1;
            }
        }
    }
}

/// Number of perimeter rays of a grid of side `width`.
pub fn perimeter_ray_count(width: usize) -> (r: usize)
    requires
        width <= MAX_GRID_WIDTH,
    ensures
        r == 4 * width,
{
    4 * width
}

/// End cell of perimeter ray `r`; see [`perimeter_end`].
pub fn perimeter_ray_end(width: usize, r: usize) -> (e: (usize, usize))
    requires
        0 < width <= MAX_GRID_WIDTH,
        r < 4 * width,
    ensures
        (e.0 as int, e.1 as int) == perimeter_end(width as int, r as int),
        e.0 < width,
        e.1 < width,
{
    if r < 2 * width {
        (r / 2, if r % 2 == 0 { 0 } else { width - 1 })
    } else {
        let s = r - 2 * width;
        (if s % 2 == 0 { 0 } else { width - 1 }, s / 2)
    }
}

impl Viewshed {
    /// Casts perimeter rays `first .. end`, in order.
    pub fn cast_perimeter_rays(&mut self, ground: &Vec<u32>, reach_sq: u64, first: usize, end: usize)
        requires
            old(self).well_formed(),
            ground@.len() == old(self).width * old(self).width,
            first <= end <= 4 * old(self).width,
        ensures
            final(self).well_formed(),
            final(self).width == old(self).width,
            final(self).horizon_map@ == cast_rays(
                old(self).horizon_map@,
                ground@,
                old(self).width as int,
                reach_sq as int,
                first as int,
                (end - first) as nat,
            ),
    {
        let ghost map0 = self.horizon_map@;
        let ghost wi = self.width as int;
        let mut r = first;
        while r < end
            invariant
                self.well_formed(),
                self.width as int == wi,
                ground@.len() == wi * wi,
                first <= r <= end <= 4 * wi,
                self.horizon_map@ == cast_rays(map0, ground@, wi, reach_sq as int, first as int, (r - first) as nat),
            decreases end - r,
        {
            let e = perimeter_ray_end(self.width, r);
            self.cast_ray(ground, reach_sq, e.0, e.1);
            r = r + 1;
        }
    }
}

/// Rays cast between two progress reports.
pub const PROGRESS_STRIDE: u32 = 100;

/// Progress of a horizon build: `current` counts cast rays (in strides of
/// [`PROGRESS_STRIDE`]) out of `total`.
pub struct ViewshedProgress {
    pub current: Arc<AtomicU32>,
    pub total: u32,
}

impl ViewshedProgress {
    /// Fresh progress for a grid of side `width`: `4 * width` rays, none
    /// cast yet.
    pub fn for_width(width: u32) -> (r: ViewshedProgress)
        requires
            width <= MAX_GRID_WIDTH,
        ensures
            r.total == 4 * width,
    {
        ViewshedProgress { current: Arc::new(AtomicU32::new(0)), total: 4 * width }
    }
}

proof fn lemma_cast_rays_split(map: Seq<u32>, ground: Seq<u32>, w: int, reach_sq: int, a: nat, b: nat)
    ensures
        cast_rays(cast_rays(map, ground, w, reach_sq, 0, a), ground, w, reach_sq, a as int, b) == cast_rays(
            map,
            ground,
            w,
            reach_sq,
            0,
            a + b,
        ),
    decreases b,
{
    if b > 0 {
        lemma_cast_rays_split(map, ground, w, reach_sq, a, (b - 1) as nat);
        assert(cast_rays(map, ground, w, reach_sq, 0, a + b) == cast(
            cast_rays(map, ground, w, reach_sq, 0, (a + b - 1) as nat),
            ground,
            w,
            reach_sq,
            perimeter_end(w, a + b - 1).0,
            perimeter_end(w, a + b - 1).1,
        ));
    }
}

/// Builds the horizon map of a `width` by `width` grid around a radar.
///
/// `ground[y * width + x]` is the elevation angle, seen from the radar, of
/// the terrain in cell `(x, y)` (curvature drop included); only cells with
/// `0 < dx² + dy² <= reach_sq` (in cells, from the center) are read.
/// Every perimeter cell is the end of one ray from the center. Every
/// [`PROGRESS_STRIDE`] rays the build adds that many to `progress`; between
/// two pairs of rays it gives up, with `None`, once `cancel` is set.
pub fn compute_viewshed(
    width: usize,
    reach_sq: u64,
    ground: &Vec<u32>,
    progress: Option<Arc<AtomicU32>>,
    cancel: Option<Arc<AtomicBool>>,
) -> (r: Option<Viewshed>)
    requires
        width <= MAX_GRID_WIDTH,
        ground@.len() == width * width,
    ensures
        cancel is None ==> r is Some,
        r matches Some(v) ==> {
            &&& v.well_formed()
            &&& v.width == width
            &&& v.horizon_map@ == horizon_of(ground@, width as int, reach_sq as int)
            &&& width > 0 ==> v.horizon_map@[(width / 2) * width + width / 2] == NEG_HALF_PI_BITS
        },
{
    let cells = ground.len();
    assert(width * width == cells);
    let mut viewshed = Viewshed::new(width);
    let ghost blank = viewshed.horizon_map@;
    let total = perimeter_ray_count(width);
    let mut ray_count: usize = 0;
    while ray_count < total
        invariant
            viewshed.well_formed(),
            viewshed.width == width,
            ground@.len() == width * width,
            total == 4 * width,
            width <= MAX_GRID_WIDTH,
            ray_count <= total,
            ray_count % 2 == 0,
            viewshed.horizon_map@ == cast_rays(blank, ground@, width as int, reach_sq as int, 0, ray_count as nat),
        decreases total - ray_count,
    {
        if let Some(flag) = &cancel {
            if flag.load(Ordering::Relaxed) {
                return None;
            }
        }
        proof {
            lemma_cast_rays_split(blank, ground@, width as int, reach_sq as int, ray_count as nat, 2);
        }
        viewshed.cast_perimeter_rays(ground, reach_sq, ray_count, ray_count + 2);
        ray_count = ray_count + 2;
        if ray_count % 100 == 0 {
            if let Some(p) = &progress {
                p.fetch_add(PROGRESS_STRIDE, Ordering::Relaxed);
            }
        }
    }
    proof {
        if width > 0 {
            lemma_radar_cell_at_neg_half_pi(ground@, width as int, reach_sq as int);
        }
    }
    Some(viewshed)
}

proof fn lemma_visit_keeps_center(
    map: Seq<u32>,
    ground: Seq<u32>,
    w: int,
    reach_sq: int,
    x: int,
    y: int,
    m: u32,
)
    requires
        0 < w,
        map.len() == w * w,
        map[(w / 2) * w + w / 2] == NEG_HALF_PI_BITS,
    ensures
        ({
            let v = visit(map, ground, w, reach_sq, w / 2, w / 2, x, y, m).0;
            v.len() == map.len() && v[(w / 2) * w + w / 2] == NEG_HALF_PI_BITS
        }),
{
    let c = w / 2;
    lemma_cell_index(w, c, c, c, c);
    if 0 <= x < w && 0 <= y < w {
        lemma_cell_index(w, x, y, c, c);
    }
}

proof fn lemma_prefix_keeps_center(
    map: Seq<u32>,
    ground: Seq<u32>,
    w: int,
    reach_sq: int,
    ex: int,
    ey: int,
    k: nat,
)
    requires
        0 < w,
        map.len() == w * w,
        map[(w / 2) * w + w / 2] == NEG_HALF_PI_BITS,
    ensures
        ({
            let v = ray_prefix(map, ground, w, reach_sq, w / 2, w / 2, ex, ey, k).0;
            v.len() == map.len() && v[(w / 2) * w + w / 2] == NEG_HALF_PI_BITS
        }),
    decreases k,
{
    if k > 0 {
        let c = w / 2;
        lemma_prefix_keeps_center(map, ground, w, reach_sq, ex, ey, (k - 1) as nat);
        let p = ray_prefix(map, ground, w, reach_sq, c, c, ex, ey, (k - 1) as nat);
        let s = ray_state(c, c, ex, ey, (k - 1) as nat);
        lemma_visit_keeps_center(p.0, ground, w, reach_sq, s.0, s.1, p.1);
    }
}

proof fn lemma_rays_keep_center(map: Seq<u32>, ground: Seq<u32>, w: int, reach_sq: int, first: int, n: nat)
    requires
        0 < w,
        map.len() == w * w,
        map[(w / 2) * w + w / 2] == NEG_HALF_PI_BITS,
    ensures
        ({
            let v = cast_rays(map, ground, w, reach_sq, first, n);
            v.len() == map.len() && v[(w / 2) * w + w / 2] == NEG_HALF_PI_BITS
        }),
    decreases n,
{
    if n > 0 {
        lemma_rays_keep_center(map, ground, w, reach_sq, first, (n - 1) as nat);
        let before = cast_rays(map, ground, w, reach_sq, first, (n - 1) as nat);
        let e = perimeter_end(w, first + n - 1);
        let c = w / 2;
        lemma_prefix_keeps_center(before, ground, w, reach_sq, e.0, e.1, ray_last(c, c, e.0, e.1) + 1);
    }
}

/// The radar sees itself: in every horizon map the radar's own cell holds
/// -π/2, whatever the terrain.
pub proof fn lemma_radar_cell_at_neg_half_pi(ground: Seq<u32>, w: int, reach_sq: int)
    requires
        0 < w <= MAX_GRID_WIDTH,
    ensures
        horizon_of(ground, w, reach_sq).len() == w * w,
        horizon_of(ground, w, reach_sq)[(w / 2) * w + w / 2] == NEG_HALF_PI_BITS,
{
    let c = w / 2;
    lemma_cell_index(w, c, c, c, c);
    lemma_rays_keep_center(blank_map(w), ground, w, reach_sq, 0, (4 * w) as nat);
}

proof fn lemma_profile(
    map: Seq<u32>,
    ground: Seq<u32>,
    w: int,
    reach_sq: int,
    ex: int,
    ey: int,
    k1: nat,
    k2: nat,
)
    requires
        k1 <= k2,
    ensures
        ({
            let c = w / 2;
            let m1 = ray_prefix(map, ground, w, reach_sq, c, c, ex, ey, k1).1;
            let m2 = ray_prefix(map, ground, w, reach_sq, c, c, ex, ey, k2).1;
            &&& !is_nan(m2)
            &&& ordinal(NEG_HALF_PI_BITS) <= ordinal(m1) <= ordinal(m2)
        }),
    decreases k2,
{
    let c = w / 2;
    if k2 > 0 {
        if k1 == k2 {
            lemma_profile(map, ground, w, reach_sq, ex, ey, (k2 - 1) as nat, (k2 - 1) as nat);
        } else {
            lemma_profile(map, ground, w, reach_sq, ex, ey, k1, (k2 - 1) as nat);
        }
    }
}

proof fn lemma_cell_kept(
    map: Seq<u32>,
    ground: Seq<u32>,
    w: int,
    reach_sq: int,
    ex: int,
    ey: int,
    a: nat,
    k: nat,
)
    requires
        0 < w <= MAX_GRID_WIDTH,
        map.len() == w * w,
        ground.len() == w * w,
        0 <= ex < w,
        0 <= ey < w,
        a < k <= ray_last(w / 2, w / 2, ex, ey) + 1,
        ({
            let s = ray_state(w / 2, w / 2, ex, ey, a);
            dist_sq(w / 2, w / 2, s.0, s.1) <= reach_sq
        }),
    ensures
        ({
            let c = w / 2;
            let s = ray_state(c, c, ex, ey, a);
            let v = ray_prefix(map, ground, w, reach_sq, c, c, ex, ey, k).0;
            let m = ray_prefix(map, ground, w, reach_sq, c, c, ex, ey, a + 1).1;
            &&& 0 <= s.0 < w
            &&& 0 <= s.1 < w
            &&& v.len() == w * w
            &&& v[s.1 * w + s.0] == if dist_sq(c, c, s.0, s.1) == 0 { NEG_HALF_PI_BITS } else { m }
        }),
    decreases k,
{
    let c = w / 2;
    let sa = ray_state(c, c, ex, ey, a);
    lemma_ray_shape(c, c, ex, ey, a);
    let qa = dist_sq(c, c, sa.0, sa.1);
    assert((sa.0 - c) * (sa.0 - c) >= 0 && (sa.1 - c) * (sa.1 - c) >= 0) by (nonlinear_arith);
    lemma_prefix_len(map, ground, w, reach_sq, ex, ey, (k - 1) as nat);
    lemma_cell_index(w, sa.0, sa.1, sa.0, sa.1);
    if k > a + 1 {
        lemma_cell_kept(map, ground, w, reach_sq, ex, ey, a, (k - 1) as nat);
        let sk = ray_state(c, c, ex, ey, (k - 1) as nat);
        lemma_ray_shape(c, c, ex, ey, (k - 1) as nat);
        if 0 <= sk.0 < w && 0 <= sk.1 < w {
            lemma_cell_index(w, sk.0, sk.1, sa.0, sa.1);
        }
    }
}

proof fn lemma_prefix_len(
    map: Seq<u32>,
    ground: Seq<u32>,
    w: int,
    reach_sq: int,
    ex: int,
    ey: int,
    k: nat,
)
    requires
        0 < w,
        map.len() == w * w,
    ensures
        ray_prefix(map, ground, w, reach_sq, w / 2, w / 2, ex, ey, k).0.len() == w * w,
    decreases k,
{
    if k > 0 {
        lemma_prefix_len(map, ground, w, reach_sq, ex, ey, (k - 1) as nat);
        let c = w / 2;
        let s = ray_state(c, c, ex, ey, (k - 1) as nat);
        if 0 <= s.0 < w && 0 <= s.1 < w {
            lemma_cell_index(w, s.0, s.1, s.0, s.1);
        }
    }
}

/// Running-max discipline: right after a ray is cast, the horizon values
/// of its cells within reach never decrease from the radar outward, and
/// none of them is NaN.
pub proof fn lemma_ray_horizon_monotone(
    map: Seq<u32>,
    ground: Seq<u32>,
    w: int,
    reach_sq: int,
    ex: int,
    ey: int,
    a: nat,
    b: nat,
)
    requires
        0 < w <= MAX_GRID_WIDTH,
        map.len() == w * w,
        ground.len() == w * w,
        0 <= ex < w,
        0 <= ey < w,
        a <= b <= ray_last(w / 2, w / 2, ex, ey),
        ({
            let sa = ray_state(w / 2, w / 2, ex, ey, a);
            let sb = ray_state(w / 2, w / 2, ex, ey, b);
            dist_sq(w / 2, w / 2, sa.0, sa.1) <= reach_sq && dist_sq(w / 2, w / 2, sb.0, sb.1) <= reach_sq
        }),
    ensures
        ({
            let c = w / 2;
            let sa = ray_state(c, c, ex, ey, a);
            let sb = ray_state(c, c, ex, ey, b);
            let v = cast(map, ground, w, reach_sq, ex, ey);
            let ha = v[sa.1 * w + sa.0];
            let hb = v[sb.1 * w + sb.0];
            &&& 0 <= sa.0 < w && 0 <= sa.1 < w
            &&& 0 <= sb.0 < w && 0 <= sb.1 < w
            &&& !is_nan(ha)
            &&& !is_nan(hb)
            &&& ordinal(ha) <= ordinal(hb)
        }),
{
    let c = w / 2;
    let last = ray_last(c, c, ex, ey);
    let sa = ray_state(c, c, ex, ey, a);
    let sb = ray_state(c, c, ex, ey, b);
    lemma_cell_kept(map, ground, w, reach_sq, ex, ey, a, last + 1);
    lemma_cell_kept(map, ground, w, reach_sq, ex, ey, b, last + 1);
    lemma_profile(map, ground, w, reach_sq, ex, ey, a + 1, b + 1);
    lemma_ray_shape(c, c, ex, ey, a);
    lemma_ray_shape(c, c, ex, ey, b);
    let qb = dist_sq(c, c, sb.0, sb.1);
    if qb == 0 {
        assert(sb.0 == c && sb.1 == c) by (nonlinear_arith)
            requires
                (sb.0 - c) * (sb.0 - c) + (sb.1 - c) * (sb.1 - c) == 0,
        ;
    }
}

/// Every value of `map` is a number no greater than `bound` (as an
/// ordinal, see [`ordinal`]).
pub open spec fn all_at_most(map: Seq<u32>, bound: int) -> bool {
    forall|i: int| 0 <= i < map.len() ==> !is_nan(#[trigger] map[i]) && ordinal(map[i]) <= bound
}

/// Every ground angle that is a number is at most `bound`.
pub open spec fn ground_at_most(ground: Seq<u32>, bound: int) -> bool {
    forall|i: int| 0 <= i < ground.len() && !is_nan(#[trigger] ground[i]) ==> ordinal(ground[i]) <= bound
}

proof fn lemma_visit_bounded(
    map: Seq<u32>,
    ground: Seq<u32>,
    w: int,
    reach_sq: int,
    x: int,
    y: int,
    m: u32,
    bound: int,
)
    requires
        0 < w,
        map.len() == w * w,
        ground.len() == w * w,
        all_at_most(map, bound),
        ground_at_most(ground, bound),
        !is_nan(m),
        ordinal(m) <= bound,
        ordinal(NEG_HALF_PI_BITS) <= bound,
    ensures
        ({
            let v = visit(map, ground, w, reach_sq, w / 2, w / 2, x, y, m);
            &&& v.0.len() == map.len()
            &&& all_at_most(v.0, bound)
            &&& !is_nan(v.1)
            &&& ordinal(v.1) <= bound
        }),
{
    if 0 <= x < w && 0 <= y < w {
        lemma_cell_index(w, x, y, x, y);
    }
    let v = visit(map, ground, w, reach_sq, w / 2, w / 2, x, y, m);
    assert forall|i: int| 0 <= i < v.0.len() implies !is_nan(#[trigger] v.0[i]) && ordinal(v.0[i]) <= bound by {
        assert(!is_nan(map[i]));
    }
}

proof fn lemma_prefix_bounded(
    map: Seq<u32>,
    ground: Seq<u32>,
    w: int,
    reach_sq: int,
    ex: int,
    ey: int,
    k: nat,
    bound: int,
)
    requires
        0 < w,
        map.len() == w * w,
        ground.len() == w * w,
        all_at_most(map, bound),
        ground_at_most(ground, bound),
        ordinal(NEG_HALF_PI_BITS) <= bound,
    ensures
        ({
            let p = ray_prefix(map, ground, w, reach_sq, w / 2, w / 2, ex, ey, k);
            &&& p.0.len() == map.len()
            &&& all_at_most(p.0, bound)
            &&& !is_nan(p.1)
            &&& ordinal(p.1) <= bound
        }),
    decreases k,
{
    if k > 0 {
        let c = w / 2;
        lemma_prefix_bounded(map, ground, w, reach_sq, ex, ey, (k - 1) as nat, bound);
        let p = ray_prefix(map, ground, w, reach_sq, c, c, ex, ey, (k - 1) as nat);
        let s = ray_state(c, c, ex, ey, (k - 1) as nat);
        lemma_visit_bounded(p.0, ground, w, reach_sq, s.0, s.1, p.1, bound);
    }
}

proof fn lemma_rays_bounded(
    map: Seq<u32>,
    ground: Seq<u32>,
    w: int,
    reach_sq: int,
    first: int,
    n: nat,
    bound: int,
)
    requires
        0 < w,
        map.len() == w * w,
        ground.len() == w * w,
        all_at_most(map, bound),
        ground_at_most(ground, bound),
        ordinal(NEG_HALF_PI_BITS) <= bound,
    ensures
        ({
            let v = cast_rays(map, ground, w, reach_sq, first, n);
            v.len() == map.len() && all_at_most(v, bound)
        }),
    decreases n,
{
    if n > 0 {
        lemma_rays_bounded(map, ground, w, reach_sq, first, (n - 1) as nat, bound);
        let before = cast_rays(map, ground, w, reach_sq, first, (n - 1) as nat);
        let e = perimeter_end(w, first + n - 1);
        let c = w / 2;
        lemma_prefix_bounded(before, ground, w, reach_sq, e.0, e.1, ray_last(c, c, e.0, e.1) + 1, bound);
    }
}

/// No horizon exceeds the steepest ground angle: when every ground angle
/// that is a number is at most `bound` (itself at least -π/2), every
/// horizon value is a number at most `bound`.
pub proof fn lemma_horizon_at_most(ground: Seq<u32>, w: int, reach_sq: int, bound: int)
    requires
        0 < w <= MAX_GRID_WIDTH,
        ground.len() == w * w,
        ground_at_most(ground, bound),
        ordinal(NEG_HALF_PI_BITS) <= bound,
    ensures
        horizon_of(ground, w, reach_sq).len() == w * w,
        all_at_most(horizon_of(ground, w, reach_sq), bound),
{
    let blank = blank_map(w);
    assert(w * w >= 0) by (nonlinear_arith)
        requires
            w > 0,
    ;
    assert(blank.len() == w * w);
    lemma_rays_bounded(blank, ground, w, reach_sq, 0, (4 * w) as nat, bound);
}

} // verus!
