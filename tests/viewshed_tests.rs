use std::f32::consts::FRAC_PI_2;
use std::sync::atomic::{AtomicBool, AtomicU32, Ordering};
use std::sync::Arc;

use radar_coverage::angle::{angle_ge, angle_gt, angle_is_nan, angle_ordinal, HALF_PI_BITS, NEG_HALF_PI_BITS};
use radar_coverage::viewshed::{
    compute_viewshed, perimeter_ray_count, perimeter_ray_end, Viewshed, ViewshedProgress, PROGRESS_STRIDE,
};

const EARTH_RADIUS: f64 = 6378137.0;
const CELL: f64 = 100.0;

fn ground_angles(width: usize, h_radar: f64, k: f64, height: &dyn Fn(i64, i64) -> f64) -> Vec<u32> {
    let c = (width / 2) as i64;
    let mut g = vec![0u32; width * width];
    for y in 0..width {
        for x in 0..width {
            let dx = x as i64 - c;
            let dy = y as i64 - c;
            let d = ((dx * dx + dy * dy) as f64).sqrt() * CELL;
            let a = if d > 0.0 {
                let drop = d * d / (2.0 * k * EARTH_RADIUS);
                ((height(dx, dy) - h_radar - drop) / d).atan() as f32
            } else {
                -FRAC_PI_2
            };
            g[y * width + x] = a.to_bits();
        }
    }
    g
}

fn at(v: &Viewshed, x: usize, y: usize) -> f32 {
    f32::from_bits(v.horizon_at(x, y).unwrap())
}

#[test]
fn half_pi_constants_match_f32() {
    assert_eq!(NEG_HALF_PI_BITS, (-FRAC_PI_2).to_bits());
    assert_eq!(HALF_PI_BITS, FRAC_PI_2.to_bits());
}

#[test]
fn angle_order_matches_f32() {
    let vals = [-FRAC_PI_2, -1.0f32, -0.0, 0.0, 1e-30, 0.5, 1.0, FRAC_PI_2, f32::INFINITY, f32::NEG_INFINITY];
    for a in vals {
        for b in vals {
            assert_eq!(angle_gt(a.to_bits(), b.to_bits()), a > b, "{} > {}", a, b);
            assert_eq!(angle_ge(a.to_bits(), b.to_bits()), a >= b, "{} >= {}", a, b);
        }
    }
    let nan = f32::NAN.to_bits();
    assert!(angle_is_nan(nan));
    assert!(!angle_gt(nan, 0));
    assert!(!angle_ge(0, nan));
    assert_eq!(angle_ordinal((-0.0f32).to_bits()), 0);
    assert_eq!(angle_ordinal(1.0f32.to_bits()), 0x3F80_0000);
    assert_eq!(angle_ordinal((-1.0f32).to_bits()), -0x3F80_0000);
}

#[test]
fn new_grid_is_all_neg_half_pi() {
    let v = Viewshed::new(7);
    assert_eq!(v.width, 7);
    assert_eq!(v.height, 7);
    assert_eq!(v.horizon_map.len(), 49);
    assert!(v.horizon_map.iter().all(|b| *b == NEG_HALF_PI_BITS));
    assert_eq!(v.horizon_at(7, 0), None);
    assert_eq!(v.horizon_at(0, 7), None);
    assert_eq!(v.horizon_at(6, 6), Some(NEG_HALF_PI_BITS));
}

#[test]
fn perimeter_rays_cover_the_border() {
    let w = 5;
    assert_eq!(perimeter_ray_count(w), 20);
    let ends: Vec<(usize, usize)> = (0..20).map(|r| perimeter_ray_end(w, r)).collect();
    assert_eq!(&ends[0..4], &[(0, 0), (0, 4), (1, 0), (1, 4)]);
    assert_eq!(&ends[10..14], &[(0, 0), (4, 0), (0, 1), (4, 1)]);
    for x in 0..w {
        for y in 0..w {
            let border = x == 0 || y == 0 || x == w - 1 || y == w - 1;
            assert_eq!(ends.contains(&(x, y)), border);
        }
    }
}

#[test]
fn radar_cell_holds_neg_half_pi() {
    let w = 41;
    let ground = ground_angles(w, 10.0, 4.0 / 3.0, &|dx, dy| (dx * 37 + dy * 11).rem_euclid(500) as f64);
    let v = compute_viewshed(w, 400, &ground, None, None).unwrap();
    assert_eq!(v.horizon_at(20, 20), Some(NEG_HALF_PI_BITS));
    assert_eq!(at(&v, 20, 20), -FRAC_PI_2);
}

#[test]
fn horizon_non_decreasing_along_a_ray() {
    let w = 61;
    let c = 30;
    let ground = ground_angles(w, 50.0, 4.0 / 3.0, &|dx, dy| ((dx * 13 + dy * 7).rem_euclid(40) * 25) as f64);
    for (ex, ey) in [(c, w - 1), (w - 1, w - 1), (0, c), (w - 1, 0)] {
        let mut v = Viewshed::new(w);
        v.cast_ray(&ground, 900, ex, ey);
        let steps = 30;
        let mut prev = -FRAC_PI_2;
        for i in 0..=steps {
            let x = (c as i64 + (ex as i64 - c as i64).signum() * i) as usize;
            let y = (c as i64 + (ey as i64 - c as i64).signum() * i) as usize;
            let h = at(&v, x, y);
            if (x as i64 - c as i64).pow(2) + (y as i64 - c as i64).pow(2) <= 900 {
                assert!(h >= prev, "ray to ({}, {}) drops at step {}", ex, ey, i);
                prev = h;
            } else {
                assert_eq!(h, -FRAC_PI_2);
            }
        }
    }
}

#[test]
fn ridge_sets_the_horizon_behind_it() {
    let w = 101;
    let c = 50;
    let ground = ground_angles(w, 0.0, f64::INFINITY, &|_, dy| if dy == 10 { 1000.0 } else { 0.0 });
    let v = compute_viewshed(w, 2500, &ground, None, None).unwrap();
    let ridge = (1000.0f64 / 1000.0).atan() as f32;
    assert_eq!(at(&v, c, c + 10), ridge);
    assert_eq!(at(&v, c, c + 30), ridge);
    assert_eq!(at(&v, c, c + 9), 0.0);
    assert!(at(&v, c, c - 30) <= 0.0);
}

#[test]
fn flat_terrain_horizon_stays_below_level() {
    let w = 51;
    let ground = ground_angles(w, 10.0, f64::INFINITY, &|_, _| 0.0);
    let v = compute_viewshed(w, 625, &ground, None, None).unwrap();
    assert!(v.horizon_map.iter().all(|b| f32::from_bits(*b) <= 0.0));
}

#[test]
fn cells_beyond_reach_keep_neg_half_pi() {
    let w = 21;
    let ground = ground_angles(w, 0.0, 4.0 / 3.0, &|_, _| 500.0);
    let v = compute_viewshed(w, 25, &ground, None, None).unwrap();
    assert_eq!(at(&v, 0, 0), -FRAC_PI_2);
    assert_eq!(at(&v, 20, 10), -FRAC_PI_2);
    assert!(at(&v, 15, 10) > 0.0);
    assert!(at(&v, 10, 15) > 0.0);
}

#[test]
fn progress_counts_rays_in_strides() {
    let w = 50;
    let ground = ground_angles(w, 0.0, 4.0 / 3.0, &|_, _| 0.0);
    let progress = ViewshedProgress::for_width(w as u32);
    assert_eq!(progress.total, 200);
    let v = compute_viewshed(w, 100, &ground, Some(progress.current.clone()), None);
    assert!(v.is_some());
    assert_eq!(progress.current.load(Ordering::Relaxed), 200);
    assert_eq!(PROGRESS_STRIDE, 100);
}

#[test]
fn cancelled_build_returns_nothing() {
    let w = 30;
    let ground = ground_angles(w, 0.0, 4.0 / 3.0, &|_, _| 0.0);
    let cancel = Arc::new(AtomicBool::new(true));
    let counter = Arc::new(AtomicU32::new(0));
    assert!(compute_viewshed(w, 100, &ground, Some(counter.clone()), Some(cancel)).is_none());
    assert_eq!(counter.load(Ordering::Relaxed), 0);
    let go_on = Arc::new(AtomicBool::new(false));
    assert!(compute_viewshed(w, 100, &ground, None, Some(go_on)).is_some());
}

#[test]
fn empty_grid_builds() {
    let v = compute_viewshed(0, 10, &Vec::new(), None, None).unwrap();
    assert_eq!(v.width, 0);
    assert!(v.horizon_map.is_empty());
}
