use fdf::camera::Camera;
use fdf::heightfield::parse_grid;
use fdf::project::{project_field, project_vertex};
use fdf::trig::{cos_fp, sin_fp};
use fdf::fixed::{HALF_PI_FP, PI_FP};

#[test]
fn sine_hits_the_quarter_points() {
    assert_eq!(sin_fp(0), 0);
    assert_eq!(sin_fp(HALF_PI_FP), 10_000);
    assert_eq!(sin_fp(PI_FP), 0);
    assert_eq!(cos_fp(0), 10_000);
    assert_eq!(cos_fp(HALF_PI_FP), 0);
    assert!(sin_fp(PI_FP + HALF_PI_FP) == -10_000);
}

#[test]
fn sine_stays_within_one_unit() {
    let mut x: i64 = 0;
    while x < 62_832 {
        let s = sin_fp(x);
        let c = cos_fp(x);
        assert!(-10_000 <= s && s <= 10_000);
        assert!(-10_000 <= c && c <= 10_000);
        x += 97;
    }
}

#[test]
fn colors_derive_from_the_elevation() {
    let cam = Camera::new();
    // z = 0: r = 80 * 1.2, g = 80 * 1.0, b = 80 * 2.0.
    let pv = project_vertex(0, 0, 2, 2, 0, &cam);
    assert_eq!(pv.color.r, 96);
    assert_eq!(pv.color.g, 80);
    assert_eq!(pv.color.b, 160);
    // z = 1.0: r = 80 * 0.2, g = 80 * 3.0 saturates, b = 80 * 3.0.
    let pv1 = project_vertex(0, 0, 2, 2, 10_000, &cam);
    assert_eq!(pv1.color.r, 16);
    assert_eq!(pv1.color.g, 240);
    assert_eq!(pv1.color.b, 240);
    // Deep below the range every channel saturates.
    let pv2 = project_vertex(0, 0, 2, 2, -10_000_000, &cam);
    assert_eq!(pv2.color.r, 255);
    assert_eq!(pv2.color.g, 0);
    assert_eq!(pv2.color.b, 0);
}

#[test]
fn elevation_drives_the_vertical_shift() {
    // Looking straight on (theta = phi = 0) from distance 1.0 at a single
    // sample of elevation 1.0 under a stretch of 1000: k = 1.5, the
    // horizontal shift is 0, and the vertical shift is 1000 / 1.5, so
    // u = round(1024 * 0.5) and v = round(1024 * (0.5 - 0.8 * 666.6666)).
    let mut cam = Camera::new();
    cam.theta = 0;
    cam.phi = 0;
    cam.center_x = 0;
    cam.center_y = 0;
    cam.dist = 10_000;
    cam.stretch = 10_000_000;
    let pv = project_vertex(0, 0, 1, 1, 10_000, &cam);
    assert_eq!(pv.x, 512);
    assert_eq!(pv.y, -545_621);
    // Depth-cue alpha: round(180 / 1.5).
    assert_eq!(pv.color.a, 120);
    // With a flat sample the vertical shift vanishes.
    let flat = project_vertex(0, 0, 1, 1, 0, &cam);
    assert_eq!(flat.y, 512);
}

#[test]
fn projection_is_deterministic() {
    let hf = parse_grid(b"0 0.5 1\n1 0.5 0", true).unwrap();
    let cam = Camera::new();
    let a = project_field(&hf, &cam);
    let b = project_field(&hf, &cam);
    assert_eq!(a, b);
    assert_eq!(a.len(), 6);
}

#[test]
fn every_sample_gets_a_vertex_even_offscreen() {
    let hf = parse_grid(b"500000 -500000\n0 0", false).unwrap();
    let cam = Camera::new();
    let vs = project_field(&hf, &cam);
    // Extreme elevations land far off screen, but are still projected.
    assert_eq!(vs.len(), 4);
}
