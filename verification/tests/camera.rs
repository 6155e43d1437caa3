use fdf::camera::{Camera, InputState, RotateDir};
use fdf::camera::{
    CENTER_DEFAULT, DIST_DEFAULT, DIST_FLOOR, HR_STEP, PHI_DEFAULT, STRETCH_DEFAULT,
    THETA_DEFAULT,
};
use fdf::fixed::{HALF_PI_FP, TWO_PI_FP};

#[test]
fn defaults_match_the_documented_values() {
    let c = Camera::new();
    assert_eq!(c.theta, THETA_DEFAULT);
    assert_eq!(c.phi, PHI_DEFAULT);
    assert_eq!((c.center_x, c.center_y), (CENTER_DEFAULT, CENTER_DEFAULT));
    assert_eq!(c.dist, DIST_DEFAULT);
    assert_eq!(c.stretch, STRETCH_DEFAULT);
    assert_eq!(c.base.dist, 20_000);
}

#[test]
fn theta_wraps_without_drift_over_1000_steps() {
    let mut c = Camera::new();
    for _ in 0..1000 {
        c.rotate(RotateDir::Right);
        assert!(0 <= c.theta && c.theta < TWO_PI_FP);
    }
    // Exactly (theta0 + 1000 * HR_STEP) mod TWO_PI_FP: integer arithmetic
    // accumulates no drift at all.
    assert_eq!(c.theta, (THETA_DEFAULT + 1000 * HR_STEP) % TWO_PI_FP);
}

#[test]
fn theta_wraps_left_too() {
    let mut c = Camera::new();
    for _ in 0..1000 {
        c.rotate(RotateDir::Left);
        assert!(0 <= c.theta && c.theta < TWO_PI_FP);
    }
    let expect = ((THETA_DEFAULT as i128 - 1000 * HR_STEP as i128).rem_euclid(TWO_PI_FP as i128))
        as i64;
    assert_eq!(c.theta, expect);
}

#[test]
fn phi_clamps_at_both_ends() {
    let mut c = Camera::new();
    for _ in 0..1000 {
        c.rotate(RotateDir::Up);
    }
    assert_eq!(c.phi, HALF_PI_FP);
    for _ in 0..1000 {
        c.rotate(RotateDir::Down);
    }
    assert_eq!(c.phi, 0);
}

#[test]
fn reset_is_idempotent() {
    let mut c = Camera::new();
    c.rotate(RotateDir::Right);
    c.begin_drag(100, 200);
    c.update_drag(5_000_000, 5_000_000, true, false);
    c.reset();
    let once = c;
    c.reset();
    assert_eq!(c, once);
    assert_eq!(c, Camera::new());
}

#[test]
fn drag_pans_the_center_relative_to_the_base() {
    let mut c = Camera::new();
    c.begin_drag(0, 0);
    // A full buffer width to the right: +1.0 in grid space, clamped.
    c.update_drag(10_240_000, 0, false, false);
    assert_eq!(c.center_x, 10_000);
    assert_eq!(c.center_y, CENTER_DEFAULT);
}

#[test]
fn distance_modifier_wins_over_stretch_modifier() {
    let mut c = Camera::new();
    c.begin_drag(0, 0);
    c.update_drag(0, 1_024_000, true, true);
    // Only the distance moved: +0.1 from the base value 1.0.
    assert_eq!(c.dist, DIST_DEFAULT + 1_000);
    assert_eq!(c.stretch, STRETCH_DEFAULT);
    assert_eq!(c.center_x, CENTER_DEFAULT);
}

#[test]
fn distance_clamps_at_the_floor() {
    let mut c = Camera::new();
    c.begin_drag(0, 0);
    c.update_drag(0, -100_000_000, true, false);
    assert_eq!(c.dist, DIST_FLOOR);
}

#[test]
fn stretch_modifier_moves_only_the_stretch() {
    let mut c = Camera::new();
    c.begin_drag(0, 0);
    c.update_drag(0, 1_024_000, false, true);
    assert_eq!(c.stretch, STRETCH_DEFAULT + 1_000);
    assert_eq!(c.dist, DIST_DEFAULT);
}

#[test]
fn one_input_frame_applies_drag_then_keys() {
    let mut c = Camera::new();
    c.begin_drag(0, 0);
    let input = InputState {
        pointer_x: 0,
        pointer_y: 0,
        drag_active: true,
        dist_modifier: false,
        stretch_modifier: false,
        key_left: false,
        key_right: true,
        key_up: true,
        key_down: false,
    };
    c.apply_input(&input);
    assert_eq!(c.theta, (THETA_DEFAULT + HR_STEP) % TWO_PI_FP);
    assert_eq!(c.phi, PHI_DEFAULT + 200);
    assert_eq!(c.center_x, CENTER_DEFAULT);
}
