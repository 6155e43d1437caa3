//! The interactive camera.
//!
//! Orientation is a pair of fixed-point angles: `theta` (horizontal) wraps in
//! `[0, TWO_PI_FP)` and `phi` (vertical) is clamped to `[0, HALF_PI_FP]` —
//! the clamping policy for the vertical angle.  The pan center lives in the
//! unit square, the distance is clamped to a positive floor, and the
//! vertical stretch to a symmetric representable range.  A `Base` snapshot,
//! taken when a drag begins, freezes the pointer position and the dragged
//! fields so that drag deltas are measured against a fixed reference.
//!
//! Every mutation is pinned to a spec-level function of the old state and
//! the inputs, so a frame update is a pure function of the input snapshot.

use crate::fixed::{spec_clamp, spec_round_div, clamp_i64, round_div};
use crate::fixed::{HALF_PI_FP, SCALE, TWO_PI_FP};
use vstd::prelude::*;

verus! {

/// Horizontal rotation step per frame with a direction key held (0.05 rad).
pub const HR_STEP: i64 = 500;

/// Vertical rotation step per frame with a direction key held (0.02 rad).
pub const VR_STEP: i64 = 200;

/// Smallest admissible camera distance (0.1).
pub const DIST_FLOOR: i64 = 1_000;

/// Largest representable camera distance (1000.0).
pub const DIST_MAX: i64 = 10_000_000;

/// Largest representable magnitude of the vertical stretch (1000.0).
pub const STRETCH_MAX: i64 = 10_000_000;

/// Largest admissible magnitude of a pointer coordinate, in fixed-point
/// pixels (10000 pixels).
pub const PTR_LIMIT: i64 = 100_000_000;

/// Default pan-center coordinate (0.5).
pub const CENTER_DEFAULT: i64 = 5_000;

/// Default horizontal angle (15 * pi / 8).
pub const THETA_DEFAULT: i64 = 58_905;

/// Default vertical angle (pi / 6).
pub const PHI_DEFAULT: i64 = 5_236;

/// Default camera distance (1.0).
pub const DIST_DEFAULT: i64 = 10_000;

/// Default distance held in a fresh drag base (2.0).
pub const BASE_DIST_DEFAULT: i64 = 20_000;

/// Default vertical stretch (0.25).
pub const STRETCH_DEFAULT: i64 = 2_500;

/// The state frozen at the start of a drag gesture: the pointer position
/// and value copies of the fields a drag can change.
#[derive(Clone, Copy, Debug, PartialEq, Eq, Structural)]
pub struct Base {
    pub origin_x: i64,
    pub origin_y: i64,
    pub center_x: i64,
    pub center_y: i64,
    pub dist: i64,
    pub stretch: i64,
}

/// The mutable camera state.
#[derive(Clone, Copy, Debug, PartialEq, Eq, Structural)]
pub struct Camera {
    pub theta: i64,
    pub phi: i64,
    pub center_x: i64,
    pub center_y: i64,
    pub dist: i64,
    pub stretch: i64,
    pub base: Base,
}

/// The per-frame input snapshot the camera reacts to: pointer position in
/// fixed-point pixels, button and modifier levels, and direction keys.
#[derive(Clone, Copy, Debug, PartialEq, Eq, Structural)]
pub struct InputState {
    pub pointer_x: i64,
    pub pointer_y: i64,
    pub drag_active: bool,
    pub dist_modifier: bool,
    pub stretch_modifier: bool,
    pub key_left: bool,
    pub key_right: bool,
    pub key_up: bool,
    pub key_down: bool,
}

/// A direction key.
#[derive(Clone, Copy, Debug, PartialEq, Eq, Structural)]
pub enum RotateDir {
    Left,
    Right,
    Up,
    Down,
}

/// The camera state after a reset, and at startup.
pub open spec fn spec_default_camera() -> Camera {
    Camera {
        theta: THETA_DEFAULT,
        phi: PHI_DEFAULT,
        center_x: CENTER_DEFAULT,
        center_y: CENTER_DEFAULT,
        dist: DIST_DEFAULT,
        stretch: STRETCH_DEFAULT,
        base: Base {
            origin_x: CENTER_DEFAULT,
            origin_y: CENTER_DEFAULT,
            center_x: CENTER_DEFAULT,
            center_y: CENTER_DEFAULT,
            dist: BASE_DIST_DEFAULT,
            stretch: STRETCH_DEFAULT,
        },
    }
}

impl Base {
    /// Field ranges every reachable base snapshot satisfies.
    pub open spec fn wf(self) -> bool {
        &&& -PTR_LIMIT <= self.origin_x <= PTR_LIMIT
        &&& -PTR_LIMIT <= self.origin_y <= PTR_LIMIT
        &&& 0 <= self.center_x <= SCALE
        &&& 0 <= self.center_y <= SCALE
        &&& DIST_FLOOR <= self.dist <= DIST_MAX
        &&& -STRETCH_MAX <= self.stretch <= STRETCH_MAX
    }
}

impl Camera {
    /// Field ranges every reachable camera state satisfies.
    pub open spec fn wf(self) -> bool {
        &&& 0 <= self.theta < TWO_PI_FP
        &&& 0 <= self.phi <= HALF_PI_FP
        &&& 0 <= self.center_x <= SCALE
        &&& 0 <= self.center_y <= SCALE
        &&& DIST_FLOOR <= self.dist <= DIST_MAX
        &&& -STRETCH_MAX <= self.stretch <= STRETCH_MAX
        &&& self.base.wf()
    }

    /// A camera in its default state.
    pub fn new() -> (c: Camera)
        ensures
            c == spec_default_camera(),
            c.wf(),
    {
        Camera {
            theta: THETA_DEFAULT,
            phi: PHI_DEFAULT,
            center_x: CENTER_DEFAULT,
            center_y: CENTER_DEFAULT,
            dist: DIST_DEFAULT,
            stretch: STRETCH_DEFAULT,
            base: Base {
                origin_x: CENTER_DEFAULT,
                origin_y: CENTER_DEFAULT,
                center_x: CENTER_DEFAULT,
                center_y: CENTER_DEFAULT,
                dist: BASE_DIST_DEFAULT,
                stretch: STRETCH_DEFAULT,
            },
        }
    }

    /// Restore every field to its default.
    pub fn reset(&mut self)
        ensures
            *final(self) == spec_default_camera(),
            final(self).wf(),
    {
        *self = Camera::new();
    }

    /// Snapshot the base at the start of a drag gesture: the pointer
    /// position becomes the origin and the dragged fields are copied.
    pub fn begin_drag(&mut self, px: i64, py: i64)
        requires
            old(self).wf(),
            -PTR_LIMIT <= px <= PTR_LIMIT,
            -PTR_LIMIT <= py <= PTR_LIMIT,
        ensures
            *final(self) == spec_begin_drag(*old(self), px as int, py as int),
            final(self).wf(),
    {
        self.base = Base {
            origin_x: px,
            origin_y: py,
            center_x: self.center_x,
            center_y: self.center_y,
            dist: self.dist,
            stretch: self.stretch,
        };
    }

    /// Apply one drag frame: exactly one of the three channels changes,
    /// chosen by modifier precedence distance > stretch > pan.
    pub fn update_drag(&mut self, px: i64, py: i64, dist_mod: bool, stretch_mod: bool)
        requires
            old(self).wf(),
            -PTR_LIMIT <= px <= PTR_LIMIT,
            -PTR_LIMIT <= py <= PTR_LIMIT,
        ensures
            *final(self) == spec_update_drag(
                *old(self),
                px as int,
                py as int,
                dist_mod,
                stretch_mod,
            ),
            final(self).wf(),
    {
        let dx: i64 = round_div((px - self.base.origin_x) as i128, crate::BUF_WIDTH as i128)
            as i64;
        let dy: i64 = round_div((py - self.base.origin_y) as i128, crate::BUF_HEIGHT as i128)
            as i64;
        if dist_mod {
            self.dist = clamp_i64(self.base.dist + dy, DIST_FLOOR, DIST_MAX);
        } else if stretch_mod {
            self.stretch = clamp_i64(self.base.stretch + dy, -STRETCH_MAX, STRETCH_MAX);
        } else {
            self.center_x = clamp_i64(self.base.center_x + dx, 0, SCALE);
            self.center_y = clamp_i64(self.base.center_y + dy, 0, SCALE);
        }
    }

    /// Step one rotation: `theta` wraps modulo a full turn, `phi` clamps to
    /// `[0, HALF_PI_FP]`.
    pub fn rotate(&mut self, dir: RotateDir)
        requires
            old(self).wf(),
        ensures
            *final(self) == spec_rotate(*old(self), dir),
            final(self).wf(),
    {
        match dir {
            RotateDir::Left => {
                self.theta = if self.theta >= HR_STEP {
                    self.theta - HR_STEP
                } else {
                    self.theta - HR_STEP + TWO_PI_FP
                };
                proof {
                    lemma_wrap_is_mod(old(self).theta - HR_STEP + TWO_PI_FP);
                }
            }
            RotateDir::Right => {
                self.theta = if self.theta + HR_STEP < TWO_PI_FP {
                    self.theta + HR_STEP
                } else {
                    self.theta + HR_STEP - TWO_PI_FP
                };
                proof {
                    lemma_wrap_is_mod(old(self).theta + HR_STEP);
                }
            }
            RotateDir::Up => {
                self.phi = clamp_i64(self.phi + VR_STEP, 0, HALF_PI_FP);
            }
            RotateDir::Down => {
                self.phi = clamp_i64(self.phi - VR_STEP, 0, HALF_PI_FP);
            }
        }
    }

    /// One whole input frame: the drag channel while the button is down,
    /// then each held direction key, in a fixed order.
    pub fn apply_input(&mut self, input: &InputState)
        requires
            old(self).wf(),
            input.wf(),
        ensures
            *final(self) == spec_apply_input(*old(self), *input),
            final(self).wf(),
    {
        if input.drag_active {
            self.update_drag(
                input.pointer_x,
                input.pointer_y,
                input.dist_modifier,
                input.stretch_modifier,
            );
        }
        if input.key_left {
            self.rotate(RotateDir::Left);
        }
        if input.key_right {
            self.rotate(RotateDir::Right);
        }
        if input.key_up {
            self.rotate(RotateDir::Up);
        }
        if input.key_down {
            self.rotate(RotateDir::Down);
        }
    }
}

impl InputState {
    /// The pointer coordinates are within the representable range.
    pub open spec fn wf(self) -> bool {
        &&& -PTR_LIMIT <= self.pointer_x <= PTR_LIMIT
        &&& -PTR_LIMIT <= self.pointer_y <= PTR_LIMIT
    }
}

/// What `begin_drag` leaves behind.
pub open spec fn spec_begin_drag(c: Camera, px: int, py: int) -> Camera {
    Camera {
        base: Base {
            origin_x: px as i64,
            origin_y: py as i64,
            center_x: c.center_x,
            center_y: c.center_y,
            dist: c.dist,
            stretch: c.stretch,
        },
        ..c
    }
}

/// What one drag frame leaves behind.
pub open spec fn spec_update_drag(
    c: Camera,
    px: int,
    py: int,
    dist_mod: bool,
    stretch_mod: bool,
) -> Camera {
    let dx = spec_round_div(px - c.base.origin_x, crate::BUF_WIDTH as int);
    let dy = spec_round_div(py - c.base.origin_y, crate::BUF_HEIGHT as int);
    if dist_mod {
        Camera { dist: spec_clamp(c.base.dist + dy, DIST_FLOOR as int, DIST_MAX as int) as i64, ..c }
    } else if stretch_mod {
        Camera {
            stretch: spec_clamp(c.base.stretch + dy, -STRETCH_MAX as int, STRETCH_MAX as int)
                as i64,
            ..c
        }
    } else {
        Camera {
            center_x: spec_clamp(c.base.center_x + dx, 0, SCALE as int) as i64,
            center_y: spec_clamp(c.base.center_y + dy, 0, SCALE as int) as i64,
            ..c
        }
    }
}

/// What one rotation step leaves behind: the wrapped or clamped angle.
pub open spec fn spec_rotate(c: Camera, dir: RotateDir) -> Camera {
    match dir {
        RotateDir::Left => Camera {
            theta: ((c.theta - HR_STEP + TWO_PI_FP) % (TWO_PI_FP as int)) as i64,
            ..c
        },
        RotateDir::Right => Camera {
            theta: ((c.theta + HR_STEP) % (TWO_PI_FP as int)) as i64,
            ..c
        },
        RotateDir::Up => Camera {
            phi: spec_clamp(c.phi + VR_STEP, 0, HALF_PI_FP as int) as i64,
            ..c
        },
        RotateDir::Down => Camera {
            phi: spec_clamp(c.phi - VR_STEP, 0, HALF_PI_FP as int) as i64,
            ..c
        },
    }
}

/// What one whole input frame leaves behind: drag channel, then each held
/// direction key in order.
pub open spec fn spec_apply_input(c: Camera, input: InputState) -> Camera {
    let c = if input.drag_active {
        spec_update_drag(
            c,
            input.pointer_x as int,
            input.pointer_y as int,
            input.dist_modifier,
            input.stretch_modifier,
        )
    } else {
        c
    };
    let c = if input.key_left {
        spec_rotate(c, RotateDir::Left)
    } else {
        c
    };
    let c = if input.key_right {
        spec_rotate(c, RotateDir::Right)
    } else {
        c
    };
    let c = if input.key_up {
        spec_rotate(c, RotateDir::Up)
    } else {
        c
    };
    if input.key_down {
        spec_rotate(c, RotateDir::Down)
    } else {
        c
    }
}

/// For a value already within one turn above the range, subtracting a
/// single full turn is exactly the modulus.
proof fn lemma_wrap_is_mod(v: int)
    requires
        0 <= v < 2 * TWO_PI_FP,
    ensures
        v % (TWO_PI_FP as int) == if v < TWO_PI_FP {
            v
        } else {
            v - TWO_PI_FP
        },
{
    if v < TWO_PI_FP {
        vstd::arithmetic::div_mod::lemma_small_mod(v as nat, TWO_PI_FP as nat);
    } else {
        vstd::arithmetic::div_mod::lemma_small_mod((v - TWO_PI_FP) as nat, TWO_PI_FP as nat);
        vstd::arithmetic::div_mod::lemma_mod_sub_multiples_vanish(v, TWO_PI_FP as int);
    }
}

/// Iterating the rightward step `n` times from `theta`.
pub open spec fn spec_rotate_right_n(theta: int, n: nat) -> int
    decreases n,
{
    if n == 0 {
        theta
    } else {
        (spec_rotate_right_n(theta, (n - 1) as nat) + HR_STEP) % (TWO_PI_FP as int)
    }
}

/// Repeated horizontal rotation wraps with no drift: `n` rightward steps
/// from `theta` land exactly on `(theta + n * HR_STEP) mod TWO_PI_FP`, which
/// lies in `[0, TWO_PI_FP)`.
pub proof fn lemma_rotate_no_drift(theta: int, n: nat)
    requires
        0 <= theta < TWO_PI_FP,
    ensures
        spec_rotate_right_n(theta, n) == (theta + n * HR_STEP) % (TWO_PI_FP as int),
        0 <= spec_rotate_right_n(theta, n) < TWO_PI_FP,
    decreases n,
{
    let m = TWO_PI_FP as int;
    if n == 0 {
        vstd::arithmetic::div_mod::lemma_small_mod(theta as nat, TWO_PI_FP as nat);
    } else {
        lemma_rotate_no_drift(theta, (n - 1) as nat);
        let prev = spec_rotate_right_n(theta, (n - 1) as nat);
        assert(prev == (theta + (n - 1) * HR_STEP) % m);
        vstd::arithmetic::div_mod::lemma_add_mod_noop(theta + (n - 1) * HR_STEP, HR_STEP as int, m);
        vstd::arithmetic::div_mod::lemma_small_mod(HR_STEP as nat, TWO_PI_FP as nat);
        vstd::arithmetic::div_mod::lemma_mod_twice(theta + (n - 1) * HR_STEP, m);
        assert((n - 1) * HR_STEP + HR_STEP == n * HR_STEP) by (nonlinear_arith);
        vstd::arithmetic::div_mod::lemma_mod_bound(theta + n * HR_STEP, m);
    }
}

/// Resetting twice leaves exactly the state one reset leaves: the reset
/// state is a constant.
pub proof fn lemma_reset_idempotent(c: Camera)
    ensures
        spec_reset(spec_reset(c)) == spec_reset(c),
{
}

/// What `reset` leaves behind, for any prior state.
pub open spec fn spec_reset(c: Camera) -> Camera {
    spec_default_camera()
}

} // verus!
