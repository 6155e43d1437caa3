//! The projector.
//!
//! Every grid sample maps to one screen coordinate and one color, a pure
//! function of the sample, its grid position and the camera: perspective
//! attenuation from the two angles and the distance, a margin factor of
//! 0.8 to keep near-edge geometry on screen, elevation-derived color
//! channels, and a depth-cue alpha.  Screen coordinates are rounded to
//! the nearest integer and saturate at the `i32` range; no sample is ever
//! skipped — clipping is the rasterizer's job.

use crate::camera::Camera;
use crate::fixed::{
    spec_div_trunc, spec_round_div, spec_sat_i32, div_trunc, round_div, sat_i32,
    lemma_div_trunc_le, lemma_div_trunc_ge, SCALE,
};
use crate::heightfield::{HeightField, Z_LIMIT};
use crate::raster::Rgba;
use crate::trig::{spec_cos, spec_sin, cos_fp, sin_fp, lemma_cos_nonneg};
use vstd::prelude::*;

verus! {

/// A projected grid sample: screen position and color.
#[derive(Clone, Copy, Debug, PartialEq, Eq, Structural)]
pub struct ProjectedVertex {
    pub x: i32,
    pub y: i32,
    pub color: Rgba,
}

/// A value clamped into a byte, as a float-to-`u8` cast would do.
pub open spec fn spec_sat_u8(v: int) -> u8 {
    if v < 0 {
        0u8
    } else if v > 255 {
        255u8
    } else {
        v as u8
    }
}

/// `v` saturated into a byte.
fn sat_u8(v: i128) -> (r: u8)
    ensures
        r == spec_sat_u8(v as int),
{
    if v < 0 {
        0
    } else if v > 255 {
        255
    } else {
        v as u8
    }
}

/// Where and in what color the sample at grid `(col, row)` with elevation
/// `z` lands on screen under camera `cam`, for a grid of `width` columns
/// and `rows` rows.  All arithmetic is fixed point; the intermediate
/// divisions truncate toward zero, while the final screen coordinates and
/// the alpha channel round to the nearest integer, as the projection
/// formula asks.
pub open spec fn spec_project_vertex(
    col: int,
    row: int,
    width: int,
    rows: int,
    z: int,
    cam: Camera,
) -> ProjectedVertex {
    let fx = (col * SCALE) / width - cam.center_x;
    let fy = cam.center_y - (row * SCALE) / rows;
    let s = spec_sin(cam.theta as int);
    let c = spec_cos(cam.theta as int);
    let sp = spec_sin(cam.phi as int);
    let cp = spec_cos(cam.phi as int);
    let t = fx * s + fy * c;
    let k = SCALE + spec_div_trunc(spec_div_trunc(t * cp, SCALE * SCALE) + cam.dist, 2);
    let w = spec_div_trunc(fx * c - fy * s, k);
    let hsh = spec_div_trunc(
        spec_div_trunc(t * sp, SCALE as int) + spec_div_trunc(z * cam.stretch, SCALE as int) * cp,
        k,
    );
    let u = spec_sat_i32(
        spec_round_div((crate::BUF_WIDTH as int) * (5 * SCALE + 8 * w), 10 * SCALE),
    );
    let v = spec_sat_i32(
        spec_round_div((crate::BUF_HEIGHT as int) * (5 * SCALE - 8 * hsh), 10 * SCALE),
    );
    ProjectedVertex {
        x: u as i32,
        y: v as i32,
        color: Rgba {
            r: spec_sat_u8(spec_div_trunc(80 * (12_000 - z), SCALE as int)),
            g: spec_sat_u8(spec_div_trunc(80 * (2 * z + 10_000), SCALE as int)),
            b: spec_sat_u8(spec_div_trunc(80 * (z + 20_000), SCALE as int)),
            a: spec_sat_u8(spec_round_div(180 * (SCALE as int), k)),
        },
    }
}

/// The perspective divisor stays positive for any well-formed camera.
proof fn lemma_k_bounds(t: int, cp: int, dist: int)
    requires
        -200_000_000 <= t <= 200_000_000,
        0 <= cp <= 10_000,
        1_000 <= dist <= 10_000_000,
    ensures
        500 <= SCALE + spec_div_trunc(spec_div_trunc(t * cp, SCALE * SCALE) + dist, 2)
            <= 10_000_000,
{
    let tcp = t * cp;
    crate::fixed::lemma_mul_mag(t, cp, 200_000_000, 10_000);
    assert(-2_000_000_000_000 <= tcp <= 2_000_000_000_000);
    assert(SCALE * SCALE == 100_000_000);
    let a1 = spec_div_trunc(tcp, 100_000_000);
    lemma_div_trunc_le(tcp, 100_000_000, 20_000);
    lemma_div_trunc_ge(tcp, 100_000_000, 20_000);
    let inner = a1 + dist;
    assert(-19_000 <= inner <= 10_020_000);
    lemma_div_trunc_le(inner, 2, 5_010_000);
    lemma_div_trunc_ge(inner, 2, 9_500);
}

/// Project one sample: exactly the vertex `spec_project_vertex` gives.
#[verifier::rlimit(100)]
#[verifier::spinoff_prover]
pub fn project_vertex(
    col: usize,
    row: usize,
    width: usize,
    rows: usize,
    z: i64,
    cam: &Camera,
) -> (r: ProjectedVertex)
    requires
        cam.wf(),
        col < width,
        row < rows,
        -Z_LIMIT <= z <= Z_LIMIT,
    ensures
        r == spec_project_vertex(col as int, row as int, width as int, rows as int, z as int, *cam),
{
    let fx: i128 = (((col as u128) * (SCALE as u128)) / (width as u128)) as i128
        - cam.center_x as i128;
    let fy: i128 = cam.center_y as i128 - (((row as u128) * (SCALE as u128)) / (rows as u128))
        as i128;
    proof {
        assert((col as int) * (SCALE as int) < (width as int) * (SCALE as int))
            by (nonlinear_arith)
            requires
                col < width,
                SCALE >= 1,
        ;
        assert(((col as int) * (SCALE as int)) / (width as int) <= SCALE) by (nonlinear_arith)
            requires
                0 <= (col as int) * (SCALE as int) < (width as int) * (SCALE as int),
                width >= 1,
        ;
        assert((row as int) * (SCALE as int) < (rows as int) * (SCALE as int)) by (nonlinear_arith)
            requires
                row < rows,
                SCALE >= 1,
        ;
        assert(((row as int) * (SCALE as int)) / (rows as int) <= SCALE) by (nonlinear_arith)
            requires
                0 <= (row as int) * (SCALE as int) < (rows as int) * (SCALE as int),
                rows >= 1,
        ;
    }
    let s: i128 = sin_fp(cam.theta) as i128;
    let c: i128 = cos_fp(cam.theta) as i128;
    let sp: i128 = sin_fp(cam.phi) as i128;
    let cp: i128 = cos_fp(cam.phi) as i128;
    proof {
        lemma_cos_nonneg(cam.phi as int);
        crate::fixed::lemma_mul_mag(fx as int, s as int, 10_000, 10_000);
        crate::fixed::lemma_mul_mag(fy as int, c as int, 10_000, 10_000);
    }
    let t: i128 = fx * s + fy * c;
    proof {
        crate::fixed::lemma_mul_mag(t as int, cp as int, 200_000_000, 10_000);
        lemma_k_bounds(t as int, cp as int, cam.dist as int);
    }
    let k: i128 = SCALE as i128 + div_trunc(
        div_trunc(t * cp, (SCALE as i128) * (SCALE as i128)) + cam.dist as i128,
        2,
    );
    proof {
        crate::fixed::lemma_mul_mag(fx as int, c as int, 10_000, 10_000);
        crate::fixed::lemma_mul_mag(fy as int, s as int, 10_000, 10_000);
        crate::fixed::lemma_div_trunc_abs(
            (fx as int) * (c as int) - (fy as int) * (s as int),
            k as int,
            200_000_000,
        );
    }
    let w: i128 = div_trunc(fx * c - fy * s, k);
    proof {
        crate::fixed::lemma_mul_mag(t as int, sp as int, 200_000_000, 10_000);
        crate::fixed::lemma_mul_mag(z as int, cam.stretch as int, 200_000_000_000_000, 10_000_000);
        crate::fixed::lemma_div_trunc_abs(
            (z as int) * (cam.stretch as int),
            SCALE as int,
            2_000_000_000_000_000_000_000,
        );
    }
    let zs: i128 = div_trunc((z as i128) * (cam.stretch as i128), SCALE as i128);
    proof {
        crate::fixed::lemma_mul_mag(zs as int, cp as int, 2_000_000_000_000_000_000_000, 10_000);
        crate::fixed::lemma_div_trunc_abs((t as int) * (sp as int), SCALE as int, 2_000_000_000_000);
    }
    let hn: i128 = div_trunc(t * sp, SCALE as i128) + zs * cp;
    proof {
        crate::fixed::lemma_div_trunc_abs(
            hn as int,
            k as int,
            30_000_000_000_000_000_000_000_000,
        );
    }
    let hsh: i128 = div_trunc(hn, k);
    let u: i32 = sat_i32(round_div(
        (crate::BUF_WIDTH as i128) * (5 * SCALE as i128 + 8 * w),
        10 * SCALE as i128,
    ));
    let v: i32 = sat_i32(round_div(
        (crate::BUF_HEIGHT as i128) * (5 * SCALE as i128 - 8 * hsh),
        10 * SCALE as i128,
    ));
    let color = Rgba {
        r: sat_u8(div_trunc(80 * (12_000 - z as i128), SCALE as i128)),
        g: sat_u8(div_trunc(80 * (2 * z as i128 + 10_000), SCALE as i128)),
        b: sat_u8(div_trunc(80 * (z as i128 + 20_000), SCALE as i128)),
        a: sat_u8(round_div(180 * SCALE as i128, k)),
    };
    ProjectedVertex { x: u, y: v, color }
}

/// The projected vertex sequence of a whole field.
pub open spec fn spec_projected(hf: HeightField, cam: Camera) -> Seq<ProjectedVertex> {
    Seq::new(
        hf.samples@.len(),
        |i: int|
            spec_project_vertex(
                i % (hf.width as int),
                i / (hf.width as int),
                hf.width as int,
                hf.spec_rows(),
                hf.samples@[i] as int,
                cam,
            ),
    )
}

/// Project every sample of the field, in row-major order; no sample is
/// skipped, on screen or off.
#[verifier::loop_isolation(false)]
pub fn project_field(hf: &HeightField, cam: &Camera) -> (out: Vec<ProjectedVertex>)
    requires
        hf.wf(),
        cam.wf(),
    ensures
        out@ == spec_projected(*hf, *cam),
{
    let n = hf.samples.len();
    let width = hf.width;
    let rows = n / width;
    proof {
        vstd::arithmetic::div_mod::lemma_fundamental_div_mod(n as int, width as int);
    }
    let mut out: Vec<ProjectedVertex> = Vec::new();
    let mut i: usize = 0;
    while i < n
        invariant
            i <= n,
            out@.len() == i,
            rows == hf.spec_rows(),
            rows * width == n,
            forall|j: int| 0 <= j < i ==> #[trigger] out@[j] == spec_projected(*hf, *cam)[j],
        decreases n - i,
    {
        let col = i % width;
        let row = i / width;
        proof {
            vstd::arithmetic::div_mod::lemma_mod_bound(i as int, width as int);
            vstd::arithmetic::div_mod::lemma_fundamental_div_mod(i as int, width as int);
            assert((i as int) / (width as int) < rows) by (nonlinear_arith)
                requires
                    (i as int) < (rows as int) * (width as int),
                    width >= 1,
                    (i as int) == (width as int) * ((i as int) / (width as int)) + (i as int) % (
                    width as int),
                    0 <= (i as int) % (width as int) < width,
            ;
        }
        let pv = project_vertex(col, row, width, rows, hf.samples[i], cam);
        out.push(pv);
        i = i + 1;
    }
    proof {
        assert(out@ =~= spec_projected(*hf, *cam));
    }
    out
}

/// Projection is deterministic: the same camera and field state always
/// yield the identical vertex sequence — the projector is a pure function
/// with no hidden state.
pub proof fn lemma_projection_deterministic(
    hf1: HeightField,
    hf2: HeightField,
    cam1: Camera,
    cam2: Camera,
)
    requires
        hf1.samples@ == hf2.samples@,
        hf1.width == hf2.width,
        cam1 == cam2,
    ensures
        spec_projected(hf1, cam1) == spec_projected(hf2, cam2),
{
    assert(spec_projected(hf1, cam1) =~= spec_projected(hf2, cam2));
}

} // verus!
