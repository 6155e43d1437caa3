//! Frame orchestration.
//!
//! One frame: project every sample, clear the buffer's alpha channel, then
//! draw the horizontal mesh edges (column-adjacent samples, skipping row
//! seams) and the vertical mesh edges (row-adjacent samples, at a stride
//! of one grid width).  Later edges overwrite earlier ones at shared
//! pixels; there is no blending between edges and no depth buffer.

use crate::camera::Camera;
use crate::heightfield::HeightField;
use crate::project::{spec_projected, project_field, ProjectedVertex};
use crate::raster::{edge_byte, draw_edge, FrameBuffer};
use vstd::prelude::*;

verus! {

/// The buffer after one segment between two projected vertices.
pub open spec fn apply_edge(buf: Seq<u8>, v1: ProjectedVertex, v2: ProjectedVertex) -> Seq<u8> {
    Seq::new(
        buf.len(),
        |k: int|
            edge_byte(
                buf,
                (v1.x as int, v1.y as int),
                (v2.x as int, v2.y as int),
                v1.color,
                v2.color,
                k,
            ),
    )
}

/// The buffer after the alpha-only clear.
pub open spec fn cleared(buf: Seq<u8>) -> Seq<u8> {
    Seq::new(
        buf.len(),
        |k: int|
            if k % 4 == 3 {
                0u8
            } else {
                buf[k]
            },
    )
}

/// The horizontal mesh pass from pair index `i` on: every column-adjacent
/// pair that does not cross a row seam, in index order.
pub open spec fn horiz_pass(
    buf: Seq<u8>,
    verts: Seq<ProjectedVertex>,
    width: int,
    i: int,
) -> Seq<u8>
    decreases verts.len() - i,
{
    if i < 0 || i + 1 >= verts.len() || width <= 0 {
        buf
    } else {
        let b2 = if (i + 1) % width != 0 {
            apply_edge(buf, verts[i], verts[i + 1])
        } else {
            buf
        };
        horiz_pass(b2, verts, width, i + 1)
    }
}

/// The vertical mesh pass from index `i` on: every row-adjacent pair, in
/// index order.
pub open spec fn vert_pass(
    buf: Seq<u8>,
    verts: Seq<ProjectedVertex>,
    width: int,
    i: int,
) -> Seq<u8>
    decreases verts.len() - i,
{
    if i < 0 || i + width >= verts.len() || width <= 0 {
        buf
    } else {
        vert_pass(apply_edge(buf, verts[i], verts[i + width]), verts, width, i + 1)
    }
}

/// What one frame leaves in the buffer: clear, horizontal pass, vertical
/// pass.
pub open spec fn spec_render(buf: Seq<u8>, verts: Seq<ProjectedVertex>, width: int) -> Seq<u8> {
    vert_pass(horiz_pass(cleared(buf), verts, width, 0), verts, width, 0)
}

/// Render one frame of the field under the camera into the buffer:
/// exactly the clear and two mesh passes of `spec_render`.
#[verifier::loop_isolation(false)]
#[verifier::rlimit(60)]
pub fn render_frame(fb: &mut FrameBuffer, hf: &HeightField, cam: &Camera)
    requires
        old(fb).wf(),
        hf.wf(),
        cam.wf(),
    ensures
        final(fb).wf(),
        final(fb).data@ == spec_render(
            old(fb).data@,
            spec_projected(*hf, *cam),
            hf.width as int,
        ),
{
    let verts = project_field(hf, cam);
    let ghost vs = verts@;
    let width = hf.width;
    let n = verts.len();
    fb.clear();
    proof {
        assert(fb.data@ =~= cleared(old(fb).data@));
    }
    let ghost h0 = fb.data@;
    let mut i: usize = 0;
    while i + 1 < n
        invariant
            n == vs.len(),
            n >= 1,
            1 <= width,
            i <= n - 1,
            fb.wf(),
            horiz_pass(h0, vs, width as int, 0) == horiz_pass(fb.data@, vs, width as int, i as int),
        decreases n - i,
    {
        let ghost before = fb.data@;
        if (i + 1) % width != 0 {
            let p1 = verts[i];
            let p2 = verts[i + 1];
            draw_edge(fb, (p1.x, p1.y), (p2.x, p2.y), p1.color, p2.color);
            proof {
                assert(fb.data@ =~= apply_edge(before, vs[i as int], vs[i + 1]));
            }
        }
        proof {
            assert(horiz_pass(before, vs, width as int, i as int) == horiz_pass(
                fb.data@,
                vs,
                width as int,
                i + 1,
            ));
        }
        i = i + 1;
    }
    proof {
        assert(horiz_pass(fb.data@, vs, width as int, i as int) == fb.data@);
        assert(horiz_pass(h0, vs, width as int, 0) == fb.data@);
    }
    let ghost v0 = fb.data@;
    if width < n {
        let mut j: usize = 0;
        while j < n - width
            invariant
                n == vs.len(),
                1 <= width < n,
                j <= n - width,
                fb.wf(),
                vert_pass(v0, vs, width as int, 0) == vert_pass(
                    fb.data@,
                    vs,
                    width as int,
                    j as int,
                ),
            decreases n - j,
        {
            let ghost before = fb.data@;
            let p1 = verts[j];
            let p2 = verts[j + width];
            draw_edge(fb, (p1.x, p1.y), (p2.x, p2.y), p1.color, p2.color);
            proof {
                assert(fb.data@ =~= apply_edge(before, vs[j as int], vs[j + width]));
                assert(vert_pass(before, vs, width as int, j as int) == vert_pass(
                    fb.data@,
                    vs,
                    width as int,
                    j + 1,
                ));
            }
            j = j + 1;
        }
        proof {
            assert(vert_pass(fb.data@, vs, width as int, j as int) == fb.data@);
        }
    }
}

/// The render core: the parsed field, the interactive camera, and the
/// pixel buffer it draws into.
pub struct Scene {
    pub field: HeightField,
    pub camera: Camera,
    pub buffer: FrameBuffer,
}

impl Scene {
    /// Every part is well formed.
    pub open spec fn wf(self) -> bool {
        &&& self.field.wf()
        &&& self.camera.wf()
        &&& self.buffer.wf()
    }

    /// A scene over a parsed field, with the default camera and a fresh
    /// background buffer.
    pub fn new(field: HeightField) -> (s: Scene)
        requires
            field.wf(),
        ensures
            s.wf(),
            s.field == field,
            s.camera == crate::camera::spec_default_camera(),
    {
        Scene { field, camera: Camera::new(), buffer: FrameBuffer::new() }
    }

    /// Draw one frame from the current camera state.
    pub fn render(&mut self)
        requires
            old(self).wf(),
        ensures
            final(self).wf(),
            final(self).field == old(self).field,
            final(self).camera == old(self).camera,
            final(self).buffer.data@ == spec_render(
                old(self).buffer.data@,
                spec_projected(old(self).field, old(self).camera),
                old(self).field.width as int,
            ),
    {
        render_frame(&mut self.buffer, &self.field, &self.camera);
    }
}

} // verus!
