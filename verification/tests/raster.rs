use fdf::raster::{draw_edge, FrameBuffer, Rgba};
use fdf::{BUF_HEIGHT, BUF_WIDTH};

fn pixel(fb: &FrameBuffer, x: usize, y: usize) -> [u8; 4] {
    let p = 4 * (y * BUF_WIDTH + x);
    [fb.data[p], fb.data[p + 1], fb.data[p + 2], fb.data[p + 3]]
}

#[test]
fn fresh_buffer_holds_the_background_gradient() {
    let fb = FrameBuffer::new();
    assert_eq!(fb.data.len(), 4 * BUF_WIDTH * BUF_HEIGHT);
    assert_eq!(pixel(&fb, 0, 0), [0, 0, 0, 0]);
    assert_eq!(pixel(&fb, 512, 256), [0, (512 * 255 / 1024) as u8, (256 * 255 / 1024) as u8, 0]);
}

#[test]
fn clear_zeroes_only_the_alpha_channel() {
    let mut fb = FrameBuffer::new();
    let a = Rgba { r: 10, g: 20, b: 30, a: 40 };
    draw_edge(&mut fb, (5, 5), (5, 7), a, a);
    fb.clear();
    assert_eq!(pixel(&fb, 5, 5), [10, 20, 30, 0]);
    assert_eq!(pixel(&fb, 5, 6), [10, 20, 30, 0]);
}

#[test]
fn shared_x_segment_blends_from_first_color_to_second() {
    let mut fb = FrameBuffer::new();
    let a = Rgba { r: 200, g: 0, b: 100, a: 255 };
    let b = Rgba { r: 0, g: 200, b: 100, a: 55 };
    draw_edge(&mut fb, (5, 0), (5, 10), a, b);
    // At y = 0 the first endpoint's color, exactly.
    assert_eq!(pixel(&fb, 5, 0), [200, 0, 100, 255]);
    // Half way: the even blend, rounded down.
    assert_eq!(pixel(&fb, 5, 5), [100, 100, 100, 155]);
    // Near the far end the second color dominates.
    assert_eq!(pixel(&fb, 5, 9), [20, 180, 100, 75]);
    // The far endpoint's own pixel is left out of the run.
    assert_eq!(pixel(&fb, 5, 10), [0, (5 * 255 / 1024) as u8, (10 * 255 / 1024) as u8, 0]);
}

#[test]
fn shared_x_segment_downward_excludes_the_higher_start_row() {
    let mut fb = FrameBuffer::new();
    let a = Rgba { r: 100, g: 100, b: 100, a: 100 };
    let b = Rgba { r: 0, g: 0, b: 0, a: 0 };
    draw_edge(&mut fb, (7, 10), (7, 0), a, b);
    // The run covers [0, 10): the second endpoint's pixel is written...
    assert_eq!(pixel(&fb, 7, 0), [0, 0, 0, 0]);
    // ...and the first endpoint's own pixel is the one left out.
    assert_eq!(pixel(&fb, 7, 10), [0, (7 * 255 / 1024) as u8, (10 * 255 / 1024) as u8, 0]);
    assert_eq!(pixel(&fb, 7, 5), [50, 50, 50, 50]);
}

#[test]
fn shared_y_segment_blends_along_x() {
    let mut fb = FrameBuffer::new();
    let a = Rgba { r: 40, g: 0, b: 0, a: 255 };
    let b = Rgba { r: 0, g: 40, b: 0, a: 255 };
    draw_edge(&mut fb, (0, 3), (8, 3), a, b);
    assert_eq!(pixel(&fb, 0, 3), [40, 0, 0, 255]);
    assert_eq!(pixel(&fb, 4, 3), [20, 20, 0, 255]);
}

#[test]
fn fully_offscreen_segment_writes_nothing() {
    let mut fb = FrameBuffer::new();
    let before = fb.data.clone();
    let c = Rgba { r: 255, g: 255, b: 255, a: 255 };
    draw_edge(&mut fb, (-5, -5), (-40, -80), c, c);
    assert_eq!(fb.data, before);
    draw_edge(&mut fb, (2000, 10), (5000, 900), c, c);
    assert_eq!(fb.data, before);
}

#[test]
fn general_segment_walks_the_slope() {
    let mut fb = FrameBuffer::new();
    let a = Rgba { r: 100, g: 0, b: 0, a: 200 };
    let b = Rgba { r: 0, g: 100, b: 0, a: 100 };
    // From (1, 2) to (3, 6): slope 2, count 4, five steps.
    draw_edge(&mut fb, (1, 2), (3, 6), a, b);
    assert_eq!(pixel(&fb, 1, 2), [100, 0, 0, 200]);
    // Step 2 of 4: half way in position and color.
    assert_eq!(pixel(&fb, 2, 4), [50, 50, 0, 150]);
    assert_eq!(pixel(&fb, 3, 6), [0, 100, 0, 100]);
}

#[test]
fn clipped_segment_keeps_its_slope() {
    let mut fb = FrameBuffer::new();
    let a = Rgba { r: 255, g: 255, b: 255, a: 255 };
    // From (-9, -3) to (11, 7): slope 1/2; the first endpoint is pulled to
    // x = 1, and y follows the line: y = -3 + (1 + 9) / 2 = 2.
    draw_edge(&mut fb, (-9, -3), (11, 7), a, a);
    assert_eq!(pixel(&fb, 1, 2), [255, 255, 255, 255]);
    // On-screen points of the original line are still hit.
    assert_eq!(pixel(&fb, 5, 4), [255, 255, 255, 255]);
    assert_eq!(pixel(&fb, 9, 6), [255, 255, 255, 255]);
}

#[test]
fn later_edges_overwrite_earlier_ones() {
    let mut fb = FrameBuffer::new();
    let a = Rgba { r: 1, g: 2, b: 3, a: 4 };
    let b = Rgba { r: 9, g: 8, b: 7, a: 6 };
    draw_edge(&mut fb, (10, 10), (10, 20), a, a);
    draw_edge(&mut fb, (5, 12), (20, 12), b, b);
    assert_eq!(pixel(&fb, 10, 12), [9, 8, 7, 6]);
    assert_eq!(pixel(&fb, 10, 11), [1, 2, 3, 4]);
}
