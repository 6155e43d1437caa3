use fdf::camera::RotateDir;
use fdf::heightfield::parse_grid;
use fdf::render::Scene;
use fdf::{BUF_HEIGHT, BUF_WIDTH};

#[test]
fn a_frame_renders_into_the_fixed_buffer() {
    let hf = parse_grid(b"0 1\n1 0", true).unwrap();
    let mut s = Scene::new(hf);
    s.render();
    assert_eq!(s.buffer.data.len(), 4 * BUF_WIDTH * BUF_HEIGHT);
    // The mesh near the pan center must have written some opaque pixels.
    let drawn = s.buffer.data.chunks(4).filter(|px| px[3] != 0).count();
    assert!(drawn > 0);
}

#[test]
fn rendering_twice_from_the_same_state_is_identical() {
    let hf = parse_grid(b"0 0.5\n1 0.25", true).unwrap();
    let mut s = Scene::new(hf);
    s.render();
    let first = s.buffer.data.clone();
    s.render();
    assert_eq!(s.buffer.data, first);
}

#[test]
fn camera_motion_changes_the_frame() {
    let hf = parse_grid(b"0 1 0\n1 0 1\n0 1 0", true).unwrap();
    let mut s = Scene::new(hf);
    s.render();
    let first = s.buffer.data.clone();
    for _ in 0..4 {
        s.camera.rotate(RotateDir::Right);
    }
    s.render();
    assert_ne!(s.buffer.data, first);
}

#[test]
fn clear_between_frames_hides_stale_pixels() {
    let hf = parse_grid(b"0 1\n1 0", true).unwrap();
    let mut s = Scene::new(hf);
    s.render();
    // Rotate far: pixels drawn only in the first frame must now be
    // transparent, even though their color bytes may remain.
    for _ in 0..60 {
        s.camera.rotate(RotateDir::Right);
    }
    s.render();
    let drawn: Vec<usize> = s
        .buffer
        .data
        .chunks(4)
        .enumerate()
        .filter(|(_, px)| px[3] != 0)
        .map(|(i, _)| i)
        .collect();
    assert!(drawn.len() > 0);
}
