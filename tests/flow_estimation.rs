use yuv_flow::{estimate_flow, BlockVector, ImageError, BLOCK_SIZE, SEARCH_RADIUS};

/// A frame of pseudo-random texture.
fn textured(w: usize, h: usize, seed: u32) -> Vec<u8> {
    let mut state = seed;
    (0..w * h)
        .map(|_| {
            state = state.wrapping_mul(1_103_515_245).wrapping_add(12_345);
            (state >> 16) as u8
        })
        .collect()
}

/// `prev` moved by `(dx, dy)`; uncovered pixels take the value `bg`.
fn shifted(prev: &[u8], w: usize, h: usize, dx: i32, dy: i32, bg: u8) -> Vec<u8> {
    let mut out = vec![bg; w * h];
    for y in 0..h as i32 {
        for x in 0..w as i32 {
            let (sx, sy) = (x - dx, y - dy);
            if sx >= 0 && sy >= 0 && sx < w as i32 && sy < h as i32 {
                out[(y as usize) * w + x as usize] = prev[(sy as usize) * w + sx as usize];
            }
        }
    }
    out
}

/// Whether `(dx, dy)` keeps at least one pixel of block `(bx, by)` inside the frame.
fn in_window(w: usize, h: usize, bx: usize, by: usize, v: &BlockVector) -> bool {
    let r = SEARCH_RADIUS;
    if v.dx.abs() > r || v.dy.abs() > r {
        return false;
    }
    let x0 = (bx * BLOCK_SIZE) as i64;
    let x1 = ((bx + 1) * BLOCK_SIZE).min(w) as i64;
    let y0 = (by * BLOCK_SIZE) as i64;
    let y1 = ((by + 1) * BLOCK_SIZE).min(h) as i64;
    let (dx, dy) = (v.dx as i64, v.dy as i64);
    x0.max(-dx) < x1.min(w as i64 - dx) && y0.max(-dy) < y1.min(h as i64 - dy)
}

#[test]
fn identical_frames_give_zero_field() {
    let frame = textured(40, 36, 7);
    let f = estimate_flow(&frame, &frame, 40, 36).unwrap();
    assert_eq!((f.cols, f.rows), (3, 3));
    assert_eq!(f.vectors.len(), 9);
    for v in &f.vectors {
        assert_eq!(*v, BlockVector { dx: 0, dy: 0, confident: true });
    }
}

#[test]
fn flat_frame_gives_low_confidence_zero() {
    let frame = vec![90u8; 32 * 32];
    let curr = textured(32, 32, 3);
    let f = estimate_flow(&frame, &curr, 32, 32).unwrap();
    for v in &f.vectors {
        assert_eq!(*v, BlockVector { dx: 0, dy: 0, confident: false });
    }
}

#[test]
fn known_shift_is_recovered() {
    let (w, h) = (48usize, 48usize);
    let prev = textured(w, h, 11);
    for &(dx0, dy0) in &[(2, -3), (-4, 4), (1, 0), (0, -1)] {
        let curr = shifted(&prev, w, h, dx0, dy0, 7);
        let f = estimate_flow(&prev, &curr, w, h).unwrap();
        assert_eq!(f.vectors.len(), 9);
        for v in &f.vectors {
            assert_eq!(*v, BlockVector { dx: dx0, dy: dy0, confident: true });
        }
    }
}

#[test]
fn edge_blocks_stay_in_clamped_window() {
    // Width 17 leaves a one-pixel-wide last column of blocks, which can only
    // move left or stay.
    let (w, h) = (17usize, 19usize);
    let prev = textured(w, h, 5);
    let curr = textured(w, h, 6);
    let f = estimate_flow(&prev, &curr, w, h).unwrap();
    assert_eq!((f.cols, f.rows), (2, 2));
    for by in 0..f.rows {
        for bx in 0..f.cols {
            let v = &f.vectors[by * f.cols + bx];
            assert!(in_window(w, h, bx, by, v), "block ({}, {}) got {:?}", bx, by, v);
        }
    }
    assert!(f.vectors[1].dx <= 0);
}

#[test]
fn edge_block_shift_is_recovered() {
    let (w, h) = (17usize, 17usize);
    let prev = textured(w, h, 21);
    let curr = shifted(&prev, w, h, 3, 2, 0);
    let f = estimate_flow(&prev, &curr, w, h).unwrap();
    assert_eq!(f.vectors[0], BlockVector { dx: 3, dy: 2, confident: true });
}

#[test]
fn small_frame_is_one_block() {
    let prev = textured(5, 4, 9);
    let curr = shifted(&prev, 5, 4, -1, 1, 128);
    let f = estimate_flow(&prev, &curr, 5, 4).unwrap();
    assert_eq!((f.cols, f.rows), (1, 1));
    assert_eq!(f.vectors, vec![BlockVector { dx: -1, dy: 1, confident: true }]);
}

#[test]
fn tie_prefers_shorter_vector() {
    // A vertical stripe pattern repeating every 2 columns matches equally at
    // dx = -2, 0, 2: the zero vector wins.
    let (w, h) = (16usize, 16usize);
    let mut prev = vec![0u8; w * h];
    for y in 0..h {
        for x in 0..w {
            prev[y * w + x] = (if x % 2 == 0 { 10u8 } else { 200u8 }) ^ (y as u8 * 3);
        }
    }
    let f = estimate_flow(&prev, &prev.clone(), w, h).unwrap();
    assert_eq!(f.vectors[0], BlockVector { dx: 0, dy: 0, confident: true });
}

#[test]
fn grid_dimensions_round_up() {
    let prev = textured(33, 17, 1);
    let f = estimate_flow(&prev, &prev, 33, 17).unwrap();
    assert_eq!((f.cols, f.rows), (3, 2));
    assert_eq!(f.vectors.len(), 6);
}

#[test]
fn flow_zero_dimension_is_invalid_input() {
    let frame = vec![1u8; 16];
    assert_eq!(estimate_flow(&frame, &frame, 0, 4).unwrap_err(), ImageError::InvalidInput);
    assert_eq!(estimate_flow(&frame, &frame, 4, 0).unwrap_err(), ImageError::InvalidInput);
}

#[test]
fn mismatched_frames_are_invalid_input() {
    let a = vec![1u8; 16];
    let b = vec![1u8; 20];
    assert_eq!(estimate_flow(&a, &b, 4, 4).unwrap_err(), ImageError::InvalidInput);
}

#[test]
fn short_frames_are_invalid_input() {
    let a = vec![1u8; 15];
    assert_eq!(estimate_flow(&a, &a, 4, 4).unwrap_err(), ImageError::InvalidInput);
}
