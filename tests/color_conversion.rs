use yuv_flow::{convert_yuv_to_rgba, luma_pixels, yuv_to_rgb, ImageError};

fn planes(w: usize, h: usize, y: u8, u: u8, v: u8) -> (Vec<u8>, Vec<u8>, Vec<u8>) {
    let cw = (w + 1) / 2;
    let ch = (h + 1) / 2;
    (vec![y; w * h], vec![u; cw * ch], vec![v; cw * ch])
}

#[test]
fn white_point_16x16_planar() {
    let (ys, us, vs) = planes(16, 16, 235, 128, 128);
    let out = convert_yuv_to_rgba(&ys, &us, &vs, 16, 16, 8, 1).unwrap();
    assert_eq!(out.len(), 16 * 16 * 4);
    assert!(out.iter().all(|&b| b == 255));
}

#[test]
fn white_point_16x16_semi_planar() {
    // Interleaved chroma: pixel stride 2, row stride 16, last row short.
    let ys = vec![235u8; 256];
    let us = vec![128u8; 7 * 16 + 7 * 2 + 1];
    let vs = vec![128u8; 7 * 16 + 7 * 2 + 1];
    let out = convert_yuv_to_rgba(&ys, &us, &vs, 16, 16, 16, 2).unwrap();
    assert_eq!(out.len(), 1024);
    assert!(out.iter().all(|&b| b == 255));
}

#[test]
fn black_point_16x16() {
    let (ys, us, vs) = planes(16, 16, 16, 128, 128);
    let out = convert_yuv_to_rgba(&ys, &us, &vs, 16, 16, 8, 1).unwrap();
    for px in out.chunks(4) {
        assert_eq!(px, &[0, 0, 0, 255]);
    }
}

#[test]
fn conversion_is_repeatable() {
    let w = 6usize;
    let h = 5usize;
    let ys: Vec<u8> = (0..w * h).map(|i| (i * 37 % 251) as u8).collect();
    let us: Vec<u8> = (0..9).map(|i| (i * 53 % 256) as u8).collect();
    let vs: Vec<u8> = (0..9).map(|i| (200 - i * 11) as u8).collect();
    let a = convert_yuv_to_rgba(&ys, &us, &vs, w, h, 3, 1).unwrap();
    let b = convert_yuv_to_rgba(&ys, &us, &vs, w, h, 3, 1).unwrap();
    assert_eq!(a, b);
}

#[test]
fn zero_row_stride_is_invalid_layout() {
    let (ys, us, vs) = planes(4, 2, 100, 128, 128);
    assert_eq!(convert_yuv_to_rgba(&ys, &us, &vs, 4, 2, 0, 1), Err(ImageError::InvalidBufferLayout));
    let (ys, us, vs) = planes(16, 16, 100, 128, 128);
    assert_eq!(convert_yuv_to_rgba(&ys, &us, &vs, 16, 16, 0, 1), Err(ImageError::InvalidBufferLayout));
}

#[test]
fn zero_row_stride_allowed_for_one_row() {
    let (ys, us, vs) = planes(4, 1, 235, 128, 128);
    let out = convert_yuv_to_rgba(&ys, &us, &vs, 4, 1, 0, 1).unwrap();
    assert_eq!(out, vec![255u8; 16]);
}

#[test]
fn odd_dimensions_use_last_chroma_sample() {
    // 3x3 luma, 2x2 chroma; pixel (2, 2) reads chroma sample (1, 1).
    let ys = vec![16u8; 9];
    let us = vec![128u8, 128, 128, 0];
    let vs = vec![128u8, 128, 128, 0];
    let out = convert_yuv_to_rgba(&ys, &us, &vs, 3, 3, 2, 1).unwrap();
    assert_eq!(out.len(), 36);
    assert_eq!(&out[0..4], &[0, 0, 0, 255]);
    assert_eq!(&out[32..36], &[0, 154, 0, 255]);
    // Pixel (1, 2) shares chroma sample (0, 1).
    assert_eq!(&out[28..32], &[0, 0, 0, 255]);
}

#[test]
fn formula_values() {
    assert_eq!(yuv_to_rgb(235, 128, 128), (255, 255, 255));
    assert_eq!(yuv_to_rgb(16, 128, 128), (0, 0, 0));
    assert_eq!(yuv_to_rgb(128, 128, 128), (130, 130, 130));
    assert_eq!(yuv_to_rgb(81, 90, 240), (254, 0, 0));
    // 2.017 * 31 = 62.527 rounds to 63.
    assert_eq!(yuv_to_rgb(16, 159, 128), (0, 0, 63));
    assert_eq!(yuv_to_rgb(0, 0, 0), (0, 154, 0));
    assert_eq!(yuv_to_rgb(255, 255, 255), (255, 125, 255));
}

#[test]
fn blue_rounds_half_up_in_one_pixel_frame() {
    let out = convert_yuv_to_rgba(&[16], &[159], &[128], 1, 1, 0, 1).unwrap();
    assert_eq!(out, vec![0, 0, 63, 255]);
}

#[test]
fn luma_below_black_level_is_clamped() {
    assert_eq!(yuv_to_rgb(3, 128, 128), yuv_to_rgb(16, 128, 128));
}

#[test]
fn zero_dimension_is_invalid_input() {
    let (ys, us, vs) = planes(4, 4, 100, 128, 128);
    assert_eq!(convert_yuv_to_rgba(&ys, &us, &vs, 0, 4, 2, 1), Err(ImageError::InvalidInput));
    assert_eq!(convert_yuv_to_rgba(&ys, &us, &vs, 4, 0, 2, 1), Err(ImageError::InvalidInput));
}

#[test]
fn short_luma_is_invalid_input() {
    let (_, us, vs) = planes(4, 4, 100, 128, 128);
    let ys = vec![100u8; 15];
    assert_eq!(convert_yuv_to_rgba(&ys, &us, &vs, 4, 4, 2, 1), Err(ImageError::InvalidInput));
}

#[test]
fn short_chroma_is_invalid_layout() {
    let ys = vec![100u8; 16];
    let us = vec![128u8; 3];
    let vs = vec![128u8; 4];
    assert_eq!(convert_yuv_to_rgba(&ys, &us, &vs, 4, 4, 2, 1), Err(ImageError::InvalidBufferLayout));
    assert_eq!(convert_yuv_to_rgba(&ys, &vs, &us, 4, 4, 2, 1), Err(ImageError::InvalidBufferLayout));
}

#[test]
fn zero_pixel_stride_reads_first_sample_of_row() {
    // Every pixel of a row reads the first chroma sample of its chroma row.
    let ys = vec![16u8; 16];
    let us = vec![159u8, 0, 128, 0];
    let vs = vec![128u8; 4];
    let out = convert_yuv_to_rgba(&ys, &us, &vs, 4, 4, 2, 0).unwrap();
    for y in 0..4 {
        for x in 0..4 {
            let blue = if y < 2 { 63 } else { 0 };
            assert_eq!(&out[4 * (y * 4 + x)..4 * (y * 4 + x) + 4], &[0, 0, blue, 255]);
        }
    }
}

#[test]
fn overlapping_chroma_rows_are_converted() {
    // Width 4, height 2, row stride 1: only chroma row 0 is read, all in bounds.
    let ys = vec![235u8; 8];
    let us = vec![128u8; 2];
    let vs = vec![128u8; 2];
    let out = convert_yuv_to_rgba(&ys, &us, &vs, 4, 2, 1, 1).unwrap();
    assert_eq!(out, vec![255u8; 32]);
    // Width 8, height 4, row stride 3: the last sample is at offset 6 of 7-byte planes.
    let ys = vec![235u8; 32];
    let us = vec![128u8; 3 + 3 + 1];
    let vs = vec![128u8; 3 + 3 + 1];
    let out = convert_yuv_to_rgba(&ys, &us, &vs, 8, 4, 3, 1).unwrap();
    assert_eq!(out, vec![255u8; 128]);
}

#[test]
fn chroma_read_past_end_is_invalid_layout() {
    // Height 4, row stride 3: the last sample is at 3 + 3 = 6.
    let ys = vec![235u8; 32];
    let us = vec![128u8; 6];
    let vs = vec![128u8; 7];
    assert_eq!(convert_yuv_to_rgba(&ys, &us, &vs, 8, 4, 3, 1), Err(ImageError::InvalidBufferLayout));
}

#[test]
fn huge_geometry_is_invalid_input() {
    let (ys, us, vs) = planes(2, 2, 100, 128, 128);
    assert_eq!(
        convert_yuv_to_rgba(&ys, &us, &vs, usize::MAX, 2, 1, 1),
        Err(ImageError::InvalidInput)
    );
    assert_eq!(luma_pixels(usize::MAX, usize::MAX / 2, 2), None);
}

#[test]
fn luma_pixels_counts() {
    assert_eq!(luma_pixels(12, 4, 3), Some(12));
    assert_eq!(luma_pixels(11, 4, 3), None);
    assert_eq!(luma_pixels(12, 0, 3), None);
}
