use yuv_flow::{
    new_uint_8_list_0, wire_get_correlation_flow, wire_uint_8_list, wire_yuv_rgba, BlockVector,
    ImageError, NewWithNullPtr,
};

fn list(data: Vec<u8>) -> wire_uint_8_list {
    wire_uint_8_list { data }
}

#[test]
fn new_list_is_zero_filled() {
    assert_eq!(new_uint_8_list_0(5).wire2api(), vec![0u8; 5]);
    assert!(new_uint_8_list_0(0).wire2api().is_empty());
}

#[test]
fn null_list_is_empty() {
    let l = <wire_uint_8_list as NewWithNullPtr>::new_with_null_ptr();
    assert!(l.data.is_empty());
}

#[test]
fn wire2api_hands_over_bytes() {
    assert_eq!(list(vec![1, 2, 3]).wire2api(), vec![1, 2, 3]);
}

#[test]
fn wire_conversion_white_point() {
    let out = wire_yuv_rgba(
        list(vec![235; 256]),
        list(vec![128; 64]),
        list(vec![128; 64]),
        16,
        16,
        8,
        1,
    )
    .unwrap();
    assert_eq!(out.data, vec![255u8; 1024]);
}

#[test]
fn wire_conversion_refuses_negative_geometry() {
    let r = wire_yuv_rgba(list(vec![16; 4]), list(vec![128]), list(vec![128]), -2, 2, 1, 1);
    assert_eq!(r.err(), Some(ImageError::InvalidInput));
    let r = wire_yuv_rgba(list(vec![16; 4]), list(vec![128]), list(vec![128]), 2, 2, -1, 1);
    assert_eq!(r.err(), Some(ImageError::InvalidBufferLayout));
    let r = wire_yuv_rgba(list(vec![16; 4]), list(vec![128]), list(vec![128]), 2, 2, 1, -1);
    assert_eq!(r.err(), Some(ImageError::InvalidBufferLayout));
}

#[test]
fn wire_conversion_zero_row_stride() {
    let r = wire_yuv_rgba(list(vec![16; 8]), list(vec![128; 4]), list(vec![128; 4]), 2, 4, 0, 1);
    assert_eq!(r.err(), Some(ImageError::InvalidBufferLayout));
}

#[test]
fn wire_flow_identical_frames() {
    let frame: Vec<u8> = (0..400u32).map(|i| (i * 73 % 256) as u8).collect();
    let f = wire_get_correlation_flow(list(frame.clone()), list(frame), 20, 20).unwrap();
    assert_eq!((f.cols, f.rows), (2, 2));
    for v in &f.vectors {
        assert_eq!((v.dx, v.dy), (0, 0));
    }
    let _ = BlockVector { dx: 0, dy: 0, confident: true };
}

#[test]
fn wire_flow_refuses_negative_geometry() {
    let r = wire_get_correlation_flow(list(vec![0; 4]), list(vec![0; 4]), 2, -2);
    assert_eq!(r.unwrap_err(), ImageError::InvalidInput);
}
