//! The two operations as the host calls them: byte lists it hands over by
//! value and geometry as signed 64-bit integers.
use vstd::prelude::*;
use crate::color::{conversion_result, convert_yuv_to_rgba, lemma_mul_le, luma_pixels};
use crate::error::ImageError;
use crate::flow::{estimate_flow, flow_error, flow_field_ok, FlowField};

verus! {

/// A byte list whose ownership passes across the host boundary: the
/// receiver owns `data` and releases it when it drops the list.
#[allow(non_camel_case_types)]
pub struct wire_uint_8_list {
    pub data: Vec<u8>,
}

/// Types that have a distinguished empty value, handed out where the host
/// expects a value that holds nothing yet.
pub trait NewWithNullPtr: Sized {
    /// `self` holds nothing.
    spec fn is_null(&self) -> bool;

    fn new_with_null_ptr() -> (r: Self)
        ensures
            r.is_null(),
    ;
}

impl NewWithNullPtr for wire_uint_8_list {
    open spec fn is_null(&self) -> bool {
        self.data@.len() == 0
    }

    fn new_with_null_ptr() -> (r: Self) {
        wire_uint_8_list { data: Vec::new() }
    }
}

impl wire_uint_8_list {
    /// Takes the bytes out of the list.
    pub fn wire2api(self) -> (r: Vec<u8>)
        ensures
            r@ == self.data@,
    {
        self.data
    }
}

/// A list of `len` zero bytes, for the host to fill.
pub fn new_uint_8_list_0(len: i32) -> (r: wire_uint_8_list)
    requires
        0 <= len,
    ensures
        r.data@ == Seq::new(len as nat, |i: int| 0u8),
{
    let mut data: Vec<u8> = Vec::with_capacity(len as usize);
    let mut i: i32 = 0;
    while i < len
        invariant
            0 <= i <= len,
            data@ == Seq::new(i as nat, |k: int| 0u8),
        decreases len - i,
    {
        data.push(0);
        i = i + 1;
        assert(data@ =~= Seq::new(i as nat, |k: int| 0u8));
    }
    wire_uint_8_list { data }
}

/// Converts the luma list `ys` and chroma lists `us`, `vs` into an RGBA list;
/// see `convert_yuv_to_rgba`. A negative dimension is invalid input, a
/// negative stride an invalid layout.
pub fn wire_yuv_rgba(
    ys: wire_uint_8_list,
    us: wire_uint_8_list,
    vs: wire_uint_8_list,
    width: i64,
    height: i64,
    uv_row_stride: i64,
    uv_pixel_stride: i64,
) -> (r: Result<wire_uint_8_list, ImageError>)
    ensures
        match r {
            Ok(l) => conversion_result(
                ys.data@,
                us.data@,
                vs.data@,
                width as int,
                height as int,
                uv_row_stride as int,
                uv_pixel_stride as int,
            ) == Ok::<Seq<u8>, ImageError>(l.data@),
            Err(e) => conversion_result(
                ys.data@,
                us.data@,
                vs.data@,
                width as int,
                height as int,
                uv_row_stride as int,
                uv_pixel_stride as int,
            ) == Err::<Seq<u8>, ImageError>(e),
        },
{
    let ys = ys.wire2api();
    let us = us.wire2api();
    let vs = vs.wire2api();
    if width <= 0 || height <= 0 || width as u64 > usize::MAX as u64 || height as u64
        > usize::MAX as u64 {
        proof {
            if width > 0 && height > 0 {
                lemma_mul_le(1, width as int, height as int);
                lemma_mul_le(1, height as int, width as int);
            }
        }
        return Err(ImageError::InvalidInput);
    }
    let (w, h) = (width as usize, height as usize);
    if luma_pixels(ys.len(), w, h).is_none() {
        return Err(ImageError::InvalidInput);
    }
    if uv_row_stride < 0 || uv_pixel_stride < 0 || uv_row_stride as u64 > usize::MAX as u64
        || uv_pixel_stride as u64 > usize::MAX as u64 {
        return Err(ImageError::InvalidBufferLayout);
    }
    match convert_yuv_to_rgba(
        ys.as_slice(),
        us.as_slice(),
        vs.as_slice(),
        w,
        h,
        uv_row_stride as usize,
        uv_pixel_stride as usize,
    ) {
        Ok(rgba) => Ok(wire_uint_8_list { data: rgba }),
        Err(e) => Err(e),
    }
}

/// Estimates block motion from the frame list `prev_ys` to `current_ys`;
/// see `estimate_flow`. A negative dimension is invalid input.
pub fn wire_get_correlation_flow(
    prev_ys: wire_uint_8_list,
    current_ys: wire_uint_8_list,
    width: i64,
    height: i64,
) -> (r: Result<FlowField, ImageError>)
    ensures
        match flow_error(
            prev_ys.data@.len() as int,
            current_ys.data@.len() as int,
            width as int,
            height as int,
        ) {
            Some(e) => r == Err::<FlowField, ImageError>(e),
            None => r is Ok && flow_field_ok(
                prev_ys.data@,
                current_ys.data@,
                width as int,
                height as int,
                r.unwrap(),
            ),
        },
{
    let prev = prev_ys.wire2api();
    let curr = current_ys.wire2api();
    // A side longer than the whole frame list cannot fit in it.
    if width <= 0 || height <= 0 || width as u64 > prev.len() as u64 || height as u64
        > prev.len() as u64 {
        proof {
            if width > 0 && height > 0 {
                lemma_mul_le(1, width as int, height as int);
                lemma_mul_le(1, height as int, width as int);
            }
        }
        return Err(ImageError::InvalidInput);
    }
    estimate_flow(prev.as_slice(), curr.as_slice(), width as usize, height as usize)
}

} // verus!
