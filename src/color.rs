//! BT.601 luma/chroma to RGBA conversion, with the coefficients in thousandths
//! and each channel rounded half up.
use vstd::prelude::*;
use vstd::arithmetic::div_mod::{
    lemma_div_is_ordered,
    lemma_div_pos_is_pos,
    lemma_fundamental_div_mod_converse,
    lemma_mod_pos_bound,
};
use crate::error::ImageError;

verus! {

/// Saturates an integer to the range of a byte.
pub open spec fn clamp8(v: int) -> int {
    if v < 0 {
        0
    } else if v > 255 {
        255
    } else {
        v
    }
}

/// Luma offset from the black level, never negative.
pub open spec fn luma_c(y: u8) -> int {
    if y < 16 {
        0
    } else {
        y - 16
    }
}

/// Red channel: `round(1.164*C + 1.596*E)`, saturated.
pub open spec fn red_of(y: u8, u: u8, v: u8) -> int {
    clamp8((1164 * luma_c(y) + 1596 * (v - 128) + 500) / 1000)
}

/// Green channel: `round(1.164*C - 0.392*D - 0.813*E)`, saturated.
pub open spec fn green_of(y: u8, u: u8, v: u8) -> int {
    clamp8((1164 * luma_c(y) - 392 * (u - 128) - 813 * (v - 128) + 500) / 1000)
}

/// Blue channel: `round(1.164*C + 2.017*D)`, saturated.
pub open spec fn blue_of(y: u8, u: u8, v: u8) -> int {
    clamp8((1164 * luma_c(y) + 2017 * (u - 128) + 500) / 1000)
}

/// Divides a channel value in thousandths by 1000, rounding down, and
/// saturates it to a byte.
fn descale(t: i32) -> (r: u8)
    ensures
        r == clamp8(t / 1000),
{
    if t < 0 {
        0
    } else {
        let q = t / 1000;
        if q > 255 {
            255
        } else {
            q as u8
        }
    }
}

/// Converts one luma/chroma sample triple to red, green and blue.
pub fn yuv_to_rgb(y: u8, u: u8, v: u8) -> (r: (u8, u8, u8))
    ensures
        r.0 == red_of(y, u, v),
        r.1 == green_of(y, u, v),
        r.2 == blue_of(y, u, v),
{
    let c: i32 = if y < 16 {
        0
    } else {
        y as i32 - 16
    };
    let d: i32 = u as i32 - 128;
    let e: i32 = v as i32 - 128;
    let red = descale(1164 * c + 1596 * e + 500);
    let green = descale(1164 * c - 392 * d - 813 * e + 500);
    let blue = descale(1164 * c + 2017 * d + 500);
    (red, green, blue)
}


/// Offset of the chroma sample that covers luma pixel `(x, y)`.
pub open spec fn chroma_index(x: int, y: int, uv_row_stride: int, uv_pixel_stride: int) -> int {
    (y / 2) * uv_row_stride + (x / 2) * uv_pixel_stride
}

/// Why a conversion of the given geometry is refused, if it is.
///
/// The luma plane is tightly packed (`row_stride == width`). Chroma planes are
/// 4:2:0 subsampled and addressed through the two chroma strides.
pub open spec fn conversion_error(
    y_len: int,
    u_len: int,
    v_len: int,
    width: int,
    height: int,
    uv_row_stride: int,
    uv_pixel_stride: int,
) -> Option<ImageError> {
    if width <= 0 || height <= 0 || width * height > y_len || 4 * (width * height) > usize::MAX {
        Some(ImageError::InvalidInput)
    } else if !(0 <= uv_row_stride <= usize::MAX) || !(0 <= uv_pixel_stride <= usize::MAX) {
        Some(ImageError::InvalidBufferLayout)
    } else if height > 1 && uv_row_stride == 0 {
        Some(ImageError::InvalidBufferLayout)
    } else if chroma_index(width - 1, height - 1, uv_row_stride, uv_pixel_stride) >= u_len
        || chroma_index(width - 1, height - 1, uv_row_stride, uv_pixel_stride) >= v_len {
        Some(ImageError::InvalidBufferLayout)
    } else {
        None
    }
}

/// Byte `k` of the RGBA image: channel `k % 4` of pixel `k / 4`, in row-major order.
pub open spec fn rgba_byte(
    ys: Seq<u8>,
    us: Seq<u8>,
    vs: Seq<u8>,
    width: int,
    uv_row_stride: int,
    uv_pixel_stride: int,
    k: int,
) -> u8 {
    let p = k / 4;
    let ci = chroma_index(p % width, p / width, uv_row_stride, uv_pixel_stride);
    let (y, u, v) = (ys[p], us[ci], vs[ci]);
    if k % 4 == 0 {
        red_of(y, u, v) as u8
    } else if k % 4 == 1 {
        green_of(y, u, v) as u8
    } else if k % 4 == 2 {
        blue_of(y, u, v) as u8
    } else {
        255
    }
}

/// The RGBA image of `width * height` pixels, four bytes each.
pub open spec fn rgba_image(
    ys: Seq<u8>,
    us: Seq<u8>,
    vs: Seq<u8>,
    width: int,
    height: int,
    uv_row_stride: int,
    uv_pixel_stride: int,
) -> Seq<u8> {
    Seq::new(
        (4 * (width * height)) as nat,
        |k: int| rgba_byte(ys, us, vs, width, uv_row_stride, uv_pixel_stride, k),
    )
}

/// What a conversion returns: the refusal, or the RGBA bytes.
pub open spec fn conversion_result(
    ys: Seq<u8>,
    us: Seq<u8>,
    vs: Seq<u8>,
    width: int,
    height: int,
    uv_row_stride: int,
    uv_pixel_stride: int,
) -> Result<Seq<u8>, ImageError> {
    match conversion_error(
        ys.len() as int,
        us.len() as int,
        vs.len() as int,
        width,
        height,
        uv_row_stride,
        uv_pixel_stride,
    ) {
        Some(e) => Err(e),
        None => Ok(rgba_image(ys, us, vs, width, height, uv_row_stride, uv_pixel_stride)),
    }
}

/// The bytes of a returned buffer, or the error.
pub open spec fn bytes_result(r: Result<Vec<u8>, ImageError>) -> Result<Seq<u8>, ImageError> {
    match r {
        Ok(v) => Ok(v@),
        Err(e) => Err(e),
    }
}

pub(crate) proof fn lemma_mul_le(a: int, b: int, c: int)
    requires
        0 <= a <= b,
        0 <= c,
    ensures
        a * c <= b * c,
        c * a <= c * b,
{
    assert(a * c <= b * c) by (nonlinear_arith)
        requires
            0 <= a <= b,
            0 <= c,
    ;
    assert(c * a <= c * b) by (nonlinear_arith)
        requires
            0 <= a <= b,
            0 <= c,
    ;
}

/// Number of pixels of a `width x height` frame whose luma plane holds
/// `y_len` bytes and whose RGBA image is addressable; `None` where the
/// geometry is refused as invalid input.
pub fn luma_pixels(y_len: usize, width: usize, height: usize) -> (r: Option<usize>)
    ensures
        r is None <==> (width == 0 || height == 0 || width * height > y_len || 4 * (width
            * height) > usize::MAX),
        r is Some ==> r.unwrap() == width * height,
{
    if width == 0 || height == 0 {
        return None;
    }
    let n = match width.checked_mul(height) {
        Some(n) => n,
        None => {
            proof {
                lemma_mul_le(1, width as int, height as int);
            }
            return None;
        },
    };
    if n > y_len || n > usize::MAX / 4 {
        return None;
    }
    Some(n)
}

/// Converts a tightly packed luma plane and two 4:2:0 chroma planes into an
/// interleaved RGBA buffer (BT.601, alpha always 255).
///
/// `uv_row_stride` is the byte distance between chroma rows, `uv_pixel_stride`
/// the distance between chroma samples of one row (1 for planar, 2 for
/// semi-planar chroma).
pub fn convert_yuv_to_rgba(
    ys: &[u8],
    us: &[u8],
    vs: &[u8],
    width: usize,
    height: usize,
    uv_row_stride: usize,
    uv_pixel_stride: usize,
) -> (r: Result<Vec<u8>, ImageError>)
    ensures
        bytes_result(r) == conversion_result(
            ys@,
            us@,
            vs@,
            width as int,
            height as int,
            uv_row_stride as int,
            uv_pixel_stride as int,
        ),
{
    let ghost (w, h, rs, ps) = (width as int, height as int, uv_row_stride as int, uv_pixel_stride as int);
    let (u_len, v_len) = (us.len(), vs.len());
    let n = match luma_pixels(ys.len(), width, height) {
        Some(n) => n,
        None => return Err(ImageError::InvalidInput),
    };
    let total = n * 4;
    // Span of the chroma samples of one row, then the offset of the last sample.
    let col_span = match ((width - 1) / 2).checked_mul(uv_pixel_stride) {
        Some(s) => s,
        None => {
            proof {
                lemma_mul_le(0, (h - 1) / 2, rs);
            }
            return Err(ImageError::InvalidBufferLayout);
        },
    };
    if height > 1 && uv_row_stride == 0 {
        return Err(ImageError::InvalidBufferLayout);
    }
    let row_span = match ((height - 1) / 2).checked_mul(uv_row_stride) {
        Some(s) => s,
        None => {
            return Err(ImageError::InvalidBufferLayout);
        },
    };
    let last = match row_span.checked_add(col_span) {
        Some(l) => l,
        None => return Err(ImageError::InvalidBufferLayout),
    };
    if last >= u_len || last >= v_len {
        return Err(ImageError::InvalidBufferLayout);
    }
    let ghost image = rgba_image(ys@, us@, vs@, w, h, rs, ps);
    let mut out: Vec<u8> = Vec::with_capacity(total);
    let mut row: usize = 0;
    let mut p: usize = 0;
    while row < height
        invariant
            0 < width,
            w == width,
            h == height,
            rs == uv_row_stride,
            ps == uv_pixel_stride,
            n == width * height,
            n <= ys@.len(),
            total == 4 * n,
            last == ((h - 1) / 2) * rs + ((w - 1) / 2) * ps,
            last < us@.len(),
            last < vs@.len(),
            image == rgba_image(ys@, us@, vs@, w, h, rs, ps),
            row <= height,
            p == row * width,
            out@.len() == 4 * p,
            forall|k: int| 0 <= k < out@.len() ==> out@[k] == image[k],
        decreases height - row,
    {
        proof {
            lemma_mul_le(row as int / 2, (h - 1) / 2, rs);
        }
        let crow = (row / 2) * uv_row_stride;
        let mut col: usize = 0;
        while col < width
            invariant
                0 < width,
                w == width,
                h == height,
                rs == uv_row_stride,
                ps == uv_pixel_stride,
                n == width * height,
                n <= ys@.len(),
                total == 4 * n,
                last == ((h - 1) / 2) * rs + ((w - 1) / 2) * ps,
                last < us@.len(),
                last < vs@.len(),
                image == rgba_image(ys@, us@, vs@, w, h, rs, ps),
                row < height,
                crow == (row / 2) * rs,
                crow <= ((h - 1) / 2) * rs,
                col <= width,
                p == row * width + col,
                out@.len() == 4 * p,
                forall|k: int| 0 <= k < out@.len() ==> out@[k] == image[k],
            decreases width - col,
        {
            proof {
                lemma_mul_le(col as int / 2, (w - 1) / 2, ps);
                lemma_mul_le(row as int + 1, h, w);
                assert((row + 1) * width == row * width + width) by (nonlinear_arith);
            }
            let ci = crow + (col / 2) * uv_pixel_stride;
            let (red, green, blue) = yuv_to_rgb(ys[p], us[ci], vs[ci]);
            out.push(red);
            out.push(green);
            out.push(blue);
            out.push(255);
            proof {
                lemma_fundamental_div_mod_converse(p as int, w, row as int, col as int);
                assert forall|k: int| 0 <= k < out@.len() implies out@[k] == image[k] by {
                    if k >= 4 * p {
                        lemma_fundamental_div_mod_converse(k, 4, p as int, k - 4 * p);
                    }
                }
            }
            p = p + 1;
            col = col + 1;
        }
        proof {
            assert((row + 1) * width == row * width + width) by (nonlinear_arith);
        }
        row = row + 1;
    }
    proof {
        assert(height * width == width * height) by (nonlinear_arith);
        assert(out@ =~= image);
    }
    Ok(out)
}


/// Row and column of pixel `p` of a `width`-wide frame lie inside the frame.
proof fn lemma_pixel_coords(p: int, width: int, height: int)
    requires
        0 < width,
        0 < height,
        0 <= p < width * height,
    ensures
        0 <= p % width < width,
        0 <= p / width < height,
{
    lemma_mod_pos_bound(p, width);
    lemma_div_pos_is_pos(p, width);
    assert(width * height - 1 == (height - 1) * width + (width - 1)) by (nonlinear_arith);
    lemma_fundamental_div_mod_converse(width * height - 1, width, height - 1, width - 1);
    lemma_div_is_ordered(p, width * height - 1, width);
}

/// On an accepted geometry every pixel reads luma and chroma inside the buffers.
pub proof fn lemma_samples_in_bounds(
    ys: Seq<u8>,
    us: Seq<u8>,
    vs: Seq<u8>,
    width: int,
    height: int,
    uv_row_stride: int,
    uv_pixel_stride: int,
    p: int,
)
    requires
        0 <= uv_row_stride,
        0 <= uv_pixel_stride,
        conversion_error(
            ys.len() as int,
            us.len() as int,
            vs.len() as int,
            width,
            height,
            uv_row_stride,
            uv_pixel_stride,
        ) is None,
        0 <= p < width * height,
    ensures
        p < ys.len(),
        0 <= chroma_index(p % width, p / width, uv_row_stride, uv_pixel_stride) < us.len(),
        0 <= chroma_index(p % width, p / width, uv_row_stride, uv_pixel_stride) < vs.len(),
{
    lemma_pixel_coords(p, width, height);
    lemma_div_is_ordered(p % width, width - 1, 2);
    lemma_div_is_ordered(p / width, height - 1, 2);
    lemma_div_pos_is_pos(p % width, 2);
    lemma_div_pos_is_pos(p / width, 2);
    lemma_mul_le((p / width) / 2, (height - 1) / 2, uv_row_stride);
    lemma_mul_le((p % width) / 2, (width - 1) / 2, uv_pixel_stride);
    lemma_mul_le(0, (p / width) / 2, uv_row_stride);
    lemma_mul_le(0, (p % width) / 2, uv_pixel_stride);
}

/// Luma 235 with neutral chroma (128) is the white point: every byte of the
/// converted image is 255.
pub proof fn lemma_white_point(
    ys: Seq<u8>,
    us: Seq<u8>,
    vs: Seq<u8>,
    width: int,
    height: int,
    uv_row_stride: int,
    uv_pixel_stride: int,
)
    requires
        0 <= uv_row_stride,
        0 <= uv_pixel_stride,
        conversion_error(
            ys.len() as int,
            us.len() as int,
            vs.len() as int,
            width,
            height,
            uv_row_stride,
            uv_pixel_stride,
        ) is None,
        forall|i: int| 0 <= i < ys.len() ==> ys[i] == 235,
        forall|i: int| 0 <= i < us.len() ==> us[i] == 128,
        forall|i: int| 0 <= i < vs.len() ==> vs[i] == 128,
    ensures
        ({
            let image = rgba_image(ys, us, vs, width, height, uv_row_stride, uv_pixel_stride);
            &&& image.len() == 4 * (width * height)
            &&& forall|k: int| 0 <= k < image.len() ==> image[k] == 255
        }),
{
    let image = rgba_image(ys, us, vs, width, height, uv_row_stride, uv_pixel_stride);
    assert forall|k: int| 0 <= k < image.len() implies image[k] == 255 by {
        let p = k / 4;
        lemma_samples_in_bounds(ys, us, vs, width, height, uv_row_stride, uv_pixel_stride, p);
    }
}

/// Luma 16 with neutral chroma (128) is the black point: every converted
/// pixel is opaque black.
pub proof fn lemma_black_point(
    ys: Seq<u8>,
    us: Seq<u8>,
    vs: Seq<u8>,
    width: int,
    height: int,
    uv_row_stride: int,
    uv_pixel_stride: int,
)
    requires
        0 <= uv_row_stride,
        0 <= uv_pixel_stride,
        conversion_error(
            ys.len() as int,
            us.len() as int,
            vs.len() as int,
            width,
            height,
            uv_row_stride,
            uv_pixel_stride,
        ) is None,
        forall|i: int| 0 <= i < ys.len() ==> ys[i] == 16,
        forall|i: int| 0 <= i < us.len() ==> us[i] == 128,
        forall|i: int| 0 <= i < vs.len() ==> vs[i] == 128,
    ensures
        ({
            let image = rgba_image(ys, us, vs, width, height, uv_row_stride, uv_pixel_stride);
            &&& image.len() == 4 * (width * height)
            &&& forall|k: int|
                0 <= k < image.len() ==> image[k] == (if k % 4 == 3 {
                    255u8
                } else {
                    0u8
                })
        }),
{
    let image = rgba_image(ys, us, vs, width, height, uv_row_stride, uv_pixel_stride);
    assert forall|k: int| 0 <= k < image.len() implies image[k] == (if k % 4 == 3 {
        255u8
    } else {
        0u8
    }) by {
        let p = k / 4;
        lemma_samples_in_bounds(ys, us, vs, width, height, uv_row_stride, uv_pixel_stride, p);
    }
}

/// Conversion keeps no hidden state: two conversions of the same buffers and
/// geometry return the same error or byte-identical images.
pub proof fn lemma_conversion_repeatable(
    ys: Seq<u8>,
    us: Seq<u8>,
    vs: Seq<u8>,
    width: int,
    height: int,
    uv_row_stride: int,
    uv_pixel_stride: int,
    first: Result<Vec<u8>, ImageError>,
    second: Result<Vec<u8>, ImageError>,
)
    requires
        bytes_result(first) == conversion_result(
            ys,
            us,
            vs,
            width,
            height,
            uv_row_stride,
            uv_pixel_stride,
        ),
        bytes_result(second) == conversion_result(
            ys,
            us,
            vs,
            width,
            height,
            uv_row_stride,
            uv_pixel_stride,
        ),
    ensures
        first is Ok <==> second is Ok,
        first is Ok ==> first.unwrap()@ == second.unwrap()@,
        first is Err ==> first == second,
{
}

/// A zero chroma row stride is refused for any frame of more than one row
/// whose dimensions fit its luma buffer: it would make every chroma row
/// alias the first.
pub proof fn lemma_zero_row_stride_refused(
    ys: Seq<u8>,
    us: Seq<u8>,
    vs: Seq<u8>,
    width: int,
    height: int,
    uv_pixel_stride: int,
)
    requires
        0 < width,
        1 < height,
        width * height <= ys.len(),
        4 * (width * height) <= usize::MAX,
    ensures
        conversion_result(ys, us, vs, width, height, 0, uv_pixel_stride) == Err::<
            Seq<u8>,
            ImageError,
        >(ImageError::InvalidBufferLayout),
{
}

} // verus!
