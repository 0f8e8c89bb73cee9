//! Block-matching motion estimation between two grayscale frames.
//!
//! The previous frame is cut into `BLOCK_SIZE` square blocks (the last column
//! and row of blocks are cut short by the frame edge). For each block every
//! displacement `(dx, dy)` with `|dx|, |dy| <= SEARCH_RADIUS` is scored by the
//! mean absolute difference between the block and the displaced window of the
//! current frame. The window is clamped to the frame: only the block pixels
//! whose displaced position lies inside the frame are compared, and a
//! displacement that leaves no such pixel is not a candidate. Means are
//! compared exactly, by cross-multiplication. Ties go to the shorter vector,
//! then to the smaller `dx`, then to the smaller `dy`. A block whose pixels are
//! all equal has no texture to match: its vector is `(0, 0)`, marked as not
//! confident.
use vstd::prelude::*;
use vstd::arithmetic::div_mod::lemma_fundamental_div_mod_converse;
use crate::error::ImageError;

verus! {

/// Side of the square blocks, in pixels (the literal 16 in the
/// specifications below).
pub const BLOCK_SIZE: usize = 16;

/// Largest displacement searched along each axis, in pixels.
pub const SEARCH_RADIUS: i32 = 4;

/// Motion of one block, in whole pixels from the previous frame to the current one.
#[derive(Clone, Copy, Debug, PartialEq, Eq, Structural)]
pub struct BlockVector {
    pub dx: i32,
    pub dy: i32,
    /// False for a block without texture, whose vector is `(0, 0)` by policy.
    pub confident: bool,
}

/// Block vectors of a frame, row-major: block `(bx, by)` is at `by * cols + bx`.
#[derive(Clone, Debug)]
pub struct FlowField {
    pub cols: usize,
    pub rows: usize,
    pub vectors: Vec<BlockVector>,
}

/// Number of blocks needed to cover `n` pixels.
pub open spec fn grid_dim(n: int) -> int {
    (n + 15) / 16
}

/// First pixel of block `b` along one axis.
pub open spec fn block_start(b: int) -> int {
    b * 16
}

/// One past the last pixel of block `b` along an axis of `n` pixels.
pub open spec fn block_end(b: int, n: int) -> int {
    if b * 16 + 16 <= n {
        b * 16 + 16
    } else {
        n
    }
}

/// First block pixel whose position displaced by `d` is not before the frame.
pub open spec fn span_lo(start: int, d: int) -> int {
    if start >= -d {
        start
    } else {
        -d
    }
}

/// One past the last block pixel whose position displaced by `d` is inside
/// an axis of `n` pixels.
pub open spec fn span_hi(end: int, n: int, d: int) -> int {
    if end <= n - d {
        end
    } else {
        n - d
    }
}

pub open spec fn abs_diff(a: u8, b: u8) -> int {
    if a >= b {
        a - b
    } else {
        b - a
    }
}

/// Sum of absolute differences along row `v`, columns `[u_lo, u_hi)`.
pub open spec fn row_sad(
    prev: Seq<u8>,
    curr: Seq<u8>,
    width: int,
    v: int,
    u_lo: int,
    u_hi: int,
    dx: int,
    dy: int,
) -> int
    decreases u_hi - u_lo,
{
    if u_hi <= u_lo {
        0
    } else {
        row_sad(prev, curr, width, v, u_lo, u_hi - 1, dx, dy) + abs_diff(
            prev[v * width + (u_hi - 1)],
            curr[(v + dy) * width + (u_hi - 1 + dx)],
        )
    }
}

/// Sum of absolute differences over rows `[v_lo, v_hi)`, columns `[u_lo, u_hi)`.
pub open spec fn rect_sad(
    prev: Seq<u8>,
    curr: Seq<u8>,
    width: int,
    u_lo: int,
    u_hi: int,
    v_lo: int,
    v_hi: int,
    dx: int,
    dy: int,
) -> int
    decreases v_hi - v_lo,
{
    if v_hi <= v_lo {
        0
    } else {
        rect_sad(prev, curr, width, u_lo, u_hi, v_lo, v_hi - 1, dx, dy) + row_sad(
            prev,
            curr,
            width,
            v_hi - 1,
            u_lo,
            u_hi,
            dx,
            dy,
        )
    }
}

/// Displacement `(dx, dy)` lies in the search window of block `(bx, by)` and
/// leaves at least one block pixel inside the frame.
pub open spec fn feasible(width: int, height: int, bx: int, by: int, dx: int, dy: int) -> bool {
    &&& -SEARCH_RADIUS <= dx <= SEARCH_RADIUS
    &&& -SEARCH_RADIUS <= dy <= SEARCH_RADIUS
    &&& span_lo(block_start(bx), dx) < span_hi(block_end(bx, width), width, dx)
    &&& span_lo(block_start(by), dy) < span_hi(block_end(by, height), height, dy)
}

/// Sum of absolute differences of block `(bx, by)` against the current frame
/// displaced by `(dx, dy)`, over the pixels that stay inside the frame.
pub open spec fn candidate_sad(
    prev: Seq<u8>,
    curr: Seq<u8>,
    width: int,
    height: int,
    bx: int,
    by: int,
    dx: int,
    dy: int,
) -> int {
    rect_sad(
        prev,
        curr,
        width,
        span_lo(block_start(bx), dx),
        span_hi(block_end(bx, width), width, dx),
        span_lo(block_start(by), dy),
        span_hi(block_end(by, height), height, dy),
        dx,
        dy,
    )
}

/// Number of pixels that `candidate_sad` compares.
pub open spec fn candidate_count(width: int, height: int, bx: int, by: int, dx: int, dy: int) -> int {
    (span_hi(block_end(bx, width), width, dx) - span_lo(block_start(bx), dx)) * (span_hi(
        block_end(by, height),
        height,
        dy,
    ) - span_lo(block_start(by), dy))
}

/// Candidate 1, with difference sum `s1` over `n1` pixels, beats candidate 2:
/// a lower mean difference, then a shorter vector, then a smaller `dx`, then
/// a smaller `dy`.
pub open spec fn beats(
    s1: int,
    n1: int,
    dx1: int,
    dy1: int,
    s2: int,
    n2: int,
    dx2: int,
    dy2: int,
) -> bool {
    if s1 * n2 != s2 * n1 {
        s1 * n2 < s2 * n1
    } else if dx1 * dx1 + dy1 * dy1 != dx2 * dx2 + dy2 * dy2 {
        dx1 * dx1 + dy1 * dy1 < dx2 * dx2 + dy2 * dy2
    } else if dx1 != dx2 {
        dx1 < dx2
    } else {
        dy1 < dy2
    }
}

/// Displacement `(dx2, dy2)` beats `(dx1, dy1)` for block `(bx, by)`.
pub open spec fn candidate_beats(
    prev: Seq<u8>,
    curr: Seq<u8>,
    width: int,
    height: int,
    bx: int,
    by: int,
    dx2: int,
    dy2: int,
    dx1: int,
    dy1: int,
) -> bool {
    beats(
        candidate_sad(prev, curr, width, height, bx, by, dx2, dy2),
        candidate_count(width, height, bx, by, dx2, dy2),
        dx2,
        dy2,
        candidate_sad(prev, curr, width, height, bx, by, dx1, dy1),
        candidate_count(width, height, bx, by, dx1, dy1),
        dx1,
        dy1,
    )
}

/// `(dx, dy)` is the best match of block `(bx, by)`: a candidate that no
/// other candidate beats.
pub open spec fn is_best_match(
    prev: Seq<u8>,
    curr: Seq<u8>,
    width: int,
    height: int,
    bx: int,
    by: int,
    dx: int,
    dy: int,
) -> bool {
    &&& feasible(width, height, bx, by, dx, dy)
    &&& forall|dx2: int, dy2: int|
        #![trigger feasible(width, height, bx, by, dx2, dy2)]
        feasible(width, height, bx, by, dx2, dy2) ==> !candidate_beats(
            prev,
            curr,
            width,
            height,
            bx,
            by,
            dx2,
            dy2,
            dx,
            dy,
        )
}

/// Every pixel of block `(bx, by)` of the previous frame has the same value.
pub open spec fn is_flat_block(prev: Seq<u8>, width: int, height: int, bx: int, by: int) -> bool {
    forall|u: int, v: int|
        block_start(bx) <= u < block_end(bx, width) && block_start(by) <= v < block_end(by, height)
            ==> #[trigger] prev[v * width + u] == prev[block_start(by) * width + block_start(bx)]
}

/// The vector that block `(bx, by)` gets.
pub open spec fn block_vector_ok(
    prev: Seq<u8>,
    curr: Seq<u8>,
    width: int,
    height: int,
    bx: int,
    by: int,
    r: BlockVector,
) -> bool {
    if is_flat_block(prev, width, height, bx, by) {
        r == BlockVector { dx: 0, dy: 0, confident: false }
    } else {
        r.confident && is_best_match(prev, curr, width, height, bx, by, r.dx as int, r.dy as int)
    }
}

/// Why an estimation over the given frames is refused, if it is. Frames are
/// tightly packed, `width` bytes per row.
pub open spec fn flow_error(prev_len: int, curr_len: int, width: int, height: int) -> Option<
    ImageError,
> {
    if width <= 0 || height <= 0 || prev_len != curr_len || width * height > prev_len {
        Some(ImageError::InvalidInput)
    } else {
        None
    }
}


proof fn lemma_frame_index(u: int, v: int, width: int, height: int)
    requires
        0 <= u < width,
        0 <= v < height,
    ensures
        0 <= v * width + u < width * height,
{
    assert(0 <= v * width + u < width * height) by (nonlinear_arith)
        requires
            0 <= u < width,
            0 <= v < height,
    ;
}

/// Mean differences compare transitively: `s1 / n1 <= s2 / n2 <= s3 / n3`
/// gives `s1 / n1 <= s3 / n3`, strictly where either step is strict.
proof fn lemma_ratio_chain(s1: int, n1: int, s2: int, n2: int, s3: int, n3: int)
    requires
        0 < n1,
        0 < n2,
        0 < n3,
        s1 * n2 <= s2 * n1,
        s2 * n3 <= s3 * n2,
    ensures
        s1 * n3 <= s3 * n1,
        s1 * n2 < s2 * n1 || s2 * n3 < s3 * n2 ==> s1 * n3 < s3 * n1,
{
    assert(s1 * n2 * n3 <= s2 * n1 * n3) by (nonlinear_arith)
        requires
            s1 * n2 <= s2 * n1,
            0 < n3,
    ;
    assert(s2 * n3 * n1 <= s3 * n2 * n1) by (nonlinear_arith)
        requires
            s2 * n3 <= s3 * n2,
            0 < n1,
    ;
    assert(s1 * n3 <= s3 * n1) by (nonlinear_arith)
        requires
            0 < n2,
            s1 * n2 * n3 <= s2 * n1 * n3,
            s2 * n3 * n1 <= s3 * n2 * n1,
    ;
    if s1 * n2 < s2 * n1 {
        assert(s1 * n3 < s3 * n1) by (nonlinear_arith)
            requires
                0 < n1,
                0 < n2,
                0 < n3,
                s1 * n2 < s2 * n1,
                s2 * n3 <= s3 * n2,
        ;
    }
    if s2 * n3 < s3 * n2 {
        assert(s1 * n3 < s3 * n1) by (nonlinear_arith)
            requires
                0 < n1,
                0 < n2,
                0 < n3,
                s1 * n2 <= s2 * n1,
                s2 * n3 < s3 * n2,
        ;
    }
}

/// The order between candidates is transitive.
proof fn lemma_beats_transitive(
    s1: int,
    n1: int,
    dx1: int,
    dy1: int,
    s2: int,
    n2: int,
    dx2: int,
    dy2: int,
    s3: int,
    n3: int,
    dx3: int,
    dy3: int,
)
    requires
        0 < n1,
        0 < n2,
        0 < n3,
        beats(s1, n1, dx1, dy1, s2, n2, dx2, dy2),
        beats(s2, n2, dx2, dy2, s3, n3, dx3, dy3),
    ensures
        beats(s1, n1, dx1, dy1, s3, n3, dx3, dy3),
{
    lemma_ratio_chain(s1, n1, s2, n2, s3, n3);
    if s1 * n2 == s2 * n1 && s2 * n3 == s3 * n2 {
        lemma_ratio_chain(s3, n3, s2, n2, s1, n1);
    }
}

/// `x + d`, for a displacement that keeps it a valid index.
fn shift(x: usize, d: i32) -> (r: usize)
    requires
        0 <= x + d <= usize::MAX,
    ensures
        r == x + d,
{
    if d >= 0 {
        x + d as usize
    } else {
        x - (-(d as i64)) as usize
    }
}

/// Range of block pixels `[start, end)` along an axis of `n` pixels whose
/// position displaced by `d` stays on the axis; empty when `r.0 >= r.1`.
fn overlap_span(start: usize, end: usize, n: usize, d: i32) -> (r: (usize, usize))
    requires
        start < end <= n,
        -SEARCH_RADIUS <= d <= SEARCH_RADIUS,
    ensures
        (r.0 < r.1) == (span_lo(start as int, d as int) < span_hi(end as int, n as int, d as int)),
        r.0 < r.1 ==> r.0 == span_lo(start as int, d as int) && r.1 == span_hi(
            end as int,
            n as int,
            d as int,
        ),
{
    let lo = if d >= 0 || start >= (-d) as usize {
        start
    } else {
        (-d) as usize
    };
    let hi = if d <= 0 {
        end
    } else if n < d as usize {
        0
    } else if end <= n - d as usize {
        end
    } else {
        n - d as usize
    };
    (lo, hi)
}

/// Sum of absolute differences over the region `[u_lo, u_hi) x [v_lo, v_hi)`
/// of the previous frame against the current frame displaced by `(dx, dy)`.
#[verifier::loop_isolation(false)]
fn region_sad(
    prev: &[u8],
    curr: &[u8],
    width: usize,
    height: usize,
    u_lo: usize,
    u_hi: usize,
    v_lo: usize,
    v_hi: usize,
    dx: i32,
    dy: i32,
) -> (r: u64)
    requires
        width * height <= prev@.len(),
        width * height <= curr@.len(),
        prev@.len() <= usize::MAX,
        u_lo <= u_hi <= width,
        v_lo <= v_hi <= height,
        u_hi - u_lo <= BLOCK_SIZE,
        v_hi - v_lo <= BLOCK_SIZE,
        0 <= u_lo + dx,
        u_hi + dx <= width,
        0 <= v_lo + dy,
        v_hi + dy <= height,
    ensures
        r == rect_sad(
            prev@,
            curr@,
            width as int,
            u_lo as int,
            u_hi as int,
            v_lo as int,
            v_hi as int,
            dx as int,
            dy as int,
        ),
        r <= 4080 * (v_hi - v_lo),
{
    let mut total: u64 = 0;
    let mut v: usize = v_lo;
    while v < v_hi
        invariant
            width * height <= prev@.len(),
            width * height <= curr@.len(),
            prev@.len() <= usize::MAX,
            u_lo <= u_hi <= width,
            v_lo <= v <= v_hi <= height,
            u_hi - u_lo <= BLOCK_SIZE,
            v_hi - v_lo <= BLOCK_SIZE,
            0 <= u_lo + dx,
            u_hi + dx <= width,
            0 <= v_lo + dy,
            v_hi + dy <= height,
            total == rect_sad(
                prev@,
                curr@,
                width as int,
                u_lo as int,
                u_hi as int,
                v_lo as int,
                v as int,
                dx as int,
                dy as int,
            ),
            total <= 4080 * (v - v_lo),
        decreases v_hi - v,
    {
        let cv = shift(v, dy);
        let mut row: u64 = 0;
        let mut u: usize = u_lo;
        while u < u_hi
            invariant
                width * height <= prev@.len(),
                width * height <= curr@.len(),
                prev@.len() <= usize::MAX,
                u_lo <= u <= u_hi <= width,
                v < height,
                cv == v + dy,
                0 <= cv < height,
                u_hi - u_lo <= BLOCK_SIZE,
                0 <= u_lo + dx,
                u_hi + dx <= width,
                row == row_sad(
                    prev@,
                    curr@,
                    width as int,
                    v as int,
                    u_lo as int,
                    u as int,
                    dx as int,
                    dy as int,
                ),
                row <= 255 * (u - u_lo),
            decreases u_hi - u,
        {
            let cu = shift(u, dx);
            proof {
                lemma_frame_index(u as int, v as int, width as int, height as int);
                lemma_frame_index(cu as int, cv as int, width as int, height as int);
            }
            let a = prev[v * width + u];
            let b = curr[cv * width + cu];
            let diff = if a >= b {
                a - b
            } else {
                b - a
            };
            row = row + diff as u64;
            u = u + 1;
        }
        total = total + row;
        v = v + 1;
    }
    total
}


proof fn lemma_count_positive(width: int, height: int, bx: int, by: int, dx: int, dy: int)
    requires
        feasible(width, height, bx, by, dx, dy),
    ensures
        0 < candidate_count(width, height, bx, by, dx, dy),
{
    let a = span_hi(block_end(bx, width), width, dx) - span_lo(block_start(bx), dx);
    let b = span_hi(block_end(by, height), height, dy) - span_lo(block_start(by), dy);
    assert(0 < a * b) by (nonlinear_arith)
        requires
            0 < a,
            0 < b,
    ;
}

/// Whether the previous frame is constant over the block `[x0, x1) x [y0, y1)`.
#[verifier::loop_isolation(false)]
fn flat_block(
    prev: &[u8],
    width: usize,
    height: usize,
    bx: usize,
    by: usize,
    x0: usize,
    x1: usize,
    y0: usize,
    y1: usize,
) -> (r: bool)
    requires
        width * height <= prev@.len() <= usize::MAX,
        x0 == block_start(bx as int),
        x1 == block_end(bx as int, width as int),
        y0 == block_start(by as int),
        y1 == block_end(by as int, height as int),
        x0 < x1 <= width,
        y0 < y1 <= height,
    ensures
        r == is_flat_block(prev@, width as int, height as int, bx as int, by as int),
{
    proof {
        lemma_frame_index(x0 as int, y0 as int, width as int, height as int);
    }
    let first = prev[y0 * width + x0];
    let mut v: usize = y0;
    while v < y1
        invariant
            y0 <= v <= y1,
            first == prev@[y0 * width + x0],
            forall|u2: int, v2: int|
                x0 <= u2 < x1 && y0 <= v2 < v ==> #[trigger] prev@[v2 * width + u2] == first,
        decreases y1 - v,
    {
        let mut u: usize = x0;
        while u < x1
            invariant
                y0 <= v < y1,
                x0 <= u <= x1,
                forall|u2: int, v2: int|
                    x0 <= u2 < x1 && y0 <= v2 < v ==> #[trigger] prev@[v2 * width + u2] == first,
                forall|u2: int| x0 <= u2 < u ==> #[trigger] prev@[v * width + u2] == first,
            decreases x1 - u,
        {
            proof {
                lemma_frame_index(u as int, v as int, width as int, height as int);
            }
            if prev[v * width + u] != first {
                proof {
                    assert(!(prev@[v as int * width as int + u as int] == prev@[block_start(by as int)
                        * width as int + block_start(bx as int)]));
                }
                return false;
            }
            u = u + 1;
        }
        v = v + 1;
    }
    true
}

/// Executable form of `beats`, for difference sums of at most one block.
fn beats_exec(
    s1: u64,
    n1: u64,
    dx1: i32,
    dy1: i32,
    s2: u64,
    n2: u64,
    dx2: i32,
    dy2: i32,
) -> (r: bool)
    requires
        s1 <= 65280,
        s2 <= 65280,
        n1 <= 256,
        n2 <= 256,
        -SEARCH_RADIUS <= dx1 <= SEARCH_RADIUS,
        -SEARCH_RADIUS <= dy1 <= SEARCH_RADIUS,
        -SEARCH_RADIUS <= dx2 <= SEARCH_RADIUS,
        -SEARCH_RADIUS <= dy2 <= SEARCH_RADIUS,
    ensures
        r == beats(
            s1 as int,
            n1 as int,
            dx1 as int,
            dy1 as int,
            s2 as int,
            n2 as int,
            dx2 as int,
            dy2 as int,
        ),
{
    proof {
        assert(s1 * n2 <= 65280 * 256 && s2 * n1 <= 65280 * 256) by (nonlinear_arith)
            requires
                s1 <= 65280,
                s2 <= 65280,
                n1 <= 256,
                n2 <= 256,
        ;
        assert(dx1 * dx1 <= 16 && dy1 * dy1 <= 16 && dx2 * dx2 <= 16 && dy2 * dy2 <= 16)
            by (nonlinear_arith)
            requires
                -4 <= dx1 <= 4,
                -4 <= dy1 <= 4,
                -4 <= dx2 <= 4,
                -4 <= dy2 <= 4,
        ;
        assert(0 <= dx1 * dx1 && 0 <= dy1 * dy1 && 0 <= dx2 * dx2 && 0 <= dy2 * dy2)
            by (nonlinear_arith);
    }
    let a = s1 * n2;
    let b = s2 * n1;
    if a != b {
        return a < b;
    }
    let m1 = dx1 * dx1 + dy1 * dy1;
    let m2 = dx2 * dx2 + dy2 * dy2;
    if m1 != m2 {
        m1 < m2
    } else if dx1 != dx2 {
        dx1 < dx2
    } else {
        dy1 < dy2
    }
}


/// Motion vector of block `(bx, by)`, whose pixels are `[x0, x1) x [y0, y1)`.
#[verifier::loop_isolation(false)]
fn match_block(
    prev: &[u8],
    curr: &[u8],
    width: usize,
    height: usize,
    bx: usize,
    by: usize,
    x0: usize,
    x1: usize,
    y0: usize,
    y1: usize,
) -> (r: BlockVector)
    requires
        width * height <= prev@.len() <= usize::MAX,
        width * height <= curr@.len(),
        x0 == block_start(bx as int),
        x1 == block_end(bx as int, width as int),
        y0 == block_start(by as int),
        y1 == block_end(by as int, height as int),
        x0 < x1 <= width,
        y0 < y1 <= height,
    ensures
        block_vector_ok(prev@, curr@, width as int, height as int, bx as int, by as int, r),
        feasible(width as int, height as int, bx as int, by as int, r.dx as int, r.dy as int),
{
    let ghost (w, h, pv, cv) = (width as int, height as int, prev@, curr@);
    if flat_block(prev, width, height, bx, by, x0, x1, y0, y1) {
        return BlockVector { dx: 0, dy: 0, confident: false };
    }
    let mut found = false;
    let mut best_dx: i32 = 0;
    let mut best_dy: i32 = 0;
    let mut best_s: u64 = 0;
    let mut best_n: u64 = 1;
    let mut dy: i32 = -SEARCH_RADIUS;
    while dy <= SEARCH_RADIUS
        invariant
            -SEARCH_RADIUS <= dy <= SEARCH_RADIUS + 1,
            found ==> {
                &&& feasible(w, h, bx as int, by as int, best_dx as int, best_dy as int)
                &&& best_s == candidate_sad(pv, cv, w, h, bx as int, by as int, best_dx as int, best_dy as int)
                &&& best_n == candidate_count(w, h, bx as int, by as int, best_dx as int, best_dy as int)
                &&& best_s <= 65280
                &&& 1 <= best_n <= 256
            },
            forall|dx2: int, dy2: int|
                #![trigger feasible(w, h, bx as int, by as int, dx2, dy2)]
                feasible(w, h, bx as int, by as int, dx2, dy2) && dy2 < dy ==> found
                    && !candidate_beats(pv, cv, w, h, bx as int, by as int, dx2, dy2, best_dx as int, best_dy as int),
        decreases SEARCH_RADIUS + 1 - dy,
    {
        let mut dx: i32 = -SEARCH_RADIUS;
        while dx <= SEARCH_RADIUS
            invariant
                -SEARCH_RADIUS <= dy <= SEARCH_RADIUS,
                -SEARCH_RADIUS <= dx <= SEARCH_RADIUS + 1,
                found ==> {
                    &&& feasible(w, h, bx as int, by as int, best_dx as int, best_dy as int)
                    &&& best_s == candidate_sad(pv, cv, w, h, bx as int, by as int, best_dx as int, best_dy as int)
                    &&& best_n == candidate_count(w, h, bx as int, by as int, best_dx as int, best_dy as int)
                    &&& best_s <= 65280
                    &&& 1 <= best_n <= 256
                },
                forall|dx2: int, dy2: int|
                    #![trigger feasible(w, h, bx as int, by as int, dx2, dy2)]
                    feasible(w, h, bx as int, by as int, dx2, dy2) && (dy2 < dy || (dy2 == dy && dx2 < dx))
                        ==> found && !candidate_beats(pv, cv, w, h, bx as int, by as int, dx2, dy2, best_dx as int, best_dy as int),
            decreases SEARCH_RADIUS + 1 - dx,
        {
            let (u_lo, u_hi) = overlap_span(x0, x1, width, dx);
            let (v_lo, v_hi) = overlap_span(y0, y1, height, dy);
            if u_lo < u_hi && v_lo < v_hi {
                let sad = region_sad(prev, curr, width, height, u_lo, u_hi, v_lo, v_hi, dx, dy);
                proof {
                    assert(0 < (u_hi - u_lo) * (v_hi - v_lo) <= 256) by (nonlinear_arith)
                        requires
                            0 < u_hi - u_lo <= 16,
                            0 < v_hi - v_lo <= 16,
                    ;
                }
                let n = ((u_hi - u_lo) * (v_hi - v_lo)) as u64;
                assert(n == candidate_count(w, h, bx as int, by as int, dx as int, dy as int));
                if !found || beats_exec(sad, n, dx, dy, best_s, best_n, best_dx, best_dy) {
                    proof {
                        assert(feasible(w, h, bx as int, by as int, dx as int, dy as int));
                        assert forall|dx2: int, dy2: int|
                            #![trigger feasible(w, h, bx as int, by as int, dx2, dy2)]
                            feasible(w, h, bx as int, by as int, dx2, dy2) && (dy2 < dy || (dy2 == dy && dx2 <= dx))
                            implies !candidate_beats(pv, cv, w, h, bx as int, by as int, dx2, dy2, dx as int, dy as int) by {
                            if found && !(dx2 == dx && dy2 == dy) && candidate_beats(pv, cv, w, h, bx as int, by as int, dx2, dy2, dx as int, dy as int) {
                                lemma_count_positive(w, h, bx as int, by as int, dx2, dy2);
                                lemma_beats_transitive(
                                    candidate_sad(pv, cv, w, h, bx as int, by as int, dx2, dy2),
                                    candidate_count(w, h, bx as int, by as int, dx2, dy2),
                                    dx2,
                                    dy2,
                                    sad as int,
                                    n as int,
                                    dx as int,
                                    dy as int,
                                    best_s as int,
                                    best_n as int,
                                    best_dx as int,
                                    best_dy as int,
                                );
                            }
                        }
                    }
                    found = true;
                    best_dx = dx;
                    best_dy = dy;
                    best_s = sad;
                    best_n = n;
                }
            }
            dx = dx + 1;
        }
        dy = dy + 1;
    }
    proof {
        assert(feasible(w, h, bx as int, by as int, 0, 0));
    }
    BlockVector { dx: best_dx, dy: best_dy, confident: true }
}


/// `f` holds the vector of every block of the frame pair, row-major.
pub open spec fn flow_field_ok(
    prev: Seq<u8>,
    curr: Seq<u8>,
    width: int,
    height: int,
    f: FlowField,
) -> bool {
    &&& f.cols == grid_dim(width)
    &&& f.rows == grid_dim(height)
    &&& f.vectors@.len() == f.cols * f.rows
    &&& forall|bx: int, by: int|
        0 <= bx < f.cols && 0 <= by < f.rows ==> block_vector_ok(
            prev,
            curr,
            width,
            height,
            bx,
            by,
            #[trigger] f.vectors@[by * f.cols + bx],
        )
}

/// Number of blocks covering `n` pixels.
fn grid_len(n: usize) -> (r: usize)
    ensures
        r == grid_dim(n as int),
{
    if n % BLOCK_SIZE == 0 {
        n / BLOCK_SIZE
    } else {
        n / BLOCK_SIZE + 1
    }
}

/// First pixel and one past the last pixel of block `b` along an axis of `n` pixels.
fn block_bounds(b: usize, n: usize) -> (r: (usize, usize))
    requires
        b < grid_dim(n as int),
    ensures
        r.0 == block_start(b as int),
        r.1 == block_end(b as int, n as int),
        r.0 < r.1 <= n,
{
    let start = b * BLOCK_SIZE;
    let end = if n - start >= BLOCK_SIZE {
        start + BLOCK_SIZE
    } else {
        n
    };
    (start, end)
}

/// Estimates the motion of each block of `prev` into `curr`, two tightly
/// packed 8-bit grayscale frames of `width x height` pixels.
pub fn estimate_flow(prev: &[u8], curr: &[u8], width: usize, height: usize) -> (r: Result<
    FlowField,
    ImageError,
>)
    ensures
        match flow_error(prev@.len() as int, curr@.len() as int, width as int, height as int) {
            Some(e) => r == Err::<FlowField, ImageError>(e),
            None => r is Ok && flow_field_ok(prev@, curr@, width as int, height as int, r.unwrap()),
        },
        r is Ok ==> forall|bx: int, by: int|
            0 <= bx < r.unwrap().cols && 0 <= by < r.unwrap().rows ==> #[trigger] feasible(
                width as int,
                height as int,
                bx,
                by,
                r.unwrap().vectors@[by * r.unwrap().cols + bx].dx as int,
                r.unwrap().vectors@[by * r.unwrap().cols + bx].dy as int,
            ),
{
    let prev_len = prev.len();
    if width == 0 || height == 0 || prev_len != curr.len() {
        return Err(ImageError::InvalidInput);
    }
    match width.checked_mul(height) {
        Some(n) => {
            if n > prev_len {
                return Err(ImageError::InvalidInput);
            }
        },
        None => return Err(ImageError::InvalidInput),
    }
    let cols = grid_len(width);
    let rows = grid_len(height);
    let mut vectors: Vec<BlockVector> = Vec::new();
    let mut by: usize = 0;
    while by < rows
        invariant
            width * height <= prev@.len() <= usize::MAX,
            prev@.len() == curr@.len(),
            cols == grid_dim(width as int),
            rows == grid_dim(height as int),
            0 < cols,
            by <= rows,
            vectors@.len() == by * cols,
            forall|i: int|
                0 <= i < vectors@.len() ==> {
                    &&& block_vector_ok(prev@, curr@, width as int, height as int, i % cols as int, i / cols as int, #[trigger] vectors@[i])
                    &&& feasible(width as int, height as int, i % cols as int, i / cols as int, vectors@[i].dx as int, vectors@[i].dy as int)
                },
        decreases rows - by,
    {
        let (y0, y1) = block_bounds(by, height);
        let mut bx: usize = 0;
        while bx < cols
            invariant
                width * height <= prev@.len() <= usize::MAX,
                prev@.len() == curr@.len(),
                cols == grid_dim(width as int),
                rows == grid_dim(height as int),
                0 < cols,
                by < rows,
                y0 == block_start(by as int),
                y1 == block_end(by as int, height as int),
                y0 < y1 <= height,
                bx <= cols,
                vectors@.len() == by * cols + bx,
                forall|i: int|
                    0 <= i < vectors@.len() ==> {
                        &&& block_vector_ok(prev@, curr@, width as int, height as int, i % cols as int, i / cols as int, #[trigger] vectors@[i])
                        &&& feasible(width as int, height as int, i % cols as int, i / cols as int, vectors@[i].dx as int, vectors@[i].dy as int)
                    },
            decreases cols - bx,
        {
            let (x0, x1) = block_bounds(bx, width);
            let v = match_block(prev, curr, width, height, bx, by, x0, x1, y0, y1);
            proof {
                lemma_fundamental_div_mod_converse(vectors@.len() as int, cols as int, by as int, bx as int);
            }
            vectors.push(v);
            bx = bx + 1;
        }
        proof {
            assert((by + 1) * cols == by * cols + cols) by (nonlinear_arith);
        }
        by = by + 1;
    }
    let f = FlowField { cols, rows, vectors };
    proof {
        assert(rows * cols == cols * rows) by (nonlinear_arith);
        assert forall|bx: int, by: int| 0 <= bx < cols && 0 <= by < rows implies {
            &&& block_vector_ok(prev@, curr@, width as int, height as int, bx, by, #[trigger] f.vectors@[by * cols + bx])
            &&& feasible(width as int, height as int, bx, by, f.vectors@[by * cols + bx].dx as int, f.vectors@[by * cols + bx].dy as int)
        } by {
            assert(0 <= by * cols + bx < rows * cols) by (nonlinear_arith)
                requires
                    0 <= bx < cols,
                    0 <= by < rows,
            ;
            lemma_fundamental_div_mod_converse(by * cols + bx, cols as int, by, bx);
        }
    }
    Ok(f)
}


proof fn lemma_row_sad_nonneg(
    prev: Seq<u8>,
    curr: Seq<u8>,
    width: int,
    v: int,
    u_lo: int,
    u_hi: int,
    dx: int,
    dy: int,
)
    ensures
        0 <= row_sad(prev, curr, width, v, u_lo, u_hi, dx, dy),
    decreases u_hi - u_lo,
{
    if u_hi > u_lo {
        lemma_row_sad_nonneg(prev, curr, width, v, u_lo, u_hi - 1, dx, dy);
    }
}

proof fn lemma_rect_sad_nonneg(
    prev: Seq<u8>,
    curr: Seq<u8>,
    width: int,
    u_lo: int,
    u_hi: int,
    v_lo: int,
    v_hi: int,
    dx: int,
    dy: int,
)
    ensures
        0 <= rect_sad(prev, curr, width, u_lo, u_hi, v_lo, v_hi, dx, dy),
    decreases v_hi - v_lo,
{
    if v_hi > v_lo {
        lemma_rect_sad_nonneg(prev, curr, width, u_lo, u_hi, v_lo, v_hi - 1, dx, dy);
        lemma_row_sad_nonneg(prev, curr, width, v_hi - 1, u_lo, u_hi, dx, dy);
    }
}

proof fn lemma_row_sad_self(frame: Seq<u8>, width: int, v: int, u_lo: int, u_hi: int)
    ensures
        row_sad(frame, frame, width, v, u_lo, u_hi, 0, 0) == 0,
    decreases u_hi - u_lo,
{
    if u_hi > u_lo {
        lemma_row_sad_self(frame, width, v, u_lo, u_hi - 1);
    }
}

proof fn lemma_rect_sad_self(frame: Seq<u8>, width: int, u_lo: int, u_hi: int, v_lo: int, v_hi: int)
    ensures
        rect_sad(frame, frame, width, u_lo, u_hi, v_lo, v_hi, 0, 0) == 0,
    decreases v_hi - v_lo,
{
    if v_hi > v_lo {
        lemma_rect_sad_self(frame, width, u_lo, u_hi, v_lo, v_hi - 1);
        lemma_row_sad_self(frame, width, v_hi - 1, u_lo, u_hi);
    }
}

proof fn lemma_block_still(frame: Seq<u8>, width: int, height: int, f: FlowField, bx: int, by: int)
    requires
        flow_error(frame.len() as int, frame.len() as int, width, height) is None,
        flow_field_ok(frame, frame, width, height, f),
        0 <= bx < f.cols,
        0 <= by < f.rows,
    ensures
        candidate_sad(frame, frame, width, height, bx, by, 0, 0) == 0,
        f.vectors@[by * f.cols + bx].dx == 0,
        f.vectors@[by * f.cols + bx].dy == 0,
{
    let r = f.vectors@[by * f.cols + bx];
    let (dx, dy) = (r.dx as int, r.dy as int);
    lemma_rect_sad_self(
        frame,
        width,
        span_lo(block_start(bx), 0),
        span_hi(block_end(bx, width), width, 0),
        span_lo(block_start(by), 0),
        span_hi(block_end(by, height), height, 0),
    );
    assert(block_vector_ok(frame, frame, width, height, bx, by, r));
    if !is_flat_block(frame, width, height, bx, by) && !(dx == 0 && dy == 0) {
        assert(feasible(width, height, bx, by, 0, 0));
        lemma_count_positive(width, height, bx, by, 0, 0);
        lemma_count_positive(width, height, bx, by, dx, dy);
        lemma_rect_sad_nonneg(
            frame,
            frame,
            width,
            span_lo(block_start(bx), dx),
            span_hi(block_end(bx, width), width, dx),
            span_lo(block_start(by), dy),
            span_hi(block_end(by, height), height, dy),
            dx,
            dy,
        );
        let s = candidate_sad(frame, frame, width, height, bx, by, dx, dy);
        let n0 = candidate_count(width, height, bx, by, 0, 0);
        let n = candidate_count(width, height, bx, by, dx, dy);
        assert(0 * n <= s * n0) by (nonlinear_arith)
            requires
                0 <= s,
                0 < n0,
        ;
        assert(0 < dx * dx + dy * dy) by (nonlinear_arith)
            requires
                !(dx == 0 && dy == 0),
        ;
        assert(candidate_beats(frame, frame, width, height, bx, by, 0, 0, dx, dy));
    }
}

/// A frame compared with itself shows no motion: the zero displacement
/// matches every block perfectly, and every block of the field gets the
/// vector `(0, 0)`.
pub proof fn lemma_identical_frames_still(frame: Seq<u8>, width: int, height: int, f: FlowField)
    requires
        flow_error(frame.len() as int, frame.len() as int, width, height) is None,
        flow_field_ok(frame, frame, width, height, f),
    ensures
        forall|bx: int, by: int|
            #![trigger f.vectors@[by * f.cols + bx]]
            #![trigger candidate_sad(frame, frame, width, height, bx, by, 0, 0)]
            0 <= bx < f.cols && 0 <= by < f.rows ==> {
                &&& candidate_sad(frame, frame, width, height, bx, by, 0, 0) == 0
                &&& f.vectors@[by * f.cols + bx].dx == 0
                &&& f.vectors@[by * f.cols + bx].dy == 0
            },
{
    assert forall|bx: int, by: int|
        #![trigger f.vectors@[by * f.cols + bx]]
        #![trigger candidate_sad(frame, frame, width, height, bx, by, 0, 0)]
        0 <= bx < f.cols && 0 <= by < f.rows implies {
        &&& candidate_sad(frame, frame, width, height, bx, by, 0, 0) == 0
        &&& f.vectors@[by * f.cols + bx].dx == 0
        &&& f.vectors@[by * f.cols + bx].dy == 0
    } by {
        lemma_block_still(frame, width, height, f, bx, by);
    }
}


/// `curr` is `prev` moved by `(dx0, dy0)`: every pixel of `curr` whose source
/// position lies inside the frame holds the source pixel of `prev`. Pixels
/// without a source may hold anything (a background).
pub open spec fn is_shifted_copy(
    prev: Seq<u8>,
    curr: Seq<u8>,
    width: int,
    height: int,
    dx0: int,
    dy0: int,
) -> bool {
    forall|x: int, y: int|
        0 <= x < width && 0 <= y < height && 0 <= x - dx0 < width && 0 <= y - dy0 < height
            ==> #[trigger] curr[y * width + x] == prev[(y - dy0) * width + (x - dx0)]
}

proof fn lemma_row_sad_shifted(
    prev: Seq<u8>,
    curr: Seq<u8>,
    width: int,
    height: int,
    v: int,
    u_lo: int,
    u_hi: int,
    dx0: int,
    dy0: int,
)
    requires
        is_shifted_copy(prev, curr, width, height, dx0, dy0),
        0 <= v < height,
        0 <= v + dy0 < height,
        0 <= u_lo,
        u_hi <= width,
        0 <= u_lo + dx0,
        u_hi + dx0 <= width,
    ensures
        row_sad(prev, curr, width, v, u_lo, u_hi, dx0, dy0) == 0,
    decreases u_hi - u_lo,
{
    if u_hi > u_lo {
        lemma_row_sad_shifted(prev, curr, width, height, v, u_lo, u_hi - 1, dx0, dy0);
        let (x, y) = (u_hi - 1 + dx0, v + dy0);
        assert(curr[y * width + x] == prev[(y - dy0) * width + (x - dx0)]);
        assert(y - dy0 == v && x - dx0 == u_hi - 1);
    }
}

proof fn lemma_rect_sad_shifted(
    prev: Seq<u8>,
    curr: Seq<u8>,
    width: int,
    height: int,
    u_lo: int,
    u_hi: int,
    v_lo: int,
    v_hi: int,
    dx0: int,
    dy0: int,
)
    requires
        is_shifted_copy(prev, curr, width, height, dx0, dy0),
        0 <= u_lo,
        u_hi <= width,
        0 <= u_lo + dx0,
        u_hi + dx0 <= width,
        0 <= v_lo,
        v_hi <= height,
        0 <= v_lo + dy0,
        v_hi + dy0 <= height,
    ensures
        rect_sad(prev, curr, width, u_lo, u_hi, v_lo, v_hi, dx0, dy0) == 0,
    decreases v_hi - v_lo,
{
    if v_hi > v_lo {
        lemma_rect_sad_shifted(prev, curr, width, height, u_lo, u_hi, v_lo, v_hi - 1, dx0, dy0);
        lemma_row_sad_shifted(prev, curr, width, height, v_hi - 1, u_lo, u_hi, dx0, dy0);
    }
}

proof fn lemma_block_shift(
    prev: Seq<u8>,
    curr: Seq<u8>,
    width: int,
    height: int,
    dx0: int,
    dy0: int,
    f: FlowField,
    bx: int,
    by: int,
)
    requires
        flow_error(prev.len() as int, curr.len() as int, width, height) is None,
        flow_field_ok(prev, curr, width, height, f),
        is_shifted_copy(prev, curr, width, height, dx0, dy0),
        0 <= bx < f.cols,
        0 <= by < f.rows,
        feasible(width, height, bx, by, dx0, dy0),
        !is_flat_block(prev, width, height, bx, by),
    ensures
        candidate_sad(
            prev,
            curr,
            width,
            height,
            bx,
            by,
            f.vectors@[by * f.cols + bx].dx as int,
            f.vectors@[by * f.cols + bx].dy as int,
        ) == 0,
        (f.vectors@[by * f.cols + bx].dx == dx0 && f.vectors@[by * f.cols + bx].dy == dy0) || beats(
            0,
            1,
            f.vectors@[by * f.cols + bx].dx as int,
            f.vectors@[by * f.cols + bx].dy as int,
            0,
            1,
            dx0,
            dy0,
        ),
{
    let r = f.vectors@[by * f.cols + bx];
    let (dx, dy) = (r.dx as int, r.dy as int);
    assert(block_vector_ok(prev, curr, width, height, bx, by, r));
    assert(block_end(bx, width) <= width && block_end(by, height) <= height);
    lemma_rect_sad_shifted(
        prev,
        curr,
        width,
        height,
        span_lo(block_start(bx), dx0),
        span_hi(block_end(bx, width), width, dx0),
        span_lo(block_start(by), dy0),
        span_hi(block_end(by, height), height, dy0),
        dx0,
        dy0,
    );
    lemma_count_positive(width, height, bx, by, dx0, dy0);
    lemma_count_positive(width, height, bx, by, dx, dy);
    lemma_rect_sad_nonneg(
        prev,
        curr,
        width,
        span_lo(block_start(bx), dx),
        span_hi(block_end(bx, width), width, dx),
        span_lo(block_start(by), dy),
        span_hi(block_end(by, height), height, dy),
        dx,
        dy,
    );
    let s = candidate_sad(prev, curr, width, height, bx, by, dx, dy);
    let n0 = candidate_count(width, height, bx, by, dx0, dy0);
    let n = candidate_count(width, height, bx, by, dx, dy);
    assert(!candidate_beats(prev, curr, width, height, bx, by, dx0, dy0, dx, dy));
    assert(0 * n == 0);
    if s > 0 {
        assert(0 < s * n0) by (nonlinear_arith)
            requires
                0 < s,
                0 < n0,
        ;
    }
    assert(s * n0 == 0 ==> s == 0) by (nonlinear_arith)
        requires
            0 <= s,
            0 < n0,
    ;
}

/// Where the current frame is the previous one moved by `(dx0, dy0)`, every
/// textured block whose search window holds `(dx0, dy0)` gets a vector that
/// matches it perfectly (zero difference). That vector is `(dx0, dy0)` itself
/// unless another perfect match wins the tie-break: shorter, or as short and
/// smaller in `(dx, dy)` order.
pub proof fn lemma_shift_recovered(
    prev: Seq<u8>,
    curr: Seq<u8>,
    width: int,
    height: int,
    dx0: int,
    dy0: int,
    f: FlowField,
)
    requires
        flow_error(prev.len() as int, curr.len() as int, width, height) is None,
        flow_field_ok(prev, curr, width, height, f),
        is_shifted_copy(prev, curr, width, height, dx0, dy0),
    ensures
        forall|bx: int, by: int|
            #![trigger f.vectors@[by * f.cols + bx]]
            0 <= bx < f.cols && 0 <= by < f.rows && feasible(width, height, bx, by, dx0, dy0)
                && !is_flat_block(prev, width, height, bx, by) ==> {
                &&& candidate_sad(
                    prev,
                    curr,
                    width,
                    height,
                    bx,
                    by,
                    f.vectors@[by * f.cols + bx].dx as int,
                    f.vectors@[by * f.cols + bx].dy as int,
                ) == 0
                &&& (f.vectors@[by * f.cols + bx].dx == dx0 && f.vectors@[by * f.cols + bx].dy
                    == dy0) || beats(
                    0,
                    1,
                    f.vectors@[by * f.cols + bx].dx as int,
                    f.vectors@[by * f.cols + bx].dy as int,
                    0,
                    1,
                    dx0,
                    dy0,
                )
            },
{
    assert forall|bx: int, by: int|
        #![trigger f.vectors@[by * f.cols + bx]]
        0 <= bx < f.cols && 0 <= by < f.rows && feasible(width, height, bx, by, dx0, dy0)
            && !is_flat_block(prev, width, height, bx, by) implies {
            &&& candidate_sad(
                prev,
                curr,
                width,
                height,
                bx,
                by,
                f.vectors@[by * f.cols + bx].dx as int,
                f.vectors@[by * f.cols + bx].dy as int,
            ) == 0
            &&& (f.vectors@[by * f.cols + bx].dx == dx0 && f.vectors@[by * f.cols + bx].dy == dy0)
                || beats(
                0,
                1,
                f.vectors@[by * f.cols + bx].dx as int,
                f.vectors@[by * f.cols + bx].dy as int,
                0,
                1,
                dx0,
                dy0,
            )
        } by {
        lemma_block_shift(prev, curr, width, height, dx0, dy0, f, bx, by);
    }
}

} // verus!
