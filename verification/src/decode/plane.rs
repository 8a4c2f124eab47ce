//! The planes of a frame, and where the transform blocks of a coded block lie in them.
use vstd::arithmetic::power2::is_pow2;
use vstd::prelude::*;

use crate::adapt::min_int;
use crate::block::{ModeInfo, BLOCK_8X8};
use crate::decode::modeinfo::valid_mi;
use crate::decode::reconstructor::{Reconstructor, BLOCK_MI_HEIGHT, BLOCK_MI_WIDTH};
use crate::geom_tables::MAX_TXSIZE;

verus! {

/// The width of each block size in units of four pixels.
pub const N4W: [usize; 13] = [1, 1, 2, 2, 2, 4, 4, 4, 8, 8, 8, 16, 16];

/// The height of each block size in units of four pixels.
pub const N4H: [usize; 13] = [1, 2, 1, 2, 4, 2, 4, 8, 4, 8, 16, 8, 16];

/// The room that a plane has to its right and below it.
pub const PLANE_PAD: usize = 72;

/// `x` in a plane that is subsampled if `ss` is 1.
pub open spec fn halved(x: int, ss: int) -> int {
    if ss == 0 {
        x
    } else {
        x / 2
    }
}

/// `x` shifted right by `ss`, which is 0 or 1.
pub(crate) fn halve(x: usize, ss: usize) -> (r: usize)
    requires
        ss <= 1,
    ensures
        r == halved(x as int, ss as int),
{
    if ss == 0 {
        x
    } else {
        x / 2
    }
}

/// The least power of two that is not less than `n`.
pub fn power_of_two_from(n: usize) -> (r: usize)
    requires
        1 <= n <= 0x4000_0000,
    ensures
        is_pow2(r as int),
        n <= r < 2 * n,
{
    let mut p: usize = 1;
    proof {
        reveal_with_fuel(is_pow2, 2);
    }
    while p < n
        invariant
            is_pow2(p as int),
            1 <= p < 2 * n,
            n <= 0x4000_0000,
        decreases 2 * n - p,
    {
        let ghost q = p as int;
        p = p * 2;
        proof {
            reveal_with_fuel(is_pow2, 2);
            assert((q * 2) % 2 == 0 && (q * 2) / 2 == q);
        }
    }
    p
}

/// A plane of samples, with room to the right and below.
pub struct Plane {
    pub buf: Vec<u16>,
    pub stride: usize,
    pub width: usize,
    pub height: usize,
    pub ss_x: usize,
    pub ss_y: usize,
}

impl Plane {
    /// The samples of the plane and of the room around it are all there.
    pub open spec fn wf(&self) -> bool {
        &&& self.width + PLANE_PAD <= self.stride
        &&& self.buf@.len() == self.stride * (self.height + PLANE_PAD)
    }

    /// The plane of a frame of `width` by `height` pixels, all of it zero.
    pub fn new(width: usize, height: usize, ss_x: usize, ss_y: usize) -> (p: Plane)
        requires
            width <= 0x10000,
            height <= 0x10000,
            ss_x <= 1,
            ss_y <= 1,
            2 * (width + PLANE_PAD) * (height + PLANE_PAD) <= usize::MAX,
        ensures
            p.wf(),
            p.width == halved(width + ss_x, ss_x as int),
            p.height == halved(height + ss_y, ss_y as int),
            p.ss_x == ss_x,
            p.ss_y == ss_y,
            is_pow2(p.stride as int),
            p.stride < 2 * (p.width + PLANE_PAD),
            forall|i: int| 0 <= i < p.buf@.len() ==> #[trigger] p.buf@[i] == 0,
    {
        let w: usize = halve(width + ss_x, ss_x);
        let h: usize = halve(height + ss_y, ss_y);
        let stride: usize = power_of_two_from(w + PLANE_PAD);
        assert(stride * (h + PLANE_PAD) <= 2 * (width + PLANE_PAD) * (height + PLANE_PAD))
            by (nonlinear_arith)
            requires
                stride <= 2 * (width + PLANE_PAD),
                h <= height,
                0 <= PLANE_PAD,
        ;
        Plane {
            buf: vec![0u16; stride * (h + PLANE_PAD)],
            stride,
            width: w,
            height: h,
            ss_x,
            ss_y,
        }
    }
}

/// `found` is the block size of `w` by `h` units of four pixels; 0 if there is none.
pub open spec fn is_size_of(found: int, w: int, h: int) -> bool {
    ||| 0 <= found < 13 && N4W[found] == w && N4H[found] == h
    ||| found == 0 && forall|b: int|
        0 <= b < 13 ==> !(#[trigger] N4W[b] == w && #[trigger] N4H[b] == h)
}

/// The block size of `w` by `h` units of four pixels; 0 if there is none.
pub open spec fn size_of(w: int, h: int) -> int {
    choose|b: int| is_size_of(b, w, h)
}

/// `a`, but at least 1.
pub open spec fn at_least_one(a: int) -> int {
    if a < 1 {
        1
    } else {
        a
    }
}

/// The size of a block in a subsampled plane.
pub open spec fn chroma_size(bsize: int, ss_x: int, ss_y: int) -> int {
    if ss_x == 0 && ss_y == 0 {
        bsize
    } else {
        size_of(
            at_least_one(halved(N4W[bsize] as int, ss_x)),
            at_least_one(halved(N4H[bsize] as int, ss_y)),
        )
    }
}

/// No two block sizes have the same width and height.
proof fn lemma_sizes_differ(a: int, b: int, w: int, h: int)
    requires
        is_size_of(a, w, h),
        is_size_of(b, w, h),
    ensures
        a == b,
{
    assert(forall|i: int, j: int|
        0 <= i < 13 && 0 <= j < 13 && N4W[i] == N4W[j] && N4H[i] == N4H[j] ==> i == j);
}

/// The size of a block in a subsampled plane: that with the subsampled width and
/// height, each at least four pixels; 0 if there is no such size.
pub fn ss_size_lookup(bsize: usize, ss_x: usize, ss_y: usize) -> (r: usize)
    requires
        bsize < 13,
        ss_x <= 1,
        ss_y <= 1,
    ensures
        r == chroma_size(bsize as int, ss_x as int, ss_y as int),
        r < 13,
{
    if ss_x == 0 && ss_y == 0 {
        return bsize;
    }
    let w1: usize = halve(N4W[bsize], ss_x);
    let h1: usize = halve(N4H[bsize], ss_y);
    let w: usize = if w1 < 1 {
        1
    } else {
        w1
    };
    let h: usize = if h1 < 1 {
        1
    } else {
        h1
    };
    let mut b: usize = 0;
    while b < 13
        invariant
            b <= 13,
            forall|k: int| 0 <= k < b ==> !(#[trigger] N4W[k] == w && #[trigger] N4H[k] == h),
        ensures
            b <= 13,
            forall|k: int| 0 <= k < b ==> !(#[trigger] N4W[k] == w && #[trigger] N4H[k] == h),
            b < 13 ==> N4W[b as int] == w && N4H[b as int] == h,
        decreases 13 - b,
    {
        if N4W[b] == w && N4H[b] == h {
            break;
        }
        b += 1;
    }
    let found: usize = if b < 13 {
        b
    } else {
        0
    };
    proof {
        assert(is_size_of(found as int, w as int, h as int));
        lemma_sizes_differ(found as int, size_of(w as int, h as int), w as int, h as int);
    }
    found
}

/// There is always a size that a block has in a subsampled plane.
pub proof fn lemma_size_found(w: int, h: int)
    ensures
        is_size_of(size_of(w, h), w, h),
{
    if forall|b: int| 0 <= b < 13 ==> !(#[trigger] N4W[b] == w && #[trigger] N4H[b] == h) {
        assert(is_size_of(0, w, h));
    } else {
        let b = choose|b: int|
            0 <= b < 13 && #[trigger] N4W[b] == w && #[trigger] N4H[b] == h;
        assert(is_size_of(b, w, h));
    }
}

/// The transform size of the chroma planes of a block.
pub open spec fn chroma_tx(bsize: int, tx_size: int, ss_x: int, ss_y: int) -> int {
    if bsize < BLOCK_8X8 {
        0
    } else {
        min_int(tx_size, MAX_TXSIZE[chroma_size(bsize, ss_x, ss_y)] as int)
    }
}

/// The transform size of the chroma planes of a block: 4x4 below 8x8, else that of luma,
/// up to the largest one that fits.
pub fn uv_tx_size(bsize: usize, tx_size: usize, ss_x: usize, ss_y: usize) -> (r: usize)
    requires
        bsize < 13,
        ss_x <= 1,
        ss_y <= 1,
    ensures
        r == chroma_tx(bsize as int, tx_size as int, ss_x as int, ss_y as int),
{
    if bsize < BLOCK_8X8 {
        return 0;
    }
    let largest: usize = MAX_TXSIZE[ss_size_lookup(bsize, ss_x, ss_y)] as usize;
    if tx_size < largest {
        tx_size
    } else {
        largest
    }
}

/// A coded block in a plane. Places and sizes are in units of four pixels, but for
/// those in pixels.
#[derive(Clone, Copy, Debug, PartialEq, Eq, Structural)]
pub struct PlaneBlock {
    /// The size of the block.
    pub n4_w: usize,
    pub n4_h: usize,
    /// The part of it that lies in the frame.
    pub max_w: usize,
    pub max_h: usize,
    pub tx_size: usize,
    /// Its first pixel.
    pub base_x: usize,
    pub base_y: usize,
    /// Its place in the entropy contexts.
    pub above_col0: usize,
    pub left_row0: usize,
    /// The distance of its right and lower edge to those of the frame, in eighths of
    /// pixels.
    pub mb_to_right: i32,
    pub mb_to_bottom: i32,
}

/// The block with mode information `m` at `row`, `col` in a plane.
pub open spec fn plane_block(
    m: ModeInfo,
    plane: int,
    row: int,
    col: int,
    rows: int,
    cols: int,
    ss_x: int,
    ss_y: int,
) -> PlaneBlock {
    let w = BLOCK_MI_WIDTH[m.sb_type as int] as int;
    let h = BLOCK_MI_HEIGHT[m.sb_type as int] as int;
    PlaneBlock {
        n4_w: halved(2 * w, ss_x) as usize,
        n4_h: halved(2 * h, ss_y) as usize,
        max_w: halved(2 * min_int(w, cols - col), ss_x) as usize,
        max_h: halved(2 * min_int(h, rows - row), ss_y) as usize,
        tx_size: (if plane == 0 {
            m.tx_size as int
        } else {
            chroma_tx(m.sb_type as int, m.tx_size as int, ss_x, ss_y)
        }) as usize,
        base_x: halved(8 * col, ss_x) as usize,
        base_y: halved(8 * row, ss_y) as usize,
        above_col0: halved(2 * col, ss_x) as usize,
        left_row0: halved(2 * (row % 8), ss_y) as usize,
        mb_to_right: (64 * (cols - w - col)) as i32,
        mb_to_bottom: (64 * (rows - h - row)) as i32,
    }
}

/// The block with mode information `m` at `mi_row`, `mi_col` in a plane of a frame of
/// `rows` by `cols` units of eight pixels, subsampled by `ss_x` and `ss_y`.
pub fn block_in_plane(
    m: &ModeInfo,
    plane: usize,
    mi_row: usize,
    mi_col: usize,
    rows: usize,
    cols: usize,
    ss_x: usize,
    ss_y: usize,
) -> (r: PlaneBlock)
    requires
        m.sb_type < 13,
        mi_row < rows <= 8192,
        mi_col < cols <= 8192,
        ss_x <= 1,
        ss_y <= 1,
    ensures
        r == plane_block(
            *m,
            plane as int,
            mi_row as int,
            mi_col as int,
            rows as int,
            cols as int,
            ss_x as int,
            ss_y as int,
        ),
{
    let bsize: usize = m.sb_type as usize;
    let (w, h): (usize, usize) = (BLOCK_MI_WIDTH[bsize], BLOCK_MI_HEIGHT[bsize]);
    let in_w: usize = if w < cols - mi_col {
        w
    } else {
        cols - mi_col
    };
    let in_h: usize = if h < rows - mi_row {
        h
    } else {
        rows - mi_row
    };
    let tx_size: usize = if plane == 0 {
        m.tx_size as usize
    } else {
        uv_tx_size(bsize, m.tx_size as usize, ss_x, ss_y)
    };
    PlaneBlock {
        n4_w: halve(2 * w, ss_x),
        n4_h: halve(2 * h, ss_y),
        max_w: halve(2 * in_w, ss_x),
        max_h: halve(2 * in_h, ss_y),
        tx_size,
        base_x: halve(8 * mi_col, ss_x),
        base_y: halve(8 * mi_row, ss_y),
        above_col0: halve(2 * mi_col, ss_x),
        left_row0: halve(2 * (mi_row % 8), ss_y),
        mb_to_right: (cols as i32 - w as i32 - mi_col as i32) * 64,
        mb_to_bottom: (rows as i32 - h as i32 - mi_row as i32) * 64,
    }
}

impl Reconstructor {
    /// The subsampling of a plane: luma has none.
    pub open spec fn ss(&self, plane: int) -> (int, int) {
        if plane == 0 {
            (0, 0)
        } else {
            (self.ss_x as int, self.ss_y as int)
        }
    }

    /// The block with mode information `m` in a plane.
    pub fn plane_block(&self, m: &ModeInfo, plane: usize, mi_row: usize, mi_col: usize) -> (r:
        PlaneBlock)
        requires
            self.wf(),
            valid_mi(*m),
            plane < 3,
            mi_row < self.mi_rows,
            mi_col < self.mi_cols,
        ensures
            r == plane_block(
                *m,
                plane as int,
                mi_row as int,
                mi_col as int,
                self.mi_rows as int,
                self.mi_cols as int,
                self.ss(plane as int).0,
                self.ss(plane as int).1,
            ),
    {
        let (ss_x, ss_y): (usize, usize) = if plane == 0 {
            (0, 0)
        } else {
            (self.ss_x, self.ss_y)
        };
        block_in_plane(m, plane, mi_row, mi_col, self.mi_rows, self.mi_cols, ss_x, ss_y)
    }
}

/// A block size is as wide and as high as its logarithms say.
pub proof fn law_sizes_are_powers(bsize: int)
    requires
        0 <= bsize < 13,
    ensures
        ({
            let (w, h) = (
                crate::geom_tables::B_WIDTH_LOG2[bsize],
                crate::geom_tables::B_HEIGHT_LOG2[bsize],
            );
            &&& w == 0 <==> N4W[bsize] == 1
            &&& w == 1 <==> N4W[bsize] == 2
            &&& w == 2 <==> N4W[bsize] == 4
            &&& w == 3 <==> N4W[bsize] == 8
            &&& w == 4 <==> N4W[bsize] == 16
            &&& h == 0 <==> N4H[bsize] == 1
            &&& h == 1 <==> N4H[bsize] == 2
            &&& h == 2 <==> N4H[bsize] == 4
            &&& h == 3 <==> N4H[bsize] == 8
            &&& h == 4 <==> N4H[bsize] == 16
            &&& 2 * BLOCK_MI_WIDTH[bsize] == (if N4W[bsize] == 1 {
                2
            } else {
                N4W[bsize]
            })
            &&& 2 * BLOCK_MI_HEIGHT[bsize] == (if N4H[bsize] == 1 {
                2
            } else {
                N4H[bsize]
            })
        }),
{
}

/// A block in a plane that is not subsampled has the size of the block and stands at eight
/// pixels for each row and column; in a plane that is halved it has half of both. The part
/// in the frame ends with the frame.
pub proof fn law_plane_block_by_subsampling(
    m: ModeInfo,
    plane: int,
    row: int,
    col: int,
    rows: int,
    cols: int,
    ss_x: int,
    ss_y: int,
)
    requires
        m.sb_type < 13,
        0 <= row < rows <= 8192,
        0 <= col < cols <= 8192,
        0 <= ss_x <= 1,
        0 <= ss_y <= 1,
    ensures
        ({
            let b = plane_block(m, plane, row, col, rows, cols, ss_x, ss_y);
            let (w, h) = (
                BLOCK_MI_WIDTH[m.sb_type as int] as int,
                BLOCK_MI_HEIGHT[m.sb_type as int] as int,
            );
            &&& ss_x == 0 ==> b.n4_w == 2 * w && b.base_x == 8 * col && b.above_col0 == 2 * col
            &&& ss_x == 1 ==> b.n4_w == w && b.base_x == 4 * col && b.above_col0 == col
            &&& ss_y == 0 ==> b.n4_h == 2 * h && b.base_y == 8 * row && b.left_row0 == 2 * (row % 8)
            &&& ss_y == 1 ==> b.n4_h == h && b.base_y == 4 * row && b.left_row0 == row % 8
            &&& col + w <= cols ==> b.max_w == b.n4_w
            &&& row + h <= rows ==> b.max_h == b.n4_h
            &&& col + w > cols && ss_x == 0 ==> col * 2 + b.max_w == 2 * cols
            &&& col + w > cols && ss_x == 1 ==> col + b.max_w == cols
            &&& row + h > rows && ss_y == 0 ==> row * 2 + b.max_h == 2 * rows
            &&& row + h > rows && ss_y == 1 ==> row + b.max_h == rows
            &&& b.mb_to_right == 64 * (cols - (col + w))
            &&& b.mb_to_bottom == 64 * (rows - (row + h))
            &&& plane == 0 ==> b.tx_size == m.tx_size
        }),
{
}

/// The chroma planes of a block have its transform, or the largest that fits into them:
/// in planes that are not subsampled that of luma, in planes halved both ways that of a
/// block of half the size. Blocks below 8x8 have the smallest.
pub proof fn law_chroma_transform_fits(bsize: int, tx_size: int)
    requires
        0 <= bsize < 13,
        0 <= tx_size <= MAX_TXSIZE[bsize],
    ensures
        bsize < 3 ==> chroma_tx(bsize, tx_size, 0, 0) == 0 && chroma_tx(bsize, tx_size, 1, 1) == 0,
        bsize >= 3 ==> chroma_tx(bsize, tx_size, 0, 0) == tx_size,
        3 <= bsize < 6 ==> chroma_tx(bsize, tx_size, 1, 1) == 0,
        6 <= bsize < 9 ==> chroma_tx(bsize, tx_size, 1, 1) == min_int(tx_size, 1),
        9 <= bsize < 12 ==> chroma_tx(bsize, tx_size, 1, 1) == min_int(tx_size, 2),
        bsize == 12 ==> chroma_tx(bsize, tx_size, 1, 1) == tx_size,
{
    if bsize >= 3 {
        let (w, h) = (N4W[bsize] / 2, N4H[bsize] / 2);
        lemma_size_found(w as int, h as int);
        let half = if bsize == 3 {
            0int
        } else if bsize == 4 {
            1
        } else if bsize == 5 {
            2
        } else {
            bsize - 3
        };
        assert(is_size_of(half, w as int, h as int));
        lemma_sizes_differ(half, size_of(w as int, h as int), w as int, h as int);
        assert(at_least_one(halved(N4W[bsize] as int, 1)) == w);
        assert(at_least_one(halved(N4H[bsize] as int, 1)) == h);
    }
}

} // verus!
