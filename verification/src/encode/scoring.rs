//! Scores of predictions: blocks are compared with their predictions in 8x8 tiles, of
//! which large blocks take every other one.
use vstd::arithmetic::mul::*;
use vstd::prelude::*;

use crate::encode::pixels::{
    block_diff, block_sad, lemma_place, lemma_sum1_part, lemma_sum1_same, lemma_sum2_same, sad4x4_scalar,
    square_diff, sum1, sum2, Picture,
};
use crate::mv::abs;

verus! {

/// Tile `k` of a grid of `n` columns of tiles, `step` tiles apart.
pub open spec fn tile_at(base_x: int, base_y: int, n: int, step: int, k: int) -> (int, int) {
    (base_x + 8 * step * (k % n), base_y + 8 * step * (k / n))
}

/// A tile lies in a plane of `w` by `h` samples.
pub open spec fn tile_fits(at: (int, int), w: int, h: int) -> bool {
    at.0 + 8 <= w && at.1 + 8 <= h
}

/// Those of the first `k` tiles of a grid that lie in the plane.
pub open spec fn tiles_in(
    base_x: int,
    base_y: int,
    n: int,
    step: int,
    w: int,
    h: int,
    k: nat,
) -> Seq<(usize, usize)>
    decreases k,
{
    if k == 0 {
        Seq::empty()
    } else {
        let before = tiles_in(base_x, base_y, n, step, w, h, (k - 1) as nat);
        let at = tile_at(base_x, base_y, n, step, k - 1);
        if tile_fits(at, w, h) {
            before.push((at.0 as usize, at.1 as usize))
        } else {
            before
        }
    }
}

/// How many tiles there are in one direction, when `step` are taken at a time.
pub open spec fn tile_count(n: int, step: int) -> int {
    (n + step - 1) / step
}

/// The tiles of a block of `tw` by `th` tiles that are looked at.
pub open spec fn tiles_of(
    base_x: int,
    base_y: int,
    tw: int,
    th: int,
    step: int,
    w: int,
    h: int,
) -> Seq<(usize, usize)> {
    let (nw, nh) = (tile_count(tw, step), tile_count(th, step));
    tiles_in(base_x, base_y, nw, step, w, h, (nh * nw) as nat)
}

/// The tiles of blocks over 16x16 are taken by twos.
pub open spec fn sad_step(tw: int, th: int) -> int {
    if tw > 2 || th > 2 {
        2
    } else {
        1
    }
}

/// All tiles of a list lie in the plane.
pub proof fn lemma_tiles_fit(
    base_x: int,
    base_y: int,
    n: int,
    step: int,
    w: int,
    h: int,
    k: nat,
)
    requires
        0 <= base_x <= 0x20000,
        0 <= base_y <= 0x20000,
        1 <= n <= 64,
        1 <= step <= 2,
        k <= 64 * n,
        w <= 0x20000,
        h <= 0x20000,
    ensures
        tiles_in(base_x, base_y, n, step, w, h, k).len() <= k,
        forall|i: int|
            0 <= i < tiles_in(base_x, base_y, n, step, w, h, k).len() ==> (#[trigger] tiles_in(
                base_x,
                base_y,
                n,
                step,
                w,
                h,
                k,
            )[i]).0 + 8 <= w && tiles_in(base_x, base_y, n, step, w, h, k)[i].1 + 8 <= h,
    decreases k,
{
    if k > 0 {
        lemma_tiles_fit(base_x, base_y, n, step, w, h, (k - 1) as nat);
        lemma_grid(n, k - 1);
    }
}

/// The row and the column of a tile within a grid of at most 64 rows.
proof fn lemma_grid(n: int, k: int)
    requires
        1 <= n <= 64,
        0 <= k < 64 * n,
    ensures
        0 <= k % n < n,
        0 <= k / n < 64,
{
    vstd::arithmetic::div_mod::lemma_mod_bound(k, n);
    vstd::arithmetic::div_mod::lemma_div_pos_is_pos(k, n);
    vstd::arithmetic::div_mod::lemma_multiply_divide_lt(k, n, 64);
}

/// Lists the tiles of a block of `tw` by `th` tiles that lie in a plane of `w` by `h`
/// samples, each `step`-th of them.
pub fn block_tiles(
    base_x: usize,
    base_y: usize,
    tw: usize,
    th: usize,
    step: usize,
    w: usize,
    h: usize,
) -> (r: Vec<(usize, usize)>)
    requires
        base_x <= 0x20000,
        base_y <= 0x20000,
        1 <= tw <= 16,
        1 <= th <= 16,
        1 <= step <= 2,
        w <= 0x20000,
        h <= 0x20000,
    ensures
        r@ == tiles_of(
            base_x as int,
            base_y as int,
            tw as int,
            th as int,
            step as int,
            w as int,
            h as int,
        ),
{
    let nw: usize = (tw + step - 1) / step;
    let nh: usize = (th + step - 1) / step;
    proof {
        vstd::arithmetic::div_mod::lemma_div_basics(tw as int);
        vstd::arithmetic::div_mod::lemma_div_basics(th as int);
        assert(step == 1 ==> nw == tw && nh == th);
        assert(step == 2 ==> nw == (tw + 1) / 2 && nh == (th + 1) / 2);
    }
    assert(nh * nw <= 256 && nh * nw >= 1) by (nonlinear_arith)
        requires
            1 <= nw <= 16,
            1 <= nh <= 16,
    ;
    let n: usize = nh * nw;
    let mut out: Vec<(usize, usize)> = Vec::new();
    let mut k: usize = 0;
    while k < n
        invariant
            k <= n <= 256,
            1 <= nw <= 16,
            n == nh * nw,
            nh <= 16,
            base_x <= 0x20000,
            base_y <= 0x20000,
            1 <= step <= 2,
            out@ == tiles_in(
                base_x as int,
                base_y as int,
                nw as int,
                step as int,
                w as int,
                h as int,
                k as nat,
            ),
        decreases n - k,
    {
        proof {
            assert(k < 64 * nw) by (nonlinear_arith)
                requires
                    k < nh * nw,
                    nh <= 16,
                    1 <= nw,
            ;
            lemma_grid(nw as int, k as int);
            assert(8 * step * (k as int % nw as int) <= 16 * 16) by (nonlinear_arith)
                requires
                    1 <= step <= 2,
                    0 <= (k as int % nw as int) < 16,
            ;
            assert(8 * step * (k as int / nw as int) <= 16 * 64) by (nonlinear_arith)
                requires
                    1 <= step <= 2,
                    0 <= (k as int / nw as int) < 64,
            ;
            assert(0 <= 8 * step * (k as int % nw as int) && 0 <= 8 * step * (k as int / nw as int))
                by (nonlinear_arith)
                requires
                    1 <= step,
                    0 <= (k as int % nw as int),
                    0 <= (k as int / nw as int),
            ;
        }
        let stride: usize = 8 * step;
        let x: usize = base_x + stride * (k % nw);
        let y: usize = base_y + stride * (k / nw);
        if x + 8 <= w && y + 8 <= h {
            out.push((x, y));
        }
        k += 1;
    }
    out
}

/// The sum of scores, unless it is over `bound`.
pub open spec fn bounded(total: int, bound: int) -> int {
    if total > bound {
        i64::MAX as int
    } else {
        total
    }
}

/// The sum of absolute differences of the tiles of a block and of the moved reference.
pub open spec fn tiles_sad(
    src: Picture,
    reference: Picture,
    tiles: Seq<(usize, usize)>,
    mv_r: int,
    mv_c: int,
) -> spec_fn(int) -> int {
    |i: int|
        sum2(
            block_diff(src, reference, tiles[i].0 as int, tiles[i].1 as int, mv_r, mv_c),
            8,
            8,
        )
}

/// The sum of absolute differences of a block and of the moved reference, `i64::MAX`
/// where it is over `bound`.
pub open spec fn moved_sad(
    src: Picture,
    reference: Picture,
    base_x: int,
    base_y: int,
    mv_r: int,
    mv_c: int,
    tw: int,
    th: int,
    bound: int,
) -> int {
    let tiles = tiles_of(
        base_x,
        base_y,
        tw,
        th,
        sad_step(tw, th),
        src.w as int,
        src.h as int,
    );
    bounded(sum1(tiles_sad(src, reference, tiles, mv_r, mv_c), tiles.len()), bound)
}

/// The sum of absolute differences of a block of `tw` by `th` tiles and of the reference
/// moved by `mv_r` rows and `mv_c` columns; `i64::MAX` where it is over `bound`.
pub fn block_sad_sized(
    src: &Picture,
    reference: &Picture,
    base_x: usize,
    base_y: usize,
    mv_r: i32,
    mv_c: i32,
    tw: usize,
    th: usize,
    bound: i64,
) -> (sad: i64)
    requires
        src.wf(),
        reference.wf(),
        base_x <= 0x20000,
        base_y <= 0x20000,
        -0x1000_0000 <= mv_r <= 0x1000_0000,
        -0x1000_0000 <= mv_c <= 0x1000_0000,
        1 <= tw <= 8,
        1 <= th <= 8,
        bound >= 0,
    ensures
        sad == moved_sad(
            *src,
            *reference,
            base_x as int,
            base_y as int,
            mv_r as int,
            mv_c as int,
            tw as int,
            th as int,
            bound as int,
        ),
        sad >= 0,
{
    let step: usize = if tw > 2 || th > 2 {
        2
    } else {
        1
    };
    let tiles: Vec<(usize, usize)> = block_tiles(base_x, base_y, tw, th, step, src.w, src.h);
    let ghost nw = tile_count(tw as int, step as int);
    let ghost nh = tile_count(th as int, step as int);
    let ghost terms = tiles_sad(*src, *reference, tiles@, mv_r as int, mv_c as int);
    proof {
        assert(1 <= nw <= 8 && 1 <= nh <= 8);
        assert(0 <= nh * nw <= 64) by (nonlinear_arith)
            requires
                1 <= nw <= 8,
                1 <= nh <= 8,
        ;
        assert(nh * nw <= 64 * nw) by (nonlinear_arith)
            requires
                1 <= nw,
                nh <= 8,
        ;
        lemma_tiles_fit(
            base_x as int,
            base_y as int,
            nw,
            step as int,
            src.w as int,
            src.h as int,
            (nh * nw) as nat,
        );
        assert forall|i: int| 0 <= i < tiles@.len() implies 0 <= #[trigger] terms(i) by {
            lemma_diff_positive(
                *src,
                *reference,
                tiles@[i].0 as int,
                tiles@[i].1 as int,
                mv_r as int,
                mv_c as int,
            );
        }
    }
    let n: usize = tiles.len();
    let mut sad: i64 = 0;
    let mut i: usize = 0;
    while i < n
        invariant
            i <= n <= 64,
            n == tiles@.len(),
            src.wf(),
            reference.wf(),
            -0x1000_0000 <= mv_r <= 0x1000_0000,
            -0x1000_0000 <= mv_c <= 0x1000_0000,
            forall|k: int|
                0 <= k < n ==> (#[trigger] tiles@[k]).0 + 8 <= src.w && tiles@[k].1 + 8 <= src.h,
            tiles@ == tiles_of(
                base_x as int,
                base_y as int,
                tw as int,
                th as int,
                sad_step(tw as int, th as int),
                src.w as int,
                src.h as int,
            ),
            terms == tiles_sad(*src, *reference, tiles@, mv_r as int, mv_c as int),
            forall|i: int| 0 <= i < n ==> 0 <= #[trigger] terms(i),
            sad == sum1(terms, i as nat),
            0 <= sad <= i * 4194240,
            sad <= bound,
        decreases n - i,
    {
        let at: (usize, usize) = tiles[i];
        let d: i64 = block_sad(src, reference, at.0, at.1, mv_r, mv_c);
        assert(terms(i as int) == d);
        sad = sad + d;
        i += 1;
        if sad > bound {
            proof {
                lemma_sum1_part(terms, i as nat, n as nat);
            }
            return i64::MAX;
        }
    }
    sad
}

/// A sum of absolute differences is not negative.
proof fn lemma_diff_positive(
    src: Picture,
    reference: Picture,
    base_x: int,
    base_y: int,
    mv_r: int,
    mv_c: int,
)
    ensures
        0 <= sum2(block_diff(src, reference, base_x, base_y, mv_r, mv_c), 8, 8),
{
    let f = block_diff(src, reference, base_x, base_y, mv_r, mv_c);
    let rows = |y: int| sum1(|x: int| f(y, x), 8);
    assert forall|y: int| 0 <= y < 8 implies 0 <= #[trigger] rows(y) by {
        let row = |x: int| f(y, x);
        assert forall|x: int| 0 <= x < 8 implies 0 <= #[trigger] row(x) by {}
        lemma_sum1_part(row, 0, 8);
    }
    lemma_sum1_part(rows, 0, 8);
}

/// A sum over sampled tiles, brought to the size of all tiles.
pub open spec fn upscaled(sse: int, sampled: int, total: int) -> int {
    if sampled > 0 && total > sampled {
        sse * total / sampled
    } else {
        sse
    }
}

/// Brings a sum over `sampled` tiles to the size of a sum over `total` tiles.
pub fn upscale(sse: i64, sampled: usize, total: usize) -> (r: i64)
    requires
        0 <= sse <= 0x1_0000_0000_0000,
        sampled <= 1024,
        total <= 1024,
    ensures
        r == upscaled(sse as int, sampled as int, total as int),
{
    if sampled > 0 && total > sampled {
        assert(0 <= sse * total <= 0x1_0000_0000_0000 * 1024) by (nonlinear_arith)
            requires
                0 <= sse <= 0x1_0000_0000_0000,
                0 <= total <= 1024,
        ;
        sse * total as i64 / sampled as i64
    } else {
        sse
    }
}

/// The differences of a rectangle of a plane and of a prediction that is stored row by
/// row, `stride` apart, from `po` on.
pub open spec fn pred_diff(
    src: Picture,
    x0: int,
    y0: int,
    pred: Seq<u16>,
    po: int,
    stride: int,
) -> spec_fn(int, int) -> int {
    |y: int, x: int| src.at(y0 + y, x0 + x) - pred[po + y * stride + x]
}

/// The squares of these differences.
pub open spec fn pred_square(
    src: Picture,
    x0: int,
    y0: int,
    pred: Seq<u16>,
    po: int,
    stride: int,
) -> spec_fn(int, int) -> int {
    |y: int, x: int|
        {
            let d = pred_diff(src, x0, y0, pred, po, stride)(y, x);
            d * d
        }
}

/// The sum of the squared differences of a rectangle of `n` by `h` samples of a plane and
/// of its prediction.
pub fn window_sse(
    src: &Picture,
    x0: usize,
    y0: usize,
    pred: &[u16],
    po: usize,
    stride: usize,
    n: usize,
    h: usize,
) -> (sse: u64)
    requires
        src.wf(),
        1 <= n <= 64,
        1 <= h <= 64,
        x0 + n <= src.stride,
        src.stride * (y0 + h) <= src.buf@.len(),
        po + (h - 1) * stride + n <= pred@.len(),
    ensures
        sse == sum2(
            pred_square(*src, x0 as int, y0 as int, pred@, po as int, stride as int),
            n as nat,
            h as nat,
        ),
{
    let ghost f = pred_square(*src, x0 as int, y0 as int, pred@, po as int, stride as int);
    let ghost rows = |y: int| sum1(|x: int| f(y, x), n as nat);
    let s_len: usize = src.buf.len();
    let p_len: usize = pred.len();
    let mut sse: u64 = 0;
    let mut y: usize = 0;
    while y < h
        invariant
            y <= h <= 64,
            1 <= n <= 64,
            src.wf(),
            s_len == src.buf@.len(),
            p_len == pred@.len(),
            x0 + n <= src.stride,
            src.stride * (y0 + h) <= s_len,
            po + (h - 1) * stride + n <= p_len,
            f == pred_square(*src, x0 as int, y0 as int, pred@, po as int, stride as int),
            rows == (|y: int| sum1(|x: int| f(y, x), n as nat)),
            sse == sum1(rows, y as nat),
            sse <= y * 0x40_0000_0000,
        decreases h - y,
    {
        proof {
            lemma_place(
                src.stride as int,
                y0 + h,
                s_len as int,
                y0 + y,
                x0 + n - 1,
            );
            assert(0 <= y * stride && y * stride <= (h - 1) * stride) by (nonlinear_arith)
                requires
                    y <= h - 1,
            ;
            assert(y0 + y <= s_len) by (nonlinear_arith)
                requires
                    src.stride * (y0 + h) <= s_len,
                    1 <= src.stride,
                    y < h,
            ;
        }
        let s_row: usize = (y0 + y) * src.stride + x0;
        let p_row: usize = po + y * stride;
        let ghost start = sse;
        let ghost row = |x: int| f(y as int, x);
        let mut x: usize = 0;
        while x < n
            invariant
                x <= n <= 64,
                y < h <= 64,
                s_len == src.buf@.len(),
                p_len == pred@.len(),
                s_row == (y0 + y) * src.stride + x0,
                p_row == po + y * stride,
                s_row + n <= s_len,
                p_row + n <= p_len,
                f == pred_square(*src, x0 as int, y0 as int, pred@, po as int, stride as int),
                row == (|x: int| f(y as int, x)),
                sse == start + sum1(row, x as nat),
                start <= y * 0x40_0000_0000,
                sse <= start + x * 0x1_0000_0000,
            decreases n - x,
        {
            let (a, b): (u16, u16) = (src.buf[s_row + x], pred[p_row + x]);
            let d: u64 = if a < b {
                (b - a) as u64
            } else {
                (a - b) as u64
            };
            proof {
                let e = a - b;
                assert(d * d <= 65535 * 65535 && d * d == e * e) by (nonlinear_arith)
                    requires
                        d <= 65535,
                        d == e || d == -e,
                ;
                assert(row(x as int) == d * d);
            }
            sse = sse + d * d;
            x += 1;
        }
        assert(rows(y as int) == sum1(row, n as nat));
        y += 1;
    }
    sse
}

/// The sum of the absolute differences of an 8x8 tile and of its prediction.
pub fn tile_sad(src: &Picture, x0: usize, y0: usize, pred: &[u16; 64]) -> (sad: i64)
    requires
        src.wf(),
        x0 + 8 <= src.w,
        y0 + 8 <= src.h,
    ensures
        sad == sum2(
            |y: int, x: int| abs(pred_diff(*src, x0 as int, y0 as int, pred@, 0, 8)(y, x)),
            8,
            8,
        ),
        0 <= sad <= 4194240,
{
    let ghost f = |y: int, x: int|
        abs(pred_diff(*src, x0 as int, y0 as int, pred@, 0, 8)(y, x));
    let ghost rows = |y: int| sum1(|x: int| f(y, x), 8);
    let s_len: usize = src.buf.len();
    let mut sad: i64 = 0;
    let mut y: usize = 0;
    while y < 8
        invariant
            y <= 8,
            src.wf(),
            s_len == src.buf@.len(),
            x0 + 8 <= src.w,
            y0 + 8 <= src.h,
            f == (|y: int, x: int|
                abs(pred_diff(*src, x0 as int, y0 as int, pred@, 0, 8)(y, x))),
            rows == (|y: int| sum1(|x: int| f(y, x), 8)),
            sad == sum1(rows, y as nat),
            0 <= sad <= y * 524280,
        decreases 8 - y,
    {
        proof {
            lemma_place(src.stride as int, src.h as int, s_len as int, y0 + y, x0 + 7);
        }
        let s_row: usize = (y0 + y) * src.stride + x0;
        let ghost start = sad;
        let ghost row = |x: int| f(y as int, x);
        let mut x: usize = 0;
        while x < 8
            invariant
                x <= 8,
                y < 8,
                s_len == src.buf@.len(),
                s_row == (y0 + y) * src.stride + x0,
                s_row + 8 <= s_len,
                f == (|y: int, x: int|
                    abs(pred_diff(*src, x0 as int, y0 as int, pred@, 0, 8)(y, x))),
                row == (|x: int| f(y as int, x)),
                sad == start + sum1(row, x as nat),
                0 <= start <= y * 524280,
                0 <= sad <= start + x * 65535,
            decreases 8 - x,
        {
            let (a, b): (u16, u16) = (src.buf[s_row + x], pred[y * 8 + x]);
            let d: i64 = if a < b {
                (b - a) as i64
            } else {
                (a - b) as i64
            };
            assert(row(x as int) == d);
            sad = sad + d;
            x += 1;
        }
        assert(rows(y as int) == sum1(row, 8));
        y += 1;
    }
    sad
}

/// The sum of the absolute differences of a 4x4 part of a block and of its prediction.
pub fn part_sad(src: &Picture, x0: usize, y0: usize, pred: &[u16; 16]) -> (sad: i64)
    requires
        src.wf(),
        x0 + 4 <= src.stride,
        src.stride * (y0 + 4) <= src.buf@.len(),
    ensures
        sad == sum2(
            |y: int, x: int| abs(pred_diff(*src, x0 as int, y0 as int, pred@, 0, 4)(y, x)),
            4,
            4,
        ),
{
    let stride: usize = src.stride;
    let len: usize = src.buf.len();
    proof {
        lemma_place(stride as int, y0 + 4, len as int, y0 + 3, x0 + 3);
        lemma_place(stride as int, y0 + 4, len as int, y0 as int, x0 as int);
        assert((y0 + 3) * stride == y0 * stride + 3 * stride) by (nonlinear_arith);
    }
    let start: usize = y0 * stride + x0;
    let s: &[u16] = vstd::slice::slice_subrange(src.buf.as_slice(), start, len);
    let p: &[u16] = pred;
    let sad: u32 = sad4x4_scalar(s, stride, p, 4);
    proof {
        let f = |y: int, x: int| abs(pred_diff(*src, x0 as int, y0 as int, pred@, 0, 4)(y, x));
        let g = square_diff(s@, 0, stride as int, p@, 0, 4);
        assert forall|y: int, x: int| 0 <= y < 4 && 0 <= x < 4 implies #[trigger] f(y, x) == g(
            y,
            x,
        ) by {
            lemma_mul_is_distributive_add_other_way(stride as int, y0 as int, y);
            assert(0 <= y * stride <= 3 * stride) by (nonlinear_arith)
                requires
                    0 <= y <= 3,
                    0 <= stride,
            ;
            assert(s@[y * stride + x] == src.buf@[start + (y * stride + x)]);
        }
        lemma_sum2_same(f, g, 4, 4);
    }
    sad as i64
}

/// The mean of two predictions, halves rounded up.
pub open spec fn mean_of(a: Seq<u16>, b: Seq<u16>) -> Seq<u16> {
    Seq::new(a.len(), |i: int| ((a[i] + b[i] + 1) / 2) as u16)
}

/// The mean of two predictions of an 8x8 tile.
pub fn averaged(a: &[u16; 64], b: &[u16; 64]) -> (r: [u16; 64])
    ensures
        r@ == mean_of(a@, b@),
{
    let mut r: [u16; 64] = [0; 64];
    let mut i: usize = 0;
    while i < 64
        invariant
            i <= 64,
            forall|k: int| 0 <= k < i ==> #[trigger] r[k] == mean_of(a@, b@)[k],
        decreases 64 - i,
    {
        r[i] = ((a[i] as u32 + b[i] as u32 + 1) / 2) as u16;
        i += 1;
    }
    assert(r@ =~= mean_of(a@, b@));
    r
}

/// The sum of the squared differences of the first `n` samples of two planes.
pub open spec fn plane_error(a: Seq<u16>, b: Seq<u16>, n: nat) -> int
    decreases n,
{
    if n == 0 {
        0
    } else {
        plane_error(a, b, (n - 1) as nat) + (a[n - 1] - b[n - 1]) * (a[n - 1] - b[n - 1])
    }
}

/// The sum of the squared differences of the first `n` samples of two planes.
pub fn luma_sse_of(a: &[u16], b: &[u16], n: usize) -> (sse: u64)
    requires
        n <= a@.len(),
        n <= b@.len(),
        n <= 0x1_0000_0000,
    ensures
        sse == plane_error(a@, b@, n as nat),
{
    let mut sse: u64 = 0;
    let mut i: usize = 0;
    while i < n
        invariant
            i <= n <= a@.len(),
            n <= b@.len(),
            n <= 0x1_0000_0000,
            sse == plane_error(a@, b@, i as nat),
            sse <= i * 0xfffe_0001,
        decreases n - i,
    {
        let (x, y): (u16, u16) = (a[i], b[i]);
        let d: u64 = if x < y {
            (y - x) as u64
        } else {
            (x - y) as u64
        };
        proof {
            let e = x - y;
            assert(0 <= d * d <= 0xfffe_0001 && d * d == e * e) by (nonlinear_arith)
                requires
                    0 <= d <= 65535,
                    d == e || d == -e,
            ;
            assert(i * 0xfffe_0001 + 0xfffe_0001 <= 0xffff_ffff_ffff_ffff);
        }
        sse = sse + d * d;
        i += 1;
    }
    sse
}

/// The score of a moved block is never negative, nor over what a score can be, and is zero
/// where each pixel that is looked at is the same as in the moved reference.
pub proof fn law_perfect_match_scores_zero(
    src: Picture,
    reference: Picture,
    base_x: int,
    base_y: int,
    mv_r: int,
    mv_c: int,
    tw: int,
    th: int,
    bound: int,
)
    requires
        0 <= bound <= i64::MAX,
    ensures
        ({
            let tiles = tiles_of(
                base_x,
                base_y,
                tw,
                th,
                sad_step(tw, th),
                src.w as int,
                src.h as int,
            );
            let sad = moved_sad(src, reference, base_x, base_y, mv_r, mv_c, tw, th, bound);
            &&& 0 <= sad <= i64::MAX
            &&& (forall|k: int, y: int, x: int|
                0 <= k < tiles.len() && 0 <= y < 8 && 0 <= x < 8 ==> #[trigger] src.at(
                    (tiles[k]).1 + y,
                    tiles[k].0 + x,
                ) == reference.near(tiles[k].1 + y + mv_r, tiles[k].0 + x + mv_c)) ==> sad == 0
        }),
{
    let tiles = tiles_of(base_x, base_y, tw, th, sad_step(tw, th), src.w as int, src.h as int);
    let f = tiles_sad(src, reference, tiles, mv_r, mv_c);
    assert forall|k: int| 0 <= k < tiles.len() implies 0 <= #[trigger] f(k) by {
        lemma_diff_positive(
            src,
            reference,
            tiles[k].0 as int,
            tiles[k].1 as int,
            mv_r,
            mv_c,
        );
    }
    lemma_sum1_part(f, 0, tiles.len());
    if forall|k: int, y: int, x: int|
        0 <= k < tiles.len() && 0 <= y < 8 && 0 <= x < 8 ==> #[trigger] src.at(
            (tiles[k]).1 + y,
            tiles[k].0 + x,
        ) == reference.near(tiles[k].1 + y + mv_r, tiles[k].0 + x + mv_c) {
        let zero = |k: int| 0int;
        assert forall|k: int| 0 <= k < tiles.len() implies #[trigger] f(k) == zero(k) by {
            let g = block_diff(
                src,
                reference,
                tiles[k].0 as int,
                tiles[k].1 as int,
                mv_r,
                mv_c,
            );
            let none = |y: int, x: int| 0int;
            assert forall|y: int, x: int| 0 <= y < 8 && 0 <= x < 8 implies #[trigger] g(y, x)
                == none(y, x) by {
                assert(src.at(tiles[k].1 + y, tiles[k].0 + x) == reference.near(
                    tiles[k].1 + y + mv_r,
                    tiles[k].0 + x + mv_c,
                ));
            }
            lemma_sum2_same(g, none, 8, 8);
            lemma_sum2_zero(none);
        }
        lemma_sum1_same(f, zero, tiles.len());
        lemma_sum1_zero(zero, tiles.len());
    }
}

proof fn lemma_sum1_zero(f: spec_fn(int) -> int, n: nat)
    requires
        forall|i: int| #[trigger] f(i) == 0,
    ensures
        sum1(f, n) == 0,
    decreases n,
{
    if n > 0 {
        lemma_sum1_zero(f, (n - 1) as nat);
    }
}

proof fn lemma_sum2_zero(f: spec_fn(int, int) -> int)
    requires
        forall|y: int, x: int| #[trigger] f(y, x) == 0,
    ensures
        sum2(f, 8, 8) == 0,
{
    let rows = |y: int| sum1(|x: int| f(y, x), 8);
    assert forall|y: int| #[trigger] rows(y) == 0 by {
        let row = |x: int| f(y, x);
        lemma_sum1_zero(row, 8);
    }
    lemma_sum1_zero(rows, 8);
}

/// The tile `at` is that of column `c` and row `r`, `step` tiles apart, from `x`, `y` on, and
/// one of the first `k` of rows of `n`.
pub open spec fn stands_at(
    at: (usize, usize),
    x: int,
    y: int,
    n: int,
    step: int,
    k: int,
    c: int,
    r: int,
) -> bool {
    &&& 0 <= c < n && 0 <= r && r * n + c < k
    &&& at.0 == x + 8 * step * c && at.1 == y + 8 * step * r
}

/// The `k`th tile stands where it should.
proof fn lemma_tile_stands(base_x: int, base_y: int, n: int, step: int, w: int, h: int, k: int)
    requires
        0 <= base_x <= 0x20000,
        0 <= base_y <= 0x20000,
        1 <= n <= 8,
        1 <= step <= 2,
        0 <= k < 64,
        tile_fits(tile_at(base_x, base_y, n, step, k), w, h),
    ensures
        ({
            let t = tile_at(base_x, base_y, n, step, k);
            let at = (t.0 as usize, t.1 as usize);
            &&& at.0 + 8 <= w && at.1 + 8 <= h
            &&& stands_at(at, base_x, base_y, n, step, k + 1, k % n, k / n)
        }),
{
    let (c, r) = (k % n, k / n);
    vstd::arithmetic::div_mod::lemma_fundamental_div_mod(k, n);
    vstd::arithmetic::div_mod::lemma_mod_bound(k, n);
    vstd::arithmetic::div_mod::lemma_div_pos_is_pos(k, n);
    vstd::arithmetic::div_mod::lemma_div_nonincreasing(k, n);
    lemma_mul_is_commutative(n, r);
    let t = tile_at(base_x, base_y, n, step, k);
    if step == 1 {
        assert(8 * step * c == 8 * c && 8 * step * r == 8 * r);
        assert(t.0 == base_x + 8 * c && t.1 == base_y + 8 * r);
    } else {
        assert(step == 2);
        assert(8 * step * c == 16 * c && 8 * step * r == 16 * r);
        assert(t.0 == base_x + 16 * c && t.1 == base_y + 16 * r);
    }
    assert(0 <= t.0 <= 0x30000 && 0 <= t.1 <= 0x30000);
    assert(t.0 as usize == t.0 && t.1 as usize == t.1);
}

/// A tile that is looked at lies in the plane, at a whole number of steps from the first
/// corner of the block.
pub proof fn law_tiles_lie_in_the_block(
    base_x: int,
    base_y: int,
    n: int,
    step: int,
    w: int,
    h: int,
    k: nat,
    i: int,
)
    requires
        0 <= base_x <= 0x20000,
        0 <= base_y <= 0x20000,
        1 <= n <= 8,
        1 <= step <= 2,
        k <= 64,
        0 <= i < tiles_in(base_x, base_y, n, step, w, h, k).len(),
    ensures
        ({
            let at = tiles_in(base_x, base_y, n, step, w, h, k)[i];
            &&& at.0 + 8 <= w && at.1 + 8 <= h
            &&& exists|c: int, r: int| #[trigger]
                stands_at(at, base_x, base_y, n, step, k as int, c, r)
        }),
    decreases k,
{
    if k > 0 {
        let before = tiles_in(base_x, base_y, n, step, w, h, (k - 1) as nat);
        let at = tiles_in(base_x, base_y, n, step, w, h, k)[i];
        if i < before.len() {
            law_tiles_lie_in_the_block(base_x, base_y, n, step, w, h, (k - 1) as nat, i);
            assert(at == before[i]);
            let (c, r) = choose|c: int, r: int| #[trigger]
                stands_at(at, base_x, base_y, n, step, k - 1, c, r);
            assert(stands_at(at, base_x, base_y, n, step, k as int, c, r));
        } else {
            lemma_tile_stands(base_x, base_y, n, step, w, h, k - 1);
            let t = tile_at(base_x, base_y, n, step, k - 1);
            assert(at == (t.0 as usize, t.1 as usize));
            assert(stands_at(at, base_x, base_y, n, step, k as int, (k - 1) % n, (k - 1) / n));
        }
    }
}

/// Blocks up to 16x16 are looked at in full, larger ones in every other tile of every other
/// row.
pub proof fn law_large_blocks_are_sampled(tw: int, th: int)
    requires
        1 <= tw,
        1 <= th,
    ensures
        tw <= 2 && th <= 2 <==> sad_step(tw, th) == 1,
        tw > 2 || th > 2 <==> sad_step(tw, th) == 2,
        tile_count(tw, 1) == tw,
        2 * tile_count(tw, 2) >= tw && 2 * tile_count(tw, 2) <= tw + 1,
{
}

/// The error of a sample is brought to that of the whole in proportion.
pub proof fn law_samples_stand_for_all(sse: int, n: int)
    requires
        sse >= 0,
        n > 0,
    ensures
        upscaled(sse, n, n) == sse,
        upscaled(sse, n, 2 * n) == 2 * sse,
        upscaled(sse, n, 4 * n) == 4 * sse,
        upscaled(sse, 0, n) == sse,
{
    assert(sse * (2 * n) == (2 * sse) * n) by (nonlinear_arith);
    assert(sse * (4 * n) == (4 * sse) * n) by (nonlinear_arith);
    vstd::arithmetic::div_mod::lemma_div_multiples_vanish(2 * sse, n);
    vstd::arithmetic::div_mod::lemma_div_multiples_vanish(4 * sse, n);
    lemma_mul_is_commutative(2 * sse, n);
    lemma_mul_is_commutative(4 * sse, n);
}

/// The mean of two predictions lies between them, is the same in either order, and that of
/// a prediction and itself is that prediction.
pub proof fn law_mean_of_predictions(a: Seq<u16>, b: Seq<u16>, i: int)
    requires
        a.len() == b.len(),
        0 <= i < a.len(),
    ensures
        mean_of(a, b).len() == a.len(),
        mean_of(a, b)[i] == mean_of(b, a)[i],
        mean_of(a, a)[i] == a[i],
        a[i] <= b[i] ==> a[i] <= mean_of(a, b)[i] <= b[i],
        0 <= 2 * mean_of(a, b)[i] - (a[i] + b[i]) <= 1,
{
}

/// The error of a plane is zero just where it is the same as the other.
pub proof fn law_no_error_where_planes_agree(a: Seq<u16>, b: Seq<u16>, n: nat)
    requires
        n <= a.len(),
        n <= b.len(),
    ensures
        plane_error(a, b, n) >= 0,
        plane_error(a, b, n) == plane_error(b, a, n),
        plane_error(a, b, n) == 0 <==> forall|i: int| 0 <= i < n ==> #[trigger] a[i] == b[i],
    decreases n,
{
    if n > 0 {
        law_no_error_where_planes_agree(a, b, (n - 1) as nat);
        let d = a[n - 1] - b[n - 1];
        let e = b[n - 1] - a[n - 1];
        assert(d * d >= 0 && (d * d == 0 <==> d == 0) && d * d == e * e) by (nonlinear_arith)
            requires
                e == -d,
        ;
    }
}

} // verus!
