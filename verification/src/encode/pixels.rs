//! Sums over samples: how much two rectangles differ.
use vstd::arithmetic::mul::*;
use vstd::prelude::*;

use crate::adapt::clamped;
use crate::mv::abs;

verus! {

/// The sum of `f` over the first `n` numbers.
pub open spec fn sum1(f: spec_fn(int) -> int, n: nat) -> int
    decreases n,
{
    if n == 0 {
        0
    } else {
        sum1(f, (n - 1) as nat) + f(n - 1)
    }
}

/// The sum of `f` over `h` rows and `w` columns.
pub open spec fn sum2(f: spec_fn(int, int) -> int, w: nat, h: nat) -> int {
    sum1(|y: int| sum1(|x: int| f(y, x), w), h)
}

/// Sums of equal terms are equal.
pub proof fn lemma_sum1_same(f: spec_fn(int) -> int, g: spec_fn(int) -> int, n: nat)
    requires
        forall|i: int| 0 <= i < n ==> #[trigger] f(i) == g(i),
    ensures
        sum1(f, n) == sum1(g, n),
    decreases n,
{
    if n > 0 {
        lemma_sum1_same(f, g, (n - 1) as nat);
        assert(f(n - 1) == g(n - 1));
    }
}

/// Sums of equal terms are equal.
pub proof fn lemma_sum2_same(
    f: spec_fn(int, int) -> int,
    g: spec_fn(int, int) -> int,
    w: nat,
    h: nat,
)
    requires
        forall|y: int, x: int| 0 <= y < h && 0 <= x < w ==> #[trigger] f(y, x) == g(y, x),
    ensures
        sum2(f, w, h) == sum2(g, w, h),
{
    let rf = |y: int| sum1(|x: int| f(y, x), w);
    let rg = |y: int| sum1(|x: int| g(y, x), w);
    assert forall|y: int| 0 <= y < h implies #[trigger] rf(y) == rg(y) by {
        let a = |x: int| f(y, x);
        let b = |x: int| g(y, x);
        assert forall|x: int| 0 <= x < w implies #[trigger] a(x) == b(x) by {
            assert(f(y, x) == g(y, x));
        }
        lemma_sum1_same(a, b, w);
    }
    lemma_sum1_same(rf, rg, h);
}

/// A sum of terms from 0 to `cap` is from 0 to `n * cap`.
pub proof fn lemma_sum1_bound(f: spec_fn(int) -> int, n: nat, cap: int)
    requires
        forall|i: int| 0 <= i < n ==> 0 <= #[trigger] f(i) <= cap,
    ensures
        0 <= sum1(f, n) <= n * cap,
    decreases n,
{
    if n > 0 {
        lemma_sum1_bound(f, (n - 1) as nat, cap);
        assert(0 <= f(n - 1) <= cap);
        assert(n * cap == (n - 1) * cap + cap) by (nonlinear_arith);
    } else {
        assert(0 * cap == 0);
    }
}

/// A part of a sum of terms that are not negative is at most the sum.
pub proof fn lemma_sum1_part(f: spec_fn(int) -> int, k: nat, n: nat)
    requires
        k <= n,
        forall|i: int| 0 <= i < n ==> 0 <= #[trigger] f(i),
    ensures
        0 <= sum1(f, k) <= sum1(f, n),
    decreases n,
{
    if n == 0 {
    } else if k == n {
        lemma_sum1_part(f, (n - 1) as nat, (n - 1) as nat);
        assert(0 <= f(n - 1));
    } else {
        lemma_sum1_part(f, k, (n - 1) as nat);
        assert(0 <= f(n - 1));
    }
}

/// The samples of a plane. There may be more than `h` rows of them.
#[derive(Debug)]
pub struct Picture {
    pub buf: Vec<u16>,
    pub stride: usize,
    pub w: usize,
    pub h: usize,
    pub ss_x: usize,
    pub ss_y: usize,
}

/// The sample at row `y`, column `x`.
pub open spec fn sample(buf: Seq<u16>, stride: int, y: int, x: int) -> int {
    buf[y * stride + x] as int
}

/// The sample at row `y`, column `x`, or the nearest one in a plane of `w` by `h`.
pub open spec fn edge_sample(buf: Seq<u16>, stride: int, w: int, h: int, y: int, x: int) -> int {
    sample(buf, stride, clamped(y, 0, h - 1), clamped(x, 0, w - 1))
}

impl Picture {
    /// The samples are all there.
    pub open spec fn wf(&self) -> bool {
        &&& 1 <= self.w <= self.stride <= 0x20000
        &&& 1 <= self.h <= 0x20000
        &&& self.stride * self.h <= self.buf@.len()
    }

    /// The sample at row `y`, column `x`.
    pub open spec fn at(&self, y: int, x: int) -> int {
        sample(self.buf@, self.stride as int, y, x)
    }

    /// The sample at row `y`, column `x`, or the nearest one.
    pub open spec fn near(&self, y: int, x: int) -> int {
        edge_sample(self.buf@, self.stride as int, self.w as int, self.h as int, y, x)
    }
}

/// A place within a plane is the place of a sample.
pub proof fn lemma_place(stride: int, h: int, len: int, y: int, x: int)
    requires
        0 <= y < h,
        0 <= x < stride,
        stride * h <= len,
    ensures
        0 <= y * stride + x < len,
        0 <= y * stride,
{
    assert(y * stride + x < len && 0 <= y * stride) by (nonlinear_arith)
        requires
            0 <= y < h,
            0 <= x < stride,
            stride * h <= len,
    ;
}

/// The absolute differences of two squares of `n` samples, of which the first begins
/// at `so` and at `ro`, and rows are `ss` and `rs` apart.
pub open spec fn square_diff(
    s: Seq<u16>,
    so: int,
    ss: int,
    r: Seq<u16>,
    ro: int,
    rs: int,
) -> spec_fn(int, int) -> int {
    |y: int, x: int| abs(s[so + y * ss + x] - r[ro + y * rs + x])
}

/// Sums the absolute differences of two squares of `n` samples.
fn sad_square(s: &[u16], ss: usize, r: &[u16], rs: usize, n: usize) -> (sad: u32)
    requires
        1 <= n <= 64,
        (n - 1) * ss + n <= s@.len(),
        (n - 1) * rs + n <= r@.len(),
    ensures
        sad == sum2(square_diff(s@, 0, ss as int, r@, 0, rs as int), n as nat, n as nat),
{
    let ghost f = square_diff(s@, 0, ss as int, r@, 0, rs as int);
    let ghost rows = |y: int| sum1(|x: int| f(y, x), n as nat);
    let s_len: usize = s.len();
    let r_len: usize = r.len();
    let mut sad: u32 = 0;
    let mut y: usize = 0;
    while y < n
        invariant
            y <= n <= 64,
            1 <= n,
            s_len == s@.len(),
            r_len == r@.len(),
            (n - 1) * ss + n <= s_len,
            (n - 1) * rs + n <= r_len,
            f == square_diff(s@, 0, ss as int, r@, 0, rs as int),
            rows == (|y: int| sum1(|x: int| f(y, x), n as nat)),
            sad == sum1(rows, y as nat),
            sad <= y * 4194240,
        decreases n - y,
    {
        assert(y * ss <= (n - 1) * ss && y * rs <= (n - 1) * rs && 0 <= y * ss && 0 <= y * rs)
            by (nonlinear_arith)
            requires
                y <= n - 1,
        ;
        let so: usize = y * ss;
        let ro: usize = y * rs;
        let ghost start = sad;
        let ghost row = |x: int| f(y as int, x);
        let mut x: usize = 0;
        while x < n
            invariant
                x <= n <= 64,
                y < n,
                s_len == s@.len(),
                r_len == r@.len(),
                so == y * ss,
                ro == y * rs,
                so + n <= s_len,
                ro + n <= r_len,
                f == square_diff(s@, 0, ss as int, r@, 0, rs as int),
                row == (|x: int| f(y as int, x)),
                sad == start + sum1(row, x as nat),
                sad <= start + x * 65535,
                start <= y * 4194240,
                y < 64,
            decreases n - x,
        {
            let (a, b): (u16, u16) = (s[so + x], r[ro + x]);
            let d: u32 = if a < b {
                (b - a) as u32
            } else {
                (a - b) as u32
            };
            assert(row(x as int) == d);
            sad = sad + d;
            x += 1;
        }
        assert(rows(y as int) == sum1(row, n as nat));
        y += 1;
    }
    sad
}

/// The sum of absolute differences of two 8x8 blocks.
pub fn sad8x8_scalar(s: &[u16], ss: usize, r: &[u16], rs: usize) -> (sad: u32)
    requires
        7 * ss + 8 <= s@.len(),
        7 * rs + 8 <= r@.len(),
    ensures
        sad == sum2(square_diff(s@, 0, ss as int, r@, 0, rs as int), 8, 8),
{
    sad_square(s, ss, r, rs, 8)
}

/// The sum of absolute differences of two 4x4 blocks.
pub fn sad4x4_scalar(s: &[u16], ss: usize, r: &[u16], rs: usize) -> (sad: u32)
    requires
        3 * ss + 4 <= s@.len(),
        3 * rs + 4 <= r@.len(),
    ensures
        sad == sum2(square_diff(s@, 0, ss as int, r@, 0, rs as int), 4, 4),
{
    sad_square(s, ss, r, rs, 4)
}

/// The absolute differences of the 8x8 block at `x`, `y` and of the reference moved by
/// `mv_r` rows and `mv_c` columns, which continues beyond its edges.
pub open spec fn block_diff(
    src: Picture,
    reference: Picture,
    base_x: int,
    base_y: int,
    mv_r: int,
    mv_c: int,
) -> spec_fn(int, int) -> int {
    |y: int, x: int|
        abs(
            src.at(base_y + y, base_x + x) - reference.near(
                base_y + y + mv_r,
                base_x + x + mv_c,
            ),
        )
}

/// Clamps a coordinate to a plane of `n` samples.
fn clamp_coord(v: i32, n: usize) -> (r: usize)
    requires
        1 <= n <= 0x20000,
    ensures
        r == clamped(v as int, 0, n - 1),
{
    if v < 0 {
        0
    } else if v as usize > n - 1 {
        n - 1
    } else {
        v as usize
    }
}

/// The sum of absolute differences of an 8x8 block and of the moved reference.
pub fn block_sad(
    src: &Picture,
    reference: &Picture,
    base_x: usize,
    base_y: usize,
    mv_r: i32,
    mv_c: i32,
) -> (sad: i64)
    requires
        src.wf(),
        reference.wf(),
        base_x + 8 <= src.w,
        base_y + 8 <= src.h,
        -0x1000_0000 <= mv_r <= 0x1000_0000,
        -0x1000_0000 <= mv_c <= 0x1000_0000,
    ensures
        sad == sum2(
            block_diff(
                *src,
                *reference,
                base_x as int,
                base_y as int,
                mv_r as int,
                mv_c as int,
            ),
            8,
            8,
        ),
        0 <= sad <= 4194240,
{
    let ghost f = block_diff(
        *src,
        *reference,
        base_x as int,
        base_y as int,
        mv_r as int,
        mv_c as int,
    );
    let ghost rows = |y: int| sum1(|x: int| f(y, x), 8);
    let s_len: usize = src.buf.len();
    let r_len: usize = reference.buf.len();
    let mut sad: i64 = 0;
    let mut y: usize = 0;
    while y < 8
        invariant
            y <= 8,
            src.wf(),
            reference.wf(),
            s_len == src.buf@.len(),
            r_len == reference.buf@.len(),
            base_x + 8 <= src.w,
            base_y + 8 <= src.h,
            -0x1000_0000 <= mv_r <= 0x1000_0000,
            -0x1000_0000 <= mv_c <= 0x1000_0000,
            f == block_diff(
                *src,
                *reference,
                base_x as int,
                base_y as int,
                mv_r as int,
                mv_c as int,
            ),
            rows == (|y: int| sum1(|x: int| f(y, x), 8)),
            sad == sum1(rows, y as nat),
            0 <= sad <= y * 524280,
        decreases 8 - y,
    {
        let sy: usize = base_y + y;
        let ry: usize = clamp_coord(sy as i32 + mv_r, reference.h);
        proof {
            lemma_place(src.stride as int, src.h as int, s_len as int, sy as int, 0);
            lemma_place(reference.stride as int, reference.h as int, r_len as int, ry as int, 0);
        }
        let s_row: usize = sy * src.stride;
        let r_row: usize = ry * reference.stride;
        let ghost start = sad;
        let ghost row = |x: int| f(y as int, x);
        let mut x: usize = 0;
        while x < 8
            invariant
                x <= 8,
                y < 8,
                src.wf(),
                reference.wf(),
                s_len == src.buf@.len(),
                r_len == reference.buf@.len(),
                base_x + 8 <= src.w,
                base_y + 8 <= src.h,
                sy == base_y + y,
                ry == clamped(sy + mv_r, 0, reference.h - 1),
                s_row == sy * src.stride,
                r_row == ry * reference.stride,
                -0x1000_0000 <= mv_c <= 0x1000_0000,
                f == block_diff(
                    *src,
                    *reference,
                    base_x as int,
                    base_y as int,
                    mv_r as int,
                    mv_c as int,
                ),
                row == (|x: int| f(y as int, x)),
                sad == start + sum1(row, x as nat),
                0 <= start <= y * 524280,
                0 <= sad <= start + x * 65535,
            decreases 8 - x,
        {
            let sx: usize = base_x + x;
            let rx: usize = clamp_coord(sx as i32 + mv_c, reference.w);
            proof {
                lemma_place(
                    src.stride as int,
                    src.h as int,
                    s_len as int,
                    sy as int,
                    sx as int,
                );
                lemma_place(
                    reference.stride as int,
                    reference.h as int,
                    r_len as int,
                    ry as int,
                    rx as int,
                );
            }
            let (a, b): (u16, u16) = (src.buf[s_row + sx], reference.buf[r_row + rx]);
            let d: i64 = if a < b {
                (b - a) as i64
            } else {
                (a - b) as i64
            };
            assert(row(x as int) == d);
            sad = sad + d;
            x += 1;
        }
        assert(rows(y as int) == sum1(row, 8));
        y += 1;
    }
    sad
}

/// Where the moved block lies within the reference, its samples are just those of the
/// reference there: reading beyond edges changes nothing.
pub proof fn law_interior_needs_no_edges(
    src: Picture,
    reference: Picture,
    base_x: int,
    base_y: int,
    mv_r: int,
    mv_c: int,
)
    requires
        0 <= base_x + mv_c,
        base_x + mv_c + 8 <= reference.w,
        0 <= base_y + mv_r,
        base_y + mv_r + 8 <= reference.h,
    ensures
        sum2(block_diff(src, reference, base_x, base_y, mv_r, mv_c), 8, 8) == sum2(
            square_diff(
                src.buf@,
                base_y * src.stride + base_x,
                src.stride as int,
                reference.buf@,
                (base_y + mv_r) * reference.stride + base_x + mv_c,
                reference.stride as int,
            ),
            8,
            8,
        ),
{
    let f = block_diff(src, reference, base_x, base_y, mv_r, mv_c);
    let so = base_y * src.stride + base_x;
    let ro = (base_y + mv_r) * reference.stride + base_x + mv_c;
    let g = square_diff(
        src.buf@,
        so,
        src.stride as int,
        reference.buf@,
        ro,
        reference.stride as int,
    );
    assert forall|y: int, x: int| 0 <= y < 8 && 0 <= x < 8 implies #[trigger] f(y, x) == g(
        y,
        x,
    ) by {
        lemma_mul_is_distributive_add_other_way(src.stride as int, base_y, y);
        lemma_mul_is_distributive_add_other_way(reference.stride as int, base_y + mv_r, y);
    }
    lemma_sum2_same(f, g, 8, 8);
}

} // verus!
