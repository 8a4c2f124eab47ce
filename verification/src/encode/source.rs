//! Source frames: bringing them to the size that is coded, how much they change, and
//! aligning one to another.
use vstd::arithmetic::div_mod::*;
use vstd::arithmetic::mul::*;
use vstd::prelude::*;

use crate::adapt::{clamped, min_int};
use crate::block::Mv;
use crate::encode::pixels::{lemma_place, lemma_sum1_bound, sample, sum1, sum2};
use crate::encode::search::{
    in_range, law_best_is_shortest, offer, offered_all, shifted, Best,
};
use crate::mv::abs;

verus! {

/// A plane of `dw` by `dh` samples, extended to `cw` by `ch` by its last column and row.
pub open spec fn extended(
    plane: Seq<u8>,
    stride: int,
    dw: int,
    dh: int,
    cw: int,
    ch: int,
) -> Seq<u16> {
    Seq::new(
        (ch * cw) as nat,
        |i: int|
            plane[min_int(i / cw, dh - 1) * stride + min_int(i % cw, dw - 1)] as u16,
    )
}

/// Brings a plane to the size that is coded: the last column and row fill the rest.
pub fn to_coded(
    plane: &[u8],
    stride: usize,
    dw: usize,
    dh: usize,
    cw: usize,
    ch: usize,
) -> (out: Vec<u16>)
    requires
        1 <= dw <= stride,
        1 <= dh,
        (dh - 1) * stride + dw <= plane@.len(),
        cw <= 0x20000,
        ch <= 0x20000,
    ensures
        out@ == extended(
            plane@,
            stride as int,
            dw as int,
            dh as int,
            cw as int,
            ch as int,
        ),
{
    let ghost goal = extended(
        plane@,
        stride as int,
        dw as int,
        dh as int,
        cw as int,
        ch as int,
    );
    let len: usize = plane.len();
    let mut out: Vec<u16> = Vec::new();
    assert(0 * cw == 0);
    let mut y: usize = 0;
    while y < ch
        invariant
            y <= ch,
            len == plane@.len(),
            1 <= dw <= stride,
            1 <= dh,
            (dh - 1) * stride + dw <= len,
            goal == extended(
                plane@,
                stride as int,
                dw as int,
                dh as int,
                cw as int,
                ch as int,
            ),
            y * cw <= ch * cw,
            out@ =~= goal.take(y * cw),
        decreases ch - y,
    {
        let sy: usize = if y < dh - 1 {
            y
        } else {
            dh - 1
        };
        assert(0 <= sy * stride <= (dh - 1) * stride) by (nonlinear_arith)
            requires
                sy <= dh - 1,
        ;
        assert((y + 1) * cw <= ch * cw && (y + 1) * cw == y * cw + cw && 0 <= y * cw)
            by (nonlinear_arith)
            requires
                y + 1 <= ch,
                0 <= cw,
        ;
        let row: usize = sy * stride;
        let mut x: usize = 0;
        while x < cw
            invariant
                x <= cw,
                y < ch,
                len == plane@.len(),
                1 <= dw,
                sy == min_int(y as int, dh - 1),
                row == sy * stride,
                row + dw <= len,
                goal == extended(
                    plane@,
                    stride as int,
                    dw as int,
                    dh as int,
                    cw as int,
                    ch as int,
                ),
                y * cw + cw <= ch * cw,
                0 <= y * cw,
                out@ =~= goal.take(y * cw + x),
            decreases cw - x,
        {
            let sx: usize = if x < dw - 1 {
                x
            } else {
                dw - 1
            };
            proof {
                let i = y * cw + x;
                lemma_fundamental_div_mod_converse(i, cw as int, y as int, x as int);
                assert(goal.take(i + 1) =~= goal.take(i).push(goal[i]));
            }
            out.push(plane[row + sx] as u16);
            x += 1;
        }
        y += 1;
    }
    assert(goal.take(ch * cw) =~= goal);
    out
}

/// Within the frame, what is coded is the frame.
pub proof fn law_extension_keeps_frame(
    plane: Seq<u8>,
    stride: int,
    dw: int,
    dh: int,
    cw: int,
    ch: int,
    y: int,
    x: int,
)
    requires
        0 <= y < dh <= ch,
        0 <= x < dw <= cw,
    ensures
        sample(extended(plane, stride, dw, dh, cw, ch), cw, y, x) == plane[y * stride + x],
{
    lemma_fundamental_div_mod_converse(y * cw + x, cw, y, x);
    lemma_place(cw, ch, cw * ch, y, x);
    lemma_mul_is_commutative(ch, cw);
}

/// A plane of `w` by `h` samples with its last row repeated up to `hp` rows.
pub open spec fn padded(p: Seq<u16>, w: int, h: int, hp: int) -> Seq<u16> {
    Seq::new((hp * w) as nat, |i: int| p[min_int(i / w, h - 1) * w + i % w])
}

/// Repeats the last row of a plane up to `hp` rows.
pub fn pad_rows(p: &[u16], w: usize, h: usize, hp: usize) -> (out: Vec<u16>)
    requires
        1 <= h <= hp <= 0x20000,
        w <= 0x20000,
        h * w <= p@.len(),
    ensures
        out@ == padded(p@, w as int, h as int, hp as int),
{
    let ghost goal = padded(p@, w as int, h as int, hp as int);
    let len: usize = p.len();
    let mut out: Vec<u16> = Vec::new();
    assert(0 * w == 0);
    let mut y: usize = 0;
    while y < hp
        invariant
            y <= hp,
            len == p@.len(),
            1 <= h,
            h * w <= len,
            goal == padded(p@, w as int, h as int, hp as int),
            y * w <= hp * w,
            out@ =~= goal.take(y * w),
        decreases hp - y,
    {
        let sy: usize = if y < h - 1 {
            y
        } else {
            h - 1
        };
        assert(0 <= sy * w && sy * w + w <= h * w) by (nonlinear_arith)
            requires
                sy + 1 <= h,
                0 <= w,
        ;
        assert((y + 1) * w <= hp * w && (y + 1) * w == y * w + w && 0 <= y * w)
            by (nonlinear_arith)
            requires
                y + 1 <= hp,
                0 <= w,
        ;
        let row: usize = sy * w;
        let mut x: usize = 0;
        while x < w
            invariant
                x <= w,
                y < hp,
                len == p@.len(),
                sy == min_int(y as int, h - 1),
                row == sy * w,
                row + w <= len,
                goal == padded(p@, w as int, h as int, hp as int),
                y * w + w <= hp * w,
                0 <= y * w,
                out@ =~= goal.take(y * w + x),
            decreases w - x,
        {
            proof {
                let i = y * w + x;
                lemma_fundamental_div_mod_converse(i, w as int, y as int, x as int);
                assert(goal.take(i + 1) =~= goal.take(i).push(goal[i]));
            }
            out.push(p[row + x]);
            x += 1;
        }
        y += 1;
    }
    assert(goal.take(hp * w) =~= goal);
    out
}

/// The absolute difference of two samples.
pub open spec fn gap(a: u16, b: u16) -> int {
    abs(a - b)
}

/// The sum of the absolute differences of every `step`-th sample, of the first `n` of
/// them.
pub open spec fn sparse_diff(a: Seq<u16>, b: Seq<u16>, step: int, n: nat) -> int
    decreases n,
{
    if n == 0 {
        0
    } else {
        sparse_diff(a, b, step, (n - 1) as nat) + gap(a[step * (n - 1)], b[step * (n - 1)])
    }
}

/// How many samples are compared.
pub open spec fn sparse_count(a: Seq<u16>, b: Seq<u16>, step: int) -> int {
    (min_int(a.len() as int, b.len() as int) + step - 1) / step
}

/// The sum of the absolute differences of every `step`-th sample of two planes, and how
/// many there are.
pub fn activity(a: &[u16], b: &[u16], step: usize) -> (r: (u64, u64))
    requires
        1 <= step <= 64,
        a@.len() <= 0x1_0000_0000_0000,
    ensures
        r.1 == sparse_count(a@, b@, step as int),
        r.0 == sparse_diff(a@, b@, step as int, r.1 as nat),
{
    let n: usize = if a.len() < b.len() {
        a.len()
    } else {
        b.len()
    };
    let whole: usize = n / step;
    let rest: usize = n % step;
    proof {
        let (q, r, s) = (whole as int, rest as int, step as int);
        lemma_fundamental_div_mod(n as int, s);
        lemma_mod_bound(n as int, s);
        assert(q + r <= n && (q + 1) * s == s * q + s && q * s == s * q) by (nonlinear_arith)
            requires
                n == s * q + r,
                1 <= s,
                0 <= q,
        ;
        if r > 0 {
            lemma_fundamental_div_mod_converse(n + s - 1, s, q + 1, r - 1);
        } else {
            lemma_fundamental_div_mod_converse(n + s - 1, s, q, s - 1);
        }
    }
    let total: usize = if rest > 0 {
        whole + 1
    } else {
        whole
    };
    let mut sum: u64 = 0;
    let mut k: usize = 0;
    while k < total
        invariant
            k <= total,
            n == min_int(a@.len() as int, b@.len() as int),
            n <= 0x1_0000_0000_0000,
            total <= n,
            1 <= step,
            n == step * whole + rest,
            total == (if rest > 0 {
                whole + 1
            } else {
                whole as int
            }),
            sum == sparse_diff(a@, b@, step as int, k as nat),
            sum <= k * 65535,
        decreases total - k,
    {
        assert(0 <= step * k <= step * whole && (k < whole ==> step * k < step * whole))
            by (nonlinear_arith)
            requires
                k <= whole,
                1 <= step,
        ;
        let i: usize = step * k;
        let d: u64 = if a[i] < b[i] {
            (b[i] - a[i]) as u64
        } else {
            (a[i] - b[i]) as u64
        };
        sum = sum + d;
        k += 1;
    }
    (sum, total as u64)
}

/// The absolute difference of a sample of the block at `bx`, `by` and of the other frame
/// moved by `mv`; none beyond the frame.
pub open spec fn aligned_diff(
    anchor: Seq<u16>,
    other: Seq<u16>,
    w: int,
    h: int,
    bx: int,
    by: int,
    mv: Mv,
) -> spec_fn(int, int) -> int {
    |y: int, x: int|
        if by + y < h && bx + x < w {
            abs(
                sample(anchor, w, by + y, bx + x) - sample(
                    other,
                    w,
                    clamped(by + y + mv.0, 0, h - 1),
                    clamped(bx + x + mv.1, 0, w - 1),
                ),
            )
        } else {
            0
        }
}

/// A coordinate of a frame of length `n`.
fn clamp_to(v: i32, n: usize) -> (r: usize)
    requires
        1 <= n <= 0x20000,
    ensures
        r == clamped(v as int, 0, n - 1),
{
    if v < 0 {
        0
    } else if v as usize > n - 1 {
        n - 1
    } else {
        v as usize
    }
}

/// The place of the sample of the other frame that is aligned to the sample at `x`, `y`.
pub fn aligned_place(x: usize, y: usize, w: usize, h: usize, mv: Mv) -> (i: usize)
    requires
        x < w <= 0x20000,
        y < h <= 0x20000,
        -0x1000000 <= mv.0 <= 0x1000000,
        -0x1000000 <= mv.1 <= 0x1000000,
        w * h <= usize::MAX,
    ensures
        i == clamped(y + mv.0, 0, h - 1) * w + clamped(x + mv.1, 0, w - 1),
        i < w * h,
{
    let sx: usize = clamp_to(x as i32 + mv.1, w);
    let sy: usize = clamp_to(y as i32 + mv.0, h);
    proof {
        lemma_place(w as int, h as int, w * h, sy as int, sx as int);
    }
    sy * w + sx
}

/// The sum of absolute differences of the block of `bs` by `bs` samples at `bx`, `by` and
/// of another frame moved by `mv`, which continues beyond its edges.
pub fn tf_sad(
    anchor: &[u16],
    other: &[u16],
    w: usize,
    h: usize,
    bx: usize,
    by: usize,
    bs: usize,
    mv: Mv,
) -> (sad: u64)
    requires
        1 <= w <= 0x10000,
        1 <= h <= 0x10000,
        w * h <= anchor@.len(),
        w * h <= other@.len(),
        bx <= 0x10000,
        by <= 0x10000,
        bs <= 0x10000,
        -0x1000000 <= mv.0 <= 0x1000000,
        -0x1000000 <= mv.1 <= 0x1000000,
    ensures
        sad == sum2(
            aligned_diff(anchor@, other@, w as int, h as int, bx as int, by as int, mv),
            bs as nat,
            bs as nat,
        ),
        sad <= 0x1_0000_0000_0000,
{
    let ghost f = aligned_diff(anchor@, other@, w as int, h as int, bx as int, by as int, mv);
    let ghost rows = |y: int| sum1(|x: int| f(y, x), bs as nat);
    let a_len: usize = anchor.len();
    let o_len: usize = other.len();
    let mut sad: u64 = 0;
    let mut y: usize = 0;
    while y < bs
        invariant
            y <= bs <= 0x10000,
            1 <= w <= 0x10000,
            1 <= h <= 0x10000,
            a_len == anchor@.len(),
            o_len == other@.len(),
            w * h <= a_len,
            w * h <= o_len,
            bx <= 0x10000,
            by <= 0x10000,
            -0x1000000 <= mv.0 <= 0x1000000,
            -0x1000000 <= mv.1 <= 0x1000000,
            f == aligned_diff(anchor@, other@, w as int, h as int, bx as int, by as int, mv),
            rows == (|y: int| sum1(|x: int| f(y, x), bs as nat)),
            sad == sum1(rows, y as nat),
            sad <= y * 0x1_0000_0000,
        decreases bs - y,
    {
        let ghost start = sad;
        let ghost row = |x: int| f(y as int, x);
        let mut x: usize = 0;
        while x < bs
            invariant
                x <= bs <= 0x10000,
                y < bs,
                1 <= w <= 0x10000,
                1 <= h <= 0x10000,
                a_len == anchor@.len(),
                o_len == other@.len(),
                w * h <= a_len,
                w * h <= o_len,
                bx <= 0x10000,
                by <= 0x10000,
                -0x1000000 <= mv.0 <= 0x1000000,
                -0x1000000 <= mv.1 <= 0x1000000,
                f == aligned_diff(anchor@, other@, w as int, h as int, bx as int, by as int, mv),
                row == (|x: int| f(y as int, x)),
                sad == start + sum1(row, x as nat),
                start <= y * 0x1_0000_0000,
                sad <= start + x * 65535,
            decreases bs - x,
        {
            if by + y < h && bx + x < w {
                let (ax, ay): (usize, usize) = (bx + x, by + y);
                proof {
                    lemma_place(w as int, h as int, w * h, ay as int, ax as int);
                }
                let i: usize = aligned_place(ax, ay, w, h, mv);
                let (a, b): (u16, u16) = (anchor[ay * w + ax], other[i]);
                let d: u64 = if a < b {
                    (b - a) as u64
                } else {
                    (a - b) as u64
                };
                assert(row(x as int) == d);
                sad = sad + d;
            } else {
                assert(row(x as int) == 0);
            }
            x += 1;
        }
        assert(rows(y as int) == sum1(row, bs as nat));
        y += 1;
    }
    sad
}

/// All vectors up to `range` away from zero, row by row.
pub open spec fn tf_window(range: int) -> Seq<Mv> {
    let n = if range < 0 {
        0
    } else {
        2 * range + 1
    };
    Seq::new((n * n) as nat, |i: int| shifted((0, 0), i / n - range, i % n - range))
}

/// How badly vectors align a block of another frame.
pub open spec fn tf_scorer(
    anchor: Seq<u16>,
    other: Seq<u16>,
    w: int,
    h: int,
    bx: int,
    by: int,
    bs: nat,
) -> spec_fn(Mv, int) -> int {
    |mv: Mv, bound: int| sum2(aligned_diff(anchor, other, w, h, bx, by, mv), bs, bs)
}

/// The vector of whole pixels, up to `range`, that aligns a block of another frame best;
/// of equal ones the shortest.
pub fn tf_search(
    anchor: &[u16],
    other: &[u16],
    w: usize,
    h: usize,
    bx: usize,
    by: usize,
    bs: usize,
    range: i32,
) -> (mv: Mv)
    requires
        1 <= w <= 0x10000,
        1 <= h <= 0x10000,
        w * h <= anchor@.len(),
        w * h <= other@.len(),
        bx <= 0x10000,
        by <= 0x10000,
        bs <= 0x10000,
        range <= 0x1000000,
    ensures
        ({
            let s = tf_scorer(
                anchor@,
                other@,
                w as int,
                h as int,
                bx as int,
                by as int,
                bs as nat,
            );
            let zero: Mv = (0, 0);
            mv == offered_all(
                s,
                Best { mv: zero, sad: s(zero, 0) as i64 },
                tf_window(range as int),
            ).mv
        }),
{
    let ghost s = tf_scorer(
        anchor@,
        other@,
        w as int,
        h as int,
        bx as int,
        by as int,
        bs as nat,
    );
    let first: u64 = tf_sad(anchor, other, w, h, bx, by, bs, (0, 0));
    let mut best: Best = Best { mv: (0, 0), sad: first as i64 };
    let ghost start = best;
    let ghost all = tf_window(range as int);
    if range < 0 {
        return best.mv;
    }
    let n: i64 = 2 * range as i64 + 1;
    assert(1 <= n * n <= 0x2000001 * 0x2000001) by (nonlinear_arith)
        requires
            1 <= n <= 0x2000001,
    ;
    let count: i64 = n * n;
    let mut i: i64 = 0;
    while i < count
        invariant
            0 <= i <= count,
            1 <= n <= 0x2000001,
            n == 2 * range + 1,
            count == n * n,
            count <= 0x2000001 * 0x2000001,
            0 <= range <= 0x1000000,
            1 <= w <= 0x10000,
            1 <= h <= 0x10000,
            w * h <= anchor@.len(),
            w * h <= other@.len(),
            bx <= 0x10000,
            by <= 0x10000,
            bs <= 0x10000,
            all == tf_window(range as int),
            s == tf_scorer(
                anchor@,
                other@,
                w as int,
                h as int,
                bx as int,
                by as int,
                bs as nat,
            ),
            best == offered_all(s, start, all.take(i as int)),
            in_range(best.mv),
        decreases count - i,
    {
        proof {
            lemma_fundamental_div_mod(i as int, n as int);
            lemma_mod_bound(i as int, n as int);
            lemma_div_pos_is_pos(i as int, n as int);
            lemma_multiply_divide_lt(i as int, n as int, n as int);
            assert(all.take(i + 1).drop_last() =~= all.take(i as int));
        }
        let mv: Mv = ((i / n) as i32 - range, (i % n) as i32 - range);
        assert(mv == all[i as int]);
        let sad: u64 = tf_sad(anchor, other, w, h, bx, by, bs, mv);
        offer(&mut best, mv, sad as i64);
        i += 1;
    }
    assert(all.take(count as int) =~= all);
    best.mv
}

/// A sum of absolute differences of a block is not negative and not too large.
proof fn lemma_aligned_bound(
    anchor: Seq<u16>,
    other: Seq<u16>,
    w: int,
    h: int,
    bx: int,
    by: int,
    bs: nat,
    mv: Mv,
)
    requires
        bs <= 0x10000,
    ensures
        0 <= sum2(aligned_diff(anchor, other, w, h, bx, by, mv), bs, bs) <= i64::MAX,
{
    let f = aligned_diff(anchor, other, w, h, bx, by, mv);
    let rows = |y: int| sum1(|x: int| f(y, x), bs);
    assert forall|y: int| 0 <= y < bs implies 0 <= #[trigger] rows(y) <= bs * 65535 by {
        let row = |x: int| f(y, x);
        assert forall|x: int| 0 <= x < bs implies 0 <= #[trigger] row(x) <= 65535 by {}
        lemma_sum1_bound(row, bs, 65535);
    }
    lemma_sum1_bound(rows, bs, (bs * 65535) as int);
    assert(bs * (bs * 65535) <= i64::MAX) by (nonlinear_arith)
        requires
            bs <= 0x10000,
    ;
}

/// No vector of the window aligns a block better than the one that
/// [`tf_search`] returns, and none that aligns it as well is shorter. The vector itself is
/// one of the window.
pub proof fn law_tf_is_best(
    anchor: Seq<u16>,
    other: Seq<u16>,
    w: int,
    h: int,
    bx: int,
    by: int,
    bs: nat,
    range: int,
    r: Mv,
    v: Mv,
)
    requires
        bs <= 0x10000,
        0 <= range <= 0x1000000,
        ({
            let s = tf_scorer(anchor, other, w, h, bx, by, bs);
            let zero: Mv = (0, 0);
            r == offered_all(s, Best { mv: zero, sad: s(zero, 0) as i64 }, tf_window(range)).mv
        }),
        -range <= v.0 <= range,
        -range <= v.1 <= range,
    ensures
        -range <= r.0 <= range,
        -range <= r.1 <= range,
        ({
            let a = sum2(aligned_diff(anchor, other, w, h, bx, by, r), bs, bs);
            let b = sum2(aligned_diff(anchor, other, w, h, bx, by, v), bs, bs);
            a < b || (a == b && abs(r.0 as int) + abs(r.1 as int) <= abs(v.0 as int) + abs(
                v.1 as int,
            ))
        }),
{
    let t = |mv: Mv| sum2(aligned_diff(anchor, other, w, h, bx, by, mv), bs, bs);
    let s = tf_scorer(anchor, other, w, h, bx, by, bs);
    assert(s =~= (|mv: Mv, bound: int| t(mv)));
    assert forall|mv: Mv| 0 <= #[trigger] t(mv) <= i64::MAX by {
        lemma_aligned_bound(anchor, other, w, h, bx, by, bs, mv);
    }
    let zero: Mv = (0, 0);
    assert(0 <= t(zero) <= i64::MAX);
    let start = Best { mv: zero, sad: t(zero) as i64 };
    let all = tf_window(range);
    let n = 2 * range + 1;
    let (p, q) = (v.0 + range, v.1 + range);
    let i = p * n + q;
    lemma_fundamental_div_mod_converse(i, n, p, q);
    assert(0 <= i < n * n) by (nonlinear_arith)
        requires
            0 <= p < n,
            0 <= q < n,
            i == p * n + q,
    ;
    assert(all[i] == v);
    law_best_is_shortest(t, start, all, i);
    let best = offered_all(s, start, all);
    if best.mv != zero {
        let k = choose|k: int| 0 <= k < all.len() && all[k] == best.mv;
        lemma_fundamental_div_mod(k, n);
        lemma_mod_bound(k, n);
        lemma_div_pos_is_pos(k, n);
        lemma_multiply_divide_lt(k, n, n);
    }
}

/// The number of samples in which two planes of `w` by `h` samples differ, of the first
/// `n` in reading order.
pub open spec fn differing(
    a: Seq<u16>,
    a_stride: int,
    b: Seq<u8>,
    b_stride: int,
    w: int,
    n: nat,
) -> nat
    decreases n,
{
    if n == 0 {
        0
    } else {
        let (y, x) = ((n - 1) / w, (n - 1) % w);
        differing(a, a_stride, b, b_stride, w, (n - 1) as nat) + (if a[y * a_stride + x] as u8
            != b[y * b_stride + x] {
            1nat
        } else {
            0
        })
    }
}

/// Counts the samples in which a reconstruction and a decoded plane differ.
pub fn count_differences(
    a: &[u16],
    a_stride: usize,
    b: &[u8],
    b_stride: usize,
    w: usize,
    h: usize,
) -> (n: usize)
    requires
        w <= a_stride,
        w <= b_stride,
        a_stride * h <= a@.len(),
        b_stride * h <= b@.len(),
    ensures
        n == differing(
            a@,
            a_stride as int,
            b@,
            b_stride as int,
            w as int,
            (h * w) as nat,
        ),
{
    let a_len: usize = a.len();
    let b_len: usize = b.len();
    let mut n: usize = 0;
    assert(0 * w == 0);
    let mut y: usize = 0;
    while y < h
        invariant
            y <= h,
            a_len == a@.len(),
            b_len == b@.len(),
            w <= a_stride,
            w <= b_stride,
            a_stride * h <= a_len,
            b_stride * h <= b_len,
            n == differing(
                a@,
                a_stride as int,
                b@,
                b_stride as int,
                w as int,
                (y * w) as nat,
            ),
            n <= y * w,
            y * w <= a_len,
        decreases h - y,
    {
        assert(y * a_stride + a_stride <= a_stride * h && y * b_stride + b_stride <= b_stride * h
            && (y + 1) * w == y * w + w && (y + 1) * w <= a_stride * h && 0 <= y * a_stride && 0
            <= y * b_stride && 0 <= y * w) by (nonlinear_arith)
            requires
                y + 1 <= h,
                0 <= w <= a_stride,
                0 <= b_stride,
        ;
        let (ra, rb): (usize, usize) = (y * a_stride, y * b_stride);
        let mut x: usize = 0;
        while x < w
            invariant
                x <= w,
                y < h,
                a_len == a@.len(),
                b_len == b@.len(),
                w <= a_stride,
                w <= b_stride,
                ra == y * a_stride,
                rb == y * b_stride,
                ra + a_stride <= a_len,
                rb + b_stride <= b_len,
                0 <= y * w,
                y * w + w <= a_len,
                n == differing(
                    a@,
                    a_stride as int,
                    b@,
                    b_stride as int,
                    w as int,
                    (y * w + x) as nat,
                ),
                n <= y * w + x,
            decreases w - x,
        {
            proof {
                lemma_fundamental_div_mod_converse(y * w + x, w as int, y as int, x as int);
            }
            if a[ra + x] as u8 != b[rb + x] {
                n += 1;
            }
            x += 1;
        }
        y += 1;
    }
    n
}

/// A padded plane has the rows of the plane, and its last row again below them.
pub proof fn law_padding_repeats_the_last_row(
    p: Seq<u16>,
    w: int,
    h: int,
    hp: int,
    y: int,
    x: int,
)
    requires
        0 < w,
        0 < h <= hp,
        0 <= y < hp,
        0 <= x < w,
    ensures
        y < h ==> padded(p, w, h, hp)[y * w + x] == p[y * w + x],
        y >= h ==> padded(p, w, h, hp)[y * w + x] == p[(h - 1) * w + x],
        padded(p, w, h, hp).len() == hp * w,
{
    vstd::arithmetic::div_mod::lemma_fundamental_div_mod_converse(y * w + x, w, y, x);
    assert(0 <= y * w + x < hp * w) by (nonlinear_arith)
        requires
            0 <= y < hp,
            0 <= x < w,
    ;
}

/// Frames that are the same differ in nothing, the difference is the same in either order,
/// and it is never negative.
pub proof fn law_same_frames_do_not_differ(a: Seq<u16>, b: Seq<u16>, step: int, n: nat)
    ensures
        sparse_diff(a, a, step, n) == 0,
        sparse_diff(a, b, step, n) == sparse_diff(b, a, step, n),
        sparse_diff(a, b, step, n) >= 0,
    decreases n,
{
    if n > 0 {
        law_same_frames_do_not_differ(a, b, step, (n - 1) as nat);
    }
}

/// The samples that differ are counted: there are none just where all are the same.
pub proof fn law_differing_samples_are_counted(
    a: Seq<u16>,
    a_stride: int,
    b: Seq<u8>,
    b_stride: int,
    w: int,
    n: nat,
)
    requires
        0 < w,
    ensures
        differing(a, a_stride, b, b_stride, w, n) <= n,
        differing(a, a_stride, b, b_stride, w, n) == 0 <==> forall|i: int|
            0 <= i < n ==> #[trigger] same_sample(a, a_stride, b, b_stride, w, i),
    decreases n,
{
    if n > 0 {
        law_differing_samples_are_counted(a, a_stride, b, b_stride, w, (n - 1) as nat);
        let before = differing(a, a_stride, b, b_stride, w, (n - 1) as nat);
        let last = same_sample(a, a_stride, b, b_stride, w, n - 1);
        assert(differing(a, a_stride, b, b_stride, w, n) == before + (if last {
            0nat
        } else {
            1
        }));
        if before == 0 && last {
            assert forall|i: int| 0 <= i < n implies #[trigger] same_sample(
                a,
                a_stride,
                b,
                b_stride,
                w,
                i,
            ) by {}
        }
        if before != 0 {
            let i = choose|i: int|
                0 <= i < n - 1 && !#[trigger] same_sample(a, a_stride, b, b_stride, w, i);
            assert(!same_sample(a, a_stride, b, b_stride, w, i));
        }
    }
}

/// Sample `i` in reading order is the same in both planes.
pub open spec fn same_sample(
    a: Seq<u16>,
    a_stride: int,
    b: Seq<u8>,
    b_stride: int,
    w: int,
    i: int,
) -> bool {
    a[(i / w) * a_stride + i % w] as u8 == b[(i / w) * b_stride + i % w]
}

/// Frames are compared in every `step`-th sample alone, and each counts by how far apart it
/// is: where one of them alone differs, that is the difference.
pub proof fn law_every_step_is_compared(a: Seq<u16>, b: Seq<u16>, step: int, n: nat, k: int)
    requires
        forall|j: int| 0 <= j < n && j != k ==> #[trigger] a[step * j] == b[step * j],
    ensures
        sparse_diff(a, b, step, n) == (if 0 <= k < n {
            abs(a[step * k] - b[step * k])
        } else {
            0
        }),
    decreases n,
{
    if n > 0 {
        law_every_step_is_compared(a, b, step, (n - 1) as nat, k);
        if k != n - 1 {
            assert(a[step * (n - 1)] == b[step * (n - 1)]);
        }
    }
}

/// A sum of zeros is zero.
proof fn lemma_zeros(f: spec_fn(int) -> int, n: nat)
    requires
        forall|i: int| 0 <= i < n ==> #[trigger] f(i) == 0,
    ensures
        sum1(f, n) == 0,
    decreases n,
{
    if n > 0 {
        lemma_zeros(f, (n - 1) as nat);
        assert(f(n - 1) == 0);
    }
}

/// A block that stands `mv` further on in the other frame is aligned by `mv` without any
/// difference.
pub proof fn law_alignment_follows_motion(
    anchor: Seq<u16>,
    other: Seq<u16>,
    w: int,
    h: int,
    bx: int,
    by: int,
    bs: nat,
    mv: Mv,
    bound: int,
)
    requires
        forall|y: int, x: int|
            by <= y < by + bs && bx <= x < bx + bs && y < h && x < w ==> 0 <= y + mv.0 < h && 0 <= x
                + mv.1 < w && #[trigger] sample(anchor, w, y, x) == sample(
                other,
                w,
                y + mv.0,
                x + mv.1,
            ),
    ensures
        tf_scorer(anchor, other, w, h, bx, by, bs)(mv, bound) == 0,
{
    let f = aligned_diff(anchor, other, w, h, bx, by, mv);
    let rows = |y: int| sum1(|x: int| f(y, x), bs);
    assert forall|y: int| 0 <= y < bs implies #[trigger] rows(y) == 0 by {
        let row = |x: int| f(y, x);
        assert forall|x: int| 0 <= x < bs implies #[trigger] row(x) == 0 by {
            if by + y < h && bx + x < w {
                assert(sample(anchor, w, by + y, bx + x) == sample(
                    other,
                    w,
                    by + y + mv.0,
                    bx + x + mv.1,
                ));
            }
        }
        lemma_zeros(row, bs);
    }
    lemma_zeros(rows, bs);
}

} // verus!
