//! Transform blocks on their way into the stream: residuals, what is kept of trials, and
//! counts.
use std::collections::HashMap;

use vstd::arithmetic::mul::*;
use vstd::prelude::*;

use crate::decode::residual::TxType;
use crate::encode::pixels::{lemma_place, Picture};
use crate::encode::scoring::pred_diff;

verus! {

/// The start of a fingerprint.
pub const FNV_BASIS: u64 = 0xcbf2_9ce4_8422_2325;

/// The factor of a fingerprint.
pub const FNV_PRIME: u64 = 0x100_0000_01b3;

/// The residual of a square of `n` by `n` samples, row by row.
pub open spec fn residual_of(
    src: Picture,
    x0: int,
    y0: int,
    pred: Seq<u16>,
    po: int,
    stride: int,
    n: int,
) -> Seq<i32> {
    Seq::new(
        (n * n) as nat,
        |i: int| pred_diff(src, x0, y0, pred, po, stride)(i / n, i % n) as i32,
    )
}

/// The residual of a square of `n` by `n` samples: the source less its prediction.
pub fn residual(
    src: &Picture,
    x0: usize,
    y0: usize,
    pred: &[u16],
    po: usize,
    stride: usize,
    n: usize,
) -> (r: Vec<i32>)
    requires
        src.wf(),
        1 <= n <= 64,
        x0 + n <= src.stride,
        src.stride * (y0 + n) <= src.buf@.len(),
        po + (n - 1) * stride + n <= pred@.len(),
    ensures
        r@ == residual_of(
            *src,
            x0 as int,
            y0 as int,
            pred@,
            po as int,
            stride as int,
            n as int,
        ),
{
    let ghost goal = residual_of(
        *src,
        x0 as int,
        y0 as int,
        pred@,
        po as int,
        stride as int,
        n as int,
    );
    let s_len: usize = src.buf.len();
    let p_len: usize = pred.len();
    let mut out: Vec<i32> = Vec::new();
    assert(0 * n == 0);
    let mut y: usize = 0;
    while y < n
        invariant
            y <= n <= 64,
            src.wf(),
            s_len == src.buf@.len(),
            p_len == pred@.len(),
            x0 + n <= src.stride,
            src.stride * (y0 + n) <= s_len,
            po + (n - 1) * stride + n <= p_len,
            goal == residual_of(
                *src,
                x0 as int,
                y0 as int,
                pred@,
                po as int,
                stride as int,
                n as int,
            ),
            out@ =~= goal.take(y * n),
            y * n <= n * n,
        decreases n - y,
    {
        proof {
            lemma_place(src.stride as int, y0 + n, s_len as int, y0 + y, x0 + n - 1);
            assert(0 <= y * stride && y * stride <= (n - 1) * stride && y * n + n == (y + 1) * n && (
            y + 1) * n <= n * n && 0 <= y * n) by (nonlinear_arith)
                requires
                    y <= n - 1,
                    0 <= n,
            ;
            assert(y0 + y <= s_len) by (nonlinear_arith)
                requires
                    src.stride * (y0 + n) <= s_len,
                    1 <= src.stride,
                    y < n,
            ;
        }
        let s_row: usize = (y0 + y) * src.stride + x0;
        let p_row: usize = po + y * stride;
        let mut x: usize = 0;
        while x < n
            invariant
                x <= n <= 64,
                y < n,
                s_len == src.buf@.len(),
                p_len == pred@.len(),
                s_row == (y0 + y) * src.stride + x0,
                p_row == po + y * stride,
                s_row + n <= s_len,
                p_row + n <= p_len,
                goal == residual_of(
                    *src,
                    x0 as int,
                    y0 as int,
                    pred@,
                    po as int,
                    stride as int,
                    n as int,
                ),
                out@ =~= goal.take(y * n + x),
                y * n + n <= n * n,
                0 <= y * n,
            decreases n - x,
        {
            proof {
                let i = y * n + x;
                vstd::arithmetic::div_mod::lemma_fundamental_div_mod_converse(
                    i,
                    n as int,
                    y as int,
                    x as int,
                );
                assert(goal.take(i + 1) =~= goal.take(i).push(goal[i]));
            }
            out.push(src.buf[s_row + x] as i32 - pred[p_row + x] as i32);
            x += 1;
        }
        y += 1;
    }
    assert(goal.take(n * n) =~= goal);
    out
}

/// The sum of the squares of the first `n` numbers of `s`.
pub open spec fn energy_of(s: Seq<i32>, n: nat) -> int
    decreases n,
{
    if n == 0 {
        0
    } else {
        energy_of(s, (n - 1) as nat) + s[n - 1] * s[n - 1]
    }
}

/// The energy of a residual: the squared error of a block that is left out.
pub fn energy(r: &[i32]) -> (e: u64)
    requires
        r@.len() <= 1024,
        forall|i: int| 0 <= i < r@.len() ==> -0x10000 <= #[trigger] r@[i] <= 0x10000,
    ensures
        e == energy_of(r@, r@.len()),
{
    let n: usize = r.len();
    let mut e: u64 = 0;
    let mut i: usize = 0;
    while i < n
        invariant
            i <= n <= 1024,
            n == r@.len(),
            forall|i: int| 0 <= i < r@.len() ==> -0x10000 <= #[trigger] r@[i] <= 0x10000,
            e == energy_of(r@, i as nat),
            e <= i * 0x1_0000_0000,
        decreases n - i,
    {
        let v: i64 = r[i] as i64;
        assert(0 <= v * v <= 0x1_0000_0000) by (nonlinear_arith)
            requires
                -0x10000 <= v <= 0x10000,
        ;
        e = e + (v * v) as u64;
        i += 1;
    }
    e
}

/// A number as it stands in 32 bits.
pub open spec fn word(v: i32) -> u64 {
    (if v < 0 {
        v + 0x1_0000_0000
    } else {
        v as int
    }) as u64
}

/// A fingerprint after the first `n` numbers of `s`.
pub open spec fn fnv(h: u64, s: Seq<i32>, n: nat) -> u64
    decreases n,
{
    if n == 0 {
        h
    } else {
        (fnv(h, s, (n - 1) as nat) ^ word(s[n - 1])).wrapping_mul(FNV_PRIME)
    }
}

/// The number of a transform type.
pub open spec fn tx_number(t: TxType) -> u64 {
    match t {
        TxType::DctDct => 0,
        TxType::AdstDct => 1,
        TxType::DctAdst => 2,
        TxType::AdstAdst => 3,
    }
}

/// The fingerprint of everything that decides what becomes of a transform block: its
/// residual, its transform, the context of its first coefficient, and whether it is an
/// inter block.
pub open spec fn print_of(r: Seq<i32>, t: TxType, ctx0: usize, inter: bool) -> u64 {
    fnv(
        FNV_BASIS ^ tx_number(t) ^ ((ctx0 as u64) * 256) as u64 ^ (if inter {
            0x10000u64
        } else {
            0u64
        }),
        r,
        r.len(),
    )
}

/// The fingerprint of a transform block.
pub fn fingerprint(r: &[i32], t: TxType, ctx0: usize, inter: bool) -> (h: u64)
    requires
        ctx0 <= 2,
    ensures
        h == print_of(r@, t, ctx0, inter),
{
    let number: u64 = match t {
        TxType::DctDct => 0,
        TxType::AdstDct => 1,
        TxType::DctAdst => 2,
        TxType::AdstAdst => 3,
    };
    let flag: u64 = if inter {
        0x10000
    } else {
        0
    };
    let mut h: u64 = FNV_BASIS ^ number ^ (ctx0 as u64 * 256) ^ flag;
    let ghost start = h;
    let n: usize = r.len();
    let mut i: usize = 0;
    while i < n
        invariant
            i <= n,
            n == r@.len(),
            h == fnv(start, r@, i as nat),
        decreases n - i,
    {
        let v: i64 = r[i] as i64;
        let w: u64 = if v < 0 {
            (v + 0x1_0000_0000) as u64
        } else {
            v as u64
        };
        h = (h ^ w).wrapping_mul(FNV_PRIME);
        i += 1;
    }
    h
}

/// What a trial left of a transform block: its fingerprint, its levels, the coefficients
/// that they stand for, and its end.
pub struct Kept {
    pub print: u64,
    pub levels: Vec<i32>,
    pub dq: Vec<i32>,
    pub eob: u16,
}

/// The key of a transform block: its plane, its place and its size.
pub open spec fn key_of(plane: int, x0: int, y0: int, tx_size: int) -> int {
    ((plane * 0x20000 + x0) * 0x20000 + y0) * 4 + tx_size
}

/// No two transform blocks have the same key.
pub proof fn law_keys_differ(
    p: int,
    x: int,
    y: int,
    t: int,
    p2: int,
    x2: int,
    y2: int,
    t2: int,
)
    requires
        0 <= p < 4 && 0 <= x < 0x20000 && 0 <= y < 0x20000 && 0 <= t < 4,
        0 <= p2 < 4 && 0 <= x2 < 0x20000 && 0 <= y2 < 0x20000 && 0 <= t2 < 4,
        key_of(p, x, y, t) == key_of(p2, x2, y2, t2),
    ensures
        p == p2 && x == x2 && y == y2 && t == t2,
{
}

/// What trials left of the transform blocks of a frame.
pub struct Dedup {
    map: HashMap<u64, Kept>,
}

impl Dedup {
    /// What was left of each transform block, by its key.
    pub closed spec fn view(&self) -> Map<u64, Kept> {
        self.map@
    }

    /// Nothing yet.
    pub fn new() -> (d: Dedup)
        ensures
            d@ == Map::<u64, Kept>::empty(),
    {
        Dedup { map: HashMap::new() }
    }

    /// The key of a transform block.
    fn key(plane: usize, x0: usize, y0: usize, tx_size: usize) -> (k: u64)
        requires
            plane < 4,
            x0 < 0x20000,
            y0 < 0x20000,
            tx_size < 4,
        ensures
            k == key_of(plane as int, x0 as int, y0 as int, tx_size as int),
    {
        ((plane as u64 * 0x20000 + x0 as u64) * 0x20000 + y0 as u64) * 4 + tx_size as u64
    }

    /// Keeps what a trial left of a transform block.
    pub fn keep(&mut self, plane: usize, x0: usize, y0: usize, tx_size: usize, kept: Kept)
        requires
            plane < 4,
            x0 < 0x20000,
            y0 < 0x20000,
            tx_size < 4,
        ensures
            final(self)@ == old(self)@.insert(
                key_of(plane as int, x0 as int, y0 as int, tx_size as int) as u64,
                kept,
            ),
    {
        broadcast use vstd::std_specs::hash::group_hash_axioms;

        let k: u64 = Dedup::key(plane, x0, y0, tx_size);
        self.map.insert(k, kept);
    }

    /// What a trial left of a transform block, if it was the same block: one with the
    /// same fingerprint.
    pub fn reuse(&self, plane: usize, x0: usize, y0: usize, tx_size: usize, print: u64) -> (r:
        Option<&Kept>)
        requires
            plane < 4,
            x0 < 0x20000,
            y0 < 0x20000,
            tx_size < 4,
        ensures
            ({
                let k = key_of(plane as int, x0 as int, y0 as int, tx_size as int) as u64;
                match r {
                    Some(kept) => self@.contains_key(k) && *kept == self@[k] && kept.print == print,
                    None => !self@.contains_key(k) || self@[k].print != print,
                }
            }),
    {
        broadcast use vstd::std_specs::hash::group_hash_axioms;

        let k: u64 = Dedup::key(plane, x0, y0, tx_size);
        match self.map.get(&k) {
            Some(kept) => if kept.print == print {
                Some(kept)
            } else {
                None
            },
            None => None,
        }
    }
}

/// The last row of `n` columns that holds a coefficient; 0 if none does.
pub open spec fn last_row(dq: Seq<i32>, n: int, k: nat) -> int
    decreases k,
{
    if k == 0 {
        0
    } else if dq[k - 1] != 0 {
        (k - 1) / n
    } else {
        last_row(dq, n, (k - 1) as nat)
    }
}

/// The last row of `n` columns that holds a coefficient; 0 if none does.
pub fn max_row(dq: &[i32], n: usize) -> (r: usize)
    requires
        n > 0,
    ensures
        r == last_row(dq@, n as int, dq@.len()),
{
    let len: usize = dq.len();
    let ghost goal = last_row(dq@, n as int, dq@.len());
    let mut k: usize = len;
    while k > 0
        invariant
            k <= len,
            len == dq@.len(),
            n > 0,
            goal == last_row(dq@, n as int, dq@.len()),
            goal == last_row(dq@, n as int, k as nat),
        decreases k,
    {
        if dq[k - 1] != 0 {
            return (k - 1) / n;
        }
        k -= 1;
    }
    0
}

/// Adds the counts of the coefficients of a block to those of a frame.
pub fn add_coef_counts(
    coef: &mut [[[u32; 4]; 6]; 6],
    eob_branch: &mut [[u32; 6]; 6],
    more: &[[[u32; 4]; 6]; 6],
    more_eob: &[[u32; 6]; 6],
)
    requires
        forall|b: int, c: int, m: int|
            0 <= b < 6 && 0 <= c < 6 && 0 <= m < 4 ==> #[trigger] old(coef)[b][c][m]
                + more[b][c][m] <= u32::MAX,
        forall|b: int, c: int|
            0 <= b < 6 && 0 <= c < 6 ==> #[trigger] old(eob_branch)[b][c] + more_eob[b][c]
                <= u32::MAX,
    ensures
        forall|b: int, c: int, m: int|
            0 <= b < 6 && 0 <= c < 6 && 0 <= m < 4 ==> #[trigger] final(coef)[b][c][m] == old(
                coef)[b][c][m] + more[b][c][m],
        forall|b: int, c: int|
            0 <= b < 6 && 0 <= c < 6 ==> #[trigger] final(eob_branch)[b][c] == old(
                eob_branch)[b][c] + more_eob[b][c],
{
    let ghost c0 = *coef;
    let ghost e0 = *eob_branch;
    let mut b: usize = 0;
    while b < 6
        invariant
            b <= 6,
            forall|i: int, c: int, m: int|
                0 <= i < 6 && 0 <= c < 6 && 0 <= m < 4 ==> #[trigger] c0[i][c][m] + more[i][c][m]
                    <= u32::MAX,
            forall|i: int, c: int|
                0 <= i < 6 && 0 <= c < 6 ==> #[trigger] e0[i][c] + more_eob[i][c] <= u32::MAX,
            forall|i: int, c: int, m: int|
                0 <= i < 6 && 0 <= c < 6 && 0 <= m < 4 ==> #[trigger] coef[i][c][m] == (if i < b {
                    c0[i][c][m] + more[i][c][m]
                } else {
                    c0[i][c][m] as int
                }),
            forall|i: int, c: int|
                0 <= i < 6 && 0 <= c < 6 ==> #[trigger] eob_branch[i][c] == (if i < b {
                    e0[i][c] + more_eob[i][c]
                } else {
                    e0[i][c] as int
                }),
        decreases 6 - b,
    {
        let mut c: usize = 0;
        while c < 6
            invariant
                b < 6,
                c <= 6,
                forall|i: int, c: int, m: int|
                    0 <= i < 6 && 0 <= c < 6 && 0 <= m < 4 ==> #[trigger] c0[i][c][m]
                        + more[i][c][m] <= u32::MAX,
                forall|i: int, c: int|
                    0 <= i < 6 && 0 <= c < 6 ==> #[trigger] e0[i][c] + more_eob[i][c] <= u32::MAX,
                forall|i: int, k: int, m: int|
                    0 <= i < 6 && 0 <= k < 6 && 0 <= m < 4 ==> #[trigger] coef[i][k][m] == (if i
                        < b || (i == b && k < c) {
                        c0[i][k][m] + more[i][k][m]
                    } else {
                        c0[i][k][m] as int
                    }),
                forall|i: int, k: int|
                    0 <= i < 6 && 0 <= k < 6 ==> #[trigger] eob_branch[i][k] == (if i < b || (i
                        == b && k < c) {
                        e0[i][k] + more_eob[i][k]
                    } else {
                        e0[i][k] as int
                    }),
            decreases 6 - c,
        {
            assert(c0[b as int][c as int][0] + more[b as int][c as int][0] <= u32::MAX);
            assert(c0[b as int][c as int][1] + more[b as int][c as int][1] <= u32::MAX);
            assert(c0[b as int][c as int][2] + more[b as int][c as int][2] <= u32::MAX);
            assert(c0[b as int][c as int][3] + more[b as int][c as int][3] <= u32::MAX);
            let row: [u32; 4] = [
                coef[b][c][0] + more[b][c][0],
                coef[b][c][1] + more[b][c][1],
                coef[b][c][2] + more[b][c][2],
                coef[b][c][3] + more[b][c][3],
            ];
            coef[b][c] = row;
            eob_branch[b][c] = eob_branch[b][c] + more_eob[b][c];
            c += 1;
        }
        b += 1;
    }
}

/// The last row with a coefficient: none behind it holds one, and it does itself unless it
/// is the first.
pub proof fn law_last_row_holds_one(dq: Seq<i32>, n: int, k: nat, i: int)
    requires
        0 < n,
        k <= dq.len(),
        0 <= i < k,
    ensures
        dq[i] != 0 ==> i / n <= last_row(dq, n, k),
        last_row(dq, n, k) > 0 ==> exists|j: int|
            0 <= j < k && #[trigger] dq[j] != 0 && j / n == last_row(dq, n, k),
        last_row(dq, n, k) >= 0,
    decreases k,
{
    if dq[k - 1] == 0 {
        if i < k - 1 {
            law_last_row_holds_one(dq, n, (k - 1) as nat, i);
        } else if k > 1 {
            law_last_row_holds_one(dq, n, (k - 1) as nat, 0);
        }
    } else {
        vstd::arithmetic::div_mod::lemma_div_is_ordered(i, k - 1, n);
        vstd::arithmetic::div_mod::lemma_div_pos_is_pos(k - 1, n);
        assert(dq[k - 1] != 0);
    }
}

/// A residual is what the prediction lacks: added to it, sample by sample, it gives the
/// source.
pub proof fn law_residual_completes_prediction(
    src: Picture,
    x0: int,
    y0: int,
    pred: Seq<u16>,
    po: int,
    stride: int,
    n: int,
    y: int,
    x: int,
)
    requires
        0 < n <= 64,
        0 <= y < n,
        0 <= x < n,
        0 <= src.at(y0 + y, x0 + x) <= 65535,
    ensures
        residual_of(src, x0, y0, pred, po, stride, n)[y * n + x] + pred[po + y * stride + x]
            == src.at(y0 + y, x0 + x),
{
    vstd::arithmetic::div_mod::lemma_fundamental_div_mod_converse(y * n + x, n, y, x);
    assert(0 <= y * n + x < n * n) by (nonlinear_arith)
        requires
            0 <= y < n,
            0 <= x < n,
    ;
}

/// The energy of a residual is zero just where all of it is.
pub proof fn law_energy_of_nothing(s: Seq<i32>, n: nat)
    requires
        n <= s.len(),
    ensures
        energy_of(s, n) >= 0,
        energy_of(s, n) == 0 <==> forall|i: int| 0 <= i < n ==> #[trigger] s[i] == 0,
    decreases n,
{
    if n > 0 {
        law_energy_of_nothing(s, (n - 1) as nat);
        let v = s[n - 1] as int;
        assert(v * v >= 0 && (v * v == 0 <==> v == 0)) by (nonlinear_arith);
    }
}

/// The energy of a residual with one number alone is its square.
pub proof fn law_energy_adds_squares(s: Seq<i32>, n: nat, k: int)
    requires
        forall|j: int| 0 <= j < n && j != k ==> #[trigger] s[j] == 0,
    ensures
        energy_of(s, n) == (if 0 <= k < n {
            s[k] * s[k]
        } else {
            0
        }),
    decreases n,
{
    if n > 0 {
        law_energy_adds_squares(s, (n - 1) as nat, k);
        if k != n - 1 {
            assert(s[n - 1] == 0);
        }
    }
}

/// Multiplying by the prime loses nothing: it has an inverse among 64-bit numbers.
proof fn lemma_prime_keeps_apart(a: u64, b: u64)
    requires
        a.wrapping_mul(FNV_PRIME) == b.wrapping_mul(FNV_PRIME),
    ensures
        a == b,
{
    let m = 0x1_0000_0000_0000_0000int;
    let p = FNV_PRIME as int;
    let inverse = 0xce96_5057_aff6_957bint;
    let t = 887285111055int;
    assert(p * inverse == 1 + t * m);
    let (x, y) = (a * p, b * p);
    vstd::arithmetic::div_mod::lemma_fundamental_div_mod(x, m);
    vstd::arithmetic::div_mod::lemma_fundamental_div_mod(y, m);
    let k = x / m - y / m;
    let d = a - b;
    assert(x - y == m * k) by (nonlinear_arith)
        requires
            x == m * (x / m) + x % m,
            y == m * (y / m) + y % m,
            x % m == y % m,
            k == x / m - y / m,
    ;
    assert(d * p == m * k) by (nonlinear_arith)
        requires
            x == a * p,
            y == b * p,
            d == a - b,
            x - y == m * k,
    ;
    let e = k * inverse - t * d;
    assert(d == m * e) by (nonlinear_arith)
        requires
            d * p == m * k,
            p * inverse == 1 + t * m,
            e == k * inverse - t * d,
    ;
    assert(e == 0) by (nonlinear_arith)
        requires
            d == m * e,
            -m < d < m,
            m > 0,
    ;
}

proof fn lemma_xor_keeps_apart(a: u64, b: u64, c: u64)
    requires
        a ^ c == b ^ c,
    ensures
        a == b,
{
    assert(a ^ c == b ^ c ==> a == b) by (bit_vector);
}

/// Fingerprints that begin apart stay apart over the same numbers.
proof fn lemma_prints_stay_apart(g: u64, h: u64, s: Seq<i32>, n: nat)
    requires
        g != h,
    ensures
        fnv(g, s, n) != fnv(h, s, n),
    decreases n,
{
    if n > 0 {
        lemma_prints_stay_apart(g, h, s, (n - 1) as nat);
        let (a, b) = (fnv(g, s, (n - 1) as nat), fnv(h, s, (n - 1) as nat));
        let w = word(s[n - 1]);
        if (a ^ w).wrapping_mul(FNV_PRIME) == (b ^ w).wrapping_mul(FNV_PRIME) {
            lemma_prime_keeps_apart(a ^ w, b ^ w);
            lemma_xor_keeps_apart(a, b, w);
        }
    }
}

/// Blocks with the same residual but of other transforms, contexts or kinds have different
/// fingerprints.
pub proof fn law_prints_tell_blocks_apart(
    r: Seq<i32>,
    t: TxType,
    ctx: usize,
    inter: bool,
    t2: TxType,
    ctx2: usize,
    inter2: bool,
)
    requires
        ctx <= 2,
        ctx2 <= 2,
    ensures
        print_of(r, t, ctx, inter) == print_of(r, t2, ctx2, inter2) ==> t == t2 && ctx == ctx2
            && inter == inter2,
{
    let (a, b) = (tx_number(t), tx_number(t2));
    let (c, d) = (((ctx as u64) * 256) as u64, ((ctx2 as u64) * 256) as u64);
    let e = if inter {
        0x10000u64
    } else {
        0u64
    };
    let f = if inter2 {
        0x10000u64
    } else {
        0u64
    };
    let basis = FNV_BASIS;
    let (g, h) = (basis ^ a ^ c ^ e, basis ^ b ^ d ^ f);
    assert(g == h ==> a == b && c == d && e == f) by (bit_vector)
        requires
            g == basis ^ a ^ c ^ e,
            h == basis ^ b ^ d ^ f,
            a < 4,
            b < 4,
            c == 0 || c == 256 || c == 512,
            d == 0 || d == 256 || d == 512,
            e == 0 || e == 0x10000,
            f == 0 || f == 0x10000,
    ;
    if g != h {
        lemma_prints_stay_apart(g, h, r, r.len());
    }
}

/// Residuals that differ in their last number alone have different fingerprints.
pub proof fn law_prints_tell_residuals_apart(
    r: Seq<i32>,
    v: i32,
    u: i32,
    t: TxType,
    ctx: usize,
    inter: bool,
)
    ensures
        print_of(r.push(v), t, ctx, inter) == print_of(r.push(u), t, ctx, inter) ==> v == u,
{
    let h = FNV_BASIS ^ tx_number(t) ^ ((ctx as u64) * 256) as u64 ^ (if inter {
        0x10000u64
    } else {
        0u64
    });
    let n = r.len();
    lemma_same_start(h, r.push(v), r.push(u), n);
    let s = fnv(h, r.push(v), n);
    let (a, b) = (word(v), word(u));
    assert(r.push(v)[n as int] == v && r.push(u)[n as int] == u);
    if (s ^ a).wrapping_mul(FNV_PRIME) == (s ^ b).wrapping_mul(FNV_PRIME) {
        lemma_prime_keeps_apart(s ^ a, s ^ b);
        assert(s ^ a == s ^ b ==> a == b) by (bit_vector);
    }
}

proof fn lemma_same_start(h: u64, a: Seq<i32>, b: Seq<i32>, n: nat)
    requires
        forall|i: int| 0 <= i < n ==> #[trigger] a[i] == b[i],
    ensures
        fnv(h, a, n) == fnv(h, b, n),
    decreases n,
{
    if n > 0 {
        lemma_same_start(h, a, b, (n - 1) as nat);
        assert(a[n - 1] == b[n - 1]);
    }
}

} // verus!
