//! Updates of probabilities: how a frame header moves a probability to a new value.
use vstd::arithmetic::div_mod::*;
use vstd::arithmetic::power2::*;
use vstd::prelude::*;

use crate::bits;
use crate::bits::BoolDecoder;
use crate::coding;
use crate::coding::Cursor;

verus! {

/// The probability at which a header says that a probability is not updated.
pub const DIFF_UPDATE_PROB: u8 = 252;

/// The distance that each code of an update stands for: the twenty multiples of 13
/// that make coarse steps come first, then all others in order.
pub open spec fn update_distance(v: int) -> int {
    if v < 20 {
        7 + 13 * v
    } else if v < 254 {
        v - 19 + (v - 14) / 12
    } else {
        253
    }
}

/// The `v`-th number by nearness to `m` among the non-negative ones: `m` itself,
/// then alternately below and above it, then what is left above.
pub open spec fn recentered(v: int, m: int) -> int {
    if v > 2 * m {
        v
    } else if v % 2 == 1 {
        m - (v + 1) / 2
    } else {
        m + v / 2
    }
}

/// The probability to which the code `v` moves the probability `m`: counted from the
/// end of the range that `m` is nearer to.
pub open spec fn remapped(v: int, m: int) -> int {
    if 2 * (m - 1) <= 255 {
        1 + recentered(update_distance(v), m - 1)
    } else {
        255 - recentered(update_distance(v), 255 - m)
    }
}

/// The probability to which the code `v` moves the probability `m`.
pub fn inv_remap_prob(v: i32, m: i32) -> (r: u8)
    requires
        0 <= v <= 254,
        0 <= m <= 255,
    ensures
        r == remapped(v as int, m as int),
        1 <= r,
{
    let d: i32 = if v < 20 {
        7 + 13 * v
    } else if v < 254 {
        v - 19 + (v - 14) / 12
    } else {
        253
    };
    if 2 * (m - 1) <= 255 {
        (1 + inv_recenter(d, m - 1)) as u8
    } else {
        (255 - inv_recenter(d, 255 - m)) as u8
    }
}

fn inv_recenter(v: i32, m: i32) -> (r: i32)
    requires
        1 <= v <= 254,
        -1 <= m <= 127,
    ensures
        r == recentered(v as int, m as int),
        0 <= r <= 254,
{
    if v > 2 * m {
        v
    } else if v % 2 == 1 {
        m - (v + 1) / 2
    } else {
        m + v / 2
    }
}

/// The smallest code that moves the probability `old_p` to `new_p`, from `v` on.
pub open spec fn code_from(old_p: int, new_p: int, v: int) -> Option<int>
    decreases 255 - v,
{
    if v >= 255 {
        None
    } else if remapped(v, old_p) == new_p {
        Some(v)
    } else {
        code_from(old_p, new_p, v + 1)
    }
}

/// The smallest code that moves the probability `old_p` to `new_p`, if one does.
pub open spec fn update_code(old_p: int, new_p: int) -> Option<int> {
    code_from(old_p, new_p, 0)
}

proof fn lemma_code_from(old_p: int, new_p: int, v: int)
    requires
        0 <= v,
        code_from(old_p, new_p, v) is Some,
    ensures
        v <= code_from(old_p, new_p, v).unwrap() < 255,
        remapped(code_from(old_p, new_p, v).unwrap(), old_p) == new_p,
    decreases 255 - v,
{
    if v < 255 && remapped(v, old_p) != new_p {
        lemma_code_from(old_p, new_p, v + 1);
    }
}

proof fn lemma_code_found(old_p: int, new_p: int, v: int, w: int)
    requires
        0 <= v <= w < 255,
        remapped(w, old_p) == new_p,
    ensures
        code_from(old_p, new_p, v) is Some,
    decreases w - v,
{
    if remapped(v, old_p) != new_p {
        lemma_code_found(old_p, new_p, v + 1, w);
    }
}

/// Choosing a code inverts applying it: the code found for a new probability moves
/// the old one there, and whatever a code reaches has a code.
pub proof fn law_update_code_reaches(old_p: int, new_p: int)
    ensures
        update_code(old_p, new_p) is Some <==> exists|v: int|
            0 <= v < 255 && #[trigger] remapped(v, old_p) == new_p,
        update_code(old_p, new_p) is Some ==> 0 <= update_code(old_p, new_p).unwrap() < 255
            && remapped(update_code(old_p, new_p).unwrap(), old_p) == new_p,
{
    if update_code(old_p, new_p) is Some {
        lemma_code_from(old_p, new_p, 0);
    }
    if exists|v: int| 0 <= v < 255 && #[trigger] remapped(v, old_p) == new_p {
        let w = choose|v: int| 0 <= v < 255 && #[trigger] remapped(v, old_p) == new_p;
        lemma_code_found(old_p, new_p, 0, w);
    }
}

/// The smallest code that moves the probability `old_p` to `new_p`, if one does.
pub fn forward_remap_prob(old_p: u8, new_p: u8) -> (r: Option<u32>)
    ensures
        match r {
            Some(v) => update_code(old_p as int, new_p as int) == Some(v as int) && v < 255,
            None => update_code(old_p as int, new_p as int) is None,
        },
{
    let mut v: u32 = 0;
    while v < 255
        invariant
            v <= 255,
            code_from(old_p as int, new_p as int, v as int) == update_code(
                old_p as int,
                new_p as int,
            ),
        decreases 255 - v,
    {
        if inv_remap_prob(v as i32, old_p as i32) == new_p {
            return Some(v);
        }
        v = v + 1;
    }
    None
}

// ---------------------------------------------------------------------------
// Reading
// ---------------------------------------------------------------------------

/// The code of an update read from `c`: up to three bits that select a range, then
/// the place in it.
pub open spec fn subexp_read(c: Cursor) -> (int, Cursor) {
    let c1 = coding::read_next(c, 128);
    let c2 = coding::read_next(c1, 128);
    let c3 = coding::read_next(c2, 128);
    if !coding::read_bit(c, 128) {
        (bits::literal_value(c1, 4), bits::literal_after(c1, 4))
    } else if !coding::read_bit(c1, 128) {
        (bits::literal_value(c2, 4) + 16, bits::literal_after(c2, 4))
    } else if !coding::read_bit(c2, 128) {
        (bits::literal_value(c3, 5) + 32, bits::literal_after(c3, 5))
    } else {
        let v = bits::literal_value(c3, 7);
        let c4 = bits::literal_after(c3, 7);
        if v < 65 {
            (v + 64, c4)
        } else {
            (
                2 * v - 1 + (if coding::read_bit(c4, 128) {
                    1int
                } else {
                    0
                }),
                coding::read_next(c4, 128),
            )
        }
    }
}

/// `n` literal bits make an integer below `2^n`.
pub proof fn lemma_literal_bound(c: Cursor, n: nat)
    ensures
        0 <= bits::literal_value(c, n) < pow2(n),
    decreases n,
{
    if n == 0 {
        lemma2_to64();
    } else {
        lemma_literal_bound(c, (n - 1) as nat);
        lemma_pow2_unfold(n);
    }
}

/// Reads an integer of at most 31 bits.
fn read_literal(b: &mut BoolDecoder, n: u32) -> (r: u32)
    requires
        old(b).wf(),
        n <= 31,
    ensures
        final(b).wf(),
        r == bits::literal_value(old(b)@, n as nat),
        r < pow2(n as nat),
        final(b)@ == bits::literal_after(old(b)@, n as nat),
{
    proof {
        lemma_literal_bound(b@, n as nat);
        lemma2_to64();
        if n < 31 {
            lemma_pow2_strictly_increases(n as nat, 31);
        }
        lemma_small_mod(bits::literal_value(b@, n as nat) as nat, 0x1_0000_0000);
    }
    b.literal(n)
}

/// Reads the code of an update.
pub fn decode_term_subexp(b: &mut BoolDecoder) -> (r: u32)
    requires
        old(b).wf(),
    ensures
        final(b).wf(),
        (r as int, final(b)@) == subexp_read(old(b)@),
        r <= 254,
{
    proof {
        lemma2_to64();
    }
    if b.read_bool(128) == 0 {
        return read_literal(b, 4);
    }
    if b.read_bool(128) == 0 {
        return read_literal(b, 4) + 16;
    }
    if b.read_bool(128) == 0 {
        return read_literal(b, 5) + 32;
    }
    let v: u32 = read_literal(b, 7);
    if v < 65 {
        return v + 64;
    }
    2 * v - 1 + b.read_bool(128)
}

/// The probability that an update read from `c` leaves of `p`.
pub open spec fn diff_read(c: Cursor, p: u8) -> (u8, Cursor) {
    let c1 = coding::read_next(c, DIFF_UPDATE_PROB);
    if coding::read_bit(c, DIFF_UPDATE_PROB) {
        (remapped(subexp_read(c1).0, p as int) as u8, subexp_read(c1).1)
    } else {
        (p, c1)
    }
}

/// The probabilities that updates read from `c`, one after the other, leave of
/// `ps`.
pub open spec fn diffs_read(c: Cursor, ps: Seq<u8>) -> (Seq<u8>, Cursor)
    decreases ps.len(),
{
    if ps.len() == 0 {
        (ps, c)
    } else {
        let (qs, c1) = diffs_read(c, ps.drop_last());
        let (q, c2) = diff_read(c1, ps.last());
        (qs.push(q), c2)
    }
}

/// Reads an update of `p`.
pub fn diff_update(b: &mut BoolDecoder, p: &mut u8)
    requires
        old(b).wf(),
    ensures
        final(b).wf(),
        (*final(p), final(b)@) == diff_read(old(b)@, *old(p)),
{
    if b.read_bool(DIFF_UPDATE_PROB) == 1 {
        let delta: i32 = decode_term_subexp(b) as i32;
        *p = inv_remap_prob(delta, *p as i32);
    }
}

/// Reads an update of each of `p`.
pub fn diff_update_slice(b: &mut BoolDecoder, p: &mut [u8])
    requires
        old(b).wf(),
    ensures
        final(b).wf(),
        (final(p)@, final(b)@) == diffs_read(old(b)@, old(p)@),
        final(p)@.len() == old(p)@.len(),
{
    let ghost ps = p@;
    let ghost c = b@;
    let n: usize = p.len();
    let mut i: usize = 0;
    assert(ps.take(0) =~= Seq::empty());
    while i < n
        invariant
            i <= n,
            n == ps.len(),
            p@.len() == n,
            b.wf(),
            diffs_read(c, ps.take(i as int)) == (p@.take(i as int), b@),
            forall|j: int| i <= j < n ==> p@[j] == ps[j],
        decreases n - i,
    {
        let ghost before = p@;
        let ghost c1 = b@;
        let mut v: u8 = p[i];
        diff_update(b, &mut v);
        p[i] = v;
        i = i + 1;
        proof {
            assert(ps.take(i as int).drop_last() =~= ps.take(i - 1));
            assert(p@.take(i as int) =~= before.take(i - 1).push(v));
        }
    }
    assert(ps.take(n as int) =~= ps);
    assert(p@.take(n as int) =~= p@);
}

/// The rows of a table.
pub open spec fn rows<const C: usize, const R: usize>(a: [[u8; C]; R]) -> Seq<Seq<u8>> {
    Seq::new(R as nat, |i: int| a[i]@)
}

/// The rows that updates read from `c` leave of `rs`.
pub open spec fn rows_read(c: Cursor, rs: Seq<Seq<u8>>) -> (Seq<Seq<u8>>, Cursor)
    decreases rs.len(),
{
    if rs.len() == 0 {
        (rs, c)
    } else {
        let (qs, c1) = rows_read(c, rs.drop_last());
        let (q, c2) = diffs_read(c1, rs.last());
        (qs.push(q), c2)
    }
}

/// Reads an update of each entry of a table, row by row.
pub fn diff_update_rows<const C: usize, const R: usize>(b: &mut BoolDecoder, a: &mut [[u8; C]; R])
    requires
        old(b).wf(),
    ensures
        final(b).wf(),
        (rows(*final(a)), final(b)@) == rows_read(old(b)@, rows(*old(a))),
{
    let ghost rs = rows(*a);
    let ghost c = b@;
    let mut i: usize = 0;
    assert(rs.take(0) =~= Seq::empty());
    assert(rows(*a).take(0) =~= Seq::empty());
    while i < R
        invariant
            i <= R,
            rs.len() == R,
            b.wf(),
            rows_read(c, rs.take(i as int)) == (rows(*a).take(i as int), b@),
            forall|j: int| i <= j < R ==> #[trigger] rows(*a)[j] == rs[j],
        decreases R - i,
    {
        let ghost before = rows(*a);
        assert(before[i as int] == rs[i as int]);
        let mut row: [u8; C] = a[i];
        assert(row@ == before[i as int]);
        diff_update_slice(b, &mut row);
        a[i] = row;
        i = i + 1;
        proof {
            assert(rows(*a) =~= before.update(i - 1, row@));
            assert(rs.take(i as int).drop_last() =~= rs.take(i - 1));
            assert(rows(*a).take(i as int) =~= before.take(i - 1).push(row@));
        }
    }
    assert(rs.take(R as int) =~= rs);
    assert(rows(*a).take(R as int) =~= rows(*a));
}

/// The motion probability that an update read from `c` leaves of `p`: seven bits and
/// a one.
pub open spec fn mv_read(c: Cursor, p: u8) -> (u8, Cursor) {
    let c1 = coding::read_next(c, DIFF_UPDATE_PROB);
    if coding::read_bit(c, DIFF_UPDATE_PROB) {
        ((2 * bits::literal_value(c1, 7) + 1) as u8, bits::literal_after(c1, 7))
    } else {
        (p, c1)
    }
}

/// The motion probabilities that updates read from `c` leave of `ps`.
pub open spec fn mvs_read(c: Cursor, ps: Seq<u8>) -> (Seq<u8>, Cursor)
    decreases ps.len(),
{
    if ps.len() == 0 {
        (ps, c)
    } else {
        let (qs, c1) = mvs_read(c, ps.drop_last());
        let (q, c2) = mv_read(c1, ps.last());
        (qs.push(q), c2)
    }
}

/// Reads an update of the motion probability `p`.
pub fn update_mv_prob(b: &mut BoolDecoder, p: &mut u8)
    requires
        old(b).wf(),
    ensures
        final(b).wf(),
        (*final(p), final(b)@) == mv_read(old(b)@, *old(p)),
{
    proof {
        lemma2_to64();
    }
    if b.read_bool(DIFF_UPDATE_PROB) == 1 {
        *p = (read_literal(b, 7) * 2 + 1) as u8;
    }
}

/// Reads an update of each of the motion probabilities `p`.
pub fn update_mv_probs(b: &mut BoolDecoder, p: &mut [u8])
    requires
        old(b).wf(),
    ensures
        final(b).wf(),
        (final(p)@, final(b)@) == mvs_read(old(b)@, old(p)@),
        final(p)@.len() == old(p)@.len(),
{
    let ghost ps = p@;
    let ghost c = b@;
    let n: usize = p.len();
    let mut i: usize = 0;
    assert(ps.take(0) =~= Seq::empty());
    while i < n
        invariant
            i <= n,
            n == ps.len(),
            p@.len() == n,
            b.wf(),
            mvs_read(c, ps.take(i as int)) == (p@.take(i as int), b@),
            forall|j: int| i <= j < n ==> p@[j] == ps[j],
        decreases n - i,
    {
        let ghost before = p@;
        let mut v: u8 = p[i];
        update_mv_prob(b, &mut v);
        p[i] = v;
        i = i + 1;
        proof {
            assert(ps.take(i as int).drop_last() =~= ps.take(i - 1));
            assert(p@.take(i as int) =~= before.take(i - 1).push(v));
        }
    }
    assert(ps.take(n as int) =~= ps);
    assert(p@.take(n as int) =~= p@);
}

/// No two codes of an update stand for the same distance, and the first twenty are the
/// coarse ones, thirteen apart.
pub proof fn law_distances_differ(u: int, v: int)
    requires
        0 <= u < v < 254,
    ensures
        update_distance(u) != update_distance(v),
        0 <= update_distance(u) <= 254,
        v < 20 ==> update_distance(v) - update_distance(u) == 13 * (v - u),
        u >= 20 ==> update_distance(u) < update_distance(v),
{
    if u < 20 && v >= 20 {
        let q = (v - 14) / 12;
        let r = (v - 14) % 12;
        assert(v - 14 == 12 * q + r);
        assert(update_distance(v) == 13 * q + r - 5);
        assert((update_distance(v) - 7) % 13 == (r - 12) % 13);
        assert((update_distance(u) - 7) % 13 == 0);
    } else if u >= 20 {
        assert((u - 14) / 12 <= (v - 14) / 12);
    }
}

/// Counting from `m` goes to it first, then one below and one above, two below and two above
/// and so on, and past twice `m` straight on.
pub proof fn law_recentering_alternates(m: int, k: int)
    requires
        0 <= m,
        0 < k <= m,
    ensures
        recentered(0, m) == m,
        recentered(2 * k - 1, m) == m - k,
        recentered(2 * k, m) == m + k,
        recentered(2 * m + k, m) == 2 * m + k,
{
}

} // verus!
