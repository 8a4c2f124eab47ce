//! The compressed header: the updates of a frame's probabilities.
use vstd::prelude::*;

use crate::bits;
use crate::bits::BoolDecoder;
use crate::block::TX_MODE_SELECT;
use crate::coding;
use crate::coding::Cursor;
use crate::context::{CoefProbs, FrameContext};
use crate::error::{Error, Result};
use crate::geom_tables::TX_MODE_TO_BIGGEST_TX;
use crate::header::FrameHeader;
use crate::prob;
use crate::prob::{
    diff_update_rows, diff_update_slice, rows, rows_read, update_mv_prob, update_mv_probs,
};
use crate::prob_tables::{NmvComponent, NmvContext};

verus! {

// ---------------------------------------------------------------------------
// Lists of probabilities, in the order in which they are updated
// ---------------------------------------------------------------------------

/// Where row `r` of the coefficient probabilities of a transform size stands: plane
/// type, reference type, band, context. Band 0 has three contexts, the others six.
pub open spec fn coef_slot(r: int) -> (int, int, int, int) {
    let q = r % 33;
    (
        r / 66,
        (r / 33) % 2,
        if q < 3 {
            0
        } else {
            1 + (q - 3) / 6
        },
        if q < 3 {
            q
        } else {
            (q - 3) % 6
        },
    )
}

/// The rows of coefficient probabilities of a transform size that are coded.
#[verifier::opaque]
pub open spec fn coef_rows(p: CoefProbs) -> Seq<Seq<u8>> {
    Seq::new(
        132,
        |r: int|
            {
                let (i, j, k, l) = coef_slot(r);
                p[i][j][k][l]@
            },
    )
}

/// The rows of coefficient probabilities that are never coded are the same.
pub open spec fn same_spare(p: CoefProbs, q: CoefProbs) -> bool {
    forall|i: int, j: int, l: int|
        0 <= i < 2 && 0 <= j < 2 && 3 <= l < 6 ==> #[trigger] p[i][j][0][l] == q[i][j][0][l]
}

/// The transform size probabilities.
pub open spec fn tx_rows(fc: FrameContext) -> Seq<Seq<u8>> {
    rows(fc.tx_p8x8) + rows(fc.tx_p16x16) + rows(fc.tx_p32x32)
}

/// The probabilities of inter modes, of interpolation filters where each block names
/// its own, and of intra and inter.
pub open spec fn inter_rows(fc: FrameContext, switchable: bool) -> Seq<Seq<u8>> {
    rows(fc.inter_mode_probs) + (if switchable {
        rows(fc.switchable_interp_prob)
    } else {
        Seq::empty()
    }) + seq![fc.intra_inter_prob@]
}

/// The probabilities of references in reference mode `mode`.
pub open spec fn ref_rows(fc: FrameContext, mode: int) -> Seq<Seq<u8>> {
    (if mode == 2 {
        seq![fc.comp_inter_prob@]
    } else {
        Seq::empty()
    }) + (if mode != 1 {
        rows(fc.single_ref_prob)
    } else {
        Seq::empty()
    }) + (if mode != 0 {
        seq![fc.comp_ref_prob@]
    } else {
        Seq::empty()
    })
}

/// The probabilities of luma modes and of partitions.
pub open spec fn mode_rows(fc: FrameContext) -> Seq<Seq<u8>> {
    rows(fc.y_mode_prob) + rows(fc.partition_prob)
}

/// The integer parts of a motion component.
pub open spec fn mv_integer_list(n: NmvComponent) -> Seq<u8> {
    seq![n.sign] + n.classes@ + n.class0@ + n.bits@
}

/// The fractional parts of a motion component.
pub open spec fn mv_fraction_list(n: NmvComponent) -> Seq<u8> {
    n.class0_fp[0]@ + n.class0_fp[1]@ + n.fp@
}

/// The last bits of a motion component.
pub open spec fn mv_hp_list(n: NmvComponent) -> Seq<u8> {
    seq![n.class0_hp] + seq![n.hp]
}

/// The motion probabilities, with those of the last bits where `hp` holds.
pub open spec fn mv_list(n: NmvContext, hp: bool) -> Seq<u8> {
    n.joints@ + mv_integer_list(n.comps[0]) + mv_integer_list(n.comps[1]) + mv_fraction_list(
        n.comps[0],
    ) + mv_fraction_list(n.comps[1]) + (if hp {
        mv_hp_list(n.comps[0]) + mv_hp_list(n.comps[1])
    } else {
        Seq::empty()
    })
}

// ---------------------------------------------------------------------------
// What is read
// ---------------------------------------------------------------------------

/// Updating a list is updating its parts one after the other.
pub broadcast proof fn lemma_rows_concat(c: Cursor, a: Seq<Seq<u8>>, b: Seq<Seq<u8>>)
    ensures
        #[trigger] rows_read(c, a + b) == (
            rows_read(c, a).0 + rows_read(rows_read(c, a).1, b).0,
            rows_read(rows_read(c, a).1, b).1,
        ),
    decreases b.len(),
{
    if b.len() == 0 {
        assert(a + b =~= a);
        assert(rows_read(c, a).0 + b =~= rows_read(c, a).0);
    } else {
        lemma_rows_concat(c, a, b.drop_last());
        assert((a + b).drop_last() =~= a + b.drop_last());
        let c1 = rows_read(c, a).1;
        let q = prob::diffs_read(rows_read(c1, b.drop_last()).1, b.last()).0;
        assert(rows_read(c, a).0 + rows_read(c1, b.drop_last()).0.push(q) =~= (rows_read(c, a).0
            + rows_read(c1, b.drop_last()).0).push(q));
    }
}

/// Updating keeps the number of rows.
pub broadcast proof fn lemma_rows_len(c: Cursor, a: Seq<Seq<u8>>)
    ensures
        (#[trigger] rows_read(c, a)).0.len() == a.len(),
    decreases a.len(),
{
    if a.len() > 0 {
        lemma_rows_len(c, a.drop_last());
    }
}

/// A single row.
pub broadcast proof fn lemma_row_one(c: Cursor, r: Seq<u8>)
    ensures
        #[trigger] rows_read(c, seq![r]) == (
            seq![prob::diffs_read(c, r).0],
            prob::diffs_read(c, r).1,
        ),
{
    reveal_with_fuel(rows_read, 2);
    assert(seq![r].drop_last() =~= Seq::<Seq<u8>>::empty());
    assert(rows_read(c, seq![r]).0 =~= seq![prob::diffs_read(c, r).0]);
}

/// Updating a list of motion probabilities is updating its parts one after the
/// other.
pub broadcast proof fn lemma_mvs_concat(c: Cursor, a: Seq<u8>, b: Seq<u8>)
    ensures
        #[trigger] prob::mvs_read(c, a + b) == (
            prob::mvs_read(c, a).0 + prob::mvs_read(prob::mvs_read(c, a).1, b).0,
            prob::mvs_read(prob::mvs_read(c, a).1, b).1,
        ),
    decreases b.len(),
{
    if b.len() == 0 {
        assert(a + b =~= a);
        assert(prob::mvs_read(c, a).0 + b =~= prob::mvs_read(c, a).0);
    } else {
        lemma_mvs_concat(c, a, b.drop_last());
        assert((a + b).drop_last() =~= a + b.drop_last());
        let c1 = prob::mvs_read(c, a).1;
        let q = prob::mv_read(prob::mvs_read(c1, b.drop_last()).1, b.last()).0;
        assert(prob::mvs_read(c, a).0 + prob::mvs_read(c1, b.drop_last()).0.push(q) =~= (
        prob::mvs_read(c, a).0 + prob::mvs_read(c1, b.drop_last()).0).push(q));
    }
}

/// A single motion probability.
pub broadcast proof fn lemma_mv_one(c: Cursor, p: u8)
    ensures
        #[trigger] prob::mvs_read(c, seq![p]) == (
            seq![prob::mv_read(c, p).0],
            prob::mv_read(c, p).1,
        ),
{
    reveal_with_fuel(prob::mvs_read, 2);
    assert(seq![p].drop_last() =~= Seq::<u8>::empty());
    assert(prob::mvs_read(c, seq![p]).0 =~= seq![prob::mv_read(c, p).0]);
}

/// The transform mode read from `c`.
pub open spec fn tx_mode_read(c: Cursor, lossless: bool) -> (int, Cursor) {
    if lossless {
        (0, c)
    } else {
        let t = bits::literal_value(c, 2);
        let c1 = bits::literal_after(c, 2);
        if t == 3 {
            (
                if coding::read_bit(c1, 128) {
                    4
                } else {
                    3
                },
                coding::read_next(c1, 128),
            )
        } else {
            (t, c1)
        }
    }
}

/// The coefficient probabilities of a transform size: one bit says whether there are
/// updates.
pub open spec fn coefs_read(c: Cursor, rs: Seq<Seq<u8>>) -> (Seq<Seq<u8>>, Cursor) {
    let c1 = coding::read_next(c, 128);
    if coding::read_bit(c, 128) {
        rows_read(c1, rs)
    } else {
        (rs, c1)
    }
}

/// The state after the coefficient updates of the first `n` transform sizes of `fc`.
pub open spec fn coefs_after(c: Cursor, fc: FrameContext, n: nat) -> Cursor
    decreases n,
{
    if n == 0 {
        c
    } else {
        coefs_read(
            coefs_after(c, fc, (n - 1) as nat),
            coef_rows(fc.coef_probs[n - 1]),
        ).1
    }
}

/// The coefficient updates of the first `n` transform sizes turn `pre` into `post`.
pub open spec fn coefs_become(
    c: Cursor,
    pre: FrameContext,
    post: FrameContext,
    n: nat,
) -> bool {
    &&& forall|tx: int|
        0 <= tx < n ==> coef_rows(#[trigger] post.coef_probs[tx]) == coefs_read(
            coefs_after(c, pre, tx as nat),
            coef_rows(pre.coef_probs[tx]),
        ).0 && same_spare(post.coef_probs[tx], pre.coef_probs[tx])
    &&& forall|tx: int| n <= tx < 4 ==> #[trigger] post.coef_probs[tx] == pre.coef_probs[tx]
}

/// Two references can be of use: not all references lie in the same direction.
pub open spec fn compound_allowed(sign_bias: Seq<bool>) -> bool {
    sign_bias[1] != sign_bias[0] || sign_bias[2] != sign_bias[0]
}

/// The reference mode read from `c`.
pub open spec fn reference_mode_read(c: Cursor, allowed: bool) -> (int, Cursor) {
    let c1 = coding::read_next(c, 128);
    if !allowed {
        (0, c)
    } else if !coding::read_bit(c, 128) {
        (0, c1)
    } else if !coding::read_bit(c1, 128) {
        (1, coding::read_next(c1, 128))
    } else {
        (2, coding::read_next(c1, 128))
    }
}

/// The fixed reference of blocks with two references, and the two variable ones: the
/// fixed one is that which lies in the direction of its own.
pub open spec fn compound_refs(sign_bias: Seq<bool>) -> (usize, Seq<usize>) {
    if sign_bias[0] == sign_bias[1] {
        (3, seq![1, 2])
    } else if sign_bias[0] == sign_bias[2] {
        (2, seq![1, 3])
    } else {
        (1, seq![2, 3])
    }
}

/// The number of transform sizes of a transform mode.
pub open spec fn tx_sizes(tx_mode: int) -> nat {
    (TX_MODE_TO_BIGGEST_TX[tx_mode] + 1) as nat
}

/// What the header read from `c` makes of `pre` up to the skip probabilities, which
/// all frames have.
pub open spec fn intra_part(
    c: Cursor,
    pre: FrameContext,
    lossless: bool,
    post: FrameContext,
) -> bool {
    let (tx_mode, c1) = tx_mode_read(c, lossless);
    let select = tx_mode == TX_MODE_SELECT;
    let (txs, c2) = if select {
        rows_read(c1, tx_rows(pre))
    } else {
        (tx_rows(pre), c1)
    };
    let c3 = coefs_after(c2, pre, tx_sizes(tx_mode));
    &&& post.tx_mode == tx_mode
    &&& tx_rows(post) == txs
    &&& coefs_become(c2, pre, post, tx_sizes(tx_mode))
    &&& post.skip_probs@ == prob::diffs_read(c3, pre.skip_probs@).0
}

/// The state after that part.
pub open spec fn intra_part_end(c: Cursor, pre: FrameContext, lossless: bool) -> Cursor {
    let (tx_mode, c1) = tx_mode_read(c, lossless);
    let c2 = if tx_mode == TX_MODE_SELECT {
        rows_read(c1, tx_rows(pre)).1
    } else {
        c1
    };
    let c3 = coefs_after(c2, pre, tx_sizes(tx_mode));
    prob::diffs_read(c3, pre.skip_probs@).1
}

/// What the header read from `c` makes of the rest of `pre`, in an inter frame.
pub open spec fn inter_part(
    c: Cursor,
    pre: FrameContext,
    h: FrameHeader,
    post: FrameContext,
) -> bool {
    let switchable = h.interp_filter == 4;
    let (inters, c1) = rows_read(c, inter_rows(pre, switchable));
    let (mode, c2) = reference_mode_read(c1, compound_allowed(h.ref_sign_bias@));
    let (refs, c3) = rows_read(c2, ref_rows(pre, mode));
    let (modes, c4) = rows_read(c3, mode_rows(pre));
    &&& inter_rows(post, switchable) == inters
    &&& !switchable ==> post.switchable_interp_prob == pre.switchable_interp_prob
    &&& post.reference_mode == mode
    &&& if mode == 0 {
        post.comp_fixed_ref == pre.comp_fixed_ref && post.comp_var_ref == pre.comp_var_ref
    } else {
        (post.comp_fixed_ref, post.comp_var_ref@) == compound_refs(h.ref_sign_bias@)
    }
    &&& ref_rows(post, mode) == refs
    &&& mode != 2 ==> post.comp_inter_prob == pre.comp_inter_prob
    &&& mode == 1 ==> post.single_ref_prob == pre.single_ref_prob
    &&& mode == 0 ==> post.comp_ref_prob == pre.comp_ref_prob
    &&& mode_rows(post) == modes
    &&& mv_list(post.nmvc, h.allow_high_precision_mv) == prob::mvs_read(
        c4,
        mv_list(pre.nmvc, h.allow_high_precision_mv),
    ).0
    &&& !h.allow_high_precision_mv ==> mv_hp_list(post.nmvc.comps[0]) == mv_hp_list(
        pre.nmvc.comps[0],
    ) && mv_hp_list(post.nmvc.comps[1]) == mv_hp_list(pre.nmvc.comps[1])
}

/// What only inter frames update is the same.
pub open spec fn same_inter(pre: FrameContext, post: FrameContext) -> bool {
    &&& post.y_mode_prob == pre.y_mode_prob
    &&& post.partition_prob == pre.partition_prob
    &&& post.inter_mode_probs == pre.inter_mode_probs
    &&& post.intra_inter_prob == pre.intra_inter_prob
    &&& post.comp_inter_prob == pre.comp_inter_prob
    &&& post.comp_ref_prob == pre.comp_ref_prob
    &&& post.single_ref_prob == pre.single_ref_prob
    &&& post.switchable_interp_prob == pre.switchable_interp_prob
    &&& post.nmvc == pre.nmvc
    &&& post.reference_mode == pre.reference_mode
    &&& post.comp_fixed_ref == pre.comp_fixed_ref
    &&& post.comp_var_ref == pre.comp_var_ref
}

/// The compressed header read from `c` turns `pre` into `post`.
pub open spec fn header_gives(
    c: Cursor,
    pre: FrameContext,
    h: FrameHeader,
    post: FrameContext,
) -> bool {
    &&& intra_part(c, pre, h.lossless, post)
    &&& post.uv_mode_prob == pre.uv_mode_prob
    &&& if h.key_frame || h.intra_only {
        same_inter(pre, post)
    } else {
        inter_part(intra_part_end(c, pre, h.lossless), pre, h, post)
    }
}

// ---------------------------------------------------------------------------
// Reading
// ---------------------------------------------------------------------------

/// Reads a transform mode.
pub fn read_tx_mode(b: &mut BoolDecoder, lossless: bool) -> (r: usize)
    requires
        old(b).wf(),
    ensures
        final(b).wf(),
        (r as int, final(b)@) == tx_mode_read(old(b)@, lossless),
        r <= 4,
{
    if lossless {
        return 0;
    }
    proof {
        prob::lemma_literal_bound(b@, 2);
        vstd::arithmetic::power2::lemma2_to64();
        vstd::arithmetic::div_mod::lemma_small_mod(
            bits::literal_value(b@, 2) as nat,
            0x1_0000_0000,
        );
    }
    let mut t: usize = b.literal(2) as usize;
    if t == 3 {
        t = t + b.read_bool(128) as usize;
    }
    t
}

/// Reads the transform size probabilities.
pub fn read_tx_mode_probs(b: &mut BoolDecoder, fc: &mut FrameContext)
    requires
        old(b).wf(),
    ensures
        final(b).wf(),
        (tx_rows(*final(fc)), final(b)@) == rows_read(old(b)@, tx_rows(*old(fc))),
        *final(fc) == (FrameContext {
            tx_p8x8: final(fc).tx_p8x8,
            tx_p16x16: final(fc).tx_p16x16,
            tx_p32x32: final(fc).tx_p32x32,
            ..*old(fc)
        }),
{
    broadcast use lemma_rows_concat;

    diff_update_rows(b, &mut fc.tx_p8x8);
    diff_update_rows(b, &mut fc.tx_p16x16);
    diff_update_rows(b, &mut fc.tx_p32x32);
}

/// Distinct rows stand at distinct places.
pub proof fn lemma_coef_slot(r: int)
    requires
        0 <= r < 132,
    ensures
        ({
            let (i, j, k, l) = coef_slot(r);
            &&& 0 <= i < 2 && 0 <= j < 2 && 0 <= k < 6 && 0 <= l < 6
            &&& k == 0 ==> l < 3
            &&& r == 66 * i + 33 * j + (if k == 0 {
                l
            } else {
                6 * k - 3 + l
            })
        }),
{
}

/// Where row `r` of the coefficient probabilities stands.
pub(crate) fn coef_place(r: usize) -> (s: (usize, usize, usize, usize))
    requires
        r < 132,
    ensures
        (s.0 as int, s.1 as int, s.2 as int, s.3 as int) == coef_slot(r as int),
        s.0 < 2,
        s.1 < 2,
        s.2 < 6,
        s.3 < 6,
{
    let q: usize = r % 33;
    (
        r / 66,
        (r / 33) % 2,
        if q < 3 {
            0
        } else {
            1 + (q - 3) / 6
        },
        if q < 3 {
            q
        } else {
            (q - 3) % 6
        },
    )
}

/// Reads the coefficient probabilities of one transform size.
pub fn read_coef_rows(b: &mut BoolDecoder, p: &mut CoefProbs)
    requires
        old(b).wf(),
    ensures
        final(b).wf(),
        (coef_rows(*final(p)), final(b)@) == rows_read(old(b)@, coef_rows(*old(p))),
        same_spare(*final(p), *old(p)),
{
    proof {
        reveal(coef_rows);
    }
    let ghost rs = coef_rows(*p);
    let ghost c = b@;
    let mut r: usize = 0;
    assert(rs.take(0) =~= Seq::empty());
    assert(coef_rows(*p).take(0) =~= Seq::empty());
    while r < 132
        invariant
            r <= 132,
            rs == coef_rows(*old(p)),
            b.wf(),
            rows_read(c, rs.take(r as int)) == (coef_rows(*p).take(r as int), b@),
            forall|s: int| r <= s < 132 ==> #[trigger] coef_rows(*p)[s] == rs[s],
            same_spare(*p, *old(p)),
        decreases 132 - r,
    {
        proof {
            reveal(coef_rows);
        }
        let (i, j, k, l): (usize, usize, usize, usize) = coef_place(r);
        let ghost before = *p;
        proof {
            lemma_coef_slot(r as int);
            assert(coef_rows(before)[r as int] == rs[r as int]);
        }
        let mut row: [u8; 3] = p[i][j][k][l];
        diff_update_slice(b, &mut row);
        p[i][j][k][l] = row;
        proof {
            assert forall|s: int| 0 <= s < 132 && s != r implies #[trigger] coef_rows(*p)[s]
                == coef_rows(before)[s] by {
                lemma_coef_slot(s);
            }
            assert(coef_rows(*p)[r as int] == row@);
            assert(rs.take(r + 1).drop_last() =~= rs.take(r as int));
            assert(coef_rows(*p).take(r + 1) =~= coef_rows(before).take(r as int).push(row@));
            assert forall|i2: int, j2: int, l2: int|
                0 <= i2 < 2 && 0 <= j2 < 2 && 3 <= l2 < 6 implies #[trigger] p[i2][j2][0][l2]
                == old(p)[i2][j2][0][l2] by {
                assert(before[i2][j2][0][l2] == old(p)[i2][j2][0][l2]);
            }
        }
        r = r + 1;
    }
    assert(rs.take(132) =~= rs);
    assert(coef_rows(*p).take(132) =~= coef_rows(*p));
}

/// Reads the coefficient probabilities of all transform sizes of the frame.
pub fn read_coef_probs(b: &mut BoolDecoder, fc: &mut FrameContext)
    requires
        old(b).wf(),
        old(fc).tx_mode < 5,
    ensures
        final(b).wf(),
        final(b)@ == coefs_after(old(b)@, *old(fc), tx_sizes(old(fc).tx_mode as int)),
        coefs_become(old(b)@, *old(fc), *final(fc), tx_sizes(old(fc).tx_mode as int)),
        *final(fc) == (FrameContext { coef_probs: final(fc).coef_probs, ..*old(fc) }),
{
    let n: usize = TX_MODE_TO_BIGGEST_TX[fc.tx_mode] as usize + 1;
    let ghost c = b@;
    assert(n <= 4) by {
        assert(forall|i: int| 0 <= i < 5 ==> #[trigger] TX_MODE_TO_BIGGEST_TX[i] <= 3);
    }
    let mut tx: usize = 0;
    while tx < n
        invariant
            tx <= n <= 4,
            b.wf(),
            b@ == coefs_after(c, *old(fc), tx as nat),
            coefs_become(c, *old(fc), *fc, tx as nat),
            *fc == (FrameContext { coef_probs: fc.coef_probs, ..*old(fc) }),
        decreases n - tx,
    {
        let ghost before = *fc;
        assert(before.coef_probs[tx as int] == old(fc).coef_probs[tx as int]);
        if b.read_bool(128) == 1 {
            let mut p: CoefProbs = fc.coef_probs[tx];
            read_coef_rows(b, &mut p);
            fc.coef_probs[tx] = p;
        }
        tx = tx + 1;
        assert(coefs_become(c, *old(fc), *fc, tx as nat)) by {
            assert forall|t: int| 0 <= t < tx implies coef_rows(#[trigger] fc.coef_probs[t])
                == coefs_read(
                coefs_after(c, *old(fc), t as nat),
                coef_rows(old(fc).coef_probs[t]),
            ).0 && same_spare(fc.coef_probs[t], old(fc).coef_probs[t]) by {
                if t < tx - 1 {
                    assert(fc.coef_probs[t] == before.coef_probs[t]);
                }
            }
            assert forall|t: int| tx <= t < 4 implies #[trigger] fc.coef_probs[t] == old(
                fc,
            ).coef_probs[t] by {
                assert(fc.coef_probs[t] == before.coef_probs[t]);
            }
        }
    }
}

/// Sets the fixed and the variable references from the directions in which the
/// references lie.
pub fn setup_compound_reference_mode(fc: &mut FrameContext, sign_bias: &[bool; 3])
    ensures
        (final(fc).comp_fixed_ref, final(fc).comp_var_ref@) == compound_refs(sign_bias@),
        *final(fc) == (FrameContext {
            comp_fixed_ref: final(fc).comp_fixed_ref,
            comp_var_ref: final(fc).comp_var_ref,
            ..*old(fc)
        }),
{
    if sign_bias[0] == sign_bias[1] {
        fc.comp_fixed_ref = 3;
        fc.comp_var_ref = [1, 2];
    } else if sign_bias[0] == sign_bias[2] {
        fc.comp_fixed_ref = 2;
        fc.comp_var_ref = [1, 3];
    } else {
        fc.comp_fixed_ref = 1;
        fc.comp_var_ref = [2, 3];
    }
}

fn read_mv_integers(b: &mut BoolDecoder, n: &mut NmvComponent)
    requires
        old(b).wf(),
    ensures
        final(b).wf(),
        (mv_integer_list(*final(n)), final(b)@) == prob::mvs_read(
            old(b)@,
            mv_integer_list(*old(n)),
        ),
        mv_fraction_list(*final(n)) == mv_fraction_list(*old(n)),
        mv_hp_list(*final(n)) == mv_hp_list(*old(n)),
{
    broadcast use {lemma_mvs_concat, lemma_mv_one};

    update_mv_prob(b, &mut n.sign);
    update_mv_probs(b, &mut n.classes);
    update_mv_probs(b, &mut n.class0);
    update_mv_probs(b, &mut n.bits);
}

fn read_mv_fractions(b: &mut BoolDecoder, n: &mut NmvComponent)
    requires
        old(b).wf(),
    ensures
        final(b).wf(),
        (mv_fraction_list(*final(n)), final(b)@) == prob::mvs_read(
            old(b)@,
            mv_fraction_list(*old(n)),
        ),
        mv_integer_list(*final(n)) == mv_integer_list(*old(n)),
        mv_hp_list(*final(n)) == mv_hp_list(*old(n)),
{
    broadcast use {lemma_mvs_concat, lemma_mv_one};

    update_mv_probs(b, &mut n.class0_fp[0]);
    update_mv_probs(b, &mut n.class0_fp[1]);
    update_mv_probs(b, &mut n.fp);
}

fn read_mv_hp(b: &mut BoolDecoder, n: &mut NmvComponent)
    requires
        old(b).wf(),
    ensures
        final(b).wf(),
        (mv_hp_list(*final(n)), final(b)@) == prob::mvs_read(old(b)@, mv_hp_list(*old(n))),
        mv_integer_list(*final(n)) == mv_integer_list(*old(n)),
        mv_fraction_list(*final(n)) == mv_fraction_list(*old(n)),
{
    broadcast use {lemma_mvs_concat, lemma_mv_one};

    update_mv_prob(b, &mut n.class0_hp);
    update_mv_prob(b, &mut n.hp);
}

/// Reads the motion probabilities.
pub fn read_mv_probs(b: &mut BoolDecoder, nmvc: &mut NmvContext, allow_hp: bool)
    requires
        old(b).wf(),
    ensures
        final(b).wf(),
        (mv_list(*final(nmvc), allow_hp), final(b)@) == prob::mvs_read(
            old(b)@,
            mv_list(*old(nmvc), allow_hp),
        ),
        !allow_hp ==> mv_hp_list(final(nmvc).comps[0]) == mv_hp_list(old(nmvc).comps[0])
            && mv_hp_list(final(nmvc).comps[1]) == mv_hp_list(old(nmvc).comps[1]),
{
    broadcast use {lemma_mvs_concat, lemma_mv_one};

    update_mv_probs(b, &mut nmvc.joints);
    let mut n0: NmvComponent = nmvc.comps[0];
    let mut n1: NmvComponent = nmvc.comps[1];
    read_mv_integers(b, &mut n0);
    read_mv_integers(b, &mut n1);
    read_mv_fractions(b, &mut n0);
    read_mv_fractions(b, &mut n1);
    if allow_hp {
        read_mv_hp(b, &mut n0);
        read_mv_hp(b, &mut n1);
    }
    nmvc.comps[0] = n0;
    nmvc.comps[1] = n1;
}

/// Reads the part that all frames have.
fn read_intra_part(b: &mut BoolDecoder, fc: &mut FrameContext, lossless: bool)
    requires
        old(b).wf(),
    ensures
        final(b).wf(),
        intra_part(old(b)@, *old(fc), lossless, *final(fc)),
        final(b)@ == intra_part_end(old(b)@, *old(fc), lossless),
        final(fc).uv_mode_prob == old(fc).uv_mode_prob,
        same_inter(*old(fc), *final(fc)),
{
    fc.tx_mode = read_tx_mode(b, lossless);
    if fc.tx_mode == TX_MODE_SELECT {
        read_tx_mode_probs(b, fc);
    }
    let ghost mid = *fc;
    let ghost c = b@;
    read_coef_probs(b, fc);
    proof {
        let n = tx_sizes(mid.tx_mode as int);
        assert(coefs_become(c, *old(fc), *fc, n)) by {
            assert(n <= 4) by {
                assert(forall|i: int| 0 <= i < 5 ==> #[trigger] TX_MODE_TO_BIGGEST_TX[i] <= 3);
            }
            assert forall|t: int| 0 <= t < n implies coef_rows(#[trigger] fc.coef_probs[t])
                == coefs_read(coefs_after(c, *old(fc), t as nat), coef_rows(old(fc).coef_probs[t])).0
                && same_spare(fc.coef_probs[t], old(fc).coef_probs[t]) by {
                assert(coefs_after(c, *old(fc), t as nat) == coefs_after(c, mid, t as nat)) by {
                    lemma_same_coefs(c, mid, *old(fc), t as nat);
                }
            }
        }
        lemma_same_coefs(c, mid, *old(fc), n);
    }
    diff_update_slice(b, &mut fc.skip_probs);
}

/// Only the coefficient probabilities count for their updates.
proof fn lemma_same_coefs(c: Cursor, a: FrameContext, b: FrameContext, n: nat)
    requires
        a.coef_probs == b.coef_probs,
    ensures
        coefs_after(c, a, n) == coefs_after(c, b, n),
    decreases n,
{
    if n > 0 {
        lemma_same_coefs(c, a, b, (n - 1) as nat);
    }
}

fn read_inter_rows(b: &mut BoolDecoder, fc: &mut FrameContext, switchable: bool)
    requires
        old(b).wf(),
    ensures
        final(b).wf(),
        (inter_rows(*final(fc), switchable), final(b)@) == rows_read(
            old(b)@,
            inter_rows(*old(fc), switchable),
        ),
        !switchable ==> final(fc).switchable_interp_prob == old(fc).switchable_interp_prob,
        *final(fc) == (FrameContext {
            inter_mode_probs: final(fc).inter_mode_probs,
            switchable_interp_prob: final(fc).switchable_interp_prob,
            intra_inter_prob: final(fc).intra_inter_prob,
            ..*old(fc)
        }),
{
    broadcast use {lemma_rows_concat, lemma_row_one};

    diff_update_rows(b, &mut fc.inter_mode_probs);
    if switchable {
        diff_update_rows(b, &mut fc.switchable_interp_prob);
    }
    diff_update_slice(b, &mut fc.intra_inter_prob);
}

fn read_ref_rows(b: &mut BoolDecoder, fc: &mut FrameContext)
    requires
        old(b).wf(),
        old(fc).reference_mode <= 2,
    ensures
        final(b).wf(),
        (ref_rows(*final(fc), old(fc).reference_mode as int), final(b)@) == rows_read(
            old(b)@,
            ref_rows(*old(fc), old(fc).reference_mode as int),
        ),
        old(fc).reference_mode != 2 ==> final(fc).comp_inter_prob == old(fc).comp_inter_prob,
        old(fc).reference_mode == 1 ==> final(fc).single_ref_prob == old(fc).single_ref_prob,
        old(fc).reference_mode == 0 ==> final(fc).comp_ref_prob == old(fc).comp_ref_prob,
        *final(fc) == (FrameContext {
            comp_inter_prob: final(fc).comp_inter_prob,
            single_ref_prob: final(fc).single_ref_prob,
            comp_ref_prob: final(fc).comp_ref_prob,
            ..*old(fc)
        }),
{
    broadcast use {lemma_rows_concat, lemma_row_one};

    if fc.reference_mode == 2 {
        diff_update_slice(b, &mut fc.comp_inter_prob);
    }
    if fc.reference_mode != 1 {
        diff_update_rows(b, &mut fc.single_ref_prob);
    }
    if fc.reference_mode != 0 {
        diff_update_slice(b, &mut fc.comp_ref_prob);
    }
}

fn read_mode_rows(b: &mut BoolDecoder, fc: &mut FrameContext)
    requires
        old(b).wf(),
    ensures
        final(b).wf(),
        (mode_rows(*final(fc)), final(b)@) == rows_read(old(b)@, mode_rows(*old(fc))),
        *final(fc) == (FrameContext {
            y_mode_prob: final(fc).y_mode_prob,
            partition_prob: final(fc).partition_prob,
            ..*old(fc)
        }),
{
    broadcast use lemma_rows_concat;

    diff_update_rows(b, &mut fc.y_mode_prob);
    diff_update_rows(b, &mut fc.partition_prob);
}

/// Reads the reference mode.
fn read_reference_mode(b: &mut BoolDecoder, allowed: bool) -> (r: usize)
    requires
        old(b).wf(),
    ensures
        final(b).wf(),
        (r as int, final(b)@) == reference_mode_read(old(b)@, allowed),
        r <= 2,
{
    if !allowed {
        0
    } else if b.read_bool(128) == 1 {
        if b.read_bool(128) == 1 {
            2
        } else {
            1
        }
    } else {
        0
    }
}

/// Reads the part that only inter frames have.
fn read_inter_part(b: &mut BoolDecoder, fc: &mut FrameContext, h: &FrameHeader)
    requires
        old(b).wf(),
    ensures
        final(b).wf(),
        inter_part(old(b)@, *old(fc), *h, *final(fc)),
        *final(fc) == (FrameContext {
            y_mode_prob: final(fc).y_mode_prob,
            partition_prob: final(fc).partition_prob,
            inter_mode_probs: final(fc).inter_mode_probs,
            intra_inter_prob: final(fc).intra_inter_prob,
            comp_inter_prob: final(fc).comp_inter_prob,
            comp_ref_prob: final(fc).comp_ref_prob,
            single_ref_prob: final(fc).single_ref_prob,
            switchable_interp_prob: final(fc).switchable_interp_prob,
            nmvc: final(fc).nmvc,
            reference_mode: final(fc).reference_mode,
            comp_fixed_ref: final(fc).comp_fixed_ref,
            comp_var_ref: final(fc).comp_var_ref,
            ..*old(fc)
        }),
{
    read_inter_rows(b, fc, h.interp_filter == 4);
    let allowed: bool = h.ref_sign_bias[1] != h.ref_sign_bias[0] || h.ref_sign_bias[2]
        != h.ref_sign_bias[0];
    fc.reference_mode = read_reference_mode(b, allowed);
    if fc.reference_mode != 0 {
        setup_compound_reference_mode(fc, &h.ref_sign_bias);
    }
    read_ref_rows(b, fc);
    read_mode_rows(b, fc);
    let mut n: NmvContext = fc.nmvc;
    read_mv_probs(b, &mut n, h.allow_high_precision_mv);
    fc.nmvc = n;
}

/// Reads a compressed header: the probabilities that it makes of `pre_fc`. Empty
/// data is refused.
pub fn parse_compressed_header(data: &[u8], h: &FrameHeader, pre_fc: &FrameContext) -> (r: Result<
    FrameContext,
>)
    ensures
        match r {
            Ok(fc) => data@.len() > 0 && header_gives(coding::opened(data@), *pre_fc, *h, fc),
            Err(e) => data@.len() == 0 && e == Error::EmptyInput,
        },
{
    let mut b: BoolDecoder = match BoolDecoder::new(data) {
        Ok(b) => b,
        Err(e) => {
            return Err(e);
        },
    };
    let mut fc: FrameContext = *pre_fc;
    read_intra_part(&mut b, &mut fc, h.lossless);
    if !(h.key_frame || h.intra_only) {
        let ghost mid = fc;
        let ghost c = b@;
        read_inter_part(&mut b, &mut fc, h);
        proof {
            assert(inter_part(c, *pre_fc, *h, fc)) by {
                assert(inter_rows(mid, h.interp_filter == 4) == inter_rows(
                    *pre_fc,
                    h.interp_filter == 4,
                ));
                assert(mode_rows(mid) == mode_rows(*pre_fc));
                assert forall|m: int| #[trigger] ref_rows(mid, m) == ref_rows(*pre_fc, m) by {}
            }
        }
    }
    Ok(fc)
}

/// Two references are of use where not all lie in the same direction; then the fixed one
/// lies in the other direction than both variable ones, and the three are all there are.
pub proof fn law_fixed_reference_faces_variable_ones(sign_bias: Seq<bool>)
    requires
        sign_bias.len() == 3,
    ensures
        !compound_allowed(sign_bias) <==> sign_bias[0] == sign_bias[1] && sign_bias[1]
            == sign_bias[2],
        compound_allowed(sign_bias) ==> {
            let (f, v) = compound_refs(sign_bias);
            &&& v.len() == 2
            &&& 1 <= f <= 3 && 1 <= v[0] <= 3 && 1 <= v[1] <= 3
            &&& v[0] < v[1] && v[0] != f && v[1] != f
            &&& sign_bias[v[0] - 1] == sign_bias[v[1] - 1]
            &&& sign_bias[f - 1] != sign_bias[v[0] - 1]
        },
{
}

/// The reference mode: where two references are of no use nothing is read; else the bit 0
/// means one, 1 and 0 two, and 1 and 1 that each block states it.
pub proof fn law_reference_mode_by_bits(c: Cursor)
    ensures
        reference_mode_read(c, false) == (0int, c),
        ({
            let c1 = coding::read_next(c, 128);
            let (m, d) = reference_mode_read(c, true);
            let (b0, b1) = (coding::read_bit(c, 128), coding::read_bit(c1, 128));
            &&& !b0 <==> m == 0
            &&& b0 && !b1 <==> m == 1
            &&& b0 && b1 <==> m == 2
            &&& m == 0 ==> d == c1
            &&& m != 0 ==> d == coding::read_next(c1, 128)
        }),
{
}

/// The transform mode: without loss it is the smallest and nothing is read; else two bits
/// name it, and behind 3 one more bit says whether blocks choose.
pub proof fn law_transform_mode_by_bits(c: Cursor)
    ensures
        tx_mode_read(c, true) == (0int, c),
        ({
            let t = bits::literal_value(c, 2);
            let c1 = bits::literal_after(c, 2);
            let (m, d) = tx_mode_read(c, false);
            &&& t != 3 ==> m == t && d == c1
            &&& t == 3 ==> (m == 4 <==> coding::read_bit(c1, 128))
            &&& t == 3 ==> (m == 3 <==> !coding::read_bit(c1, 128))
            &&& t == 3 ==> d == coding::read_next(c1, 128)
        }),
{
}

/// A transform mode has the coefficients of all sizes up to its largest.
pub proof fn law_sizes_of_transform_modes()
    ensures
        tx_sizes(0) == 1,
        tx_sizes(1) == 2,
        tx_sizes(2) == 3,
        tx_sizes(3) == 4,
        tx_sizes(4) == 4,
{
}

/// The rows of coefficients are in the order of plane, reference, band and context, each
/// once: a row behind another differs from it first in a place where it is greater.
pub proof fn law_coefficient_rows_in_order(r: int, s: int)
    requires
        0 <= r < s < 132,
    ensures
        ({
            let (a, b) = (coef_slot(r), coef_slot(s));
            a.0 < b.0 || (a.0 == b.0 && (a.1 < b.1 || (a.1 == b.1 && (a.2 < b.2 || (a.2 == b.2
                && a.3 < b.3)))))
        }),
{
    lemma_coef_slot(r);
    lemma_coef_slot(s);
}

} // verus!
