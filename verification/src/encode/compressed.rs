//! Writing the compressed header.
//!
//! [`write_compressed_header`] is the inverse of
//! [`parse_compressed_header`](crate::decode::compressed::parse_compressed_header):
//! reading what was written gives the target probabilities back
//! ([`law_compressed_read_inverts_write`]).
use vstd::arithmetic::power2::*;
use vstd::prelude::*;

use crate::block::TX_MODE_SELECT;
use crate::coding;
use crate::coding::{Cursor, Sym};
use crate::context::{CoefProbs, FrameContext};
use crate::decode::compressed;
use crate::decode::compressed::{
    coef_place, coef_rows, compound_allowed, header_gives, inter_rows, mode_rows, mv_fraction_list, mv_hp_list,
    mv_integer_list, mv_list, ref_rows, same_spare, tx_rows, tx_sizes,
};
use crate::encode::bitwriter;
use crate::encode::bitwriter::{literal_syms, BoolEncoder};
use crate::encode::prob;
use crate::encode::prob::{
    all_mv_reachable, all_reachable, diff_update_rows, diff_update_slice, diffs_syms, half,
    mvs_syms, rows_reachable, rows_syms, update_mv_prob_encode, update_mv_slice,
};
use crate::geom_tables::TX_MODE_TO_BIGGEST_TX;
use crate::header::FrameHeader;
use crate::prob::rows;
use crate::prob_tables::{NmvComponent, NmvContext};

verus! {

// ---------------------------------------------------------------------------
// The symbols of a compressed header
// ---------------------------------------------------------------------------

pub open spec fn tx_mode_syms(tx_mode: int, lossless: bool) -> Seq<Sym> {
    if lossless {
        Seq::empty()
    } else if tx_mode >= 3 {
        literal_syms(3, 2) + literal_syms(tx_mode - 3, 1)
    } else {
        literal_syms(tx_mode, 2)
    }
}

/// The symbols of the coefficient updates of one transform size: whether there are
/// any, then all of them.
pub open spec fn coef_syms(pre: Seq<Seq<u8>>, t: Seq<Seq<u8>>) -> Seq<Sym> {
    if pre == t {
        half(false)
    } else {
        half(true) + rows_syms(pre, t)
    }
}

/// The symbols of the coefficient updates of the first `n` transform sizes.
pub open spec fn coefs_syms(pre: FrameContext, t: FrameContext, n: nat) -> Seq<Sym>
    decreases n,
{
    if n == 0 {
        Seq::empty()
    } else {
        coefs_syms(pre, t, (n - 1) as nat) + coef_syms(
            coef_rows(pre.coef_probs[n - 1]),
            coef_rows(t.coef_probs[n - 1]),
        )
    }
}

pub open spec fn reference_mode_syms(allowed: bool, mode: int) -> Seq<Sym> {
    if !allowed {
        Seq::empty()
    } else if mode == 0 {
        half(false)
    } else {
        half(true) + half(mode == 2)
    }
}

/// The symbols that all frames have.
pub open spec fn intra_syms(pre: FrameContext, t: FrameContext, lossless: bool) -> Seq<Sym> {
    tx_mode_syms(t.tx_mode as int, lossless) + (if t.tx_mode == TX_MODE_SELECT {
        rows_syms(tx_rows(pre), tx_rows(t))
    } else {
        Seq::empty()
    }) + coefs_syms(pre, t, tx_sizes(t.tx_mode as int)) + diffs_syms(pre.skip_probs@, t.skip_probs@)
}

/// The symbols that only inter frames have.
pub open spec fn inter_syms(pre: FrameContext, t: FrameContext, h: FrameHeader) -> Seq<Sym> {
    let switchable = h.interp_filter == 4;
    let mode = t.reference_mode as int;
    let hp = h.allow_high_precision_mv;
    rows_syms(inter_rows(pre, switchable), inter_rows(t, switchable)) + reference_mode_syms(
        compound_allowed(h.ref_sign_bias@),
        mode,
    ) + rows_syms(ref_rows(pre, mode), ref_rows(t, mode)) + rows_syms(mode_rows(pre), mode_rows(t))
        + mvs_syms(mv_list(pre.nmvc, hp), mv_list(t.nmvc, hp))
}

/// The symbols of the compressed header that turns `pre` into `t`.
pub open spec fn header_syms(pre: FrameContext, t: FrameContext, h: FrameHeader) -> Seq<Sym> {
    intra_syms(pre, t, h.lossless) + (if h.key_frame || h.intra_only {
        Seq::empty()
    } else {
        inter_syms(pre, t, h)
    })
}

/// Every probability that is updated can be moved to its target.
pub open spec fn in_reach(pre: FrameContext, t: FrameContext, h: FrameHeader) -> bool {
    let switchable = h.interp_filter == 4;
    let mode = t.reference_mode as int;
    &&& t.tx_mode == TX_MODE_SELECT ==> rows_reachable(tx_rows(pre), tx_rows(t))
    &&& forall|tx: int|
        0 <= tx < tx_sizes(t.tx_mode as int) ==> rows_reachable(
            coef_rows(#[trigger] pre.coef_probs[tx]),
            coef_rows(t.coef_probs[tx]),
        )
    &&& all_reachable(pre.skip_probs@, t.skip_probs@)
    &&& !(h.key_frame || h.intra_only) ==> {
        &&& rows_reachable(inter_rows(pre, switchable), inter_rows(t, switchable))
        &&& rows_reachable(ref_rows(pre, mode), ref_rows(t, mode))
        &&& rows_reachable(mode_rows(pre), mode_rows(t))
    }
}

// ---------------------------------------------------------------------------
// Writing
// ---------------------------------------------------------------------------

/// The symbols of a list are those of its parts.
broadcast proof fn lemma_rows_syms_concat(
    a: Seq<Seq<u8>>,
    b: Seq<Seq<u8>>,
    c: Seq<Seq<u8>>,
    d: Seq<Seq<u8>>,
)
    requires
        a.len() == c.len(),
        b.len() == d.len(),
    ensures
        #[trigger] rows_syms(a + b, c + d) == rows_syms(a, c) + rows_syms(b, d),
    decreases b.len(),
{
    if b.len() == 0 {
        assert(a + b =~= a);
        assert(c + d =~= c);
        assert(rows_syms(a, c) + Seq::<Sym>::empty() =~= rows_syms(a, c));
    } else {
        lemma_rows_syms_concat(a, b.drop_last(), c, d.drop_last());
        assert((a + b).drop_last() =~= a + b.drop_last());
        assert((c + d).drop_last() =~= c + d.drop_last());
        let x = diffs_syms(b.last(), d.last());
        assert(rows_syms(a, c) + (rows_syms(b.drop_last(), d.drop_last()) + x) =~= (rows_syms(a, c)
            + rows_syms(b.drop_last(), d.drop_last())) + x);
    }
}

/// The symbols of a single row.
broadcast proof fn lemma_rows_syms_one(r: Seq<u8>, s: Seq<u8>)
    ensures
        #[trigger] rows_syms(seq![r], seq![s]) == diffs_syms(r, s),
{
    reveal_with_fuel(rows_syms, 2);
    assert(seq![r].drop_last() =~= Seq::<Seq<u8>>::empty());
    assert(Seq::<Sym>::empty() + diffs_syms(r, s) =~= diffs_syms(r, s));
}

/// The symbols of a list of motion probabilities are those of its parts.
broadcast proof fn lemma_mvs_syms_concat(a: Seq<u8>, b: Seq<u8>, c: Seq<u8>, d: Seq<u8>)
    requires
        a.len() == c.len(),
        b.len() == d.len(),
    ensures
        #[trigger] mvs_syms(a + b, c + d) == mvs_syms(a, c) + mvs_syms(b, d),
    decreases b.len(),
{
    if b.len() == 0 {
        assert(a + b =~= a);
        assert(c + d =~= c);
        assert(mvs_syms(a, c) + Seq::<Sym>::empty() =~= mvs_syms(a, c));
    } else {
        lemma_mvs_syms_concat(a, b.drop_last(), c, d.drop_last());
        assert((a + b).drop_last() =~= a + b.drop_last());
        assert((c + d).drop_last() =~= c + d.drop_last());
        let x = prob::mv_syms(b.last(), d.last());
        assert(mvs_syms(a, c) + (mvs_syms(b.drop_last(), d.drop_last()) + x) =~= (mvs_syms(a, c)
            + mvs_syms(b.drop_last(), d.drop_last())) + x);
    }
}

/// The symbols of a single motion probability.
broadcast proof fn lemma_mvs_syms_one(p: u8, t: u8)
    ensures
        #[trigger] mvs_syms(seq![p], seq![t]) == prob::mv_syms(p, t),
{
    reveal_with_fuel(mvs_syms, 2);
    assert(seq![p].drop_last() =~= Seq::<u8>::empty());
    assert(Seq::<Sym>::empty() + prob::mv_syms(p, t) =~= prob::mv_syms(p, t));
}

/// Appending two messages is appending the first and then the second.
broadcast proof fn lemma_syms_assoc(x: Seq<Sym>, a: Seq<Sym>, b: Seq<Sym>)
    ensures
        #[trigger] (x + (a + b)) == (x + a) + b,
{
    assert(x + (a + b) =~= (x + a) + b);
}

/// Appending nothing.
broadcast proof fn lemma_syms_empty(x: Seq<Sym>)
    ensures
        #[trigger] (x + Seq::<Sym>::empty()) == x,
{
    assert(x + Seq::<Sym>::empty() =~= x);
}

/// Rows that are in reach as a list are so part by part.
proof fn lemma_reach_parts(a: Seq<Seq<u8>>, b: Seq<Seq<u8>>, c: Seq<Seq<u8>>, d: Seq<Seq<u8>>)
    requires
        a.len() == c.len(),
        b.len() == d.len(),
        rows_reachable(a + b, c + d),
    ensures
        rows_reachable(a, c),
        rows_reachable(b, d),
{
    assert forall|i: int| 0 <= i < a.len() implies all_reachable(#[trigger] a[i], c[i]) by {
        assert(all_reachable((a + b)[i], (c + d)[i]));
    }
    assert forall|i: int| 0 <= i < b.len() implies all_reachable(#[trigger] b[i], d[i]) by {
        assert(all_reachable((a + b)[a.len() + i], (c + d)[a.len() + i]));
    }
}

fn write_tx_mode(enc: &mut BoolEncoder, tx_mode: usize, lossless: bool)
    requires
        old(enc).wf(),
        tx_mode < 5,
    ensures
        final(enc).wf(),
        final(enc)@ == old(enc)@ + tx_mode_syms(tx_mode as int, lossless),
{
    broadcast use {lemma_syms_assoc, lemma_syms_empty};

    if lossless {
        return;
    }
    let low: usize = if tx_mode < 3 {
        tx_mode
    } else {
        3
    };
    enc.write_literal(low as u32, 2);
    if tx_mode >= 3 {
        enc.write_literal((tx_mode - 3) as u32, 1);
    }
}

fn write_tx_mode_probs(enc: &mut BoolEncoder, pre: &FrameContext, t: &FrameContext)
    requires
        old(enc).wf(),
        rows_reachable(tx_rows(*pre), tx_rows(*t)),
    ensures
        final(enc).wf(),
        final(enc)@ == old(enc)@ + rows_syms(tx_rows(*pre), tx_rows(*t)),
{
    broadcast use {lemma_syms_assoc, lemma_rows_syms_concat};

    proof {
        let a = rows(pre.tx_p8x8) + rows(pre.tx_p16x16);
        let b = rows(t.tx_p8x8) + rows(t.tx_p16x16);
        lemma_reach_parts(a, rows(pre.tx_p32x32), b, rows(t.tx_p32x32));
        lemma_reach_parts(
            rows(pre.tx_p8x8),
            rows(pre.tx_p16x16),
            rows(t.tx_p8x8),
            rows(t.tx_p16x16),
        );
    }
    diff_update_rows(enc, &pre.tx_p8x8, &t.tx_p8x8);
    diff_update_rows(enc, &pre.tx_p16x16, &t.tx_p16x16);
    diff_update_rows(enc, &pre.tx_p32x32, &t.tx_p32x32);
}

/// Whether any coded coefficient probability changes.
fn coef_tx_changed(pre: &CoefProbs, t: &CoefProbs) -> (changed: bool)
    ensures
        changed == (coef_rows(*pre) != coef_rows(*t)),
{
    proof {
        reveal(coef_rows);
    }
    let mut r: usize = 0;
    while r < 132
        invariant
            r <= 132,
            forall|s: int| 0 <= s < r ==> #[trigger] coef_rows(*pre)[s] == coef_rows(*t)[s],
        decreases 132 - r,
    {
        proof {
            reveal(coef_rows);
        }
        let (i, j, k, l): (usize, usize, usize, usize) = coef_place(r);
        let a: [u8; 3] = pre[i][j][k][l];
        let b: [u8; 3] = t[i][j][k][l];
        assert(coef_rows(*pre)[r as int] == a@ && coef_rows(*t)[r as int] == b@);
        if a[0] != b[0] || a[1] != b[1] || a[2] != b[2] {
            return true;
        }
        assert(a@ =~= b@);
        r = r + 1;
    }
    assert(coef_rows(*pre) =~= coef_rows(*t));
    false
}

fn write_coef_rows(enc: &mut BoolEncoder, pre: &CoefProbs, t: &CoefProbs)
    requires
        old(enc).wf(),
        rows_reachable(coef_rows(*pre), coef_rows(*t)),
    ensures
        final(enc).wf(),
        final(enc)@ == old(enc)@ + rows_syms(coef_rows(*pre), coef_rows(*t)),
{
    proof {
        reveal(coef_rows);
    }
    let ghost start = enc@;
    let ghost ps = coef_rows(*pre);
    let ghost ts = coef_rows(*t);
    let mut r: usize = 0;
    assert(start + rows_syms(ps.take(0), ts.take(0)) =~= start);
    while r < 132
        invariant
            r <= 132,
            ps == coef_rows(*pre),
            ts == coef_rows(*t),
            rows_reachable(ps, ts),
            enc.wf(),
            enc@ == start + rows_syms(ps.take(r as int), ts.take(r as int)),
        decreases 132 - r,
    {
        proof {
            reveal(coef_rows);
        }
        let (i, j, k, l): (usize, usize, usize, usize) = coef_place(r);
        assert(all_reachable(ps[r as int], ts[r as int]));
        diff_update_slice(enc, &pre[i][j][k][l], &t[i][j][k][l]);
        r = r + 1;
        proof {
            assert(ps.take(r as int).drop_last() =~= ps.take(r - 1));
            assert(ts.take(r as int).drop_last() =~= ts.take(r - 1));
            let a = rows_syms(ps.take(r - 1), ts.take(r - 1));
            let b = diffs_syms(ps[r - 1], ts[r - 1]);
            assert(start + (a + b) =~= (start + a) + b);
        }
    }
    assert(ps.take(132) =~= ps);
    assert(ts.take(132) =~= ts);
}

fn write_coef_probs(enc: &mut BoolEncoder, pre: &FrameContext, t: &FrameContext)
    requires
        old(enc).wf(),
        t.tx_mode < 5,
        forall|tx: int|
            0 <= tx < tx_sizes(t.tx_mode as int) ==> rows_reachable(
                coef_rows(#[trigger] pre.coef_probs[tx]),
                coef_rows(t.coef_probs[tx]),
            ),
    ensures
        final(enc).wf(),
        final(enc)@ == old(enc)@ + coefs_syms(*pre, *t, tx_sizes(t.tx_mode as int)),
{
    broadcast use lemma_syms_assoc;

    let n: usize = TX_MODE_TO_BIGGEST_TX[t.tx_mode] as usize + 1;
    let ghost start = enc@;
    assert(n <= 4) by {
        assert(forall|i: int| 0 <= i < 5 ==> #[trigger] TX_MODE_TO_BIGGEST_TX[i] <= 3);
    }
    assert(start + coefs_syms(*pre, *t, 0) =~= start);
    let mut tx: usize = 0;
    while tx < n
        invariant
            tx <= n <= 4,
            n == tx_sizes(t.tx_mode as int),
            enc.wf(),
            enc@ == start + coefs_syms(*pre, *t, tx as nat),
            forall|tx: int|
                0 <= tx < n ==> rows_reachable(
                    coef_rows(#[trigger] pre.coef_probs[tx]),
                    coef_rows(t.coef_probs[tx]),
                ),
        decreases n - tx,
    {
        let changed: bool = coef_tx_changed(&pre.coef_probs[tx], &t.coef_probs[tx]);
        let ghost before = enc@;
        enc.write_bool(
            if changed {
                1
            } else {
                0
            },
            128,
        );
        assert(enc@ =~= before + half(changed));
        if changed {
            assert(rows_reachable(
                coef_rows(pre.coef_probs[tx as int]),
                coef_rows(t.coef_probs[tx as int]),
            ));
            write_coef_rows(enc, &pre.coef_probs[tx], &t.coef_probs[tx]);
        }
        tx = tx + 1;
        assert(enc@ == before + coef_syms(
            coef_rows(pre.coef_probs[tx - 1]),
            coef_rows(t.coef_probs[tx - 1]),
        ));
    }
}

fn write_mv_integers(enc: &mut BoolEncoder, pre: &NmvComponent, t: &NmvComponent)
    requires
        old(enc).wf(),
    ensures
        final(enc).wf(),
        final(enc)@ == old(enc)@ + mvs_syms(mv_integer_list(*pre), mv_integer_list(*t)),
{
    broadcast use {lemma_syms_assoc, lemma_mvs_syms_concat, lemma_mvs_syms_one};

    update_mv_prob_encode(enc, pre.sign, t.sign);
    update_mv_slice(enc, &pre.classes, &t.classes);
    update_mv_slice(enc, &pre.class0, &t.class0);
    update_mv_slice(enc, &pre.bits, &t.bits);
}

fn write_mv_fractions(enc: &mut BoolEncoder, pre: &NmvComponent, t: &NmvComponent)
    requires
        old(enc).wf(),
    ensures
        final(enc).wf(),
        final(enc)@ == old(enc)@ + mvs_syms(mv_fraction_list(*pre), mv_fraction_list(*t)),
{
    broadcast use {lemma_syms_assoc, lemma_mvs_syms_concat, lemma_mvs_syms_one};

    update_mv_slice(enc, &pre.class0_fp[0], &t.class0_fp[0]);
    update_mv_slice(enc, &pre.class0_fp[1], &t.class0_fp[1]);
    update_mv_slice(enc, &pre.fp, &t.fp);
}

fn write_mv_hp(enc: &mut BoolEncoder, pre: &NmvComponent, t: &NmvComponent)
    requires
        old(enc).wf(),
    ensures
        final(enc).wf(),
        final(enc)@ == old(enc)@ + mvs_syms(mv_hp_list(*pre), mv_hp_list(*t)),
{
    broadcast use {lemma_syms_assoc, lemma_mvs_syms_concat, lemma_mvs_syms_one};

    update_mv_prob_encode(enc, pre.class0_hp, t.class0_hp);
    update_mv_prob_encode(enc, pre.hp, t.hp);
}

/// The lengths of the parts of a motion component.
broadcast proof fn lemma_mv_lens(n: NmvComponent)
    ensures
        (#[trigger] mv_integer_list(n)).len() == 22,
        (#[trigger] mv_fraction_list(n)).len() == 9,
        (#[trigger] mv_hp_list(n)).len() == 2,
{
}

fn write_mv_probs(enc: &mut BoolEncoder, pre: &NmvContext, t: &NmvContext, allow_hp: bool)
    requires
        old(enc).wf(),
    ensures
        final(enc).wf(),
        final(enc)@ == old(enc)@ + mvs_syms(mv_list(*pre, allow_hp), mv_list(*t, allow_hp)),
{
    broadcast use {lemma_syms_assoc, lemma_syms_empty, lemma_mvs_syms_concat, lemma_mv_lens};

    update_mv_slice(enc, &pre.joints, &t.joints);
    write_mv_integers(enc, &pre.comps[0], &t.comps[0]);
    write_mv_integers(enc, &pre.comps[1], &t.comps[1]);
    write_mv_fractions(enc, &pre.comps[0], &t.comps[0]);
    write_mv_fractions(enc, &pre.comps[1], &t.comps[1]);
    if allow_hp {
        write_mv_hp(enc, &pre.comps[0], &t.comps[0]);
        write_mv_hp(enc, &pre.comps[1], &t.comps[1]);
    }
}

fn write_inter_rows(enc: &mut BoolEncoder, pre: &FrameContext, t: &FrameContext, switchable: bool)
    requires
        old(enc).wf(),
        rows_reachable(inter_rows(*pre, switchable), inter_rows(*t, switchable)),
    ensures
        final(enc).wf(),
        final(enc)@ == old(enc)@ + rows_syms(
            inter_rows(*pre, switchable),
            inter_rows(*t, switchable),
        ),
{
    broadcast use {
        lemma_syms_assoc,
        lemma_syms_empty,
        lemma_rows_syms_concat,
        lemma_rows_syms_one,
    };

    let ghost e = Seq::<Seq<u8>>::empty();
    let ghost (p1, t1) = if switchable {
        (rows(pre.switchable_interp_prob), rows(t.switchable_interp_prob))
    } else {
        (e, e)
    };
    proof {
        let (p0, t0) = (rows(pre.inter_mode_probs), rows(t.inter_mode_probs));
        lemma_reach_parts(
            p0 + p1,
            seq![pre.intra_inter_prob@],
            t0 + t1,
            seq![t.intra_inter_prob@],
        );
        lemma_reach_parts(p0, p1, t0, t1);
        assert(all_reachable(seq![pre.intra_inter_prob@][0], seq![t.intra_inter_prob@][0]));
    }
    diff_update_rows(enc, &pre.inter_mode_probs, &t.inter_mode_probs);
    if switchable {
        diff_update_rows(enc, &pre.switchable_interp_prob, &t.switchable_interp_prob);
    }
    diff_update_slice(enc, &pre.intra_inter_prob, &t.intra_inter_prob);
}

fn write_ref_rows(enc: &mut BoolEncoder, pre: &FrameContext, t: &FrameContext, mode: usize)
    requires
        old(enc).wf(),
        rows_reachable(ref_rows(*pre, mode as int), ref_rows(*t, mode as int)),
    ensures
        final(enc).wf(),
        final(enc)@ == old(enc)@ + rows_syms(
            ref_rows(*pre, mode as int),
            ref_rows(*t, mode as int),
        ),
{
    broadcast use {
        lemma_syms_assoc,
        lemma_syms_empty,
        lemma_rows_syms_concat,
        lemma_rows_syms_one,
    };

    let ghost e = Seq::<Seq<u8>>::empty();
    let ghost (p0, t0) = if mode == 2 {
        (seq![pre.comp_inter_prob@], seq![t.comp_inter_prob@])
    } else {
        (e, e)
    };
    let ghost (p1, t1) = if mode != 1 {
        (rows(pre.single_ref_prob), rows(t.single_ref_prob))
    } else {
        (e, e)
    };
    let ghost (p2, t2) = if mode != 0 {
        (seq![pre.comp_ref_prob@], seq![t.comp_ref_prob@])
    } else {
        (e, e)
    };
    proof {
        lemma_reach_parts(p0 + p1, p2, t0 + t1, t2);
        lemma_reach_parts(p0, p1, t0, t1);
    }
    if mode == 2 {
        assert(all_reachable(p0[0], t0[0]));
        diff_update_slice(enc, &pre.comp_inter_prob, &t.comp_inter_prob);
    }
    if mode != 1 {
        diff_update_rows(enc, &pre.single_ref_prob, &t.single_ref_prob);
    }
    if mode != 0 {
        assert(all_reachable(p2[0], t2[0]));
        diff_update_slice(enc, &pre.comp_ref_prob, &t.comp_ref_prob);
    }
}

fn write_mode_rows(enc: &mut BoolEncoder, pre: &FrameContext, t: &FrameContext)
    requires
        old(enc).wf(),
        rows_reachable(mode_rows(*pre), mode_rows(*t)),
    ensures
        final(enc).wf(),
        final(enc)@ == old(enc)@ + rows_syms(mode_rows(*pre), mode_rows(*t)),
{
    broadcast use {lemma_syms_assoc, lemma_rows_syms_concat};

    proof {
        lemma_reach_parts(
            rows(pre.y_mode_prob),
            rows(pre.partition_prob),
            rows(t.y_mode_prob),
            rows(t.partition_prob),
        );
    }
    diff_update_rows(enc, &pre.y_mode_prob, &t.y_mode_prob);
    diff_update_rows(enc, &pre.partition_prob, &t.partition_prob);
}

fn write_reference_mode(enc: &mut BoolEncoder, allowed: bool, mode: usize)
    requires
        old(enc).wf(),
    ensures
        final(enc).wf(),
        final(enc)@ == old(enc)@ + reference_mode_syms(allowed, mode as int),
{
    let ghost start = enc@;
    if allowed {
        if mode == 0 {
            enc.write_bool(0, 128);
        } else {
            enc.write_bool(1, 128);
            enc.write_bool(
                if mode == 2 {
                    1
                } else {
                    0
                },
                128,
            );
        }
    }
    assert(enc@ =~= start + reference_mode_syms(allowed, mode as int));
}

/// Writes the compressed header that turns the probabilities `pre` into `t`.
pub fn write_compressed_header(
    enc: &mut BoolEncoder,
    pre: &FrameContext,
    t: &FrameContext,
    h: &FrameHeader,
)
    requires
        old(enc).wf(),
        t.tx_mode < 5,
        in_reach(*pre, *t, *h),
    ensures
        final(enc).wf(),
        final(enc)@ == old(enc)@ + header_syms(*pre, *t, *h),
{
    broadcast use {lemma_syms_assoc, lemma_syms_empty};

    write_tx_mode(enc, t.tx_mode, h.lossless);
    if t.tx_mode == TX_MODE_SELECT {
        write_tx_mode_probs(enc, pre, t);
    }
    write_coef_probs(enc, pre, t);
    diff_update_slice(enc, &pre.skip_probs, &t.skip_probs);
    if h.key_frame || h.intra_only {
        return;
    }
    write_inter_rows(enc, pre, t, h.interp_filter == 4);
    let allowed: bool = h.ref_sign_bias[1] != h.ref_sign_bias[0] || h.ref_sign_bias[2]
        != h.ref_sign_bias[0];
    write_reference_mode(enc, allowed, t.reference_mode);
    write_ref_rows(enc, pre, t, t.reference_mode);
    write_mode_rows(enc, pre, t);
    write_mv_probs(enc, &pre.nmvc, &t.nmvc, h.allow_high_precision_mv);
}

// ---------------------------------------------------------------------------
// Reading back
// ---------------------------------------------------------------------------

/// A compressed header can turn `pre` into `t`: what it updates is in reach, and what
/// it does not update is the same.
pub open spec fn codable(pre: FrameContext, t: FrameContext, h: FrameHeader) -> bool {
    let inter = !(h.key_frame || h.intra_only);
    let mode = t.reference_mode as int;
    let n = tx_sizes(t.tx_mode as int);
    &&& t.tx_mode < 5
    &&& h.lossless ==> t.tx_mode == 0
    &&& in_reach(pre, t, h)
    &&& t.tx_mode != TX_MODE_SELECT ==> tx_rows(t) == tx_rows(pre)
    &&& forall|tx: int|
        0 <= tx < n ==> same_spare(#[trigger] t.coef_probs[tx], pre.coef_probs[tx])
    &&& forall|tx: int| n <= tx < 4 ==> #[trigger] t.coef_probs[tx] == pre.coef_probs[tx]
    &&& t.uv_mode_prob == pre.uv_mode_prob
    &&& !inter ==> compressed::same_inter(pre, t)
    &&& inter ==> {
        &&& h.interp_filter != 4 ==> t.switchable_interp_prob == pre.switchable_interp_prob
        &&& mode <= 2
        &&& !compound_allowed(h.ref_sign_bias@) ==> mode == 0
        &&& if mode == 0 {
            t.comp_fixed_ref == pre.comp_fixed_ref && t.comp_var_ref == pre.comp_var_ref
        } else {
            (t.comp_fixed_ref, t.comp_var_ref@) == compressed::compound_refs(h.ref_sign_bias@)
        }
        &&& mode != 2 ==> t.comp_inter_prob == pre.comp_inter_prob
        &&& mode == 1 ==> t.single_ref_prob == pre.single_ref_prob
        &&& mode == 0 ==> t.comp_ref_prob == pre.comp_ref_prob
        &&& all_mv_reachable(
            mv_list(pre.nmvc, h.allow_high_precision_mv),
            mv_list(t.nmvc, h.allow_high_precision_mv),
        )
        &&& !h.allow_high_precision_mv ==> mv_hp_list(t.nmvc.comps[0]) == mv_hp_list(
            pre.nmvc.comps[0],
        ) && mv_hp_list(t.nmvc.comps[1]) == mv_hp_list(pre.nmvc.comps[1])
    }
}

proof fn lemma_half_back(c: Cursor, bit: bool)
    requires
        coding::holds(c, half(bit)),
    ensures
        coding::read_bit(c, 128) == bit,
        coding::after(c, half(bit)) == coding::read_next(c, 128),
{
    coding::lemma_holds_one(c, coding::sym(bit, 128));
}

proof fn lemma_tx_mode_back(c: Cursor, tx_mode: int, lossless: bool)
    requires
        0 <= tx_mode < 5,
        lossless ==> tx_mode == 0,
        coding::holds(c, tx_mode_syms(tx_mode, lossless)),
    ensures
        compressed::tx_mode_read(c, lossless) == (
            tx_mode,
            coding::after(c, tx_mode_syms(tx_mode, lossless)),
        ),
{
    if !lossless {
        lemma2_to64();
        if tx_mode >= 3 {
            let a = literal_syms(3, 2);
            let b = literal_syms(tx_mode - 3, 1);
            coding::lemma_holds_concat(c, a, b);
            bitwriter::law_literal_read_inverts_write(c, 3, 2);
            let c1 = coding::after(c, a);
            assert(b =~= half(tx_mode == 4)) by {
                reveal_with_fuel(literal_syms, 2);
            }
            lemma_half_back(c1, tx_mode == 4);
        } else {
            bitwriter::law_literal_read_inverts_write(c, tx_mode, 2);
        }
    }
}

proof fn lemma_coef_back(c: Cursor, ps: Seq<Seq<u8>>, ts: Seq<Seq<u8>>)
    requires
        coding::holds(c, coef_syms(ps, ts)),
        rows_reachable(ps, ts),
    ensures
        compressed::coefs_read(c, ps) == (ts, coding::after(c, coef_syms(ps, ts))),
{
    if ps == ts {
        lemma_half_back(c, false);
    } else {
        coding::lemma_holds_concat(c, half(true), rows_syms(ps, ts));
        lemma_half_back(c, true);
        prob::lemma_rows_back(coding::read_next(c, 128), ps, ts);
    }
}

#[verifier::rlimit(60)]
proof fn lemma_coefs_back(c: Cursor, pre: FrameContext, t: FrameContext, n: nat)
    requires
        n <= 4,
        coding::holds(c, coefs_syms(pre, t, n)),
        forall|tx: int|
            0 <= tx < n ==> rows_reachable(
                coef_rows(#[trigger] pre.coef_probs[tx]),
                coef_rows(t.coef_probs[tx]),
            ),
    ensures
        compressed::coefs_after(c, pre, n) == coding::after(c, coefs_syms(pre, t, n)),
        forall|tx: int|
            0 <= tx < n ==> coef_rows(#[trigger] t.coef_probs[tx]) == compressed::coefs_read(
                compressed::coefs_after(c, pre, tx as nat),
                coef_rows(pre.coef_probs[tx]),
            ).0,
    decreases n,
{
    if n > 0 {
        let m = (n - 1) as nat;
        let a = coefs_syms(pre, t, m);
        let ps = coef_rows(pre.coef_probs[n - 1]);
        let ts = coef_rows(t.coef_probs[n - 1]);
        coding::lemma_holds_concat(c, a, coef_syms(ps, ts));
        lemma_coefs_back(c, pre, t, m);
        lemma_coef_back(coding::after(c, a), ps, ts);
    }
}

proof fn lemma_intra_back(c: Cursor, pre: FrameContext, t: FrameContext, h: FrameHeader)
    requires
        codable(pre, t, h),
        coding::holds(c, intra_syms(pre, t, h.lossless)),
    ensures
        compressed::intra_part(c, pre, h.lossless, t),
        compressed::intra_part_end(c, pre, h.lossless) == coding::after(
            c,
            intra_syms(pre, t, h.lossless),
        ),
{
    let mode = t.tx_mode as int;
    let n = tx_sizes(mode);
    assert(n <= 4) by {
        assert(forall|i: int| 0 <= i < 5 ==> #[trigger] TX_MODE_TO_BIGGEST_TX[i] <= 3);
    }
    let s1 = tx_mode_syms(mode, h.lossless);
    let s2 = if t.tx_mode == TX_MODE_SELECT {
        rows_syms(tx_rows(pre), tx_rows(t))
    } else {
        Seq::empty()
    };
    let s3 = coefs_syms(pre, t, n);
    let s4 = diffs_syms(pre.skip_probs@, t.skip_probs@);
    coding::lemma_holds_concat(c, s1 + s2 + s3, s4);
    coding::lemma_holds_concat(c, s1 + s2, s3);
    coding::lemma_holds_concat(c, s1, s2);
    lemma_tx_mode_back(c, mode, h.lossless);
    let c1 = coding::after(c, s1);
    if t.tx_mode == TX_MODE_SELECT {
        prob::lemma_rows_back(c1, tx_rows(pre), tx_rows(t));
    }
    let c2 = coding::after(c1, s2);
    lemma_coefs_back(c2, pre, t, n);
    let c3 = coding::after(c2, s3);
    prob::lemma_diffs_back(c3, pre.skip_probs@, t.skip_probs@);
    assert(compressed::coefs_become(c2, pre, t, n));
}

proof fn lemma_inter_back(c: Cursor, pre: FrameContext, t: FrameContext, h: FrameHeader)
    requires
        codable(pre, t, h),
        !(h.key_frame || h.intra_only),
        coding::holds(c, inter_syms(pre, t, h)),
    ensures
        compressed::inter_part(c, pre, h, t),
{
    let switchable = h.interp_filter == 4;
    let mode = t.reference_mode as int;
    let hp = h.allow_high_precision_mv;
    let allowed = compound_allowed(h.ref_sign_bias@);
    let s1 = rows_syms(inter_rows(pre, switchable), inter_rows(t, switchable));
    let s2 = reference_mode_syms(allowed, mode);
    let s3 = rows_syms(ref_rows(pre, mode), ref_rows(t, mode));
    let s4 = rows_syms(mode_rows(pre), mode_rows(t));
    let s5 = mvs_syms(mv_list(pre.nmvc, hp), mv_list(t.nmvc, hp));
    coding::lemma_holds_concat(c, s1 + s2 + s3 + s4, s5);
    coding::lemma_holds_concat(c, s1 + s2 + s3, s4);
    coding::lemma_holds_concat(c, s1 + s2, s3);
    coding::lemma_holds_concat(c, s1, s2);
    prob::lemma_rows_back(c, inter_rows(pre, switchable), inter_rows(t, switchable));
    let c1 = coding::after(c, s1);
    if allowed {
        if mode == 0 {
            lemma_half_back(c1, false);
        } else {
            coding::lemma_holds_concat(c1, half(true), half(mode == 2));
            lemma_half_back(c1, true);
            lemma_half_back(coding::read_next(c1, 128), mode == 2);
        }
    }
    let c2 = coding::after(c1, s2);
    prob::lemma_rows_back(c2, ref_rows(pre, mode), ref_rows(t, mode));
    let c3 = coding::after(c2, s3);
    prob::lemma_rows_back(c3, mode_rows(pre), mode_rows(t));
    let c4 = coding::after(c3, s4);
    prob::lemma_mvs_back(c4, mv_list(pre.nmvc, hp), mv_list(t.nmvc, hp));
}

/// Reading a compressed header inverts writing it: the finished stream of what
/// [`write_compressed_header`] writes, followed by anything, gives the target
/// probabilities back.
pub proof fn law_compressed_read_inverts_write(
    pre: FrameContext,
    t: FrameContext,
    h: FrameHeader,
    rest: Seq<Sym>,
)
    requires
        codable(pre, t, h),
    ensures
        header_gives(
            coding::opened(coding::code_bytes(header_syms(pre, t, h) + rest)),
            pre,
            h,
            t,
        ),
{
    let all = header_syms(pre, t, h) + rest;
    let c = coding::opened(coding::code_bytes(all));
    coding::law_decode_inverts_code(all);
    coding::lemma_holds_concat(c, header_syms(pre, t, h), rest);
    let a = intra_syms(pre, t, h.lossless);
    let b = if h.key_frame || h.intra_only {
        Seq::empty()
    } else {
        inter_syms(pre, t, h)
    };
    coding::lemma_holds_concat(c, a, b);
    lemma_intra_back(c, pre, t, h);
    if !(h.key_frame || h.intra_only) {
        lemma_inter_back(coding::after(c, a), pre, t, h);
    }
}

/// Tables with the same rows are the same.
proof fn lemma_same_table<const C: usize, const R: usize>(a: [[u8; C]; R], b: [[u8; C]; R])
    requires
        rows(a) == rows(b),
    ensures
        a == b,
{
    assert forall|i: int| 0 <= i < R implies a@[i] == b@[i] by {
        assert(rows(a)[i] == rows(b)[i]);
        assert(a@[i] =~= b@[i]);
    }
    assert(a =~= b);
}

/// Coefficient probabilities with the same coded and the same other rows are the
/// same.
proof fn lemma_same_coefs(a: CoefProbs, b: CoefProbs)
    requires
        coef_rows(a) == coef_rows(b),
        same_spare(a, b),
    ensures
        a == b,
{
    reveal(coef_rows);
    assert forall|i: int, j: int, k: int, l: int|
        0 <= i < 2 && 0 <= j < 2 && 0 <= k < 6 && 0 <= l < 6 implies #[trigger] a[i][j][k][l]
        == b[i][j][k][l] by {
        if k > 0 || l < 3 {
            let r = 66 * i + 33 * j + (if k == 0 {
                l
            } else {
                6 * k - 3 + l
            });
            assert(compressed::coef_slot(r) == (i, j, k, l));
            assert(coef_rows(a)[r] == coef_rows(b)[r]);
            assert(a[i][j][k][l] =~= b[i][j][k][l]);
        }
    }
    assert forall|i: int| 0 <= i < 2 implies a@[i] == b@[i] by {
        assert forall|j: int| 0 <= j < 2 implies a@[i]@[j] == b@[i]@[j] by {
            assert forall|k: int| 0 <= k < 6 implies a@[i]@[j]@[k] == b@[i]@[j]@[k] by {
                assert forall|l: int| 0 <= l < 6 implies a@[i]@[j]@[k]@[l] == b@[i]@[j]@[k]@[l] by {
                    assert(a[i][j][k][l] == b[i][j][k][l]);
                }
                assert(a@[i]@[j]@[k] =~= b@[i]@[j]@[k]);
            }
            assert(a@[i]@[j] =~= b@[i]@[j]);
        }
        assert(a@[i] =~= b@[i]);
    }
    assert(a =~= b);
}

/// Lists that are the same have the same parts.
proof fn lemma_same_parts<A>(a: Seq<A>, b: Seq<A>, c: Seq<A>, d: Seq<A>)
    requires
        a + b == c + d,
        a.len() == c.len(),
    ensures
        a == c,
        b == d,
{
    assert(a =~= (a + b).take(a.len() as int));
    assert(c =~= (c + d).take(c.len() as int));
    assert(b =~= (a + b).skip(a.len() as int));
    assert(d =~= (c + d).skip(c.len() as int));
}

proof fn lemma_same_component(a: NmvComponent, b: NmvComponent)
    requires
        mv_integer_list(a) == mv_integer_list(b),
        mv_fraction_list(a) == mv_fraction_list(b),
        mv_hp_list(a) == mv_hp_list(b),
    ensures
        a == b,
{
    let (s, t) = (seq![a.sign], seq![b.sign]);
    lemma_same_parts(s + a.classes@ + a.class0@, a.bits@, t + b.classes@ + b.class0@, b.bits@);
    lemma_same_parts(s + a.classes@, a.class0@, t + b.classes@, b.class0@);
    lemma_same_parts(s, a.classes@, t, b.classes@);
    assert(s[0] == t[0]);
    lemma_same_parts(
        a.class0_fp[0]@ + a.class0_fp[1]@,
        a.fp@,
        b.class0_fp[0]@ + b.class0_fp[1]@,
        b.fp@,
    );
    lemma_same_parts(a.class0_fp[0]@, a.class0_fp[1]@, b.class0_fp[0]@, b.class0_fp[1]@);
    lemma_same_parts(seq![a.class0_hp], seq![a.hp], seq![b.class0_hp], seq![b.hp]);
    assert(seq![a.class0_hp][0] == seq![b.class0_hp][0]);
    assert(seq![a.hp][0] == seq![b.hp][0]);
    assert(a.classes =~= b.classes);
    assert(a.class0 =~= b.class0);
    assert(a.bits =~= b.bits);
    assert(a.class0_fp[0] =~= b.class0_fp[0]);
    assert(a.class0_fp[1] =~= b.class0_fp[1]);
    assert(a.class0_fp =~= b.class0_fp);
    assert(a.fp =~= b.fp);
}

proof fn lemma_same_nmv(a: NmvContext, b: NmvContext, hp: bool)
    requires
        mv_list(a, hp) == mv_list(b, hp),
        !hp ==> mv_hp_list(a.comps[0]) == mv_hp_list(b.comps[0]) && mv_hp_list(a.comps[1])
            == mv_hp_list(b.comps[1]),
    ensures
        a == b,
{
    broadcast use lemma_mv_lens;

    let (a0, a1, b0, b1) = (a.comps[0], a.comps[1], b.comps[0], b.comps[1]);
    let e = Seq::<u8>::empty();
    let (x, y) = if hp {
        (mv_hp_list(a0) + mv_hp_list(a1), mv_hp_list(b0) + mv_hp_list(b1))
    } else {
        (e, e)
    };
    let (p1, q1) = (a.joints@, b.joints@);
    let (p2, q2) = (p1 + mv_integer_list(a0), q1 + mv_integer_list(b0));
    let (p3, q3) = (p2 + mv_integer_list(a1), q2 + mv_integer_list(b1));
    let (p4, q4) = (p3 + mv_fraction_list(a0), q3 + mv_fraction_list(b0));
    let (p5, q5) = (p4 + mv_fraction_list(a1), q4 + mv_fraction_list(b1));
    lemma_same_parts(p5, x, q5, y);
    lemma_same_parts(p4, mv_fraction_list(a1), q4, mv_fraction_list(b1));
    lemma_same_parts(p3, mv_fraction_list(a0), q3, mv_fraction_list(b0));
    lemma_same_parts(p2, mv_integer_list(a1), q2, mv_integer_list(b1));
    lemma_same_parts(p1, mv_integer_list(a0), q1, mv_integer_list(b0));
    if hp {
        lemma_same_parts(mv_hp_list(a0), mv_hp_list(a1), mv_hp_list(b0), mv_hp_list(b1));
    }
    lemma_same_component(a0, b0);
    lemma_same_component(a1, b1);
    assert(a.joints =~= b.joints);
    assert(a.comps =~= b.comps);
}

proof fn lemma_same_tx(a: FrameContext, b: FrameContext)
    requires
        tx_rows(a) == tx_rows(b),
    ensures
        a.tx_p8x8 == b.tx_p8x8,
        a.tx_p16x16 == b.tx_p16x16,
        a.tx_p32x32 == b.tx_p32x32,
{
    lemma_same_parts(
        rows(a.tx_p8x8) + rows(a.tx_p16x16),
        rows(a.tx_p32x32),
        rows(b.tx_p8x8) + rows(b.tx_p16x16),
        rows(b.tx_p32x32),
    );
    lemma_same_parts(rows(a.tx_p8x8), rows(a.tx_p16x16), rows(b.tx_p8x8), rows(b.tx_p16x16));
    lemma_same_table(a.tx_p8x8, b.tx_p8x8);
    lemma_same_table(a.tx_p16x16, b.tx_p16x16);
    lemma_same_table(a.tx_p32x32, b.tx_p32x32);
}

proof fn lemma_same_inter_rows(a: FrameContext, b: FrameContext, switchable: bool)
    requires
        inter_rows(a, switchable) == inter_rows(b, switchable),
        !switchable ==> a.switchable_interp_prob == b.switchable_interp_prob,
    ensures
        a.inter_mode_probs == b.inter_mode_probs,
        a.switchable_interp_prob == b.switchable_interp_prob,
        a.intra_inter_prob == b.intra_inter_prob,
{
    let e = Seq::<Seq<u8>>::empty();
    let (x, y) = if switchable {
        (rows(a.switchable_interp_prob), rows(b.switchable_interp_prob))
    } else {
        (e, e)
    };
    lemma_same_parts(
        rows(a.inter_mode_probs) + x,
        seq![a.intra_inter_prob@],
        rows(b.inter_mode_probs) + y,
        seq![b.intra_inter_prob@],
    );
    lemma_same_parts(rows(a.inter_mode_probs), x, rows(b.inter_mode_probs), y);
    lemma_same_table(a.inter_mode_probs, b.inter_mode_probs);
    if switchable {
        lemma_same_table(a.switchable_interp_prob, b.switchable_interp_prob);
    }
    assert(seq![a.intra_inter_prob@][0] == seq![b.intra_inter_prob@][0]);
    assert(a.intra_inter_prob =~= b.intra_inter_prob);
}

proof fn lemma_same_ref_rows(a: FrameContext, b: FrameContext, mode: int)
    requires
        ref_rows(a, mode) == ref_rows(b, mode),
        mode != 2 ==> a.comp_inter_prob == b.comp_inter_prob,
        mode == 1 ==> a.single_ref_prob == b.single_ref_prob,
        mode == 0 ==> a.comp_ref_prob == b.comp_ref_prob,
    ensures
        a.comp_inter_prob == b.comp_inter_prob,
        a.single_ref_prob == b.single_ref_prob,
        a.comp_ref_prob == b.comp_ref_prob,
{
    let e = Seq::<Seq<u8>>::empty();
    let (p0, q0) = if mode == 2 {
        (seq![a.comp_inter_prob@], seq![b.comp_inter_prob@])
    } else {
        (e, e)
    };
    let (p1, q1) = if mode != 1 {
        (rows(a.single_ref_prob), rows(b.single_ref_prob))
    } else {
        (e, e)
    };
    let (p2, q2) = if mode != 0 {
        (seq![a.comp_ref_prob@], seq![b.comp_ref_prob@])
    } else {
        (e, e)
    };
    lemma_same_parts(p0 + p1, p2, q0 + q1, q2);
    lemma_same_parts(p0, p1, q0, q1);
    if mode == 2 {
        assert(p0[0] == q0[0]);
        assert(a.comp_inter_prob =~= b.comp_inter_prob);
    }
    if mode != 1 {
        lemma_same_table(a.single_ref_prob, b.single_ref_prob);
    }
    if mode != 0 {
        assert(p2[0] == q2[0]);
        assert(a.comp_ref_prob =~= b.comp_ref_prob);
    }
}

/// A compressed header gives at most one set of probabilities.
pub proof fn law_compressed_gives_one(
    c: Cursor,
    pre: FrameContext,
    h: FrameHeader,
    a: FrameContext,
    b: FrameContext,
)
    requires
        header_gives(c, pre, h, a),
        header_gives(c, pre, h, b),
    ensures
        a == b,
{
    lemma_same_tx(a, b);
    let n = tx_sizes(a.tx_mode as int);
    assert forall|tx: int| 0 <= tx < 4 implies a.coef_probs@[tx] == b.coef_probs@[tx] by {
        if tx < n {
            assert(same_spare(a.coef_probs[tx], pre.coef_probs[tx]));
            assert(same_spare(b.coef_probs[tx], pre.coef_probs[tx]));
            assert(same_spare(a.coef_probs[tx], b.coef_probs[tx]));
            assert(coef_rows(a.coef_probs[tx]) == coef_rows(b.coef_probs[tx]));
            lemma_same_coefs(a.coef_probs[tx], b.coef_probs[tx]);
        } else {
            assert(a.coef_probs[tx] == pre.coef_probs[tx]);
            assert(b.coef_probs[tx] == pre.coef_probs[tx]);
        }
    }
    assert(a.coef_probs =~= b.coef_probs);
    assert(a.skip_probs =~= b.skip_probs);
    if !(h.key_frame || h.intra_only) {
        lemma_same_inter_rows(a, b, h.interp_filter == 4);
        lemma_same_ref_rows(a, b, a.reference_mode as int);
        lemma_same_parts(
            rows(a.y_mode_prob),
            rows(a.partition_prob),
            rows(b.y_mode_prob),
            rows(b.partition_prob),
        );
        lemma_same_table(a.y_mode_prob, b.y_mode_prob);
        lemma_same_table(a.partition_prob, b.partition_prob);
        lemma_same_nmv(a.nmvc, b.nmvc, h.allow_high_precision_mv);
        assert(a.comp_var_ref =~= b.comp_var_ref);
    }
}

/// What is written of coefficients depends on their probabilities alone.
proof fn lemma_coefs_syms_same(pre: FrameContext, a: FrameContext, b: FrameContext, n: nat)
    requires
        a.coef_probs == b.coef_probs,
    ensures
        coefs_syms(pre, a, n) == coefs_syms(pre, b, n),
    decreases n,
{
    if n > 0 {
        lemma_coefs_syms_same(pre, a, b, (n - 1) as nat);
    }
}

/// The compressed header of a frame without references says nothing of modes, references,
/// partitions and vectors: targets that differ only in those are written alike.
pub proof fn law_intra_header_leaves_out_inter(
    pre: FrameContext,
    a: FrameContext,
    b: FrameContext,
    h: FrameHeader,
)
    requires
        h.key_frame || h.intra_only,
        a.tx_mode == b.tx_mode,
        a.tx_p8x8 == b.tx_p8x8,
        a.tx_p16x16 == b.tx_p16x16,
        a.tx_p32x32 == b.tx_p32x32,
        a.coef_probs == b.coef_probs,
        a.skip_probs == b.skip_probs,
    ensures
        header_syms(pre, a, h) == header_syms(pre, b, h),
        in_reach(pre, a, h) == in_reach(pre, b, h),
{
    assert(tx_rows(a) == tx_rows(b));
    lemma_coefs_syms_same(pre, a, b, tx_sizes(a.tx_mode as int));
}

/// What is read behind writing a compressed header is the target: the bytes of
/// [`write_compressed_header`] from an empty encoder are not refused, and whatever
/// probabilities they are found to give are those that were to be written.
pub proof fn law_compressed_gives_target(
    pre: FrameContext,
    t: FrameContext,
    h: FrameHeader,
    read: FrameContext,
)
    requires
        codable(pre, t, h),
        header_gives(coding::opened(coding::code_bytes(header_syms(pre, t, h))), pre, h, read),
    ensures
        coding::code_bytes(header_syms(pre, t, h)).len() > 0,
        read == t,
{
    let syms = header_syms(pre, t, h);
    law_compressed_read_inverts_write(pre, t, h, Seq::empty());
    assert(syms + Seq::<Sym>::empty() =~= syms);
    coding::lemma_code_len(syms);
    law_compressed_gives_one(coding::opened(coding::code_bytes(syms)), pre, h, read, t);
}

} // verus!
