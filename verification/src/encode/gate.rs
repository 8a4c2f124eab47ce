//! Which new probabilities of coefficients are worth signalling.
use vstd::prelude::*;

use crate::context::{CoefProbs, FrameContext};
use crate::decode::compressed::{coef_place, coef_slot, lemma_coef_slot, same_spare};
use crate::decode::counts::{
    coef_branch, coef_counts_fit, slot_fits, CoefCounts, EobCounts, FrameCounts,
};
use crate::encode::cost::{cost_bit, BitCosts};
use crate::encode::bitwriter::literal_syms;
use crate::encode::prob::subexp_syms;
use crate::prob::{forward_remap_prob, update_code};

verus! {

/// The probability that a probability is not updated.
pub const DIFF_UPDATE_PROB: u8 = 252;

/// The number of bits that an update of code `d` takes.
pub open spec fn code_bits(d: int) -> int {
    if d < 16 {
        5
    } else if d < 32 {
        6
    } else if d < 64 {
        8
    } else if d < 129 {
        10
    } else {
        11
    }
}

/// What a bit costs at a probability.
pub open spec fn bit_cost(t: BitCosts, prob: u8, bit: int) -> int {
    t.of[bit][prob as int] as int
}

/// What `n0` zeros and `n1` ones cost at a probability.
pub open spec fn branch_cost(t: BitCosts, prob: u8, n0: int, n1: int) -> int {
    n0 * bit_cost(t, prob, 0) + n1 * bit_cost(t, prob, 1)
}

/// The probability to signal: the new one if it can be signalled and saves more than
/// that costs, else the old one.
pub open spec fn gated(t: BitCosts, old_p: u8, new_p: u8, n0: int, n1: int) -> u8 {
    let save = branch_cost(t, old_p, n0, n1) - branch_cost(t, new_p, n0, n1);
    match update_code(old_p as int, new_p as int) {
        Some(d) => {
            let cost = bit_cost(t, DIFF_UPDATE_PROB, 1) - bit_cost(t, DIFF_UPDATE_PROB, 0) + 256
                * code_bits(d);
            if new_p != old_p && save > cost {
                new_p
            } else {
                old_p
            }
        },
        None => old_p,
    }
}

/// No cost is over 16 bits.
pub open spec fn modest(t: BitCosts) -> bool {
    forall|b: int, p: int| 0 <= b < 2 && 0 <= p < 256 ==> #[trigger] t.of[b][p] <= 0xffff
}

/// Row `r` of the probabilities `post` holds those of `new` that are worth signalling,
/// and those of `old` for the others.
pub open spec fn slot_gated(
    t: BitCosts,
    old_p: CoefProbs,
    new_p: CoefProbs,
    post: CoefProbs,
    counts: CoefCounts,
    eobs: EobCounts,
    r: int,
) -> bool {
    let (i, j, k, l) = coef_slot(r);
    forall|m: int|
        0 <= m < 3 ==> #[trigger] post[i][j][k][l][m] == gated(
            t,
            old_p[i][j][k][l][m],
            new_p[i][j][k][l][m],
            coef_branch(counts[i][j][k][l]@, eobs[i][j][k][l], m).0,
            coef_branch(counts[i][j][k][l]@, eobs[i][j][k][l], m).1,
        )
}

/// What `n0` zeros and `n1` ones cost at a probability.
fn cost_of(t: &BitCosts, prob: u8, n0: u32, n1: u32) -> (c: i64)
    requires
        modest(*t),
    ensures
        c == branch_cost(*t, prob, n0 as int, n1 as int),
        0 <= c <= 0x2_0000_0000_0000,
{
    let (a, b): (i64, i64) = (
        cost_bit(t, prob, false) as i64,
        cost_bit(t, prob, true) as i64,
    );
    assert(t.of[0][prob as int] <= 0xffff && t.of[1][prob as int] <= 0xffff);
    assert(0 <= n0 * a <= 0x1_0000_0000_0000 && 0 <= n1 * b <= 0x1_0000_0000_0000)
        by (nonlinear_arith)
        requires
            0 <= n0 <= 0xffff_ffff,
            0 <= n1 <= 0xffff_ffff,
            0 <= a <= 0xffff,
            0 <= b <= 0xffff,
    ;
    n0 as i64 * a + n1 as i64 * b
}

/// The probability to signal.
fn gate(t: &BitCosts, old_p: u8, new_p: u8, n0: u32, n1: u32) -> (r: u8)
    requires
        modest(*t),
    ensures
        r == gated(*t, old_p, new_p, n0 as int, n1 as int),
{
    if new_p == old_p {
        return old_p;
    }
    let save: i64 = cost_of(t, old_p, n0, n1) - cost_of(t, new_p, n0, n1);
    match forward_remap_prob(old_p, new_p) {
        Some(d) => {
            let bits: i64 = if d < 16 {
                5
            } else if d < 32 {
                6
            } else if d < 64 {
                8
            } else if d < 129 {
                10
            } else {
                11
            };
            assert(t.of[0][DIFF_UPDATE_PROB as int] <= 0xffff && t.of[1][DIFF_UPDATE_PROB as int]
                <= 0xffff);
            let cost: i64 = cost_bit(t, DIFF_UPDATE_PROB, true) as i64 - cost_bit(
                t,
                DIFF_UPDATE_PROB,
                false,
            ) as i64 + bits * 256;
            if save > cost {
                new_p
            } else {
                old_p
            }
        },
        None => old_p,
    }
}

/// The probabilities of a row to signal.
fn gate_row(
    t: &BitCosts,
    old_p: &[u8; 3],
    new_p: &[u8; 3],
    c: &[u32; 4],
    eob: u32,
) -> (r: [u8; 3])
    requires
        modest(*t),
        coef_counts_fit(c@, eob),
    ensures
        forall|m: int|
            0 <= m < 3 ==> #[trigger] r[m] == gated(
                *t,
                old_p[m],
                new_p[m],
                coef_branch(c@, eob, m).0,
                coef_branch(c@, eob, m).1,
            ),
{
    [
        gate(t, old_p[0], new_p[0], c[3], eob - c[3]),
        gate(t, old_p[1], new_p[1], c[0], c[1] + c[2]),
        gate(t, old_p[2], new_p[2], c[1], c[2]),
    ]
}

/// Keeps the probabilities of a transform size that are worth signalling.
fn gate_table(
    t: &BitCosts,
    old_p: &CoefProbs,
    new_p: &mut CoefProbs,
    counts: &CoefCounts,
    eobs: &EobCounts,
)
    requires
        modest(*t),
        forall|r: int| 0 <= r < 132 ==> #[trigger] slot_fits(*counts, *eobs, r),
    ensures
        forall|r: int|
            0 <= r < 132 ==> #[trigger] slot_gated(
                *t,
                *old_p,
                *old(new_p),
                *final(new_p),
                *counts,
                *eobs,
                r,
            ),
        same_spare(*final(new_p), *old(new_p)),
{
    let ghost start = *new_p;
    let mut r: usize = 0;
    while r < 132
        invariant
            r <= 132,
            modest(*t),
            forall|r: int| 0 <= r < 132 ==> #[trigger] slot_fits(*counts, *eobs, r),
            forall|s: int|
                0 <= s < r ==> #[trigger] slot_gated(
                    *t,
                    *old_p,
                    start,
                    *new_p,
                    *counts,
                    *eobs,
                    s,
                ),
            forall|s: int|
                r <= s < 132 ==> ({
                    let (i, j, k, l) = #[trigger] coef_slot(s);
                    new_p[i][j][k][l] == start[i][j][k][l]
                }),
            same_spare(*new_p, start),
        decreases 132 - r,
    {
        let (i, j, k, l): (usize, usize, usize, usize) = coef_place(r);
        let ghost before = *new_p;
        proof {
            lemma_coef_slot(r as int);
            assert(slot_fits(*counts, *eobs, r as int));
            let s = coef_slot(r as int);
            assert(new_p[s.0][s.1][s.2][s.3] == start[s.0][s.1][s.2][s.3]);
        }
        let row: [u8; 3] = gate_row(
            t,
            &old_p[i][j][k][l],
            &new_p[i][j][k][l],
            &counts[i][j][k][l],
            eobs[i][j][k][l],
        );
        new_p[i][j][k][l] = row;
        r = r + 1;
        proof {
            assert forall|s: int| 0 <= s < r implies #[trigger] slot_gated(
                *t,
                *old_p,
                start,
                *new_p,
                *counts,
                *eobs,
                s,
            ) by {
                lemma_coef_slot(s);
                if s < r - 1 {
                    assert(slot_gated(*t, *old_p, start, before, *counts, *eobs, s));
                }
            }
            assert forall|s: int| r <= s < 132 implies ({
                let (i, j, k, l) = #[trigger] coef_slot(s);
                new_p[i][j][k][l] == start[i][j][k][l]
            }) by {
                lemma_coef_slot(s);
                let q = coef_slot(s);
                assert(before[q.0][q.1][q.2][q.3] == start[q.0][q.1][q.2][q.3]);
            }
            assert forall|i2: int, j2: int, l2: int|
                0 <= i2 < 2 && 0 <= j2 < 2 && 3 <= l2 < 6 implies #[trigger] new_p[i2][j2][0][l2]
                == start[i2][j2][0][l2] by {
                assert(before[i2][j2][0][l2] == start[i2][j2][0][l2]);
            }
        }
    }
}

/// The probabilities `post` are those of `new` that are worth signalling, in the first
/// `n` transform sizes.
pub open spec fn coefs_gated(
    t: BitCosts,
    old_fc: FrameContext,
    new_fc: FrameContext,
    post: FrameContext,
    counts: FrameCounts,
    n: int,
) -> bool {
    &&& forall|tx: int, r: int|
        0 <= tx < n && 0 <= r < 132 ==> #[trigger] slot_gated(
            t,
            old_fc.coef_probs[tx],
            new_fc.coef_probs[tx],
            post.coef_probs[tx],
            counts.coef[tx],
            counts.eob_branch[tx],
            r,
        )
    &&& forall|tx: int|
        0 <= tx < n ==> same_spare(#[trigger] post.coef_probs[tx], new_fc.coef_probs[tx])
}

/// Keeps the new probabilities of coefficients that save more bits, by the counts of a
/// frame, than signalling them costs, and takes back the others.
pub fn rd_gate_coef_update(
    t: &BitCosts,
    defaults: &FrameContext,
    updated: &mut FrameContext,
    counts: &FrameCounts,
)
    requires
        modest(*t),
        counts.coefs_fit(),
    ensures
        coefs_gated(*t, *defaults, *old(updated), *final(updated), *counts, 4),
        *final(updated) == (FrameContext {
            coef_probs: final(updated).coef_probs,
            ..*old(updated)
        }),
{
    let ghost start = *updated;
    let mut tx: usize = 0;
    while tx < 4
        invariant
            tx <= 4,
            modest(*t),
            counts.coefs_fit(),
            coefs_gated(*t, *defaults, start, *updated, *counts, tx as int),
            forall|k: int| tx <= k < 4 ==> #[trigger] updated.coef_probs[k] == start.coef_probs[k],
            *updated == (FrameContext { coef_probs: updated.coef_probs, ..start }),
        decreases 4 - tx,
    {
        let ghost before = *updated;
        let mut p: CoefProbs = updated.coef_probs[tx];
        assert(p == start.coef_probs[tx as int]);
        assert(forall|r: int|
            0 <= r < 132 ==> #[trigger] slot_fits(
                counts.coef[tx as int],
                counts.eob_branch[tx as int],
                r,
            ));
        gate_table(
            t,
            &defaults.coef_probs[tx],
            &mut p,
            &counts.coef[tx],
            &counts.eob_branch[tx],
        );
        updated.coef_probs[tx] = p;
        tx = tx + 1;
        proof {
            assert forall|k: int| 0 <= k < 4 && k != tx - 1 implies #[trigger] updated.coef_probs[k]
                == before.coef_probs[k] by {}
            assert forall|k: int, r: int| 0 <= k < tx && 0 <= r < 132 implies #[trigger] slot_gated(
                *t,
                defaults.coef_probs[k],
                start.coef_probs[k],
                updated.coef_probs[k],
                counts.coef[k],
                counts.eob_branch[k],
                r,
            ) by {
                if k < tx - 1 {
                    assert(slot_gated(
                        *t,
                        defaults.coef_probs[k],
                        start.coef_probs[k],
                        before.coef_probs[k],
                        counts.coef[k],
                        counts.eob_branch[k],
                        r,
                    ));
                }
            }
        }
    }
}

/// A probability is changed only where that saves more than it costs.
pub proof fn law_gate_saves(t: BitCosts, old_p: u8, new_p: u8, n0: int, n1: int)
    ensures
        ({
            let p = gated(t, old_p, new_p, n0, n1);
            p != old_p ==> update_code(old_p as int, p as int) is Some && branch_cost(
                t,
                p,
                n0,
                n1,
            ) + bit_cost(t, DIFF_UPDATE_PROB, 1) - bit_cost(t, DIFF_UPDATE_PROB, 0) + 256
                * code_bits(update_code(old_p as int, p as int).unwrap()) < branch_cost(
                t,
                old_p,
                n0,
                n1,
            )
        }),
{
}

/// A probability that can be signalled and saves more than that costs is signalled, and no
/// other: what is kept is the new one just then, else the old one.
pub proof fn law_gate_takes_what_saves(t: BitCosts, old_p: u8, new_p: u8, n0: int, n1: int)
    ensures
        ({
            let p = gated(t, old_p, new_p, n0, n1);
            let code = update_code(old_p as int, new_p as int);
            let before = n0 * (t.of[0][old_p as int]) + n1 * (t.of[1][old_p as int]);
            let after = n0 * (t.of[0][new_p as int]) + n1 * (t.of[1][new_p as int]);
            let extra = t.of[1][252] - t.of[0][252];
            &&& p == old_p || p == new_p
            &&& code is Some && new_p != old_p && before - after > extra + 256 * code_bits(
                code.unwrap(),
            ) ==> p == new_p
            &&& code is None ==> p == old_p
            &&& before <= after && extra >= 0 && code is Some ==> p == old_p
        }),
{
}

/// The longer a code, the more bits it takes: five for the first sixteen, up to eleven.
pub proof fn law_codes_grow(d: int, e: int)
    requires
        0 <= d <= e,
    ensures
        5 <= code_bits(d) <= code_bits(e) <= 11,
{
}

proof fn lemma_literal_len(v: int, n: nat)
    ensures
        literal_syms(v, n).len() == n,
    decreases n,
{
    if n > 0 {
        lemma_literal_len(v / 2, (n - 1) as nat);
    }
}

/// The bits that a code is weighed by are those that it is written in.
pub proof fn law_codes_are_weighed_by_length(d: int)
    ensures
        code_bits(d) == subexp_syms(d).len(),
{
    lemma_literal_len(d, 4);
    lemma_literal_len(d - 16, 4);
    lemma_literal_len(d - 32, 5);
    lemma_literal_len(d - 64, 7);
    lemma_literal_len((d + 1) / 2, 7);
}

} // verus!
