//! What was coded in a frame, and the adaptation of the probabilities to it.
use vstd::prelude::*;

use crate::adapt;
use crate::adapt::{merge_probs, mode_mv_merge_probs, tree_merge_probs};
use crate::block::{INTRA_MODE_TREE, PARTITION_TREE};
use crate::context::{CoefProbs, FrameContext};
use crate::decode::compressed::{coef_place, coef_slot, lemma_coef_slot, same_spare};
use crate::prob_tables::{NmvComponent, NmvContext};

verus! {

/// The tree of inter modes: zero, nearest, near, new.
pub const INTER_MODE_TREE: [i8; 6] = [-2, 2, 0, 4, -1, -3];

/// The tree of interpolation filters.
pub const SWITCHABLE_INTERP_TREE: [i8; 4] = [0, 2, -1, -2];

/// The tree of the joints of a motion vector difference: none, column, row, both.
pub const MV_JOINT_TREE: [i8; 6] = [0, 2, -1, 4, -2, -3];

/// The tree of the magnitude classes of a component.
pub const MV_CLASS_TREE: [i8; 20] = [
    0,
    2,
    -1,
    4,
    6,
    8,
    -2,
    -3,
    10,
    12,
    -4,
    -5,
    -6,
    14,
    16,
    18,
    -7,
    -8,
    -9,
    -10,
];

/// The tree of the integer part in the lowest class.
pub const MV_CLASS0_TREE: [i8; 2] = [0, -1];

/// The tree of the fractional part.
pub const MV_FP_TREE: [i8; 6] = [0, 2, -1, 4, -2, -3];

/// The counts of one component of motion vector differences.
#[derive(Clone, Copy, Debug)]
pub struct NmvComponentCounts {
    pub sign: [u32; 2],
    pub classes: [u32; 11],
    pub class0: [u32; 2],
    pub bits: [[u32; 2]; 10],
    pub class0_fp: [[u32; 4]; 2],
    pub fp: [u32; 4],
    pub class0_hp: [u32; 2],
    pub hp: [u32; 2],
}

/// The counts of motion vector differences.
#[derive(Clone, Copy, Debug)]
pub struct NmvCounts {
    pub joints: [u32; 4],
    pub comps: [NmvComponentCounts; 2],
}

/// The counts of coefficient tokens of one transform size: by plane type, reference
/// type, band and context; zero, one, more, end of block.
pub type CoefCounts = [[[[[u32; 4]; 6]; 6]; 2]; 2];

/// How often the end of a block could have come.
pub type EobCounts = [[[[u32; 6]; 6]; 2]; 2];

/// How often each symbol was coded in a frame.
#[derive(Clone, Copy, Debug)]
pub struct FrameCounts {
    pub coef: [CoefCounts; 4],
    pub eob_branch: [EobCounts; 4],
    pub intra_inter: [[u32; 2]; 4],
    pub comp_inter: [[u32; 2]; 5],
    pub comp_ref: [[u32; 2]; 5],
    pub single_ref: [[[u32; 2]; 2]; 5],
    pub inter_mode: [[u32; 4]; 7],
    pub y_mode: [[u32; 10]; 4],
    pub uv_mode: [[u32; 10]; 10],
    pub partition: [[u32; 4]; 16],
    pub switchable_interp: [[u32; 3]; 4],
    pub skip: [[u32; 2]; 3],
    pub tx_p8x8: [[u32; 2]; 2],
    pub tx_p16x16: [[u32; 3]; 2],
    pub tx_p32x32: [[u32; 4]; 2],
    pub mv: NmvCounts,
}

// ---------------------------------------------------------------------------
// Adaptation of coefficient probabilities
// ---------------------------------------------------------------------------

/// How often each branch of the three nodes of a coefficient token was taken: end of
/// block or not, zero or not, one or more.
pub open spec fn coef_branch(c: Seq<u32>, eob: u32, m: int) -> (int, int) {
    if m == 0 {
        (c[3] as int, eob - c[3])
    } else if m == 1 {
        (c[0] as int, c[1] + c[2])
    } else {
        (c[1] as int, c[2] as int)
    }
}

/// The counts of a row can be adapted to: no sum leaves 32 bits, and a block cannot
/// have ended more often than it could.
pub open spec fn coef_counts_fit(c: Seq<u32>, eob: u32) -> bool {
    c[3] <= eob && c[0] + c[1] + c[2] <= u32::MAX
}

/// The row `post` is the row `pre`, merged with its counts.
pub open spec fn row_adapted(
    pre: Seq<u8>,
    post: Seq<u8>,
    c: Seq<u32>,
    eob: u32,
    count_sat: int,
    update_factor: int,
) -> bool {
    forall|m: int|
        0 <= m < 3 ==> #[trigger] post[m] == adapt::merged_coef(
            pre[m] as int,
            coef_branch(c, eob, m).0,
            coef_branch(c, eob, m).1,
            count_sat,
            update_factor,
        )
}

/// Row `r` of the coefficient probabilities has been merged with its counts.
pub open spec fn slot_adapted(
    pre: CoefProbs,
    post: CoefProbs,
    counts: CoefCounts,
    eobs: EobCounts,
    count_sat: int,
    update_factor: int,
    r: int,
) -> bool {
    let (i, j, k, l) = coef_slot(r);
    row_adapted(
        pre[i][j][k][l]@,
        post[i][j][k][l]@,
        counts[i][j][k][l]@,
        eobs[i][j][k][l],
        count_sat,
        update_factor,
    )
}

/// Row `r` of the counts can be adapted to.
pub open spec fn slot_fits(counts: CoefCounts, eobs: EobCounts, r: int) -> bool {
    let (i, j, k, l) = coef_slot(r);
    coef_counts_fit(counts[i][j][k][l]@, eobs[i][j][k][l])
}

fn adapt_row(
    pre: &[u8; 3],
    c: &[u32; 4],
    eob: u32,
    count_sat: u32,
    update_factor: u32,
) -> (post: [u8; 3])
    requires
        coef_counts_fit(c@, eob),
        count_sat > 0,
        update_factor <= 256,
        update_factor * count_sat <= u32::MAX,
    ensures
        row_adapted(pre@, post@, c@, eob, count_sat as int, update_factor as int),
{
    let branch: [[u32; 2]; 3] = [[c[3], eob - c[3]], [c[0], c[1] + c[2]], [c[1], c[2]]];
    let mut post: [u8; 3] = [0, 0, 0];
    let mut m: usize = 0;
    while m < 3
        invariant
            m <= 3,
            coef_counts_fit(c@, eob),
            count_sat > 0,
            update_factor <= 256,
            update_factor * count_sat <= u32::MAX,
            forall|n: int|
                0 <= n < 3 ==> (#[trigger] branch[n])[0] == coef_branch(c@, eob, n).0
                    && branch[n][1] == coef_branch(c@, eob, n).1,
            forall|n: int|
                0 <= n < m ==> #[trigger] post[n] == adapt::merged_coef(
                    pre[n] as int,
                    coef_branch(c@, eob, n).0,
                    coef_branch(c@, eob, n).1,
                    count_sat as int,
                    update_factor as int,
                ),
        decreases 3 - m,
    {
        let ct: [u32; 2] = branch[m];
        proof {
            let (n0, n1) = coef_branch(c@, eob, m as int);
            assert(ct[0] == n0 && ct[1] == n1);
            let count = adapt::min_int(n0 + n1, count_sat as int);
            assert(0 <= update_factor * count <= update_factor * count_sat) by (nonlinear_arith)
                requires
                    0 <= count <= count_sat,
                    0 <= update_factor,
            ;
            vstd::arithmetic::div_mod::lemma_div_is_ordered(
                update_factor * count,
                update_factor * count_sat,
                count_sat as int,
            );
            vstd::arithmetic::div_mod::lemma_div_multiples_vanish(
                update_factor as int,
                count_sat as int,
            );
            vstd::arithmetic::mul::lemma_mul_is_commutative(
                update_factor as int,
                count_sat as int,
            );
        }
        post[m] = merge_probs(pre[m], ct, count_sat, update_factor);
        m = m + 1;
    }
    post
}

fn adapt_coef_table(
    fc: &mut CoefProbs,
    pre: &CoefProbs,
    counts: &CoefCounts,
    eobs: &EobCounts,
    count_sat: u32,
    update_factor: u32,
)
    requires
        forall|r: int| 0 <= r < 132 ==> #[trigger] slot_fits(*counts, *eobs, r),
        count_sat > 0,
        update_factor <= 256,
        update_factor * count_sat <= u32::MAX,
    ensures
        forall|r: int|
            0 <= r < 132 ==> #[trigger] slot_adapted(
                *pre,
                *final(fc),
                *counts,
                *eobs,
                count_sat as int,
                update_factor as int,
                r,
            ),
        same_spare(*final(fc), *old(fc)),
{
    let mut r: usize = 0;
    while r < 132
        invariant
            r <= 132,
            forall|r: int| 0 <= r < 132 ==> #[trigger] slot_fits(*counts, *eobs, r),
            count_sat > 0,
            update_factor <= 256,
            update_factor * count_sat <= u32::MAX,
            forall|s: int|
                0 <= s < r ==> #[trigger] slot_adapted(
                    *pre,
                    *fc,
                    *counts,
                    *eobs,
                    count_sat as int,
                    update_factor as int,
                    s,
                ),
            same_spare(*fc, *old(fc)),
        decreases 132 - r,
    {
        let (i, j, k, l): (usize, usize, usize, usize) = coef_place(r);
        let ghost before = *fc;
        proof {
            lemma_coef_slot(r as int);
            assert(slot_fits(*counts, *eobs, r as int));
        }
        fc[i][j][k][l] = adapt_row(
            &pre[i][j][k][l],
            &counts[i][j][k][l],
            eobs[i][j][k][l],
            count_sat,
            update_factor,
        );
        r = r + 1;
        proof {
            assert forall|s: int| 0 <= s < r implies #[trigger] slot_adapted(
                *pre,
                *fc,
                *counts,
                *eobs,
                count_sat as int,
                update_factor as int,
                s,
            ) by {
                lemma_coef_slot(s);
                if s < r - 1 {
                    assert(slot_adapted(
                        *pre,
                        before,
                        *counts,
                        *eobs,
                        count_sat as int,
                        update_factor as int,
                        s,
                    ));
                }
            }
            assert forall|i2: int, j2: int, l2: int|
                0 <= i2 < 2 && 0 <= j2 < 2 && 3 <= l2 < 6 implies #[trigger] fc[i2][j2][0][l2]
                == old(fc)[i2][j2][0][l2] by {
                assert(before[i2][j2][0][l2] == old(fc)[i2][j2][0][l2]);
            }
        }
    }
}

/// Adapts the coefficient probabilities: each coded one becomes that of `pre`, merged
/// with the counts of its two branches.
pub fn adapt_coef_probs(
    fc: &mut FrameContext,
    pre: &FrameContext,
    counts: &FrameCounts,
    count_sat: u32,
    update_factor: u32,
)
    requires
        counts.coefs_fit(),
        count_sat > 0,
        update_factor <= 256,
        update_factor * count_sat <= u32::MAX,
    ensures
        coefs_adapted(
            *pre,
            *old(fc),
            *final(fc),
            *counts,
            count_sat as int,
            update_factor as int,
            4,
        ),
        *final(fc) == (FrameContext { coef_probs: final(fc).coef_probs, ..*old(fc) }),
{
    let mut tx: usize = 0;
    while tx < 4
        invariant
            tx <= 4,
            counts.coefs_fit(),
            count_sat > 0,
            update_factor <= 256,
            update_factor * count_sat <= u32::MAX,
            coefs_adapted(
                *pre,
                *old(fc),
                *fc,
                *counts,
                count_sat as int,
                update_factor as int,
                tx as int,
            ),
            forall|t: int|
                tx <= t < 4 ==> #[trigger] fc.coef_probs[t] == old(fc).coef_probs[t],
            *fc == (FrameContext { coef_probs: fc.coef_probs, ..*old(fc) }),
        decreases 4 - tx,
    {
        let ghost before = *fc;
        let mut p: CoefProbs = fc.coef_probs[tx];
        assert(p == old(fc).coef_probs[tx as int]);
        assert(forall|r: int|
            0 <= r < 132 ==> #[trigger] slot_fits(
                counts.coef[tx as int],
                counts.eob_branch[tx as int],
                r,
            ));
        adapt_coef_table(
            &mut p,
            &pre.coef_probs[tx],
            &counts.coef[tx],
            &counts.eob_branch[tx],
            count_sat,
            update_factor,
        );
        fc.coef_probs[tx] = p;
        tx = tx + 1;
        proof {
            assert forall|t: int| 0 <= t < 4 && t != tx - 1 implies #[trigger] fc.coef_probs[t]
                == before.coef_probs[t] by {}
            assert forall|t: int, r: int| 0 <= t < tx && 0 <= r < 132 implies slot_adapted(
                pre.coef_probs[t],
                fc.coef_probs[t],
                counts.coef[t],
                counts.eob_branch[t],
                count_sat as int,
                update_factor as int,
                r,
            ) by {
                if t < tx - 1 {
                    assert(slot_adapted(
                        pre.coef_probs[t],
                        before.coef_probs[t],
                        counts.coef[t],
                        counts.eob_branch[t],
                        count_sat as int,
                        update_factor as int,
                        r,
                    ));
                }
            }
        }
    }
}

/// The coefficient probabilities of the first `n` transform sizes have been merged
/// with the counts.
pub open spec fn coefs_adapted(
    pre: FrameContext,
    before: FrameContext,
    post: FrameContext,
    counts: FrameCounts,
    count_sat: int,
    update_factor: int,
    n: int,
) -> bool {
    &&& forall|tx: int, r: int|
        0 <= tx < n && 0 <= r < 132 ==> #[trigger] slot_adapted(
            pre.coef_probs[tx],
            post.coef_probs[tx],
            counts.coef[tx],
            counts.eob_branch[tx],
            count_sat,
            update_factor,
            r,
        )
    &&& forall|tx: int|
        0 <= tx < n ==> same_spare(#[trigger] post.coef_probs[tx], before.coef_probs[tx])
}

impl FrameCounts {
    /// The coefficient counts can be adapted to.
    pub open spec fn coefs_fit(&self) -> bool {
        forall|tx: int, r: int|
            0 <= tx < 4 && 0 <= r < 132 ==> #[trigger] slot_fits(
                self.coef[tx],
                self.eob_branch[tx],
                r,
            )
    }
}

// ---------------------------------------------------------------------------
// Adaptation of mode and motion probabilities
// ---------------------------------------------------------------------------

/// The sum of a row of counts.
pub open spec fn total(c: Seq<u32>) -> int
    decreases c.len(),
{
    if c.len() == 0 {
        0
    } else {
        total(c.drop_last()) + c.last()
    }
}

/// The sum of the row fits into 32 bits.
pub open spec fn row_fits(c: Seq<u32>) -> bool {
    total(c) <= u32::MAX
}

/// All rows of a table fit.
pub open spec fn rows_fit<const N: usize, const R: usize>(c: [[u32; N]; R]) -> bool {
    forall|i: int| 0 <= i < R ==> row_fits(#[trigger] c[i]@)
}

/// The row `post` is the row `pre`, merged through `tree` with its counts.
pub open spec fn tree_adapted(
    tree: Seq<i8>,
    pre: Seq<u8>,
    before: Seq<u8>,
    post: Seq<u8>,
    c: Seq<u32>,
) -> bool {
    post == adapt::tree_merged(tree, pre, c, before, 0, tree.len())
}

/// Each row of a table has been merged through `tree` with its counts.
pub open spec fn rows_adapted<const C: usize, const N: usize, const R: usize>(
    tree: Seq<i8>,
    pre: [[u8; C]; R],
    before: [[u8; C]; R],
    post: [[u8; C]; R],
    c: [[u32; N]; R],
) -> bool {
    forall|i: int|
        0 <= i < R ==> tree_adapted(tree, pre[i]@, before[i]@, #[trigger] post[i]@, c[i]@)
}

/// Each probability of a row has been merged with the counts of its two branches.
pub open spec fn pairs_adapted<const R: usize>(
    pre: [u8; R],
    post: [u8; R],
    c: [[u32; 2]; R],
) -> bool {
    forall|i: int|
        0 <= i < R ==> #[trigger] post[i] == adapt::merged_mode(
            pre[i] as int,
            c[i][0] as int,
            c[i][1] as int,
        )
}

/// A tree whose walks stay inside its probabilities and counts, and whose leaves
/// count every symbol once.
pub open spec fn counting_tree(tree: Seq<i8>, nprobs: nat, ncounts: nat) -> bool {
    &&& adapt::merge_ok(tree, nprobs, ncounts, 0, tree.len())
    &&& forall|c: Seq<u32>|
        c.len() == ncounts ==> #[trigger] total(c) == adapt::branch_count(
            tree,
            c,
            tree[0],
            (tree.len() - 1) as nat,
        ) + adapt::branch_count(tree, c, tree[1], (tree.len() - 1) as nat)
}

proof fn lemma_total2(c: Seq<u32>)
    requires
        c.len() == 2,
    ensures
        total(c) == c[0] + c[1],
{
    reveal_with_fuel(total, 3);
}

proof fn lemma_total_more(c: Seq<u32>)
    ensures
        c.len() == 3 ==> total(c) == c[0] + c[1] + c[2],
        c.len() == 4 ==> total(c) == c[0] + c[1] + c[2] + c[3],
        c.len() == 10 ==> total(c) == c[0] + c[1] + c[2] + c[3] + c[4] + c[5] + c[6] + c[7] + c[8]
            + c[9],
        c.len() == 11 ==> total(c) == c[0] + c[1] + c[2] + c[3] + c[4] + c[5] + c[6] + c[7] + c[8]
            + c[9] + c[10],
{
    reveal_with_fuel(total, 12);
}

proof fn lemma_inter_mode_counts()
    ensures
        counting_tree(INTER_MODE_TREE@, 3, 4),
{
    reveal_with_fuel(adapt::merge_ok, 4);
    assert forall|c: Seq<u32>| c.len() == 4 implies #[trigger] total(c) == adapt::branch_count(
        INTER_MODE_TREE@,
        c,
        INTER_MODE_TREE@[0],
        5,
    ) + adapt::branch_count(INTER_MODE_TREE@, c, INTER_MODE_TREE@[1], 5) by {
        lemma_total_more(c);
        reveal_with_fuel(adapt::branch_count, 4);
    }
}

proof fn lemma_partition_counts()
    ensures
        counting_tree(PARTITION_TREE@, 3, 4),
        counting_tree(MV_JOINT_TREE@, 3, 4),
        counting_tree(MV_FP_TREE@, 3, 4),
{
    reveal_with_fuel(adapt::merge_ok, 4);
    assert forall|c: Seq<u32>| c.len() == 4 implies #[trigger] total(c) == adapt::branch_count(
        PARTITION_TREE@,
        c,
        PARTITION_TREE@[0],
        5,
    ) + adapt::branch_count(PARTITION_TREE@, c, PARTITION_TREE@[1], 5) by {
        lemma_total_more(c);
        reveal_with_fuel(adapt::branch_count, 4);
    }
    assert(MV_JOINT_TREE@ =~= PARTITION_TREE@);
    assert(MV_FP_TREE@ =~= PARTITION_TREE@);
}

proof fn lemma_switchable_counts()
    ensures
        counting_tree(SWITCHABLE_INTERP_TREE@, 2, 3),
        counting_tree(MV_CLASS0_TREE@, 1, 2),
{
    reveal_with_fuel(adapt::merge_ok, 3);
    assert forall|c: Seq<u32>| c.len() == 3 implies #[trigger] total(c) == adapt::branch_count(
        SWITCHABLE_INTERP_TREE@,
        c,
        SWITCHABLE_INTERP_TREE@[0],
        3,
    ) + adapt::branch_count(SWITCHABLE_INTERP_TREE@, c, SWITCHABLE_INTERP_TREE@[1], 3) by {
        lemma_total_more(c);
        reveal_with_fuel(adapt::branch_count, 3);
    }
    assert forall|c: Seq<u32>| c.len() == 2 implies #[trigger] total(c) == adapt::branch_count(
        MV_CLASS0_TREE@,
        c,
        MV_CLASS0_TREE@[0],
        1,
    ) + adapt::branch_count(MV_CLASS0_TREE@, c, MV_CLASS0_TREE@[1], 1) by {
        lemma_total2(c);
    }
}

proof fn lemma_intra_mode_counts()
    ensures
        counting_tree(INTRA_MODE_TREE@, 9, 10),
{
    reveal_with_fuel(adapt::merge_ok, 8);
    assert forall|c: Seq<u32>| c.len() == 10 implies #[trigger] total(c) == adapt::branch_count(
        INTRA_MODE_TREE@,
        c,
        INTRA_MODE_TREE@[0],
        17,
    ) + adapt::branch_count(INTRA_MODE_TREE@, c, INTRA_MODE_TREE@[1], 17) by {
        lemma_total_more(c);
        reveal_with_fuel(adapt::branch_count, 8);
    }
}

proof fn lemma_class_counts()
    ensures
        counting_tree(MV_CLASS_TREE@, 10, 11),
{
    reveal_with_fuel(adapt::merge_ok, 8);
    assert forall|c: Seq<u32>| c.len() == 11 implies #[trigger] total(c) == adapt::branch_count(
        MV_CLASS_TREE@,
        c,
        MV_CLASS_TREE@[0],
        19,
    ) + adapt::branch_count(MV_CLASS_TREE@, c, MV_CLASS_TREE@[1], 19) by {
        lemma_total_more(c);
        reveal_with_fuel(adapt::branch_count, 8);
    }
}

/// Merges one row through a tree.
fn adapt_tree(tree: &[i8], pre: &[u8], c: &[u32], out: &mut [u8])
    requires
        counting_tree(tree@, pre@.len(), c@.len()),
        pre@.len() == old(out)@.len(),
        row_fits(c@),
    ensures
        tree_adapted(tree@, pre@, old(out)@, final(out)@, c@),
        final(out)@.len() == old(out)@.len(),
{
    assert(total(c@) <= u32::MAX);
    let ghost before = out@;
    tree_merge_probs(tree, pre, c, out);
    proof {
        lemma_merged_len(tree@, pre@, c@, before, 0, tree@.len());
    }
}

proof fn lemma_merged_len(
    tree: Seq<i8>,
    pre: Seq<u8>,
    c: Seq<u32>,
    probs: Seq<u8>,
    node: int,
    depth: nat,
)
    requires
        adapt::merge_ok(tree, probs.len(), c.len(), node, depth),
    ensures
        adapt::tree_merged(tree, pre, c, probs, node, depth).len() == probs.len(),
    decreases depth,
{
    let d = (depth - 1) as nat;
    let p1 = if tree[node] > 0 {
        adapt::tree_merged(tree, pre, c, probs, tree[node] as int, d)
    } else {
        probs
    };
    if tree[node] > 0 {
        lemma_merged_len(tree, pre, c, probs, tree[node] as int, d);
    }
    if tree[node + 1] > 0 {
        lemma_merged_len(tree, pre, c, p1, tree[node + 1] as int, d);
    }
}

/// Merges each row of a table through a tree.
fn adapt_rows<const C: usize, const N: usize, const R: usize>(
    tree: &[i8],
    pre: &[[u8; C]; R],
    c: &[[u32; N]; R],
    out: &mut [[u8; C]; R],
)
    requires
        counting_tree(tree@, C as nat, N as nat),
        rows_fit(*c),
    ensures
        rows_adapted(tree@, *pre, *old(out), *final(out), *c),
{
    let mut i: usize = 0;
    while i < R
        invariant
            i <= R,
            counting_tree(tree@, C as nat, N as nat),
            rows_fit(*c),
            forall|j: int|
                0 <= j < i ==> tree_adapted(
                    tree@,
                    pre[j]@,
                    old(out)[j]@,
                    #[trigger] out[j]@,
                    c[j]@,
                ),
            forall|j: int| i <= j < R ==> #[trigger] out[j] == old(out)[j],
        decreases R - i,
    {
        let ghost before = *out;
        let mut row: [u8; C] = out[i];
        assert(row == old(out)[i as int]);
        assert(row_fits(c[i as int]@));
        adapt_tree(tree, &pre[i], &c[i], &mut row);
        out[i] = row;
        i = i + 1;
        assert forall|j: int| 0 <= j < i implies tree_adapted(
            tree@,
            pre[j]@,
            old(out)[j]@,
            #[trigger] out[j]@,
            c[j]@,
        ) by {
            if j < i - 1 {
                assert(out[j] == before[j]);
            }
        }
    }
}

/// Merges each probability of a row with the counts of its two branches.
fn adapt_pairs<const R: usize>(pre: &[u8; R], c: &[[u32; 2]; R], out: &mut [u8; R])
    requires
        rows_fit(*c),
    ensures
        pairs_adapted(*pre, *final(out), *c),
{
    let mut i: usize = 0;
    while i < R
        invariant
            i <= R,
            rows_fit(*c),
            forall|j: int|
                0 <= j < i ==> #[trigger] out[j] == adapt::merged_mode(
                    pre[j] as int,
                    c[j][0] as int,
                    c[j][1] as int,
                ),
        decreases R - i,
    {
        let ct: [u32; 2] = c[i];
        proof {
            assert(row_fits(c[i as int]@));
            lemma_total2(ct@);
        }
        out[i] = mode_mv_merge_probs(pre[i], ct);
        i = i + 1;
    }
}

/// The counts of transform sizes, as those of the nodes that the size is coded by.
pub open spec fn tx_branch(c: Seq<u32>, j: int) -> (int, int) {
    (c[j] as int, total(c.skip(j + 1)))
}

/// The transform size probabilities `post` are those of `pre`, merged with the counts.
pub open spec fn tx_adapted<const C: usize, const N: usize>(
    pre: [[u8; C]; 2],
    post: [[u8; C]; 2],
    c: [[u32; N]; 2],
) -> bool {
    forall|i: int, j: int|
        0 <= i < 2 && 0 <= j < C ==> #[trigger] post[i][j] == adapt::merged_mode(
            pre[i][j] as int,
            tx_branch(c[i]@, j).0,
            tx_branch(c[i]@, j).1,
        )
}

fn adapt_tx<const C: usize, const N: usize>(
    pre: &[[u8; C]; 2],
    c: &[[u32; N]; 2],
    out: &mut [[u8; C]; 2],
)
    requires
        N == C + 1,
        C >= 1,
        rows_fit(*c),
    ensures
        tx_adapted(*pre, *final(out), *c),
{
    let mut i: usize = 0;
    while i < 2
        invariant
            i <= 2,
            N == C + 1,
            rows_fit(*c),
            forall|k: int, j: int|
                0 <= k < i && 0 <= j < C ==> #[trigger] out[k][j] == adapt::merged_mode(
                    pre[k][j] as int,
                    tx_branch(c[k]@, j).0,
                    tx_branch(c[k]@, j).1,
                ),
        decreases 2 - i,
    {
        let ghost before = *out;
        let ghost cs = c[i as int]@;
        assert(row_fits(c[i as int]@));
        let mut row: [u8; C] = out[i];
        let mut j: usize = C;
        let mut above: u32 = c[i][C];
        proof {
            reveal_with_fuel(total, 2);
            assert(cs.skip(C as int).drop_last() =~= Seq::empty());
            lemma_total_skip(cs, C as int);
        }
        while j > 0
            invariant
                j <= C,
                i < 2,
                N == C + 1,
                cs == c[i as int]@,
                row_fits(cs),
                above == total(cs.skip(j as int)),
                forall|k: int|
                    j <= k < C ==> #[trigger] row[k] == adapt::merged_mode(
                        pre[i as int][k] as int,
                        tx_branch(cs, k).0,
                        tx_branch(cs, k).1,
                    ),
            decreases j,
        {
            j = j - 1;
            let here: u32 = c[i][j];
            proof {
                lemma_total_first(cs, j as int);
                lemma_total_skip(cs, j as int);
            }
            row[j] = mode_mv_merge_probs(pre[i][j], [here, above]);
            above = here + above;
        }
        out[i] = row;
        i = i + 1;
        assert forall|k: int, j: int| 0 <= k < i && 0 <= j < C implies #[trigger] out[k][j]
            == adapt::merged_mode(
            pre[k][j] as int,
            tx_branch(c[k]@, j).0,
            tx_branch(c[k]@, j).1,
        ) by {
            if k < i - 1 {
                assert(out[k][j] == before[k][j]);
            } else {
                assert(out[k][j] == row[j]);
            }
        }
    }
}

/// The end of a row adds up to no more than the whole row.
proof fn lemma_total_skip(c: Seq<u32>, j: int)
    requires
        0 <= j <= c.len(),
    ensures
        0 <= total(c.skip(j)) <= total(c),
    decreases c.len() - j,
{
    if j == c.len() {
        assert(c.skip(j) =~= Seq::empty());
        lemma_total_nonneg(c);
    } else {
        lemma_total_nonneg(c.skip(j));
        if j == 0 {
            assert(c.skip(0) =~= c);
        } else {
            lemma_total_skip_le(c, j);
        }
    }
}

proof fn lemma_total_nonneg(c: Seq<u32>)
    ensures
        total(c) >= 0,
    decreases c.len(),
{
    if c.len() > 0 {
        lemma_total_nonneg(c.drop_last());
    }
}

proof fn lemma_total_skip_le(c: Seq<u32>, j: int)
    requires
        0 <= j <= c.len(),
    ensures
        total(c.skip(j)) <= total(c),
    decreases c.len(),
{
    if j == c.len() {
        assert(c.skip(j) =~= Seq::empty());
        lemma_total_nonneg(c);
    } else {
        lemma_total_skip_le(c.drop_last(), j);
        assert(c.skip(j).drop_last() =~= c.drop_last().skip(j));
    }
}

/// The end of a row adds up to its first count and the rest.
proof fn lemma_total_first(c: Seq<u32>, j: int)
    requires
        0 <= j < c.len(),
    ensures
        total(c.skip(j)) == c[j] + total(c.skip(j + 1)),
    decreases c.len() - j,
{
    let s = c.skip(j);
    if s.len() == 1 {
        reveal_with_fuel(total, 2);
        assert(s.drop_last() =~= Seq::empty());
        assert(c.skip(j + 1) =~= Seq::empty());
    } else {
        lemma_total_first(c.drop_last(), j);
        assert(c.skip(j).drop_last() =~= c.drop_last().skip(j));
        assert(c.skip(j + 1).drop_last() =~= c.drop_last().skip(j + 1));
    }
}

impl FrameCounts {
    /// The mode counts can be adapted to.
    pub open spec fn modes_fit(&self) -> bool {
        &&& rows_fit(self.intra_inter) && rows_fit(self.comp_inter) && rows_fit(self.comp_ref)
        &&& forall|i: int| 0 <= i < 5 ==> rows_fit(#[trigger] self.single_ref[i])
        &&& rows_fit(self.inter_mode) && rows_fit(self.y_mode) && rows_fit(self.uv_mode)
        &&& rows_fit(self.partition) && rows_fit(self.switchable_interp) && rows_fit(self.skip)
        &&& rows_fit(self.tx_p8x8) && rows_fit(self.tx_p16x16) && rows_fit(self.tx_p32x32)
    }
}

/// The mode probabilities `post` are those of `pre`, merged with the counts: those of
/// filters and of transform sizes only where they were coded.
pub open spec fn modes_adapted(
    pre: FrameContext,
    before: FrameContext,
    post: FrameContext,
    c: FrameCounts,
    interp_switchable: bool,
    tx_select: bool,
) -> bool {
    &&& pairs_adapted(pre.intra_inter_prob, post.intra_inter_prob, c.intra_inter)
    &&& pairs_adapted(pre.comp_inter_prob, post.comp_inter_prob, c.comp_inter)
    &&& pairs_adapted(pre.comp_ref_prob, post.comp_ref_prob, c.comp_ref)
    &&& forall|i: int|
        0 <= i < 5 ==> pairs_adapted(
            pre.single_ref_prob[i],
            #[trigger] post.single_ref_prob[i],
            c.single_ref[i],
        )
    &&& rows_adapted(
        INTER_MODE_TREE@,
        pre.inter_mode_probs,
        before.inter_mode_probs,
        post.inter_mode_probs,
        c.inter_mode,
    )
    &&& rows_adapted(
        INTRA_MODE_TREE@,
        pre.y_mode_prob,
        before.y_mode_prob,
        post.y_mode_prob,
        c.y_mode,
    )
    &&& rows_adapted(
        INTRA_MODE_TREE@,
        pre.uv_mode_prob,
        before.uv_mode_prob,
        post.uv_mode_prob,
        c.uv_mode,
    )
    &&& rows_adapted(
        PARTITION_TREE@,
        pre.partition_prob,
        before.partition_prob,
        post.partition_prob,
        c.partition,
    )
    &&& if interp_switchable {
        rows_adapted(
            SWITCHABLE_INTERP_TREE@,
            pre.switchable_interp_prob,
            before.switchable_interp_prob,
            post.switchable_interp_prob,
            c.switchable_interp,
        )
    } else {
        post.switchable_interp_prob == before.switchable_interp_prob
    }
    &&& if tx_select {
        &&& tx_adapted(pre.tx_p8x8, post.tx_p8x8, c.tx_p8x8)
        &&& tx_adapted(pre.tx_p16x16, post.tx_p16x16, c.tx_p16x16)
        &&& tx_adapted(pre.tx_p32x32, post.tx_p32x32, c.tx_p32x32)
    } else {
        &&& post.tx_p8x8 == before.tx_p8x8
        &&& post.tx_p16x16 == before.tx_p16x16
        &&& post.tx_p32x32 == before.tx_p32x32
    }
    &&& pairs_adapted(pre.skip_probs, post.skip_probs, c.skip)
}

/// Adapts the mode probabilities.
pub fn adapt_mode_probs(
    fc: &mut FrameContext,
    pre: &FrameContext,
    counts: &FrameCounts,
    interp_switchable: bool,
    tx_select: bool,
)
    requires
        counts.modes_fit(),
    ensures
        modes_adapted(*pre, *old(fc), *final(fc), *counts, interp_switchable, tx_select),
        final(fc).coef_probs == old(fc).coef_probs,
        final(fc).nmvc == old(fc).nmvc,
        final(fc).tx_mode == old(fc).tx_mode,
        final(fc).reference_mode == old(fc).reference_mode,
        final(fc).comp_fixed_ref == old(fc).comp_fixed_ref,
        final(fc).comp_var_ref == old(fc).comp_var_ref,
{
    proof {
        lemma_inter_mode_counts();
        lemma_intra_mode_counts();
        lemma_partition_counts();
        lemma_switchable_counts();
    }
    adapt_pairs(&pre.intra_inter_prob, &counts.intra_inter, &mut fc.intra_inter_prob);
    adapt_pairs(&pre.comp_inter_prob, &counts.comp_inter, &mut fc.comp_inter_prob);
    adapt_pairs(&pre.comp_ref_prob, &counts.comp_ref, &mut fc.comp_ref_prob);
    let mut single: [[u8; 2]; 5] = fc.single_ref_prob;
    let mut i: usize = 0;
    while i < 5
        invariant
            i <= 5,
            counts.modes_fit(),
            forall|j: int|
                0 <= j < i ==> pairs_adapted(
                    pre.single_ref_prob[j],
                    #[trigger] single[j],
                    counts.single_ref[j],
                ),
        decreases 5 - i,
    {
        let mut row: [u8; 2] = single[i];
        assert(rows_fit(counts.single_ref[i as int]));
        adapt_pairs(&pre.single_ref_prob[i], &counts.single_ref[i], &mut row);
        let ghost before = single;
        single[i] = row;
        i = i + 1;
        assert forall|j: int| 0 <= j < i implies pairs_adapted(
            pre.single_ref_prob[j],
            #[trigger] single[j],
            counts.single_ref[j],
        ) by {
            if j < i - 1 {
                assert(single[j] == before[j]);
            }
        }
    }
    fc.single_ref_prob = single;
    adapt_rows(
        &INTER_MODE_TREE,
        &pre.inter_mode_probs,
        &counts.inter_mode,
        &mut fc.inter_mode_probs,
    );
    adapt_rows(&INTRA_MODE_TREE, &pre.y_mode_prob, &counts.y_mode, &mut fc.y_mode_prob);
    adapt_rows(&INTRA_MODE_TREE, &pre.uv_mode_prob, &counts.uv_mode, &mut fc.uv_mode_prob);
    adapt_rows(&PARTITION_TREE, &pre.partition_prob, &counts.partition, &mut fc.partition_prob);
    if interp_switchable {
        adapt_rows(
            &SWITCHABLE_INTERP_TREE,
            &pre.switchable_interp_prob,
            &counts.switchable_interp,
            &mut fc.switchable_interp_prob,
        );
    }
    if tx_select {
        adapt_tx(&pre.tx_p8x8, &counts.tx_p8x8, &mut fc.tx_p8x8);
        adapt_tx(&pre.tx_p16x16, &counts.tx_p16x16, &mut fc.tx_p16x16);
        adapt_tx(&pre.tx_p32x32, &counts.tx_p32x32, &mut fc.tx_p32x32);
    }
    adapt_pairs(&pre.skip_probs, &counts.skip, &mut fc.skip_probs);
}

/// The counts of a motion component can be adapted to.
pub open spec fn mv_component_fits(c: NmvComponentCounts) -> bool {
    &&& row_fits(c.sign@) && row_fits(c.classes@) && row_fits(c.class0@) && rows_fit(c.bits)
    &&& rows_fit(c.class0_fp) && row_fits(c.fp@) && row_fits(c.class0_hp@) && row_fits(c.hp@)
}

/// The motion component `post` is `pre`, merged with its counts.
pub open spec fn mv_component_adapted(
    pre: NmvComponent,
    before: NmvComponent,
    post: NmvComponent,
    c: NmvComponentCounts,
    allow_hp: bool,
) -> bool {
    &&& post.sign == adapt::merged_mode(pre.sign as int, c.sign[0] as int, c.sign[1] as int)
    &&& tree_adapted(MV_CLASS_TREE@, pre.classes@, before.classes@, post.classes@, c.classes@)
    &&& tree_adapted(MV_CLASS0_TREE@, pre.class0@, before.class0@, post.class0@, c.class0@)
    &&& pairs_adapted(pre.bits, post.bits, c.bits)
    &&& rows_adapted(MV_FP_TREE@, pre.class0_fp, before.class0_fp, post.class0_fp, c.class0_fp)
    &&& tree_adapted(MV_FP_TREE@, pre.fp@, before.fp@, post.fp@, c.fp@)
    &&& if allow_hp {
        &&& post.class0_hp == adapt::merged_mode(
            pre.class0_hp as int,
            c.class0_hp[0] as int,
            c.class0_hp[1] as int,
        )
        &&& post.hp == adapt::merged_mode(pre.hp as int, c.hp[0] as int, c.hp[1] as int)
    } else {
        post.class0_hp == before.class0_hp && post.hp == before.hp
    }
}

fn adapt_mv_component(
    out: &mut NmvComponent,
    pre: &NmvComponent,
    c: &NmvComponentCounts,
    allow_hp: bool,
)
    requires
        mv_component_fits(*c),
    ensures
        mv_component_adapted(*pre, *old(out), *final(out), *c, allow_hp),
{
    proof {
        lemma_partition_counts();
        lemma_switchable_counts();
        lemma_class_counts();
        lemma_total2(c.sign@);
        lemma_total2(c.class0_hp@);
        lemma_total2(c.hp@);
    }
    out.sign = mode_mv_merge_probs(pre.sign, c.sign);
    adapt_tree(&MV_CLASS_TREE, &pre.classes, &c.classes, &mut out.classes);
    adapt_tree(&MV_CLASS0_TREE, &pre.class0, &c.class0, &mut out.class0);
    adapt_pairs(&pre.bits, &c.bits, &mut out.bits);
    adapt_rows(&MV_FP_TREE, &pre.class0_fp, &c.class0_fp, &mut out.class0_fp);
    adapt_tree(&MV_FP_TREE, &pre.fp, &c.fp, &mut out.fp);
    if allow_hp {
        out.class0_hp = mode_mv_merge_probs(pre.class0_hp, c.class0_hp);
        out.hp = mode_mv_merge_probs(pre.hp, c.hp);
    }
}

/// Adapts the motion probabilities.
pub fn adapt_mv_probs(
    fc: &mut FrameContext,
    pre: &FrameContext,
    counts: &FrameCounts,
    allow_hp: bool,
)
    requires
        row_fits(counts.mv.joints@),
        mv_component_fits(counts.mv.comps[0]),
        mv_component_fits(counts.mv.comps[1]),
    ensures
        tree_adapted(
            MV_JOINT_TREE@,
            pre.nmvc.joints@,
            old(fc).nmvc.joints@,
            final(fc).nmvc.joints@,
            counts.mv.joints@,
        ),
        forall|i: int|
            0 <= i < 2 ==> mv_component_adapted(
                pre.nmvc.comps[i],
                old(fc).nmvc.comps[i],
                #[trigger] final(fc).nmvc.comps[i],
                counts.mv.comps[i],
                allow_hp,
            ),
        *final(fc) == (FrameContext { nmvc: final(fc).nmvc, ..*old(fc) }),
{
    proof {
        lemma_partition_counts();
    }
    let mut n: NmvContext = fc.nmvc;
    adapt_tree(&MV_JOINT_TREE, &pre.nmvc.joints, &counts.mv.joints, &mut n.joints);
    let mut n0: NmvComponent = n.comps[0];
    let mut n1: NmvComponent = n.comps[1];
    adapt_mv_component(&mut n0, &pre.nmvc.comps[0], &counts.mv.comps[0], allow_hp);
    adapt_mv_component(&mut n1, &pre.nmvc.comps[1], &counts.mv.comps[1], allow_hp);
    n.comps[0] = n0;
    n.comps[1] = n1;
    fc.nmvc = n;
}

// ---------------------------------------------------------------------------
// Where adaptation leads
// ---------------------------------------------------------------------------

/// The probability `post` has followed the counts from `pre`: it is not lower where only
/// the first branch was taken, not higher where only the second was, and the same where
/// none was.
pub open spec fn follows(pre: u8, post: u8, first: int, second: int) -> bool {
    pre >= 1 ==> {
        &&& second == 0 ==> post >= pre
        &&& first == 0 ==> post <= pre
        &&& first >= 20 && second == 0 ==> 2 * (post - pre) >= 255 - pre
        &&& second >= 20 && first == 0 ==> 2 * (pre - post) >= pre - 2
    }
}

proof fn lemma_follows(pre: u8, post: u8, n0: int, n1: int)
    requires
        n0 >= 0,
        n1 >= 0,
        post == adapt::merged_mode(pre as int, n0, n1),
    ensures
        follows(pre, post, n0, n1),
{
    if pre >= 1 {
        if n1 == 0 {
            adapt::law_merge_moves_towards_counts(pre as int, n0);
        }
        if n0 == 0 {
            adapt::law_merge_moves_towards_counts(pre as int, n1);
        }
        if n0 + n1 >= 20 {
            adapt::law_merge_goes_half_way(pre as int, n0, n1);
        }
    }
}

/// Adapted flags follow their counts: each probability moves to the value that was
/// counted with it.
pub proof fn law_flags_follow_counts<const R: usize>(
    pre: [u8; R],
    post: [u8; R],
    c: [[u32; 2]; R],
    i: int,
)
    requires
        pairs_adapted(pre, post, c),
        0 <= i < R,
    ensures
        follows(pre[i], post[i], c[i][0] as int, c[i][1] as int),
{
    assert(post[i] == adapt::merged_mode(pre[i] as int, c[i][0] as int, c[i][1] as int));
    lemma_follows(pre[i], post[i], c[i][0] as int, c[i][1] as int);
}

/// All flags of an inter frame follow what was counted of them: whether blocks are skipped,
/// inter, with two references, and with which.
pub proof fn law_mode_flags_follow_counts(
    pre: FrameContext,
    before: FrameContext,
    post: FrameContext,
    c: FrameCounts,
    interp_switchable: bool,
    tx_select: bool,
    i: int,
)
    requires
        modes_adapted(pre, before, post, c, interp_switchable, tx_select),
        0 <= i < 5,
    ensures
        i < 3 ==> follows(
            pre.skip_probs[i],
            post.skip_probs[i],
            c.skip[i][0] as int,
            c.skip[i][1] as int,
        ),
        i < 4 ==> follows(
            pre.intra_inter_prob[i],
            post.intra_inter_prob[i],
            c.intra_inter[i][0] as int,
            c.intra_inter[i][1] as int,
        ),
        follows(
            pre.comp_inter_prob[i],
            post.comp_inter_prob[i],
            c.comp_inter[i][0] as int,
            c.comp_inter[i][1] as int,
        ),
        follows(
            pre.comp_ref_prob[i],
            post.comp_ref_prob[i],
            c.comp_ref[i][0] as int,
            c.comp_ref[i][1] as int,
        ),
        follows(
            pre.single_ref_prob[i][0],
            post.single_ref_prob[i][0],
            c.single_ref[i][0][0] as int,
            c.single_ref[i][0][1] as int,
        ),
        follows(
            pre.single_ref_prob[i][1],
            post.single_ref_prob[i][1],
            c.single_ref[i][1][0] as int,
            c.single_ref[i][1][1] as int,
        ),
{
    if i < 3 {
        law_flags_follow_counts(pre.skip_probs, post.skip_probs, c.skip, i);
    }
    if i < 4 {
        law_flags_follow_counts(pre.intra_inter_prob, post.intra_inter_prob, c.intra_inter, i);
    }
    law_flags_follow_counts(pre.comp_inter_prob, post.comp_inter_prob, c.comp_inter, i);
    law_flags_follow_counts(pre.comp_ref_prob, post.comp_ref_prob, c.comp_ref, i);
    assert(pairs_adapted(pre.single_ref_prob[i], post.single_ref_prob[i], c.single_ref[i]));
    law_flags_follow_counts(pre.single_ref_prob[i], post.single_ref_prob[i], c.single_ref[i], 0);
    law_flags_follow_counts(pre.single_ref_prob[i], post.single_ref_prob[i], c.single_ref[i], 1);
}

/// All flags of motion vectors follow what was counted of them: the sign, the bits of the
/// integer part, and the last bits, which stay as they are where they are not coded.
pub proof fn law_vector_flags_follow_counts(
    pre: NmvComponent,
    before: NmvComponent,
    post: NmvComponent,
    c: NmvComponentCounts,
    allow_hp: bool,
    i: int,
)
    requires
        mv_component_adapted(pre, before, post, c, allow_hp),
        0 <= i < 10,
    ensures
        follows(pre.sign, post.sign, c.sign[0] as int, c.sign[1] as int),
        follows(pre.bits[i], post.bits[i], c.bits[i][0] as int, c.bits[i][1] as int),
        allow_hp ==> follows(
            pre.class0_hp,
            post.class0_hp,
            c.class0_hp[0] as int,
            c.class0_hp[1] as int,
        ),
        allow_hp ==> follows(pre.hp, post.hp, c.hp[0] as int, c.hp[1] as int),
        !allow_hp ==> post.class0_hp == before.class0_hp && post.hp == before.hp,
{
    lemma_follows(pre.sign, post.sign, c.sign[0] as int, c.sign[1] as int);
    law_flags_follow_counts(pre.bits, post.bits, c.bits, i);
    if allow_hp {
        lemma_follows(pre.class0_hp, post.class0_hp, c.class0_hp[0] as int, c.class0_hp[1] as int);
        lemma_follows(pre.hp, post.hp, c.hp[0] as int, c.hp[1] as int);
    }
}

/// A node of a tree follows what was counted below its two branches.
proof fn lemma_node_follows(
    tree: Seq<i8>,
    pre: Seq<u8>,
    before: Seq<u8>,
    post: Seq<u8>,
    c: Seq<u32>,
    node: int,
)
    requires
        tree_adapted(tree, pre, before, post, c),
        before.len() == pre.len(),
        adapt::merge_ok(tree, pre.len(), c.len(), 0, tree.len()),
        adapt::paired(tree, 0, tree.len()),
        node % 2 == 0,
        0 <= node / 2 < pre.len(),
        adapt::reaches(tree, 0, node, tree.len()),
        forall|i: int| 0 <= i < pre.len() ==> 1 <= #[trigger] pre[i],
    ensures
        follows(
            pre[node / 2],
            post[node / 2],
            adapt::branch_count(tree, c, tree[node], tree.len()),
            adapt::branch_count(tree, c, tree[node + 1], tree.len()),
        ),
{
    adapt::law_tree_merge_by_node(tree, pre, c, before, node);
    let n0 = adapt::branch_count(tree, c, tree[node], tree.len());
    let n1 = adapt::branch_count(tree, c, tree[node + 1], tree.len());
    adapt::lemma_count_nonneg(tree, c, tree[node], tree.len());
    adapt::lemma_count_nonneg(tree, c, tree[node + 1], tree.len());
    assert(1 <= pre[node / 2]);
    adapt::law_merge_stays_in_range(pre[node / 2] as int, n0, n1, 1, 0);
    lemma_follows(pre[node / 2], post[node / 2], n0, n1);
}

/// The probabilities of a row are probabilities.
pub open spec fn all_probs(p: Seq<u8>) -> bool {
    forall|i: int| 0 <= i < p.len() ==> 1 <= #[trigger] p[i]
}

/// The partitions follow what was counted of them: first none, then across, then upright
/// against split. So do the joints of vectors (no component, the column, the row against
/// both) and the fractions.
pub proof fn law_four_in_a_row_follow_counts(
    pre: Seq<u8>,
    before: Seq<u8>,
    post: Seq<u8>,
    c: Seq<u32>,
)
    requires
        tree_adapted(PARTITION_TREE@, pre, before, post, c) || tree_adapted(
            MV_JOINT_TREE@,
            pre,
            before,
            post,
            c,
        ) || tree_adapted(MV_FP_TREE@, pre, before, post, c),
        pre.len() == 3,
        before.len() == 3,
        c.len() == 4,
        all_probs(pre),
    ensures
        follows(pre[0], post[0], c[0] as int, c[1] + c[2] + c[3]),
        follows(pre[1], post[1], c[1] as int, c[2] + c[3]),
        follows(pre[2], post[2], c[2] as int, c[3] as int),
{
    let t = PARTITION_TREE@;
    assert(MV_JOINT_TREE@ =~= t);
    assert(MV_FP_TREE@ =~= t);
    reveal_with_fuel(adapt::merge_ok, 4);
    reveal_with_fuel(adapt::paired, 5);
    reveal_with_fuel(adapt::reaches, 4);
    reveal_with_fuel(adapt::branch_count, 4);
    lemma_node_follows(t, pre, before, post, c, 0);
    lemma_node_follows(t, pre, before, post, c, 2);
    lemma_node_follows(t, pre, before, post, c, 4);
}

/// The inter modes follow what was counted of them: first zero, then nearest, then near
/// against new. `c` counts nearest, near, zero and new.
pub proof fn law_inter_modes_follow_counts(
    pre: Seq<u8>,
    before: Seq<u8>,
    post: Seq<u8>,
    c: Seq<u32>,
)
    requires
        tree_adapted(INTER_MODE_TREE@, pre, before, post, c),
        pre.len() == 3,
        before.len() == 3,
        c.len() == 4,
        all_probs(pre),
    ensures
        follows(pre[0], post[0], c[2] as int, c[0] + c[1] + c[3]),
        follows(pre[1], post[1], c[0] as int, c[1] + c[3]),
        follows(pre[2], post[2], c[1] as int, c[3] as int),
{
    let t = INTER_MODE_TREE@;
    reveal_with_fuel(adapt::merge_ok, 4);
    reveal_with_fuel(adapt::paired, 5);
    reveal_with_fuel(adapt::reaches, 4);
    reveal_with_fuel(adapt::branch_count, 4);
    lemma_node_follows(t, pre, before, post, c, 0);
    lemma_node_follows(t, pre, before, post, c, 2);
    lemma_node_follows(t, pre, before, post, c, 4);
}

/// The filters follow what was counted of them: the first, then the second against the
/// third. So does the integer part of the lowest class.
pub proof fn law_filters_follow_counts(pre: Seq<u8>, before: Seq<u8>, post: Seq<u8>, c: Seq<u32>)
    requires
        pre.len() == before.len(),
        all_probs(pre),
        tree_adapted(SWITCHABLE_INTERP_TREE@, pre, before, post, c) && pre.len() == 2 && c.len()
            == 3 || tree_adapted(MV_CLASS0_TREE@, pre, before, post, c) && pre.len() == 1
            && c.len() == 2,
    ensures
        c.len() == 3 ==> follows(pre[0], post[0], c[0] as int, c[1] + c[2]) && follows(
            pre[1],
            post[1],
            c[1] as int,
            c[2] as int,
        ),
        c.len() == 2 ==> follows(pre[0], post[0], c[0] as int, c[1] as int),
{
    reveal_with_fuel(adapt::merge_ok, 3);
    reveal_with_fuel(adapt::paired, 4);
    reveal_with_fuel(adapt::reaches, 3);
    reveal_with_fuel(adapt::branch_count, 3);
    if c.len() == 3 {
        let t = SWITCHABLE_INTERP_TREE@;
        lemma_node_follows(t, pre, before, post, c, 0);
        lemma_node_follows(t, pre, before, post, c, 2);
    } else {
        lemma_node_follows(MV_CLASS0_TREE@, pre, before, post, c, 0);
    }
}

/// The intra modes follow what was counted of them: first DC, then TM, then V, then the
/// modes that lean to the left against those that lean to the right.
#[verifier::rlimit(60)]
pub proof fn law_intra_modes_follow_counts(
    pre: Seq<u8>,
    before: Seq<u8>,
    post: Seq<u8>,
    c: Seq<u32>,
)
    requires
        tree_adapted(INTRA_MODE_TREE@, pre, before, post, c),
        pre.len() == 9,
        before.len() == 9,
        c.len() == 10,
        all_probs(pre),
    ensures
        follows(
            pre[0],
            post[0],
            c[0] as int,
            c[1] + c[2] + c[3] + c[4] + c[5] + c[6] + c[7] + c[8] + c[9],
        ),
        follows(
            pre[1],
            post[1],
            c[9] as int,
            c[1] + c[2] + c[3] + c[4] + c[5] + c[6] + c[7] + c[8],
        ),
        follows(pre[2], post[2], c[1] as int, c[2] + c[3] + c[4] + c[5] + c[6] + c[7] + c[8]),
        follows(pre[3], post[3], c[2] + c[4] + c[5], c[3] + c[6] + c[7] + c[8]),
        follows(pre[4], post[4], c[2] as int, c[4] + c[5]),
        follows(pre[5], post[5], c[4] as int, c[5] as int),
        follows(pre[6], post[6], c[3] as int, c[6] + c[7] + c[8]),
        follows(pre[7], post[7], c[8] as int, c[6] + c[7]),
        follows(pre[8], post[8], c[6] as int, c[7] as int),
{
    let t = INTRA_MODE_TREE@;
    reveal_with_fuel(adapt::merge_ok, 8);
    reveal_with_fuel(adapt::paired, 9);
    reveal_with_fuel(adapt::reaches, 8);
    reveal_with_fuel(adapt::branch_count, 8);
    lemma_node_follows(t, pre, before, post, c, 0);
    lemma_node_follows(t, pre, before, post, c, 2);
    lemma_node_follows(t, pre, before, post, c, 4);
    lemma_node_follows(t, pre, before, post, c, 6);
    lemma_node_follows(t, pre, before, post, c, 8);
    lemma_node_follows(t, pre, before, post, c, 10);
    lemma_node_follows(t, pre, before, post, c, 12);
    lemma_node_follows(t, pre, before, post, c, 14);
    lemma_node_follows(t, pre, before, post, c, 16);
}

/// The magnitude classes of vectors follow what was counted of them.
#[verifier::rlimit(60)]
pub proof fn law_classes_follow_counts(pre: Seq<u8>, before: Seq<u8>, post: Seq<u8>, c: Seq<u32>)
    requires
        tree_adapted(MV_CLASS_TREE@, pre, before, post, c),
        pre.len() == 10,
        before.len() == 10,
        c.len() == 11,
        all_probs(pre),
    ensures
        follows(
            pre[0],
            post[0],
            c[0] as int,
            c[1] + c[2] + c[3] + c[4] + c[5] + c[6] + c[7] + c[8] + c[9] + c[10],
        ),
        follows(
            pre[1],
            post[1],
            c[1] as int,
            c[2] + c[3] + c[4] + c[5] + c[6] + c[7] + c[8] + c[9] + c[10],
        ),
        follows(pre[2], post[2], c[2] + c[3], c[4] + c[5] + c[6] + c[7] + c[8] + c[9] + c[10]),
        follows(pre[3], post[3], c[2] as int, c[3] as int),
        follows(pre[4], post[4], c[4] + c[5], c[6] + c[7] + c[8] + c[9] + c[10]),
        follows(pre[5], post[5], c[4] as int, c[5] as int),
        follows(pre[6], post[6], c[6] as int, c[7] + c[8] + c[9] + c[10]),
        follows(pre[7], post[7], c[7] + c[8], c[9] + c[10]),
        follows(pre[8], post[8], c[7] as int, c[8] as int),
        follows(pre[9], post[9], c[9] as int, c[10] as int),
{
    let t = MV_CLASS_TREE@;
    reveal_with_fuel(adapt::merge_ok, 8);
    reveal_with_fuel(adapt::paired, 9);
    reveal_with_fuel(adapt::reaches, 8);
    reveal_with_fuel(adapt::branch_count, 8);
    lemma_node_follows(t, pre, before, post, c, 0);
    lemma_node_follows(t, pre, before, post, c, 2);
    lemma_node_follows(t, pre, before, post, c, 4);
    lemma_node_follows(t, pre, before, post, c, 6);
    lemma_node_follows(t, pre, before, post, c, 8);
    lemma_node_follows(t, pre, before, post, c, 10);
    lemma_node_follows(t, pre, before, post, c, 12);
    lemma_node_follows(t, pre, before, post, c, 14);
    lemma_node_follows(t, pre, before, post, c, 16);
    lemma_node_follows(t, pre, before, post, c, 18);
}

/// The transform sizes follow what was counted of them: each size against all larger ones.
pub proof fn law_transform_sizes_follow_counts(
    pre: FrameContext,
    before: FrameContext,
    post: FrameContext,
    c: FrameCounts,
    interp_switchable: bool,
    i: int,
)
    requires
        modes_adapted(pre, before, post, c, interp_switchable, true),
        0 <= i < 2,
    ensures
        follows(
            pre.tx_p8x8[i][0],
            post.tx_p8x8[i][0],
            c.tx_p8x8[i][0] as int,
            c.tx_p8x8[i][1] as int,
        ),
        follows(
            pre.tx_p16x16[i][0],
            post.tx_p16x16[i][0],
            c.tx_p16x16[i][0] as int,
            c.tx_p16x16[i][1] + c.tx_p16x16[i][2],
        ),
        follows(
            pre.tx_p16x16[i][1],
            post.tx_p16x16[i][1],
            c.tx_p16x16[i][1] as int,
            c.tx_p16x16[i][2] as int,
        ),
        follows(
            pre.tx_p32x32[i][0],
            post.tx_p32x32[i][0],
            c.tx_p32x32[i][0] as int,
            c.tx_p32x32[i][1] + c.tx_p32x32[i][2] + c.tx_p32x32[i][3],
        ),
        follows(
            pre.tx_p32x32[i][1],
            post.tx_p32x32[i][1],
            c.tx_p32x32[i][1] as int,
            c.tx_p32x32[i][2] + c.tx_p32x32[i][3],
        ),
        follows(
            pre.tx_p32x32[i][2],
            post.tx_p32x32[i][2],
            c.tx_p32x32[i][2] as int,
            c.tx_p32x32[i][3] as int,
        ),
{
    let (a, b, d) = (c.tx_p8x8[i]@, c.tx_p16x16[i]@, c.tx_p32x32[i]@);
    lemma_tail_total(a, 0);
    lemma_tail_total(b, 0);
    lemma_tail_total(b, 1);
    lemma_tail_total(d, 0);
    lemma_tail_total(d, 1);
    lemma_tail_total(d, 2);
    lemma_follows(pre.tx_p8x8[i][0], post.tx_p8x8[i][0], a[0] as int, a[1] as int);
    lemma_follows(pre.tx_p16x16[i][0], post.tx_p16x16[i][0], b[0] as int, b[1] + b[2]);
    lemma_follows(pre.tx_p16x16[i][1], post.tx_p16x16[i][1], b[1] as int, b[2] as int);
    lemma_follows(pre.tx_p32x32[i][0], post.tx_p32x32[i][0], d[0] as int, d[1] + d[2] + d[3]);
    lemma_follows(pre.tx_p32x32[i][1], post.tx_p32x32[i][1], d[1] as int, d[2] + d[3]);
    lemma_follows(pre.tx_p32x32[i][2], post.tx_p32x32[i][2], d[2] as int, d[3] as int);
}

/// What is counted behind place `j` of a short row.
proof fn lemma_tail_total(c: Seq<u32>, j: int)
    requires
        2 <= c.len() <= 4,
        0 <= j < c.len() - 1,
    ensures
        total(c.skip(j + 1)) == (if j + 2 == c.len() {
            c[j + 1] as int
        } else if j + 3 == c.len() {
            c[j + 1] + c[j + 2]
        } else {
            c[j + 1] + c[j + 2] + c[j + 3]
        }),
{
    let s = c.skip(j + 1);
    reveal_with_fuel(total, 4);
    lemma_total_more(s);
    if s.len() == 2 {
        lemma_total2(s);
    }
    if s.len() == 1 {
        assert(s.drop_last() =~= Seq::empty());
    }
}

/// The coefficient tokens of a row follow what was counted of them: the first node whether
/// a block ended where it could, the second whether a coefficient was zero, the third
/// whether it was one. Each moves by up to `update_factor` of 256 parts.
pub proof fn law_tokens_follow_counts(
    pre: Seq<u8>,
    post: Seq<u8>,
    c: Seq<u32>,
    eob: u32,
    count_sat: int,
    update_factor: int,
)
    requires
        row_adapted(pre, post, c, eob, count_sat, update_factor),
        coef_counts_fit(c, eob),
        c.len() == 4,
        count_sat > 0,
        0 <= update_factor <= 256,
        pre.len() == 3,
        all_probs(pre),
    ensures
        c[3] == eob ==> post[0] >= pre[0],
        c[3] == 0 ==> post[0] <= pre[0],
        c[1] + c[2] == 0 ==> post[1] >= pre[1],
        c[0] == 0 ==> post[1] <= pre[1],
        c[2] == 0 ==> post[2] >= pre[2],
        c[1] == 0 ==> post[2] <= pre[2],
{
    assert(1 <= pre[0] && 1 <= pre[1] && 1 <= pre[2]);
    lemma_token_follows(pre[0], post[0], c[3] as int, eob - c[3], count_sat, update_factor);
    lemma_token_follows(pre[1], post[1], c[0] as int, c[1] + c[2], count_sat, update_factor);
    lemma_token_follows(pre[2], post[2], c[1] as int, c[2] as int, count_sat, update_factor);
}

proof fn lemma_token_follows(
    pre: u8,
    post: u8,
    n0: int,
    n1: int,
    count_sat: int,
    update_factor: int,
)
    requires
        pre >= 1,
        n0 >= 0,
        n1 >= 0,
        count_sat > 0,
        0 <= update_factor <= 256,
        post == adapt::merged_coef(pre as int, n0, n1, count_sat, update_factor),
    ensures
        n1 == 0 ==> post >= pre,
        n0 == 0 ==> post <= pre,
{
    let n = adapt::min_int(n0 + n1, count_sat);
    assert(0 <= update_factor * n <= update_factor * count_sat) by (nonlinear_arith)
        requires
            0 <= n <= count_sat,
            0 <= update_factor,
    ;
    vstd::arithmetic::div_mod::lemma_div_is_ordered(0, update_factor * n, count_sat);
    vstd::arithmetic::div_mod::lemma_div_is_ordered(
        update_factor * n,
        update_factor * count_sat,
        count_sat,
    );
    vstd::arithmetic::div_mod::lemma_div_multiples_vanish(update_factor, count_sat);
    vstd::arithmetic::mul::lemma_mul_is_commutative(update_factor, count_sat);
    vstd::arithmetic::div_mod::lemma_basic_div(0, count_sat);
    if n0 + n1 == 0 {
        adapt::law_no_counts_no_change(pre as int, count_sat, update_factor);
    } else if n1 == 0 {
        adapt::law_coef_merge_moves_towards_counts(pre as int, n0, count_sat, update_factor);
    } else if n0 == 0 {
        assert(adapt::coef_factor(n1, 0, count_sat, update_factor) == adapt::coef_factor(
            0,
            n1,
            count_sat,
            update_factor,
        ));
        adapt::law_coef_merge_moves_towards_counts(pre as int, n1, count_sat, update_factor);
    }
}

} // verus!
