//! Backward adaptation: after a frame, each probability is moved towards the
//! distribution of the symbols that were coded with it.
//!
//! Coefficient probabilities move by a configurable factor ([`merge_probs`]), all
//! others by a fixed table of factors ([`mode_mv_merge_probs`]). The probabilities
//! of a tree are merged from the leaves up ([`tree_merge_probs`]).
use vstd::prelude::*;

verus! {

/// The number of symbols from which the mode and motion factor stays the same.
pub const MODE_MV_COUNT_SAT: u32 = 20;

/// The factor for each number of symbols, of 256: half of the share of the count
/// in [`MODE_MV_COUNT_SAT`].
pub const COUNT_TO_UPDATE_FACTOR: [u32; 21] = [
    0,
    6,
    12,
    19,
    25,
    32,
    38,
    44,
    51,
    57,
    64,
    70,
    76,
    83,
    89,
    96,
    102,
    108,
    115,
    121,
    128,
];

/// `v` between `lo` and `hi`.
pub open spec fn clamped(v: int, lo: int, hi: int) -> int {
    if v < lo {
        lo
    } else if v > hi {
        hi
    } else {
        v
    }
}

/// The signed 32-bit integer that has the low 32 bits of `v`.
pub open spec fn low_i32(v: int) -> int {
    let m = v % 0x1_0000_0000;
    if m < 0x8000_0000 {
        m
    } else {
        m - 0x1_0000_0000
    }
}

/// `num / den`, rounded, as a probability of 256 in `1..=255`.
pub open spec fn prob_of(num: int, den: int) -> int {
    clamped(low_i32((num * 256 + den / 2) / den), 1, 255)
}

/// The probability of the first of two branches: even where nothing was counted.
pub open spec fn binary_prob(n0: int, n1: int) -> int {
    if n0 + n1 == 0 {
        128
    } else {
        prob_of(n0, n0 + n1)
    }
}

/// The mean of `p1` and `p2`, rounded, in which `p2` has the weight
/// `factor / 256`.
pub open spec fn blend(p1: int, p2: int, factor: int) -> int {
    (p1 * (256 - factor) + p2 * factor + 128) / 256
}

pub open spec fn min_int(a: int, b: int) -> int {
    if a < b {
        a
    } else {
        b
    }
}

/// The weight that counted symbols have in the merge of a coefficient
/// probability.
pub open spec fn coef_factor(n0: int, n1: int, count_sat: int, max_update_factor: int) -> int {
    max_update_factor * min_int(n0 + n1, count_sat) / count_sat
}

/// The merge of a coefficient probability.
pub open spec fn merged_coef(
    pre: int,
    n0: int,
    n1: int,
    count_sat: int,
    max_update_factor: int,
) -> int {
    blend(pre, binary_prob(n0, n1), coef_factor(n0, n1, count_sat, max_update_factor))
}

/// The merge of a mode or motion probability.
pub open spec fn merged_mode(pre: int, n0: int, n1: int) -> int {
    if n0 + n1 == 0 {
        pre
    } else {
        blend(
            pre,
            prob_of(n0, n0 + n1),
            COUNT_TO_UPDATE_FACTOR[min_int(n0 + n1, 20)] as int,
        )
    }
}

/// Every walk from `node` stays inside the tree, the probabilities and the
/// counts, and reaches a leaf after at most `depth` branches.
pub open spec fn merge_ok(
    tree: Seq<i8>,
    nprobs: nat,
    ncounts: nat,
    node: int,
    depth: nat,
) -> bool
    decreases depth,
{
    &&& depth > 0
    &&& 0 <= node && node + 1 < tree.len()
    &&& node / 2 < nprobs
    &&& if tree[node] > 0 {
        merge_ok(tree, nprobs, ncounts, tree[node] as int, (depth - 1) as nat)
    } else {
        -tree[node] < ncounts
    }
    &&& if tree[node + 1] > 0 {
        merge_ok(tree, nprobs, ncounts, tree[node + 1] as int, (depth - 1) as nat)
    } else {
        -tree[node + 1] < ncounts
    }
}

/// How often the branch `to` of a tree was taken: the count of the leaf, or of
/// all leaves below the node.
pub open spec fn branch_count(tree: Seq<i8>, counts: Seq<u32>, to: i8, depth: nat) -> int
    decreases depth,
{
    if to <= 0 {
        counts[-to] as int
    } else if depth == 0 {
        0
    } else {
        branch_count(tree, counts, tree[to as int], (depth - 1) as nat) + branch_count(
            tree,
            counts,
            tree[to + 1],
            (depth - 1) as nat,
        )
    }
}

/// The probabilities `probs` once those of the nodes below `node`, and of `node`
/// itself, have been replaced by their merges.
pub open spec fn tree_merged(
    tree: Seq<i8>,
    pre: Seq<u8>,
    counts: Seq<u32>,
    probs: Seq<u8>,
    node: int,
    depth: nat,
) -> Seq<u8>
    decreases depth,
{
    if depth == 0 {
        probs
    } else {
        let d = (depth - 1) as nat;
        let left = tree[node];
        let right = tree[node + 1];
        let p1 = if left > 0 {
            tree_merged(tree, pre, counts, probs, left as int, d)
        } else {
            probs
        };
        let p2 = if right > 0 {
            tree_merged(tree, pre, counts, p1, right as int, d)
        } else {
            p1
        };
        p2.update(
            node / 2,
            merged_mode(
                pre[node / 2] as int,
                branch_count(tree, counts, left, d),
                branch_count(tree, counts, right, d),
            ) as u8,
        )
    }
}

/// A probability of 256 that `num` of `den` give, rounded and kept in `1..=255`.
pub fn get_prob(num: u32, den: u32) -> (r: u8)
    requires
        den != 0,
    ensures
        r == prob_of(num as int, den as int),
{
    let q: u64 = (num as u64 * 256 + den as u64 / 2) / den as u64;
    proof {
        assert((q as i32) as int == if q % 0x1_0000_0000 < 0x8000_0000 {
            (q % 0x1_0000_0000) as int
        } else {
            (q % 0x1_0000_0000) - 0x1_0000_0000
        }) by (bit_vector);
    }
    let p: i32 = q as i32;
    if p < 1 {
        1
    } else if p > 255 {
        255
    } else {
        p as u8
    }
}

/// The probability of the first of two branches that were taken `n0` and `n1`
/// times: 128 where nothing was counted.
pub fn get_binary_prob(n0: u32, n1: u32) -> (r: u8)
    requires
        n0 + n1 <= u32::MAX,
    ensures
        r == binary_prob(n0 as int, n1 as int),
{
    let den: u32 = n0 + n1;
    if den == 0 {
        128
    } else {
        get_prob(n0, den)
    }
}

/// The mean of two probabilities, in which `p2` has the weight `factor / 256`.
pub fn weighted_prob(p1: u8, p2: u8, factor: u32) -> (r: u8)
    requires
        factor <= 256,
    ensures
        r == blend(p1 as int, p2 as int, factor as int),
{
    proof {
        lemma_blend_range(p1 as int, p2 as int, factor as int);
        assert(0 <= p1 * (256 - factor) <= 255 * 256) by (nonlinear_arith)
            requires
                0 <= p1 <= 255,
                0 <= factor <= 256,
        ;
        assert(0 <= p2 * factor <= 255 * 256) by (nonlinear_arith)
            requires
                0 <= p2 <= 255,
                0 <= factor <= 256,
        ;
    }
    let sum: u32 = p1 as u32 * (256 - factor) + p2 as u32 * factor + 128;
    (sum / 256) as u8
}

/// The merge of a coefficient probability with the counts of its two branches.
pub fn merge_probs(pre: u8, ct: [u32; 2], count_sat: u32, max_update_factor: u32) -> (r: u8)
    requires
        ct[0] + ct[1] <= u32::MAX,
        count_sat > 0,
        max_update_factor * min_int(ct[0] + ct[1], count_sat as int) <= u32::MAX,
        coef_factor(ct[0] as int, ct[1] as int, count_sat as int, max_update_factor as int) <= 256,
    ensures
        r == merged_coef(
            pre as int,
            ct[0] as int,
            ct[1] as int,
            count_sat as int,
            max_update_factor as int,
        ),
{
    let prob: u8 = get_binary_prob(ct[0], ct[1]);
    let sum: u32 = ct[0] + ct[1];
    let count: u32 = if sum < count_sat {
        sum
    } else {
        count_sat
    };
    assert(max_update_factor * count >= 0) by (nonlinear_arith);
    let factor: u32 = max_update_factor * count / count_sat;
    weighted_prob(pre, prob, factor)
}

/// The merge of a mode or motion probability with the counts of its two branches.
pub fn mode_mv_merge_probs(pre: u8, ct: [u32; 2]) -> (r: u8)
    requires
        ct[0] + ct[1] <= u32::MAX,
    ensures
        r == merged_mode(pre as int, ct[0] as int, ct[1] as int),
{
    let den: u32 = ct[0] + ct[1];
    if den == 0 {
        pre
    } else {
        let count: u32 = if den < MODE_MV_COUNT_SAT {
            den
        } else {
            MODE_MV_COUNT_SAT
        };
        let factor: u32 = COUNT_TO_UPDATE_FACTOR[count as usize];
        assert(factor <= 256) by {
            assert(forall|i: int| 0 <= i < 21 ==> #[trigger] COUNT_TO_UPDATE_FACTOR[i] <= 128);
        }
        let prob: u8 = get_prob(ct[0], den);
        weighted_prob(pre, prob, factor)
    }
}

/// Merges the probabilities of a whole tree, the leaves first.
///
/// `counts` holds how often each leaf's symbol was coded, `pre` the
/// probabilities to start from, and `probs` receives the merges.
pub fn tree_merge_probs(tree: &[i8], pre: &[u8], counts: &[u32], probs: &mut [u8])
    requires
        pre@.len() == old(probs)@.len(),
        merge_ok(tree@, pre@.len(), counts@.len(), 0, tree@.len()),
        branch_count(tree@, counts@, tree@[0], (tree@.len() - 1) as nat) + branch_count(
            tree@,
            counts@,
            tree@[1],
            (tree@.len() - 1) as nat,
        ) <= u32::MAX,
    ensures
        final(probs)@ == tree_merged(tree@, pre@, counts@, old(probs)@, 0, tree@.len()),
{
    merge_node(0, tree, pre, counts, probs, Ghost(tree@.len()));
}

/// Merges the probabilities from node `i` down and returns how often the node
/// was passed.
fn merge_node(
    i: usize,
    tree: &[i8],
    pre: &[u8],
    counts: &[u32],
    probs: &mut [u8],
    Ghost(depth): Ghost<nat>,
) -> (total: u32)
    requires
        pre@.len() == old(probs)@.len(),
        merge_ok(tree@, pre@.len(), counts@.len(), i as int, depth),
        branch_count(tree@, counts@, tree@[i as int], (depth - 1) as nat) + branch_count(
            tree@,
            counts@,
            tree@[i + 1],
            (depth - 1) as nat,
        ) <= u32::MAX,
    ensures
        total == branch_count(tree@, counts@, tree@[i as int], (depth - 1) as nat) + branch_count(
            tree@,
            counts@,
            tree@[i + 1],
            (depth - 1) as nat,
        ),
        final(probs)@.len() == old(probs)@.len(),
        final(probs)@ == tree_merged(tree@, pre@, counts@, old(probs)@, i as int, depth),
    decreases depth,
{
    let ghost d = (depth - 1) as nat;
    let len: usize = tree.len();
    proof {
        lemma_count_nonneg(tree@, counts@, tree@[i as int], d);
        lemma_count_nonneg(tree@, counts@, tree@[i + 1], d);
    }
    let l: i8 = tree[i];
    let left: u32 = if l <= 0 {
        counts[(-(l as i16)) as usize]
    } else {
        proof {
            assert(merge_ok(tree@, pre@.len(), counts@.len(), l as int, d));
            assert(branch_count(tree@, counts@, l, d) == branch_count(
                tree@,
                counts@,
                tree@[l as int],
                (d - 1) as nat,
            ) + branch_count(tree@, counts@, tree@[l + 1], (d - 1) as nat));
        }
        merge_node(l as usize, tree, pre, counts, probs, Ghost(d))
    };
    let r: i8 = tree[i + 1];
    let right: u32 = if r <= 0 {
        counts[(-(r as i16)) as usize]
    } else {
        proof {
            assert(merge_ok(tree@, pre@.len(), counts@.len(), r as int, d));
            assert(branch_count(tree@, counts@, r, d) == branch_count(
                tree@,
                counts@,
                tree@[r as int],
                (d - 1) as nat,
            ) + branch_count(tree@, counts@, tree@[r + 1], (d - 1) as nat));
        }
        merge_node(r as usize, tree, pre, counts, probs, Ghost(d))
    };
    let p: u8 = mode_mv_merge_probs(pre[i / 2], [left, right]);
    probs[i / 2] = p;
    left + right
}

pub proof fn lemma_count_nonneg(tree: Seq<i8>, counts: Seq<u32>, to: i8, depth: nat)
    ensures
        branch_count(tree, counts, to, depth) >= 0,
    decreases depth,
{
    if to > 0 && depth > 0 {
        lemma_count_nonneg(tree, counts, tree[to as int], (depth - 1) as nat);
        lemma_count_nonneg(tree, counts, tree[to + 1], (depth - 1) as nat);
    }
}

/// A mean of two probabilities lies between them.
pub proof fn lemma_blend_range(p1: int, p2: int, factor: int)
    requires
        0 <= factor <= 256,
    ensures
        p1 <= p2 ==> p1 <= blend(p1, p2, factor) <= p2,
        p2 <= p1 ==> p2 <= blend(p1, p2, factor) <= p1,
{
    let s = p1 * (256 - factor) + p2 * factor;
    assert(p1 <= p2 ==> 256 * p1 <= s <= 256 * p2) by (nonlinear_arith)
        requires
            0 <= factor <= 256,
            s == p1 * (256 - factor) + p2 * factor,
    ;
    assert(p2 <= p1 ==> 256 * p2 <= s <= 256 * p1) by (nonlinear_arith)
        requires
            0 <= factor <= 256,
            s == p1 * (256 - factor) + p2 * factor,
    ;
}

/// Blending with factor 0 keeps the first probability, with factor 256 it takes
/// the second.
pub proof fn law_blend_ends(p1: int, p2: int)
    ensures
        blend(p1, p2, 0) == p1,
        blend(p1, p2, 256) == p2,
{
    assert(p1 * (256 - 256) == 0 && p2 * 0 == 0);
    assert(p1 * (256 - 0) == 256 * p1 && p2 * 256 == 256 * p2);
}

/// Adaptation leaves a probability as it is where nothing was counted.
pub proof fn law_no_counts_no_change(pre: int, count_sat: int, max_update_factor: int)
    requires
        count_sat > 0,
    ensures
        merged_mode(pre, 0, 0) == pre,
        merged_coef(pre, 0, 0, count_sat, max_update_factor) == pre,
{
    assert(max_update_factor * 0 == 0);
    law_blend_ends(pre, 128);
    vstd::arithmetic::div_mod::lemma_basic_div(0, count_sat);
}

/// Adaptation never leaves the range of probabilities: what was in `1..=255`
/// stays there.
pub proof fn law_merge_stays_in_range(
    pre: int,
    n0: int,
    n1: int,
    count_sat: int,
    max_update_factor: int,
)
    requires
        1 <= pre <= 255,
        n0 >= 0,
        n1 >= 0,
        count_sat > 0,
        0 <= coef_factor(n0, n1, count_sat, max_update_factor) <= 256,
    ensures
        1 <= merged_mode(pre, n0, n1) <= 255,
        1 <= merged_coef(pre, n0, n1, count_sat, max_update_factor) <= 255,
{
    lemma_blend_range(
        pre,
        binary_prob(n0, n1),
        coef_factor(n0, n1, count_sat, max_update_factor),
    );
    assert(forall|i: int| 0 <= i < 21 ==> #[trigger] COUNT_TO_UPDATE_FACTOR[i] <= 128);
    if n0 + n1 > 0 {
        lemma_blend_range(
            pre,
            prob_of(n0, n0 + n1),
            COUNT_TO_UPDATE_FACTOR[min_int(n0 + n1, 20)] as int,
        );
    }
}

/// `node` is one of the nodes that a walk from `from` passes.
pub open spec fn reaches(tree: Seq<i8>, from: int, node: int, depth: nat) -> bool
    decreases depth,
{
    depth > 0 && (from == node || (tree[from] > 0 && reaches(
        tree,
        tree[from] as int,
        node,
        (depth - 1) as nat,
    )) || (tree[from + 1] > 0 && reaches(tree, tree[from + 1] as int, node, (depth - 1) as nat)))
}

/// Every node that a walk from `from` passes stands at an even place, as the
/// nodes of an array of pairs do.
pub open spec fn paired(tree: Seq<i8>, from: int, depth: nat) -> bool
    decreases depth,
{
    depth > 0 ==> {
        &&& from % 2 == 0
        &&& tree[from] > 0 ==> paired(tree, tree[from] as int, (depth - 1) as nat)
        &&& tree[from + 1] > 0 ==> paired(tree, tree[from + 1] as int, (depth - 1) as nat)
    }
}

/// What is counted below a branch does not depend on how deep a walk may go.
proof fn lemma_count_depth(tree: Seq<i8>, counts: Seq<u32>, nprobs: nat, to: i8, d: nat, e: nat)
    requires
        to > 0 ==> merge_ok(tree, nprobs, counts.len(), to as int, d),
        d <= e,
    ensures
        branch_count(tree, counts, to, d) == branch_count(tree, counts, to, e),
    decreases d,
{
    if to > 0 {
        lemma_count_depth(tree, counts, nprobs, tree[to as int], (d - 1) as nat, (e - 1) as nat);
        lemma_count_depth(tree, counts, nprobs, tree[to + 1], (d - 1) as nat, (e - 1) as nat);
    }
}

proof fn lemma_merged_node(
    tree: Seq<i8>,
    pre: Seq<u8>,
    counts: Seq<u32>,
    probs: Seq<u8>,
    from: int,
    node: int,
    depth: nat,
    full: nat,
)
    requires
        probs.len() == pre.len(),
        merge_ok(tree, pre.len(), counts.len(), from, depth),
        paired(tree, from, depth),
        node % 2 == 0,
        0 <= node / 2 < pre.len(),
        depth <= full,
    ensures
        tree_merged(tree, pre, counts, probs, from, depth).len() == probs.len(),
        tree_merged(tree, pre, counts, probs, from, depth)[node / 2] == if reaches(
            tree,
            from,
            node,
            depth,
        ) {
            merged_mode(
                pre[node / 2] as int,
                branch_count(tree, counts, tree[node], full),
                branch_count(tree, counts, tree[node + 1], full),
            ) as u8
        } else {
            probs[node / 2]
        },
    decreases depth,
{
    let d = (depth - 1) as nat;
    let left = tree[from];
    let right = tree[from + 1];
    let p1 = if left > 0 {
        tree_merged(tree, pre, counts, probs, left as int, d)
    } else {
        probs
    };
    if left > 0 {
        lemma_merged_node(tree, pre, counts, probs, left as int, node, d, full);
    }
    if right > 0 {
        lemma_merged_node(tree, pre, counts, p1, right as int, node, d, full);
    }
    lemma_count_depth(tree, counts, pre.len(), left, d, full);
    lemma_count_depth(tree, counts, pre.len(), right, d, full);
}

/// Merging a tree gives every node that can be reached the merge of its own
/// probability with what was counted below its two branches, and leaves the other
/// probabilities alone.
pub proof fn law_tree_merge_by_node(
    tree: Seq<i8>,
    pre: Seq<u8>,
    counts: Seq<u32>,
    probs: Seq<u8>,
    node: int,
)
    requires
        probs.len() == pre.len(),
        merge_ok(tree, pre.len(), counts.len(), 0, tree.len()),
        paired(tree, 0, tree.len()),
        node % 2 == 0,
        0 <= node / 2 < pre.len(),
    ensures
        tree_merged(tree, pre, counts, probs, 0, tree.len())[node / 2] == if reaches(
            tree,
            0,
            node,
            tree.len(),
        ) {
            merged_mode(
                pre[node / 2] as int,
                branch_count(tree, counts, tree[node], tree.len()),
                branch_count(tree, counts, tree[node + 1], tree.len()),
            ) as u8
        } else {
            probs[node / 2]
        },
{
    lemma_merged_node(tree, pre, counts, probs, 0, node, tree.len(), tree.len());
}

/// A share of a number of symbols is at most 256 of 256, and no share of them zero.
proof fn lemma_share(num: int, den: int)
    requires
        0 <= num <= den,
        den > 0,
    ensures
        0 <= (num * 256 + den / 2) / den <= 256,
        low_i32((num * 256 + den / 2) / den) == (num * 256 + den / 2) / den,
        num == 0 ==> (num * 256 + den / 2) / den == 0,
        num == den ==> (num * 256 + den / 2) / den == 256,
{
    let h = den / 2;
    let v = num * 256 + h;
    assert(0 <= v < 257 * den) by (nonlinear_arith)
        requires
            0 <= num <= den,
            den > 0,
            0 <= h < den,
            v == num * 256 + h,
    ;
    vstd::arithmetic::div_mod::lemma_div_is_ordered(0, v, den);
    vstd::arithmetic::div_mod::lemma_basic_div(0, den);
    vstd::arithmetic::div_mod::lemma_multiply_divide_lt(v, den, 257);
    if num == 0 {
        vstd::arithmetic::div_mod::lemma_basic_div(h, den);
    }
    if num == den {
        vstd::arithmetic::div_mod::lemma_fundamental_div_mod_converse(v, den, 256, h);
    }
}

/// Where only the first branch was taken the merge does not lower its probability, where
/// only the second was taken it does not raise it.
pub proof fn law_merge_moves_towards_counts(pre: int, n: int)
    requires
        1 <= pre <= 255,
        n >= 0,
    ensures
        pre <= merged_mode(pre, n, 0) <= 255,
        1 <= merged_mode(pre, 0, n) <= pre,
{
    assert(forall|i: int| 0 <= i < 21 ==> #[trigger] COUNT_TO_UPDATE_FACTOR[i] <= 128);
    if n > 0 {
        lemma_share(n, n);
        lemma_share(0, n);
        let f = COUNT_TO_UPDATE_FACTOR[min_int(n, 20)] as int;
        lemma_blend_range(pre, 255, f);
        lemma_blend_range(pre, 1, f);
    }
}

/// The same of a coefficient probability.
pub proof fn law_coef_merge_moves_towards_counts(
    pre: int,
    n: int,
    count_sat: int,
    max_update_factor: int,
)
    requires
        1 <= pre <= 255,
        n > 0,
        count_sat > 0,
        0 <= coef_factor(n, 0, count_sat, max_update_factor) <= 256,
    ensures
        pre <= merged_coef(pre, n, 0, count_sat, max_update_factor) <= 255,
        1 <= merged_coef(pre, 0, n, count_sat, max_update_factor) <= pre,
{
    lemma_share(n, n);
    lemma_share(0, n);
    let f = coef_factor(n, 0, count_sat, max_update_factor);
    assert(f == coef_factor(0, n, count_sat, max_update_factor));
    lemma_blend_range(pre, 255, f);
    lemma_blend_range(pre, 1, f);
}

/// From twenty symbols on the merge goes half of the way to their share: to the end of the
/// range where they all took one branch. After a single symbol it goes hardly any of it.
pub proof fn law_merge_goes_half_way(pre: int, n0: int, n1: int)
    requires
        1 <= pre <= 255,
        n0 >= 0,
        n1 >= 0,
        n0 + n1 >= 20,
    ensures
        n1 == 0 ==> merged_mode(pre, n0, n1) == (pre + 256) / 2,
        n0 == 0 ==> merged_mode(pre, n0, n1) == (pre + 2) / 2,
        n0 == n1 ==> merged_mode(pre, n0, n1) == (pre + 129) / 2,
        merged_mode(pre, 1, 0) - pre <= 6,
        pre - merged_mode(pre, 0, 1) <= 6,
{
    assert(COUNT_TO_UPDATE_FACTOR[20] == 128 && COUNT_TO_UPDATE_FACTOR[1] == 6);
    assert(min_int(n0 + n1, 20) == 20);
    lemma_share(n0, n0 + n1);
    lemma_share(1, 1);
    lemma_share(0, 1);
    if n0 == n1 {
        vstd::arithmetic::div_mod::lemma_fundamental_div_mod_converse(
            n0 * 256 + (n0 + n1) / 2,
            n0 + n1,
            128,
            n0,
        );
    }
    let p = prob_of(n0, n0 + n1);
    assert(merged_mode(pre, n0, n1) == (pre * 128 + p * 128 + 128) / 256);
    assert(merged_mode(pre, 1, 0) == blend(pre, prob_of(1, 1), 6));
    assert(prob_of(1, 1) == 255);
    assert(merged_mode(pre, 0, 1) == blend(pre, prob_of(0, 1), 6));
    assert(prob_of(0, 1) == 1);
}

/// The more of the same number of symbols took the first branch, the higher the merge.
pub proof fn law_merge_is_monotone(pre: int, n0: int, m0: int, total: int)
    requires
        1 <= pre <= 255,
        0 <= n0 <= m0 <= total,
    ensures
        merged_mode(pre, n0, total - n0) <= merged_mode(pre, m0, total - m0),
{
    assert(forall|i: int| 0 <= i < 21 ==> #[trigger] COUNT_TO_UPDATE_FACTOR[i] <= 128);
    if total > 0 {
        lemma_share(n0, total);
        lemma_share(m0, total);
        vstd::arithmetic::div_mod::lemma_div_is_ordered(
            n0 * 256 + total / 2,
            m0 * 256 + total / 2,
            total,
        );
        let f = COUNT_TO_UPDATE_FACTOR[min_int(total, 20)] as int;
        let (p, q) = (prob_of(n0, total), prob_of(m0, total));
        assert(p <= q);
        assert(p * f <= q * f) by (nonlinear_arith)
            requires
                p <= q,
                0 <= f,
        ;
    }
}

/// The two branches are alike: what one is counted raises its probability as much as the
/// same count of the other would lower it, but for rounding.
pub proof fn law_shares_add_up(n0: int, n1: int)
    requires
        n0 > 0,
        n1 > 0,
        n0 + n1 < 0x100_0000,
    ensures
        255 <= binary_prob(n0, n1) + binary_prob(n1, n0) <= 257,
{
    let den = n0 + n1;
    lemma_share(n0, den);
    lemma_share(n1, den);
    let h = den / 2;
    let (a, b) = ((n0 * 256 + h) / den, (n1 * 256 + h) / den);
    vstd::arithmetic::div_mod::lemma_fundamental_div_mod(n0 * 256 + h, den);
    vstd::arithmetic::div_mod::lemma_fundamental_div_mod(n1 * 256 + h, den);
    vstd::arithmetic::div_mod::lemma_mod_bound(n0 * 256 + h, den);
    vstd::arithmetic::div_mod::lemma_mod_bound(n1 * 256 + h, den);
    assert(den * (a + b) == den * a + den * b) by (nonlinear_arith);
    assert(a + b >= 255) by (nonlinear_arith)
        requires
            den * (a + b) > 256 * den + 2 * h - 2 * den,
            2 * h >= den - 1,
            den > 0,
    ;
    assert(a + b <= 257) by (nonlinear_arith)
        requires
            den * (a + b) <= 256 * den + 2 * h,
            2 * h <= den,
            den > 0,
    ;
}

} // verus!
