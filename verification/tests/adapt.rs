use rff_codec_vp9::adapt::{
    get_binary_prob, get_prob, merge_probs, mode_mv_merge_probs, tree_merge_probs, weighted_prob,
};

#[test]
fn get_prob_rounds_and_clamps() {
    assert_eq!(get_prob(10, 20), 128);
    assert_eq!(get_prob(20, 20), 255);
    assert_eq!(get_prob(0, 20), 1);
    assert_eq!(get_binary_prob(0, 0), 128);
}

#[test]
fn weighted_prob_blends() {
    assert_eq!(weighted_prob(100, 200, 0), 100);
    assert_eq!(weighted_prob(100, 200, 256), 200);
    assert_eq!(weighted_prob(100, 200, 64), 125);
}

#[test]
fn mode_mv_merge_matches_libvpx() {
    assert_eq!(mode_mv_merge_probs(128, [0, 0]), 128);
    assert_eq!(mode_mv_merge_probs(128, [20, 0]), 192);
    assert_eq!(mode_mv_merge_probs(128, [10, 10]), 128);
}

#[test]
fn merge_probs_coef() {
    assert_eq!(merge_probs(128, [24, 0], 24, 112), 184);
    assert_eq!(merge_probs(200, [0, 0], 24, 112), 200);
}

#[test]
fn tree_merge_two_leaf() {
    let tree = [0i8, -1];
    let pre = [128u8];
    let counts = [20u32, 0];
    let mut probs = [0u8];
    tree_merge_probs(&tree, &pre, &counts, &mut probs);
    assert_eq!(probs[0], 192);
}

#[test]
fn binary_prob_of_uneven_counts() {
    assert_eq!(get_binary_prob(3, 1), 192);
    assert_eq!(get_binary_prob(1, 3), 64);
    assert_eq!(get_prob(u32::MAX / 2, u32::MAX), 128);
}

#[test]
fn tree_merge_counts_below_each_node() {
    // Leaves 0, 1, 2, 3 behind nodes 0, 2 and 4.
    let tree = [0i8, 2, -1, 4, -2, -3];
    let pre = [128u8, 128, 128];
    let counts = [0u32, 20, 0, 0];
    let mut probs = [0u8; 3];
    tree_merge_probs(&tree, &pre, &counts, &mut probs);
    // Node 0 saw twenty ones, node 1 twenty zeros, node 2 nothing.
    assert_eq!(probs, [mode_mv_merge_probs(128, [0, 20]), 192, 128]);
}

#[test]
fn merged_probabilities_stay_in_range() {
    for pre in [1u8, 128, 255] {
        for ct in [[0u32, 0], [1, 0], [0, 1], [1000, 0], [0, 1000]] {
            assert!(merge_probs(pre, ct, 24, 112) >= 1);
            assert!(mode_mv_merge_probs(pre, ct) >= 1);
        }
    }
}
