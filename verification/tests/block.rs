use rff_codec_vp9::block::{
    above_block_mode, kf_uv_mode_probs, kf_y_mode_probs, left_block_mode, partition_plane_context,
    skip_context, subsize, tx_size_context, update_partition_context, ModeInfo, BLOCK_64X64,
    BLOCK_8X8, BLOCK_INVALID, DC_PRED, INTRA_MODE_TREE, PARTITION_HORZ, PARTITION_NONE,
    PARTITION_SPLIT, PARTITION_TREE, PARTITION_VERT, TM_PRED,
};
use rff_codec_vp9::geom_tables::{PARTITION_CTX_ABOVE, PARTITION_CTX_LEFT};
use rff_codec_vp9::prob_tables::{KF_UV_MODE_PROBS, KF_Y_MODE_PROBS};

fn collect_leaves(tree: &[i8], i: usize, out: &mut Vec<u8>) {
    for b in 0..2 {
        let v = tree[i + b];
        if v <= 0 {
            out.push((-v) as u8);
        } else {
            collect_leaves(tree, v as usize, out);
        }
    }
}

#[test]
fn intra_mode_tree_covers_all_modes() {
    let mut leaves = vec![];
    collect_leaves(&INTRA_MODE_TREE, 0, &mut leaves);
    leaves.sort();
    assert_eq!(leaves, (0..10).collect::<Vec<u8>>());
}

#[test]
fn partition_tree_covers_all_types() {
    let mut leaves = vec![];
    collect_leaves(&PARTITION_TREE, 0, &mut leaves);
    leaves.sort();
    assert_eq!(leaves, vec![0, 1, 2, 3]);
}

#[test]
fn block_mode_edge_defaults_to_dc() {
    let cur = ModeInfo::default();
    assert_eq!(above_block_mode(&cur, None, 0), DC_PRED);
    assert_eq!(left_block_mode(&cur, None, 0), DC_PRED);
    let inter = ModeInfo { is_inter: true, mode: TM_PRED, ..Default::default() };
    assert_eq!(above_block_mode(&cur, Some(&inter), 1), DC_PRED);
}

#[test]
fn block_mode_reads_neighbour_and_self() {
    let above = ModeInfo { sb_type: BLOCK_8X8 as u8, mode: 1, ..Default::default() };
    let cur = ModeInfo { sb_type: BLOCK_8X8 as u8, bmi: [3, 4, 5, 6], ..Default::default() };
    assert_eq!(above_block_mode(&cur, Some(&above), 0), 1);
    assert_eq!(above_block_mode(&cur, Some(&above), 2), cur.bmi[0]);
    assert_eq!(left_block_mode(&cur, None, 1), cur.bmi[0]);
}

#[test]
fn kf_mode_prob_selection_indexes_by_neighbours() {
    let above = ModeInfo { sb_type: BLOCK_8X8 as u8, mode: 2, ..Default::default() };
    let left = ModeInfo { sb_type: BLOCK_8X8 as u8, mode: 5, ..Default::default() };
    let cur = ModeInfo { sb_type: BLOCK_8X8 as u8, ..Default::default() };
    let p = kf_y_mode_probs(&cur, Some(&above), Some(&left), 0);
    assert_eq!(p, &KF_Y_MODE_PROBS[2][5]);
}

#[test]
fn contexts_match_formulas() {
    let s0 = ModeInfo { skip: false, ..Default::default() };
    let s1 = ModeInfo { skip: true, ..Default::default() };
    assert_eq!(skip_context(Some(&s1), Some(&s1)), 2);
    assert_eq!(skip_context(Some(&s0), None), 0);
    let above_seg = [0b1000u8; 8];
    let left_seg = [0b1000u8; 8];
    assert_eq!(partition_plane_context(&above_seg, &left_seg, 0, 0, 3), (1 * 2 + 1) + 3 * 4);
    assert_eq!(partition_plane_context(&above_seg, &left_seg, 0, 0, 2), 0 + 2 * 4);
}

#[test]
fn subsize_and_partition_ctx_update() {
    assert_eq!(subsize(PARTITION_SPLIT, BLOCK_64X64), 9);
    assert_eq!(subsize(PARTITION_NONE, BLOCK_64X64), BLOCK_64X64 as u8);
    let mut a = [0u8; 8];
    let mut l = [0u8; 8];
    update_partition_context(&mut a, &mut l, 0, 0, BLOCK_8X8, 1);
    assert_eq!(a[0], PARTITION_CTX_ABOVE[BLOCK_8X8]);
    assert_eq!(l[0], PARTITION_CTX_LEFT[BLOCK_8X8]);
}

#[test]
fn halves_of_a_square_have_their_sizes() {
    // 64x32 and 32x64; 8x4 and 4x8 below an 8x8 block.
    assert_eq!(subsize(PARTITION_HORZ, BLOCK_64X64), 11);
    assert_eq!(subsize(PARTITION_VERT, BLOCK_64X64), 10);
    assert_eq!(subsize(PARTITION_HORZ, BLOCK_8X8), 2);
    assert_eq!(subsize(PARTITION_VERT, BLOCK_8X8), 1);
    // A block that is no square is not cut.
    assert_eq!(subsize(PARTITION_SPLIT, 4), BLOCK_INVALID);
}

#[test]
fn partition_context_covers_the_width_of_the_square() {
    let mut a = [0u8; 16];
    let mut l = [0u8; 8];
    update_partition_context(&mut a, &mut l, 12, 8, 9, 4);
    assert_eq!(&a[..8], &[0; 8]);
    assert_eq!(&a[8..12], &[PARTITION_CTX_ABOVE[9]; 4]);
    assert_eq!(&a[12..], &[0; 4]);
    assert_eq!(&l[..4], &[0; 4]);
    assert_eq!(&l[4..], &[PARTITION_CTX_LEFT[9]; 4]);
}

#[test]
fn tx_size_context_weighs_neighbours() {
    let cur = ModeInfo { sb_type: 12, ..Default::default() };
    let small = ModeInfo { tx_size: 0, ..Default::default() };
    let large = ModeInfo { tx_size: 3, ..Default::default() };
    assert_eq!(tx_size_context(&cur, Some(&small), Some(&small)), 0);
    assert_eq!(tx_size_context(&cur, Some(&large), Some(&large)), 1);
    // A neighbour without residual counts as one with the largest transform.
    let skipped = ModeInfo { tx_size: 0, skip: true, ..Default::default() };
    assert_eq!(tx_size_context(&cur, Some(&skipped), Some(&skipped)), 1);
    assert_eq!(tx_size_context(&cur, None, None), 1);
}

#[test]
fn kf_uv_mode_probs_go_by_the_luma_mode() {
    for mode in 0..10u8 {
        assert_eq!(kf_uv_mode_probs(mode), &KF_UV_MODE_PROBS[mode as usize]);
    }
}
