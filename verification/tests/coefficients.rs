use rff_codec_vp9::context::FrameContext;
use rff_codec_vp9::decode::counts::FrameCounts;
use rff_codec_vp9::decode::residual::{
    intra_mode_to_tx_type, residual_of, tx_blocks, Residual, TxType,
};
use rff_codec_vp9::decode::plane::{ss_size_lookup, uv_tx_size, Plane, PlaneBlock};
use rff_codec_vp9::encode::cost::{cost_bit, mv_bits, partition_cost_q8, tree_bit_cost, BitCosts};
use rff_codec_vp9::encode::gate::rd_gate_coef_update;
use rff_codec_vp9::encode::pixels::Picture;
use rff_codec_vp9::encode::trellis::{Steps, Trellis};
use rff_codec_vp9::encode::txblock::{
    add_coef_counts, energy, fingerprint, max_row, residual, Dedup, Kept,
};
use rff_codec_vp9::block::PARTITION_TREE;

fn trellis(levels: Vec<i32>, eob: usize, cost: u64) -> Trellis {
    let dq: Vec<i32> = levels.iter().enumerate().map(|(i, l)| l * if i == 0 { 10 } else { 20 }).collect();
    let scan: Vec<i16> = vec![0, 2, 1, 3];
    Trellis::new(levels, dq, scan, Steps { dc: 10, ac: 20, shift: 0 }, eob, cost)
}

#[test]
fn last_levels_are_dropped_while_that_pays() {
    let mut t = trellis(vec![5, 1, -2, 1], 4, 100);
    assert!(t.propose());
    assert_eq!((t.levels().clone(), t.eob()), (vec![5, 1, -2, 0], 3));
    t.decide(90);
    assert!(t.propose());
    assert_eq!((t.levels().clone(), t.eob()), (vec![5, 0, -2, 0], 2));
    // That would cost more, so it is taken back.
    t.decide(95);
    assert_eq!(t.cost(), 90);
    assert_eq!((t.levels().clone(), t.eob()), (vec![5, 1, -2, 0], 3));
    // From the last level on each is tried one closer to zero.
    assert!(t.propose());
    assert_eq!((t.levels().clone(), t.eob()), (vec![5, 0, -2, 0], 2));
    t.decide(90);
    assert!(t.propose());
    assert_eq!(t.levels(), &vec![5, 1, -1, 0]);
    assert_eq!(t.dqcoeff(), &vec![50, 20, -20, 0]);
    t.decide(80);
    assert!(t.propose());
    assert_eq!(t.levels(), &vec![4, 1, -1, 0]);
    assert_eq!(t.dqcoeff()[0], 40);
    t.decide(u64::MAX);
    assert!(!t.propose());
    assert_eq!((t.levels().clone(), t.eob(), t.cost()), (vec![5, 1, -1, 0], 3, 80));
}

#[test]
fn a_block_can_be_trimmed_to_nothing() {
    let mut t = trellis(vec![1, 0, 1, 0], 2, 10);
    assert!(t.propose());
    assert_eq!(t.eob(), 1);
    t.decide(5);
    assert!(t.propose());
    assert_eq!(t.eob(), 0);
    t.decide(1);
    assert!(!t.propose());
    assert_eq!(t.levels(), &vec![0; 4]);
    // Zeros before the last level are passed over.
    let mut t = trellis(vec![1, 1, 0, 0], 3, 10);
    assert!(t.propose());
    assert_eq!(t.eob(), 1);
}

#[test]
fn residuals_and_their_energy() {
    let src = Picture { buf: (0..16).collect(), stride: 4, w: 4, h: 4, ss_x: 0, ss_y: 0 };
    let pred = [1u16; 16];
    let r = residual(&src, 1, 2, &pred, 0, 4, 2);
    assert_eq!(r, vec![8, 9, 12, 13]);
    assert_eq!(energy(&r), 64 + 81 + 144 + 169);
    assert_eq!(max_row(&[1, 0, 0, 0, 0, 2, 0, 0, 0], 3), 1);
    assert_eq!(max_row(&[0; 9], 3), 0);
}

#[test]
fn fingerprints_tell_blocks_apart() {
    let step = |h: u64, v: i32| (h ^ v as u32 as u64).wrapping_mul(0x100000001b3);
    let start = 0xcbf29ce484222325u64;
    assert_eq!(fingerprint(&[], TxType::DctDct, 0, false), start);
    assert_eq!(fingerprint(&[7, -1], TxType::DctDct, 0, false), step(step(start, 7), -1));
    assert_eq!(
        fingerprint(&[7], TxType::AdstAdst, 2, true),
        step(start ^ 3 ^ (2 << 8) ^ (1 << 16), 7)
    );
}

#[test]
fn trials_are_reused_for_the_same_block() {
    let mut d = Dedup::new();
    let kept = Kept { print: 77, levels: vec![1], dq: vec![20], eob: 1 };
    d.keep(1, 16, 32, 2, kept);
    assert_eq!(d.reuse(1, 16, 32, 2, 77).unwrap().dq, vec![20]);
    assert!(d.reuse(1, 16, 32, 2, 78).is_none());
    assert!(d.reuse(1, 32, 16, 2, 77).is_none());
    assert!(d.reuse(2, 16, 32, 2, 77).is_none());
}

#[test]
fn counts_of_a_block_are_added() {
    let mut coef = [[[1u32; 4]; 6]; 6];
    let mut eob = [[2u32; 6]; 6];
    let mut more = [[[0u32; 4]; 6]; 6];
    let mut more_eob = [[0u32; 6]; 6];
    more[5][4][3] = 10;
    more_eob[1][2] = 20;
    add_coef_counts(&mut coef, &mut eob, &more, &more_eob);
    assert_eq!((coef[5][4][3], coef[5][4][2], coef[0][0][0]), (11, 1, 1));
    assert_eq!((eob[1][2], eob[2][1]), (22, 2));
}

#[test]
fn what_is_added_to_a_prediction() {
    assert_eq!(residual_of(false, TxType::DctDct, 0, 0), Residual::Nothing);
    assert_eq!(residual_of(true, TxType::DctDct, 1, 0), Residual::Lossless);
    assert_eq!(residual_of(false, TxType::DctDct, 1, 0), Residual::Flat);
    assert_eq!(residual_of(false, TxType::AdstDct, 1, 0), Residual::Rows(1));
    assert_eq!(residual_of(false, TxType::DctDct, 9, 3), Residual::Rows(4));
    assert_eq!(intra_mode_to_tx_type(0), TxType::DctDct);
    assert_eq!(intra_mode_to_tx_type(1), TxType::AdstDct);
    assert_eq!(intra_mode_to_tx_type(2), TxType::DctAdst);
    assert_eq!(intra_mode_to_tx_type(9), TxType::AdstAdst);
}

#[test]
fn transform_blocks_come_row_by_row() {
    let pb = PlaneBlock {
        n4_w: 16, n4_h: 16, max_w: 10, max_h: 5, tx_size: 2, base_x: 0, base_y: 0,
        above_col0: 0, left_row0: 0, mb_to_right: 0, mb_to_bottom: 0,
    };
    assert_eq!(tx_blocks(&pb), vec![(0, 0), (0, 4), (0, 8), (4, 0), (4, 4), (4, 8)]);
}

#[test]
fn sizes_in_chroma_planes() {
    assert_eq!(ss_size_lookup(12, 1, 1), 9);
    assert_eq!(ss_size_lookup(3, 1, 1), 0);
    assert_eq!(ss_size_lookup(12, 0, 0), 12);
    assert_eq!(ss_size_lookup(12, 1, 0), 10);
    // A 64x32 block would be 64x16 in a plane of half the height: there is no such size.
    assert_eq!(ss_size_lookup(11, 0, 1), 0);
    assert_eq!(uv_tx_size(12, 3, 1, 1), 3);
    assert_eq!(uv_tx_size(9, 3, 1, 1), 2);
    assert_eq!(uv_tx_size(2, 1, 1, 1), 0);
    let p = Plane::new(101, 51, 1, 1);
    assert_eq!((p.width, p.height, p.stride), (51, 26, 128));
    assert_eq!(p.buf.len(), 128 * (26 + 72));
}

/// Costs that grow with how unlikely a bit is.
fn costs() -> BitCosts {
    let mut of = [[0u32; 256]; 2];
    for p in 0..256 {
        of[0][p] = 2 * (256 - p as u32);
        of[1][p] = 2 * p as u32;
    }
    BitCosts { of }
}

#[test]
fn costs_are_those_of_the_decisions() {
    let t = costs();
    assert_eq!(cost_bit(&t, 200, false), 112);
    assert_eq!(cost_bit(&t, 200, true), 400);
    let probs = [100u8, 60, 200];
    assert_eq!(tree_bit_cost(&t, &PARTITION_TREE, &probs, 0), 312);
    assert_eq!(tree_bit_cost(&t, &PARTITION_TREE, &probs, 3), 200 + 120 + 400);
    assert_eq!(partition_cost_q8(&t, 3, &probs, true, true), 720);
    assert_eq!(partition_cost_q8(&t, 3, &probs, false, true), 120);
    assert_eq!(partition_cost_q8(&t, 2, &probs, true, false), 112);
    assert_eq!(partition_cost_q8(&t, 3, &probs, false, false), 0);
    assert_eq!(mv_bits((0, 0), (0, 0)), 10);
    assert_eq!(mv_bits((8, -3), (0, 0)), 10 + 2 * (4 + 2));
}

#[test]
fn new_probabilities_must_save_what_they_cost() {
    let t = costs();
    let old = FrameContext::defaults();
    let mut counts = FrameCounts::zeroed();
    let p = old.coef_probs[0][0][0][1][0][1];
    let mut new = old;
    new.coef_probs[0][0][0][1][0][1] = if p > 100 { p - 40 } else { p + 40 };
    // Without counts nothing is saved.
    let mut gated = new;
    rd_gate_coef_update(&t, &old, &mut gated, &counts);
    assert!(gated == old);
    // With many it is.
    counts.coef[0][0][0][1][0][if p > 100 { 1 } else { 0 }] = 100_000;
    let mut gated = new;
    rd_gate_coef_update(&t, &old, &mut gated, &counts);
    assert!(gated == new);
}
