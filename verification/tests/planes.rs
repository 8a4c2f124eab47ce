use rff_codec_vp9::block::{NEWMV, ZEROMV};
use rff_codec_vp9::bits::{BitReader, BoolDecoder};
use rff_codec_vp9::decode::frame::RefFrame;
use rff_codec_vp9::decode::inter::Patch;
use rff_codec_vp9::decode::residual::{tx_blocks, TxType};
use rff_codec_vp9::encode::bitwriter::BitWriter;
use rff_codec_vp9::encode::aq::{by_variance, choose_segments, dispatch_threshold, median};
use rff_codec_vp9::encode::decide::{compound_choice, intra_choice, settled, single_choice};
use rff_codec_vp9::block::{PARTITION_HORZ, PARTITION_NONE, PARTITION_SPLIT, PARTITION_VERT};
use rff_codec_vp9::encode::cuttrials::{CutRules, CutTrial, PartitionTrials};
use rff_codec_vp9::encode::trellis::{trellis_eob, Steps, Trellis};
use rff_codec_vp9::encode::frameenc::{FrameEncoder, Planes};

fn flat(w: u32, h: u32, v: u16) -> Planes {
    let (c, r) = (((w + 7) / 8) as usize, ((h + 7) / 8) as usize);
    (vec![v; 64 * c * r], vec![v; 16 * c * r], vec![v; 16 * c * r])
}

#[test]
fn blocks_over_the_edge_are_cut_off_in_each_plane() {
    let e = FrameEncoder::new(72, 40, 60, &flat(72, 40, 7), None);
    let m = intra_choice(12, 2, 0, 0);
    let luma = e.canvas.plane_block(&m, 0, 0, 0);
    assert_eq!((luma.n4_w, luma.n4_h, luma.max_w, luma.max_h), (16, 16, 16, 10));
    assert_eq!((luma.mb_to_right, luma.mb_to_bottom), (64, -192));
    assert_eq!(tx_blocks(&luma).len(), 4 * 3);
    let chroma = e.canvas.plane_block(&m, 1, 0, 8);
    assert_eq!((chroma.n4_w, chroma.n4_h, chroma.max_w, chroma.max_h), (8, 8, 1, 5));
    assert_eq!((chroma.base_x, chroma.base_y, chroma.above_col0), (32, 0, 8));
    assert_eq!(chroma.mb_to_right, 64 * (9 - 8 - 8));
}

#[test]
fn transform_blocks_know_their_neighbours() {
    let e = FrameEncoder::new(128, 128, 60, &flat(128, 128, 7), None);
    // A vertical mode is transformed by columns the other way.
    let m = intra_choice(6, 1, 1, 2);
    let pb = e.canvas.plane_block(&m, 0, 0, 2);
    let first = e.canvas.tx_plan(&m, &pb, 0, 0, 2, 0, false, 0, 0);
    assert_eq!((first.x0, first.y0), (16, 0));
    assert_eq!(first.intra_mode, Some(1));
    assert_eq!((first.up_avail, first.left_avail, first.right_avail), (false, true, true));
    assert_eq!(first.tx_type, TxType::AdstDct);
    let last = e.canvas.tx_plan(&m, &pb, 0, 0, 2, 0, false, 2, 2);
    assert_eq!((last.up_avail, last.left_avail, last.right_avail), (true, true, false));
    // The first block of a tile has nothing to its left.
    let at_tile = e.canvas.tx_plan(&m, &pb, 0, 0, 2, 2, false, 0, 0);
    assert!(!at_tile.left_avail);
    let lossless = e.canvas.tx_plan(&m, &pb, 0, 0, 2, 0, true, 0, 0);
    assert_eq!(lossless.tx_type, TxType::DctDct);
}

#[test]
fn coefficients_leave_contexts_in_the_frame_only() {
    let mut e = FrameEncoder::new(64, 64, 60, &flat(64, 64, 7), None);
    assert_eq!(e.canvas.coef_context(0, 4, 4, 4), 0);
    e.canvas.set_ctx(0, 4, 4, 4, 2, 4, true);
    assert_eq!(e.canvas.above_ctx[0][3..9], [0, 1, 1, 0, 0, 0]);
    assert_eq!(e.canvas.left_ctx[0][3..9], [0, 1, 1, 1, 1, 0]);
    assert_eq!(e.canvas.coef_context(0, 4, 4, 4), 2);
    assert_eq!(e.canvas.coef_context(0, 6, 4, 2), 1);
    assert_eq!(e.canvas.coef_context(1, 4, 4, 4), 0);
    e.canvas.set_ctx(0, 4, 4, 4, 4, 4, false);
    assert_eq!(e.canvas.coef_context(0, 4, 4, 4), 0);
}

#[test]
fn pairs_are_predicted_twice() {
    let e = FrameEncoder::new(64, 64, 60, &flat(64, 64, 7), Some(flat(64, 64, 9)));
    let m = compound_choice(9, 1, (1, 3), NEWMV, ((8, -8), (2, 4)), 0);
    let p = e.canvas.inter_patches(&m, 1, 4, 4);
    assert_eq!(
        p,
        vec![
            Patch { second: false, mv: (8, -8), x: 16, y: 16, w: 16, h: 16 },
            Patch { second: true, mv: (2, 4), x: 16, y: 16, w: 16, h: 16 },
        ]
    );
    let one = single_choice(9, 1, 1, ZEROMV, (0, 0), 0);
    assert_eq!(e.canvas.inter_patches(&one, 0, 4, 4).len(), 1);
}

#[test]
fn segments_need_a_calm_frame() {
    assert_eq!(choose_segments(8, &[5, 1, 4, 2, 3]), Some(vec![1, 0, 1, 0, 0]));
    assert_eq!(choose_segments(-8, &[8000]), Some(vec![0]));
    assert_eq!(choose_segments(0, &[5, 1, 4, 2, 3]), None);
    assert_eq!(choose_segments(8, &[8001]), None);
    assert_eq!(choose_segments(8, &[1, 9000]), None);
    assert_eq!(median(&[1, 9000]), 9000);
}

#[test]
fn no_more_blocks_are_cut_by_variance_than_asked_for() {
    let vars = [7, 7, 3, 9, 1, 7, 20, 4];
    for n in 0..=vars.len() {
        let t = dispatch_threshold(&vars, n);
        let below = vars.iter().filter(|&&v| by_variance(v, t, false)).count();
        assert!(below <= n);
    }
    assert_eq!(dispatch_threshold(&vars, 3), 7);
    assert_eq!(vars.iter().filter(|&&v| by_variance(v, 7, false)).count(), 3);
}

#[test]
fn blocks_without_residual_are_settled() {
    let mut m = single_choice(6, 0, 1, ZEROMV, (0, 0), 0);
    m.tx_size = 2;
    let (kept, bits, sse) = settled(m, false, 7, 300, 40, 90, 1);
    assert_eq!((kept.skip, kept.tx_size, bits, sse), (false, 2, 300, 40));
    let (bare, bits, sse) = settled(m, true, 7, 300, 40, 90, 1);
    assert_eq!((bare.skip, bare.tx_size, bits, sse), (true, 1, 0, 90));
    // Where there were no coefficients the error is that of the trial.
    assert_eq!(settled(m, true, 0, 300, 40, 90, 1).2, 40);
    // Below 8x8 the transform size is fixed.
    let small = single_choice(2, 0, 1, ZEROMV, (0, 0), 0);
    assert_eq!(settled(small, true, 7, 300, 40, 90, 1).0.tx_size, 0);
}

#[test]
fn a_block_is_trimmed_as_a_whole() {
    let q = Steps { dc: 10, ac: 4, shift: 0 };
    let scan: Vec<i16> = vec![0, 2, 1, 3];
    // Levels in scan order: 3, -2, 0, 1.
    let (levels, dq) = (vec![3, 0, -2, 1], vec![30, 0, -8, 4]);
    let size = |l: &Vec<i32>, _d: &Vec<i32>, e: usize| {
        l.iter().map(|v| v.unsigned_abs() as u64).sum::<u64>() + e as u64
    };
    // Smaller always costs less: the last level goes, then all.
    let all = trellis_eob(levels.clone(), dq.clone(), scan.clone(), q, 4, size);
    assert_eq!(all, (vec![0; 4], vec![0; 4], 0, 0));
    // A judge that wants the second level in scan order to stay at one.
    let judge = |l: &Vec<i32>, d: &Vec<i32>, e: usize| {
        let miss = if l[2] == -1 { 0 } else { 100 };
        size(l, d, e) + if l[2] == 0 { 1000 } else { miss }
    };
    let (l, d, e, cost) = trellis_eob(levels.clone(), dq.clone(), scan.clone(), q, 4, judge);
    // The last is dropped, and each of the others is lowered once, never more.
    assert_eq!((l, d, e), (vec![2, 0, -1, 0], vec![20, 0, -4, 0], 2));
    assert_eq!(cost, 3 + 2);
    // Nothing is better: the block stays as it is.
    let stay = trellis_eob(levels.clone(), dq.clone(), scan.clone(), q, 4, |_, _, _| 5);
    assert_eq!(stay, (levels.clone(), dq.clone(), 4, 5));
    // Step by step.
    let mut t = Trellis::new(levels, dq, scan, q, 4, 50);
    assert!(t.propose());
    assert_eq!((t.place(), t.base_eob(), t.eob()), ((3, true), 4, 2));
    assert!(!t.decide(50));
    assert!(t.propose());
    assert_eq!((t.place(), t.eob()), ((3, false), 2));
    assert!(t.decide(49));
    assert!(t.propose());
    assert_eq!(t.place(), (1, false));
    assert!(!t.decide(49));
    assert!(t.propose());
    assert!(!t.decide(49));
    assert!(!t.propose());
    assert_eq!(t.into_parts(), (vec![3, 0, -2, 0], vec![30, 0, -8, 0], 2));
}

#[test]
fn lists_of_fields_read_back() {
    let fields = [(5u32, 3u32), (0, 0), (0xffff_ffff, 32), (1, 1), (300, 9), (0, 7)];
    let mut w = BitWriter::new();
    for (v, n) in fields {
        w.put(v, n);
    }
    let bytes = w.into_bytes();
    let mut r = BitReader::new(&bytes);
    for (v, n) in fields {
        assert_eq!(r.f(n), Ok(v));
    }
}

#[test]
fn bytes_are_fetched_in_order() {
    let data: Vec<u8> = (0..40).map(|i| (i * 37) as u8).collect();
    let mut d = BoolDecoder::new(&data).unwrap();
    let mut last = d.bit_pos();
    for i in 0..600 {
        d.read_bool((i % 255 + 1) as u8);
        let now = d.bit_pos();
        assert!(now % 8 == 0 && last <= now && now <= 320);
        last = now;
    }
    assert_eq!(last, 320);
}

#[test]
fn what_is_visible_is_cropped() {
    let plane: Vec<u16> = (0..12).map(|i| 250 + i).collect();
    let f = RefFrame {
        planes: [plane.clone(), plane.clone(), plane],
        stride: [4, 4, 4],
        w: [3, 2, 1],
        h: [2, 2, 3],
        ss_x: 1,
        ss_y: 1,
        bit_depth: 8,
    };
    let (out, w, h) = f.visible_planes();
    assert_eq!(out[0], vec![250, 251, 252, 254, 255, 0]);
    assert_eq!(out[1], vec![250, 251, 254, 255]);
    assert_eq!(out[2], vec![250, 254, 2]);
    assert_eq!((w, h), ([3, 2, 1], [2, 2, 3]));
}

#[test]
fn quarters_follow_the_whole_square() {
    let rules = CutRules { bsize: 9, fits: true, sub8x8: true, split_early: true };
    let mut t = PartitionTrials::new(rules);
    assert_eq!(t.next(), CutTrial::Whole);
    t.none_tried(100, false);
    for i in 0..4 {
        assert_eq!(t.next(), CutTrial::Quarter(i));
        assert!(!t.quarter_tried(25 * (i as u64 + 1)));
    }
    assert_eq!(t.next(), CutTrial::Nothing);
    // Of equal ones the whole square is taken.
    assert_eq!(t.chosen(100), (PARTITION_NONE, 100));
    assert_eq!(t.chosen(99), (PARTITION_SPLIT, 100));
    // Quarters that cost more than the whole are given up; the last is not asked.
    let mut t = PartitionTrials::new(rules);
    t.none_tried(100, false);
    assert!(!t.quarter_tried(100));
    assert!(t.quarter_tried(101));
    assert_eq!(t.next(), CutTrial::Nothing);
    assert_eq!(t.chosen(u64::MAX), (PARTITION_NONE, 100));
    let mut t = PartitionTrials::new(CutRules { split_early: false, ..rules });
    t.none_tried(10, false);
    assert!(!t.quarter_tried(500));
    assert_eq!(t.next(), CutTrial::Quarter(1));
}

#[test]
fn squares_over_the_edge_are_only_cut() {
    let rules = CutRules { bsize: 12, fits: false, sub8x8: true, split_early: true };
    let mut t = PartitionTrials::new(rules);
    for i in 0..4 {
        assert_eq!(t.next(), CutTrial::Quarter(i));
        assert!(!t.quarter_tried(1000));
    }
    assert_eq!(t.chosen(0), (PARTITION_SPLIT, 1000));
    // A square that is good enough is not cut.
    let mut t = PartitionTrials::new(CutRules { fits: true, ..rules });
    t.none_tried(7, true);
    assert_eq!(t.next(), CutTrial::Nothing);
    assert_eq!(t.chosen(u64::MAX), (PARTITION_NONE, 7));
}

#[test]
fn the_first_of_equal_cuts_below_8x8_is_taken() {
    let rules = CutRules { bsize: 3, fits: true, sub8x8: true, split_early: false };
    let mut t = PartitionTrials::new(rules);
    t.none_tried(90, false);
    for (cut, score, best) in
        [(PARTITION_SPLIT, 80, true), (PARTITION_HORZ, 60, true), (PARTITION_VERT, 60, false)]
    {
        assert_eq!(t.next(), CutTrial::Sub(cut));
        assert_eq!(t.sub_tried(score), best);
    }
    assert_eq!(t.next(), CutTrial::Nothing);
    assert_eq!(t.chosen(60), (PARTITION_HORZ, 60));
    // A little more than the best cut may be left for the whole square.
    assert_eq!(t.chosen(90), (PARTITION_NONE, 90));
    let mut t = PartitionTrials::new(CutRules { sub8x8: false, ..rules });
    t.none_tried(90, false);
    assert_eq!(t.next(), CutTrial::Nothing);
}
