use rff_codec_vp9::bits::BoolDecoder;
use rff_codec_vp9::block::ModeInfo;
use rff_codec_vp9::context::FrameContext;
use rff_codec_vp9::decode::contexts::{
    comp_ref_context, intra_inter_context, reference_mode_context, single_ref_p1, single_ref_p2,
    switchable_interp_context,
};
use rff_codec_vp9::decode::counts::{adapt_coef_probs, FrameCounts};
use rff_codec_vp9::decode::frame::{prev_mv, MvRef, RefFrame};
use rff_codec_vp9::decode::inter::{
    average_split_mvs, block_edges, clamp_mv_umv, round_q2, round_q4, source_of, Source,
};
use rff_codec_vp9::decode::reconstructor::Reconstructor;
use rff_codec_vp9::decode::segmentation::Seg;
use rff_codec_vp9::encode::bitwriter::BoolEncoder;
use rff_codec_vp9::encode::mv::encode_mv;
use rff_codec_vp9::encode::syntax::{
    write_intra_mode, write_partition, write_segment_id, write_selected_tx_size, write_skip,
};
use rff_codec_vp9::block::{
    read_intra_mode, read_partition, read_selected_tx_size,
};
use rff_codec_vp9::decode::segmentation::SEGMENT_TREE;
use rff_codec_vp9::error::Error;
use rff_codec_vp9::header::FrameHeader;
use rff_codec_vp9::mv::{lower_mv_precision, read_mv, use_mv_hp};
use rff_codec_vp9::prob::{forward_remap_prob, inv_remap_prob};
use rff_codec_vp9::prob_tables::default_nmv_context;
use rff_codec_vp9::token::read_tree;

fn inter(r: [i8; 2]) -> ModeInfo {
    ModeInfo { is_inter: true, ref_frame: r, interp_filter: 1, ..Default::default() }
}

#[test]
fn contexts_go_by_the_neighbours() {
    let (intra, last) = (ModeInfo::default(), inter([1, -1]));
    let (golden, both) = (inter([2, -1]), inter([1, 3]));
    assert_eq!(intra_inter_context(None, None), 0);
    assert_eq!(intra_inter_context(Some(&intra), Some(&intra)), 3);
    assert_eq!(intra_inter_context(Some(&intra), Some(&last)), 1);
    assert_eq!(intra_inter_context(Some(&intra), None), 2);
    assert_eq!(switchable_interp_context(None, None), 3);
    assert_eq!(switchable_interp_context(Some(&last), None), 1);
    assert_eq!(single_ref_p1(None, None), 2);
    assert_eq!(single_ref_p1(Some(&last), Some(&last)), 4);
    assert_eq!(single_ref_p1(Some(&golden), Some(&golden)), 0);
    assert_eq!(single_ref_p2(None, None), 2);
    assert_eq!(single_ref_p2(Some(&golden), Some(&golden)), 4);
    assert_eq!(reference_mode_context(None, None, 3), 1);
    assert_eq!(reference_mode_context(Some(&both), Some(&both), 3), 4);
    let bias = [false, false, false, true];
    assert_eq!(comp_ref_context(None, None, &bias, 3, &[1, 2]), 2);
    assert_eq!(
        comp_ref_context(Some(&last), Some(&both), &bias, 3, &[1, 2]),
        comp_ref_context(Some(&both), Some(&last), &bias, 3, &[1, 2])
    );
}

#[test]
fn vectors_are_kept_near_the_frame() {
    let e = block_edges(12, 0, 0, 16, 16);
    assert_eq!(e, (0, 8 * 64, 0, 8 * 64));
    assert_eq!(block_edges(12, 8, 12, 16, 16), (-12 * 64, -4 * 64, -8 * 64, 0));
    assert_eq!(clamp_mv_umv((3, -5), 64, 64, 0, 0, e), (6, -10));
    assert_eq!(clamp_mv_umv((3, -5), 32, 32, 1, 1, e), (3, -5));
    assert_eq!(clamp_mv_umv((-9999, 9999), 64, 64, 0, 0, e), (-68 * 16, 1024 + 68 * 16 - 16));
    assert_eq!((round_q2(3), round_q2(-3), round_q2(2), round_q2(-1)), (2, -2, 1, -1));
    assert_eq!((round_q4(6), round_q4(-6), round_q4(5), round_q4(-5)), (2, -2, 1, -1));
}

#[test]
fn parts_share_their_vectors_in_chroma() {
    let mut m = ModeInfo { sb_type: 0, is_inter: true, ..Default::default() };
    m.bmi_mv = [[(4, 0), (0, 0)], [(8, 2), (0, 0)], [(-2, 4), (0, 0)], [(0, 8), (0, 0)]];
    assert_eq!(average_split_mvs(&m, 0, 2, 0, 0), (-2, 4));
    assert_eq!(average_split_mvs(&m, 0, 0, 1, 1), (3, 4));
    assert_eq!(average_split_mvs(&m, 0, 1, 0, 1), (4, 5));
    assert_eq!(average_split_mvs(&m, 0, 0, 1, 0), (6, 1));
}

#[test]
fn references_of_another_size_are_scaled() {
    let same = source_of(16, 24, (17, -33), 0, 0, (64, 64), (64, 64));
    assert_eq!(same, Source { x: 13, y: 25, subpel_x: 15, subpel_y: 1, step_x: 16, step_y: 16 });
    let double = source_of(16, 24, (0, 0), 0, 0, (64, 64), (128, 128));
    assert_eq!(double, Source { x: 32, y: 48, subpel_x: 0, subpel_y: 0, step_x: 32, step_y: 32 });
    // A reference may be many times as large.
    let large = source_of(1, 2, (0, 16), 0, 0, (4, 4), (4000, 4));
    assert_eq!((large.x, large.y, large.step_x, large.step_y), (2000, 2, 16000, 16));
    let half = source_of(17, 24, (0, 16), 0, 0, (64, 64), (32, 64));
    assert_eq!((half.x, half.subpel_x, half.step_x), (9, 0, 8));
}

#[test]
fn planes_are_cut_to_what_is_seen() {
    let rf = RefFrame {
        planes: [vec![1, 2, 9, 3, 260, 9], vec![5, 9], vec![6, 9]],
        stride: [3, 2, 2],
        w: [2, 1, 1],
        h: [2, 1, 1],
        ss_x: 1,
        ss_y: 1,
        bit_depth: 8,
    };
    assert_eq!(rf.visible(0), vec![1, 2, 3, 4]);
    assert_eq!(rf.visible(2), vec![6]);
    let r = |v: i32| MvRef { ref_frame: [1, -1], mv: [(v, v), (0, 0)] };
    let records = Some(vec![r(0), r(1), r(2), r(3)]);
    assert_eq!(prev_mv(&records, true, 2, 2, 1, 0), Some(r(2)));
    assert_eq!(prev_mv(&records, false, 2, 2, 1, 0), None);
    assert_eq!(prev_mv(&None, true, 2, 2, 1, 0), None);
}

#[test]
fn a_compressed_header_must_lie_in_the_frame() {
    let h = FrameHeader {
        key_frame: true,
        width: 64,
        height: 64,
        subsampling_x: 1,
        subsampling_y: 1,
        header_size: 5,
        uncompressed_bytes: 10,
        ..Default::default()
    };
    let pre = FrameContext::defaults();
    let fails = |h: &FrameHeader, n: usize| {
        matches!(
            Reconstructor::begin(h, &vec![0u8; n], &pre, None),
            Err(Error::CompressedHeaderOutOfBounds)
        )
    };
    assert!(fails(&h, 14));
    assert!(!fails(&h, 15));
    assert!(fails(&FrameHeader { header_size: 0, ..h }, 100));
}

#[test]
fn segments_change_the_quantizer() {
    let mut h = FrameHeader { seg_enabled: true, ..Default::default() };
    h.seg_feature_enabled[2][0] = true;
    h.seg_feature_data[2][0] = -70;
    let seg = Seg::from_header(&h);
    assert_eq!((seg.qindex(0, 60), seg.qindex(2, 60), seg.qindex(2, 200)), (60, 0, 130));
    h.seg_abs_delta = true;
    h.seg_feature_data[2][0] = 300;
    assert_eq!(Seg::from_header(&h).qindex(2, 60), 255);
    h.seg_enabled = false;
    assert_eq!(Seg::from_header(&h).qindex(2, 60), 60);
}

#[test]
fn vectors_read_back() {
    let n = default_nmv_context();
    let reference = (10, -20);
    let cases = [(10, -20), (12, -20), (10, 44), (-300, 1000), (16000, -16000), (11, -21)];
    for hp in [false, true] {
        let cases: Vec<(i32, i32)> =
            cases.iter().copied().filter(|c| hp || (c.0 % 2 == 0 && c.1 % 2 == 0)).collect();
        let mut enc = BoolEncoder::new();
        for &c in &cases {
            encode_mv(&mut enc, c, reference, &n, hp);
        }
        let bytes = enc.finish();
        let mut b = BoolDecoder::new(&bytes).unwrap();
        let mut counts = FrameCounts::zeroed();
        for &c in &cases {
            assert_eq!(read_mv(&mut b, reference, &n, hp, &mut counts), c);
        }
        assert_eq!(counts.mv.joints.iter().sum::<u32>(), cases.len() as u32);
    }
    assert!(use_mv_hp((63, -63)) && !use_mv_hp((64, 0)));
    assert_eq!(lower_mv_precision((5, -5), true), (5, -5));
    assert_eq!(lower_mv_precision((5, -5), false), (4, -4));
    assert_eq!(lower_mv_precision((65, -3), true), (64, -2));
}

#[test]
fn elements_of_blocks_read_back() {
    let probs3 = [100u8, 60, 200];
    let probs9 = [10u8, 40, 70, 100, 130, 160, 190, 220, 250];
    let probs7 = [30u8, 60, 90, 120, 150, 180, 210];
    let mut enc = BoolEncoder::new();
    for p in 0..4 {
        write_partition(&mut enc, p, &probs3, true, true);
    }
    write_partition(&mut enc, 1, &probs3, false, true);
    write_partition(&mut enc, 3, &probs3, true, false);
    write_partition(&mut enc, 3, &probs3, false, false);
    for mode in 0..10 {
        write_intra_mode(&mut enc, mode, &probs9);
    }
    for sid in 0..8 {
        write_segment_id(&mut enc, sid, &probs7);
    }
    for max in 1..4 {
        for tx in 0..=max {
            write_selected_tx_size(&mut enc, tx as u8, &probs3, max);
        }
    }
    write_skip(&mut enc, true, 77);
    let bytes = enc.finish();
    let mut b = BoolDecoder::new(&bytes).unwrap();
    for p in 0..4 {
        assert_eq!(read_partition(&mut b, &probs3, true, true), p);
    }
    assert_eq!(read_partition(&mut b, &probs3, false, true), 1);
    assert_eq!(read_partition(&mut b, &probs3, true, false), 3);
    assert_eq!(read_partition(&mut b, &probs3, false, false), 3);
    for mode in 0..10 {
        assert_eq!(read_intra_mode(&mut b, &probs9), mode);
    }
    for sid in 0..8 {
        assert_eq!(read_tree(&mut b, &SEGMENT_TREE, &probs7), sid);
    }
    for max in 1..4 {
        for tx in 0..=max {
            assert_eq!(read_selected_tx_size(&mut b, &probs3, max), tx as u8);
        }
    }
    assert_eq!(b.read_bool(77), 1);
}

#[test]
fn updates_of_probabilities_are_found() {
    for old in [1u8, 50, 128, 200, 255] {
        for v in 0..255 {
            let new = inv_remap_prob(v, old as i32);
            let code = forward_remap_prob(old, new).unwrap();
            assert_eq!(inv_remap_prob(code as i32, old as i32), new);
        }
    }
}

#[test]
fn coefficients_are_adapted_to() {
    let pre = FrameContext::defaults();
    let mut fc = pre;
    let mut counts = FrameCounts::zeroed();
    counts.coef[1][0][1][2][3] = [24, 0, 0, 0];
    adapt_coef_probs(&mut fc, &pre, &counts, 24, 112);
    let (a, b) = (pre.coef_probs[1][0][1][2][3], fc.coef_probs[1][0][1][2][3]);
    assert_eq!((a[0], a[2]), (b[0], b[2]));
    assert_eq!(b[1] as u32, (a[1] as u32 * 144 + 255 * 112 + 128) >> 8);
    fc.coef_probs[1][0][1][2][3] = a;
    assert!(fc == pre);
}
