use rff_codec_vp9::bits::BitReader;
use rff_codec_vp9::block::ModeInfo;
use rff_codec_vp9::encode::frameenc::{
    choose_tile_cols, guard_marker, ref_hist_take, set_segments, FrameEncoder, Planes,
    RefHistogram, Tools,
};
use rff_codec_vp9::encode::pixels::Picture;
use rff_codec_vp9::encode::sequence::{
    on_frame, plan_group, qindex_setting, Action, Intake, Slots,
};
use rff_codec_vp9::encode::snapshot::Canvas;
use rff_codec_vp9::encode::superframe::pack_superframe;
use rff_codec_vp9::header::parse_uncompressed_header;

fn planes(w: usize, h: usize) -> Planes {
    let n = (w + 7) / 8 * ((h + 7) / 8);
    ((0..64 * n).map(|i| (i % 200) as u16).collect(), vec![1; 16 * n], vec![2; 16 * n])
}

#[test]
fn superframes_list_their_frames() {
    assert_eq!(pack_superframe(&[vec![1, 2, 3]]), vec![1, 2, 3, 0xc0, 3, 0xc0]);
    let out = pack_superframe(&[vec![9; 300], vec![8; 2]]);
    assert_eq!(out.len(), 302 + 6);
    assert_eq!(&out[302..], &[0xc9, 44, 1, 2, 0, 0xc9]);
    let out = pack_superframe(&[vec![0; 70_000], vec![], vec![1]]);
    let marker = 0xc0 | (2 << 3) | 2;
    assert_eq!(out[out.len() - 1], marker);
    assert_eq!(out[70_001], marker);
    assert_eq!(&out[70_002..70_005], &[112, 17, 1]);
}

#[test]
fn groups_are_coded_around_their_last_frame() {
    assert_eq!(plan_group(0, true, false), vec![]);
    assert_eq!(
        plan_group(2, true, false),
        vec![Action::Key { frame: 0 }, Action::Plain { frame: 1 }]
    );
    assert_eq!(
        plan_group(3, false, true),
        vec![Action::Plain { frame: 0 }, Action::Plain { frame: 1 }, Action::Plain { frame: 2 }]
    );
    assert_eq!(
        plan_group(4, true, false),
        vec![
            Action::Key { frame: 0 },
            Action::Hidden { frame: 3, from: 1 },
            Action::Paired { frame: 1 },
            Action::Forward { frame: 2 },
            Action::Show { frame: 3 },
        ]
    );
    let plan = plan_group(9, false, false);
    assert_eq!(plan[0], Action::Hidden { frame: 8, from: 4 });
    assert_eq!(plan[1], Action::Paired { frame: 0 });
    assert_eq!(plan.len(), 10);
}

#[test]
fn every_frame_of_a_group_is_shown_once() {
    for n in 0..12 {
        for key in [false, true] {
            for still in [false, true] {
                let shown: Vec<usize> = plan_group(n, key, still)
                    .iter()
                    .filter_map(|a| match *a {
                        Action::Hidden { .. } => None,
                        Action::Key { frame }
                        | Action::Plain { frame }
                        | Action::Paired { frame }
                        | Action::Forward { frame }
                        | Action::Show { frame } => Some(frame),
                    })
                    .collect();
                assert_eq!(shown, (0..n).collect::<Vec<_>>());
            }
        }
    }
}

#[test]
fn slots_take_turns() {
    let mut s = Slots::new();
    assert_eq!(s.refs(), [0, 1, 2]);
    s.turn();
    assert_eq!(s.refs(), [0, 2, 1]);
}

#[test]
fn settings_of_a_sequence() {
    assert_eq!(qindex_setting(Some(300), Some(1), None, 64), 255);
    assert_eq!(qindex_setting(None, Some(20), Some(5), 64), 80);
    assert_eq!(qindex_setting(None, Some(0), None, 64), 1);
    assert_eq!(qindex_setting(None, Some(u32::MAX), None, 64), 255);
    assert_eq!(qindex_setting(None, None, Some(5), 64), 5);
    assert_eq!(qindex_setting(None, None, None, 64), 64);
    assert_eq!(on_frame(true, 8, 100), Intake::Keep);
    assert_eq!(on_frame(false, 8, 6), Intake::Keep);
    assert_eq!(on_frame(false, 8, 7), Intake::CodeGroup);
    assert_eq!(on_frame(false, 1, 0), Intake::CodeNow);
}

#[test]
fn speeds_leave_out_tools() {
    let at = |speed: u32| {
        let mut t = Tools::all();
        t.speed_up(speed);
        t
    };
    let (best, middle, fast) = (at(0), at(3), at(6));
    assert!(!Tools::all().chroma_rd);
    assert!(!middle.fast_leaves && at(4).fast_leaves && fast.fast_leaves);
    assert!(best.sub8x8 && best.full_msearch && best.use_tx_search && best.chroma_rd);
    assert!(!middle.sub8x8 && !middle.use_tx_search && middle.split_early && middle.chroma_rd);
    assert!(!middle.dispatch && fast.dispatch && !fast.chroma_rd && fast.lf_from_q);
    assert_eq!((best.gate_scale, middle.gate_scale), (1, 4));
    assert_eq!(at(5).dispatch_percent, 75);
    // What a speed has left out stays out.
    let mut back = fast;
    back.speed_up(0);
    assert!(!back.sub8x8 && back.dispatch && back.chroma_rd);
    assert_eq!((back.gate_scale, back.dispatch_percent), (4, 90));
}

#[test]
fn tiles_are_at_least_256_pixels_wide() {
    assert_eq!(choose_tile_cols(15, None), 0);
    assert_eq!(choose_tile_cols(16, None), 2);
    assert_eq!(choose_tile_cols(16, Some(6)), 2);
    assert_eq!(choose_tile_cols(7, Some(6)), 0);
    assert_eq!(choose_tile_cols(8, Some(1)), 1);
}

#[test]
fn a_frame_is_set_up_with_room_below() {
    let e = FrameEncoder::new(20, 10, 60, &planes(20, 10), None);
    assert_eq!((e.canvas.mi_cols, e.canvas.mi_rows), (3, 2));
    assert_eq!((e.src[0].stride, e.src[0].h, e.src[0].buf.len()), (24, 16, 24 * 64));
    // The last row fills the room.
    assert_eq!(e.src[0].buf[15 * 24 + 5], e.src[0].buf[63 * 24 + 5]);
    assert_eq!(e.canvas.rec[1].buf.len(), 12 * 32);
    let r = e.recon_owned();
    assert_eq!((r.0.len(), r.1.len()), (24 * 16, 12 * 8));
}

#[test]
fn hidden_frames_say_so() {
    let mut e = FrameEncoder::new(64, 64, 60, &planes(64, 64), Some(planes(64, 64)));
    e.set_hidden_altref(2);
    e.set_ref_frame_idx([0, 2, 1]);
    let h = e.frame_header();
    assert!(!h.show_frame && !h.key_frame && h.error_resilient);
    assert_eq!((h.refresh_frame_flags, h.ref_frame_idx), (4, [0, 2, 1]));
    assert_eq!(h.ref_sign_bias, [false, false, false]);
    e.set_refresh_frame_flags(1);
    assert_eq!(e.frame_header().refresh_frame_flags, 1);
}

#[test]
fn two_references_need_two_frames() {
    let mut e = FrameEncoder::new(64, 64, 60, &planes(64, 64), Some(planes(64, 64)));
    e.set_compound(true);
    e.set_up_references();
    assert!(!e.compound);
    e.set_golden(planes(64, 64));
    e.set_compound(true);
    e.set_up_references();
    assert_eq!((e.fc.comp_fixed_ref, e.fc.comp_var_ref), (2, [1, 3]));
    assert_eq!(e.frame_header().ref_sign_bias, [false, true, false]);
    e.set_altref(planes(64, 64));
    e.set_up_references();
    assert_eq!((e.fc.comp_fixed_ref, e.fc.comp_var_ref), (3, [1, 2]));
    assert_eq!(e.frame_header().ref_sign_bias, [false, false, true]);
    e.no_compound = true;
    e.set_compound(false);
    assert!(e.compound);
}

#[test]
fn two_segments_are_put_into_a_header() {
    let e = FrameEncoder::new(64, 64, 60, &planes(64, 64), None);
    let mut h = e.frame_header();
    set_segments(&mut h, 12);
    assert!(h.seg_enabled && h.seg_update_map && h.seg_update_data && !h.seg_abs_delta);
    assert_eq!((h.seg_feature_data[0][0], h.seg_feature_data[1][0]), (-12, 12));
    assert!(h.seg_feature_enabled[0][0] && h.seg_feature_enabled[1][0] && !h.seg_feature_enabled[2][0]);
    assert_eq!(h.seg_tree_probs[3], 128);
}

#[test]
fn no_frame_ends_like_a_superframe() {
    for last in 0..=255u8 {
        let mut f = vec![1, last];
        guard_marker(&mut f);
        assert_eq!(f.len(), if last & 0xe0 == 0xc0 { 3 } else { 2 });
    }
    let mut none: Vec<u8> = vec![];
    guard_marker(&mut none);
    assert!(none.is_empty());
}

#[test]
fn frames_are_shown_again() {
    for slot in 0..8 {
        let bytes = FrameEncoder::encode_show_existing_frame(slot);
        let mut r = BitReader::new(&bytes);
        let h = parse_uncompressed_header(&mut r, &[(0, 0); 8]).unwrap();
        assert!(h.show_existing_frame);
        assert_eq!(h.frame_to_show, slot);
    }
}

#[test]
fn references_are_counted() {
    let mut h = RefHistogram::new();
    let m = |r: [i8; 2]| ModeInfo { is_inter: true, ref_frame: r, ..Default::default() };
    h.count(&m([1, -1]));
    h.count(&m([3, -1]));
    h.count(&m([1, 3]));
    assert_eq!(ref_hist_take(&mut h), [1, 0, 1, 1]);
    assert_eq!(ref_hist_take(&mut h), [0; 4]);
}

fn canvas(cols: usize, rows: usize) -> Canvas {
    let plane = |w: usize, h: usize| Picture {
        buf: (0..w * h).map(|i| (i * 7 % 251) as u16).collect(),
        stride: w,
        w,
        h,
        ss_x: 0,
        ss_y: 0,
    };
    Canvas {
        rec: [plane(8 * cols, 8 * rows), plane(4 * cols, 4 * rows), plane(4 * cols, 4 * rows)],
        rows: [8 * rows, 4 * rows, 4 * rows],
        mi_rows: rows,
        mi_cols: cols,
        mi: vec![ModeInfo::default(); rows * cols],
        above_ctx: [vec![1; 2 * cols], vec![2; cols], vec![3; cols]],
        left_ctx: [[4; 16]; 3],
        above_seg: vec![5; cols],
        left_seg: [6; 8],
    }
}

#[test]
fn trials_are_taken_back() {
    let mut c = canvas(10, 9);
    let before: Vec<Vec<u16>> = c.rec.iter().map(|p| p.buf.clone()).collect();
    // The block reaches beyond the right and the lower edge.
    let snap = c.snap_block(12, 8, 8);
    assert_eq!(snap.rec[0].len(), 16 * 8);
    assert_eq!(snap.mi.len(), 2);
    assert_eq!(c.block_px(0, 12, 8, 8), (64, 64, 16, 8));
    for y in 64..72 {
        for x in 64..80 {
            c.rec[0].buf[y * 80 + x] = 9999;
        }
    }
    c.rec[2].buf[32 * 40 + 33] = 8888;
    c.above_ctx[0][19] = 0;
    c.above_ctx[1][9] = 0;
    c.left_ctx = [[0; 16]; 3];
    c.above_seg[9] = 0;
    c.left_seg = [0; 8];
    c.store_mi(12, 8, 8, ModeInfo { mode: 9, ..Default::default() });
    assert_eq!(c.mi.iter().filter(|m| m.mode == 9).count(), 2);
    c.restore_block(12, 8, 8, &snap);
    for p in 0..3 {
        assert_eq!(c.rec[p].buf, before[p]);
    }
    assert_eq!(c.above_ctx[0], vec![1; 20]);
    assert_eq!(c.above_ctx[1], vec![2; 10]);
    assert_eq!(c.left_ctx, [[4; 16]; 3]);
    assert_eq!((c.above_seg.clone(), c.left_seg), (vec![5; 10], [6; 8]));
    assert!(c.mi.iter().all(|m| m.mode == 0));
}

#[test]
fn trials_of_luma_are_taken_back() {
    let mut c = canvas(8, 8);
    let before = c.rec[0].buf.clone();
    let snap = c.snap_y(6, 2, 4);
    assert_eq!((snap.y.len(), snap.above.len()), (256, 4));
    c.rec[0].buf[16 * 64 + 32] = 7777;
    c.above_ctx[0][8] = 9;
    c.left_ctx[0][3] = 9;
    c.restore_y(6, 2, 4, &snap);
    assert_eq!(c.rec[0].buf, before);
    assert_eq!(c.above_ctx[0], vec![1; 16]);
    assert_eq!(c.left_ctx[0], [4; 16]);
}
