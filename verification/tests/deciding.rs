use rff_codec_vp9::block::{ModeInfo, Mv, NEARESTMV, NEARMV, NEWMV, ZEROMV};
use rff_codec_vp9::decode::motion::{MvCandidates, MvList};
use rff_codec_vp9::encode::aq::{
    by_variance, dispatch_threshold, lf_level_from_q, median, sb_seg, search_level, segment_map,
    segment_qindex, sort_values, Level,
};
use rff_codec_vp9::encode::decide::{
    active_filter, active_slot, base_tx, best_suggested, choose_winner, compound_candidates,
    compound_choice, compound_vars, decide_skip, entry_score, finish_parts, full_trials, good_enough, intra_choice,
    is_negligible, keep_least, offer_tx, or_new, pick_best, rank, ref_candidates, set_part,
    single_choice, tx_of_skip, tx_order, PartChoice, Pick, Winner, GIVEN_UP,
};
use rff_codec_vp9::encode::intertrials::InterTrials;
use rff_codec_vp9::encode::modemap::{mm_key, Decision, ModeMap};
use rff_codec_vp9::encode::partition::{
    full_fit, pick_partition, place_in_superblock, var_pick_partition,
};
use rff_codec_vp9::encode::parts::{sub8x8_search_ref, PartPlan};
use rff_codec_vp9::encode::pixels::Picture;
use rff_codec_vp9::encode::predicting::best_intra_mode;

#[test]
fn the_first_of_the_least_is_picked() {
    assert_eq!(pick_best(9, &[5, 3, 3, 8]), Pick { index: 1, score: 3 });
    assert_eq!(pick_best(9, &[GIVEN_UP, GIVEN_UP]), Pick { index: 9, score: GIVEN_UP });
    assert_eq!(pick_best(9, &[]).index, 9);
}

#[test]
fn of_equal_transform_sizes_the_smaller_is_taken() {
    let mut best = Pick::none(0);
    assert!(offer_tx(&mut best, 3, 10));
    assert!(offer_tx(&mut best, 2, 10));
    assert!(!offer_tx(&mut best, 3, 10));
    assert!(offer_tx(&mut best, 3, 9));
    assert_eq!(best.index, 3);
    let still = ModeInfo { mode: NEARESTMV, mv: [(8, -8), (0, 0)], ..Default::default() };
    let fast = ModeInfo { mode: NEARESTMV, mv: [(9, -8), (0, 0)], ..Default::default() };
    assert_eq!((0..4).map(|i| tx_order(&still, 3, true, i)).collect::<Vec<_>>(), vec![3, 2, 1, 0]);
    assert_eq!((0..4).map(|i| tx_order(&fast, 3, true, i)).collect::<Vec<_>>(), vec![0, 1, 2, 3]);
    assert_eq!(tx_order(&still, 3, false, 1), 1);
}

#[test]
fn the_shortlist_keeps_the_least() {
    let mut t = [GIVEN_UP; 4];
    for v in [50u64, 10, 40, 20, 30] {
        keep_least(&mut t, v);
    }
    assert_eq!(t, [10, 20, 30, 40]);
    assert_eq!(entry_score(&t, true, 3), Some(30));
    assert_eq!(entry_score(&t, true, 9), Some(40));
    assert_eq!(entry_score(&t, true, 0), Some(10));
    assert_eq!(entry_score(&t, false, 3), None);
    assert_eq!(entry_score(&[5, GIVEN_UP, GIVEN_UP, GIVEN_UP], true, 2), None);
    assert_eq!(rank(&[30, 10, 30, 20]), vec![1, 3, 0, 2]);
    assert_eq!(full_trials(7, true, 3), 3);
    assert_eq!(full_trials(2, true, 3), 2);
    assert_eq!(full_trials(7, true, 0), 1);
    assert_eq!(full_trials(7, false, 3), 7);
}

#[test]
fn candidates_that_say_nothing_new_are_left_out() {
    let zero = (0, 0);
    assert_eq!(ref_candidates(zero, zero, zero), vec![(ZEROMV, zero)]);
    assert_eq!(
        ref_candidates((8, 0), (3, 4), (0, 2)),
        vec![(ZEROMV, zero), (NEWMV, (3, 4)), (NEARESTMV, (8, 0)), (NEARMV, (0, 2))]
    );
    // The near vector is the nearest one.
    assert_eq!(ref_candidates((8, 0), zero, (8, 0)), vec![(ZEROMV, zero), (NEARESTMV, (8, 0))]);
}

#[test]
fn pairs_of_references() {
    let searched = [true, true, true];
    assert_eq!(compound_vars(3, &[1, 2], &searched, &[5, 4, 9], false), vec![2]);
    assert_eq!(compound_vars(3, &[1, 2], &searched, &[4, 4, 9], false), vec![1]);
    assert_eq!(compound_vars(3, &[1, 2], &searched, &[5, 4, 9], true), vec![1, 2]);
    assert_eq!(compound_vars(3, &[1, 2], &[true, false, true], &[5, 4, 9], false), vec![1]);
    assert_eq!(compound_vars(3, &[1, 2], &[true, true, false], &[5, 4, 9], true), vec![]);
    let (a, b) = ((1, 1), (2, 2));
    assert_eq!(compound_candidates((a, b), None, None), vec![(ZEROMV, (0, 0), (0, 0)), (NEWMV, a, b)]);
    assert_eq!(compound_candidates((a, b), Some((a, b)), None).len(), 2);
    let all = compound_candidates((a, b), Some((b, b)), Some(((a, a), (b, a))));
    assert_eq!(&all[2..], &[(NEWMV, b, b), (NEARESTMV, a, a), (NEARMV, b, a)]);
}

#[test]
fn the_winner_is_the_least() {
    assert_eq!(choose_winner(10, None, 10), Winner::Single);
    assert_eq!(choose_winner(10, None, 9), Winner::Intra);
    assert_eq!(choose_winner(10, Some(9), 10), Winner::Compound);
    assert_eq!(choose_winner(10, Some(10), 10), Winner::Single);
    assert_eq!(choose_winner(10, Some(9), 8), Winner::Intra);
}

#[test]
fn residuals_are_left_out() {
    assert!(decide_skip(false, 0, None));
    assert!(!decide_skip(true, 0, None));
    assert!(!decide_skip(false, 3, None));
    assert!(decide_skip(false, 3, Some((7, 7))));
    assert!(!decide_skip(false, 3, Some((8, 7))));
    assert!(is_negligible(1 << 23, 23));
    assert!(!is_negligible((1 << 23) - 1, 23));
    assert!(is_negligible(0, 0));
}

#[test]
fn transform_sizes_without_a_search() {
    assert_eq!(base_tx(12, true, false, 1), 0);
    assert_eq!(base_tx(12, false, true, 1), 0);
    assert_eq!(base_tx(12, false, false, 1), 1);
    assert_eq!(base_tx(0, false, false, 3), 0);
    assert_eq!(base_tx(12, false, false, 3), 3);
    assert_eq!(tx_of_skip(12, true, false, 1), 3);
    assert_eq!(tx_of_skip(12, false, false, 1), 1);
}

#[test]
fn blocks_name_their_references_and_filters() {
    let m = single_choice(12, 1, 2, NEWMV, (4, 6), 2);
    assert_eq!((m.ref_frame, m.mv, m.mode, m.is_inter), ([2, -1], [(4, 6), (0, 0)], NEWMV, true));
    assert_eq!(active_slot(&m), 1);
    assert_eq!(active_filter(&m, 4), 2);
    assert_eq!(active_filter(&m, 1), 1);
    let i = intra_choice(6, 2, 9, 1);
    assert_eq!((i.mode, i.uv_mode, i.is_inter, i.interp_filter), (9, 1, false, 3));
}

#[test]
fn parts_of_small_blocks() {
    let c = best_suggested(10, ((1, 1), 10), ((2, 2), 9));
    assert_eq!(c, PartChoice { mode: NEARMV, mv: (2, 2), cost: 9 });
    assert_eq!(best_suggested(10, ((1, 1), 10), ((2, 2), 10)).mode, ZEROMV);
    assert!(good_enough(&c, 9));
    assert!(!good_enough(&c, 8));
    assert!(!good_enough(&PartChoice { cost: 0, ..c }, 0));
    let far = PartChoice { cost: 60, ..c };
    assert_eq!(or_new(far, (5, 5), 11), PartChoice { mode: NEWMV, mv: (5, 5), cost: 59 });
    assert_eq!(or_new(far, (5, 5), 12), far);
    let mut m = ModeInfo { sb_type: 2, is_inter: true, ..Default::default() };
    set_part(&mut m, 0, &c);
    set_part(&mut m, 2, &far);
    assert_eq!(m.bmi, [NEARMV, NEARMV, NEARMV, NEARMV]);
    set_part(&mut m, 2, &or_new(far, (5, 5), 0));
    finish_parts(&mut m);
    assert_eq!(m.bmi, [NEARMV, NEARMV, NEWMV, NEWMV]);
    assert_eq!((m.mode, m.mv[0]), (NEWMV, (5, 5)));
}

#[test]
fn squares_are_cut_by_their_scores() {
    assert_eq!(pick_partition(10, 10, 10, None), 0);
    assert_eq!(pick_partition(11, 10, 10, None), 3);
    assert_eq!(pick_partition(11, 9, GIVEN_UP, Some((1, 9))), 1);
    assert_eq!(pick_partition(11, 9, 9, Some((2, 10))), 3);
    assert_eq!(var_pick_partition(3, false, 100, 0), 0);
    assert_eq!(var_pick_partition(9, true, 5, 6), 0);
    assert_eq!(var_pick_partition(9, true, 6, 6), 3);
    assert_eq!(var_pick_partition(9, false, 5, 6), 3);
    // A block may reach beyond the lower edge, but not beyond the right one.
    assert!(full_fit(0, 0, 12, 5, 8));
    assert!(!full_fit(0, 0, 12, 4, 8));
    assert!(!full_fit(0, 0, 12, 8, 7));
    assert_eq!(place_in_superblock(12, 22, 6), (2, 3));
}

#[test]
fn decisions_are_remembered_by_block() {
    assert_eq!(mm_key(1, 2, 3), (3 << 26) | (1 << 13) | 2);
    let d = |v: i32| Decision { mi: ModeInfo::default(), predictor: (v, v), trial_tx: v as u8 };
    let mut a = ModeMap::new();
    a.insert(1, 2, 3, d(1));
    a.insert(1, 2, 6, d(2));
    assert_eq!(a.get(1, 2, 3).unwrap().predictor, (1, 1));
    assert_eq!(a.get(1, 2, 6).unwrap().trial_tx, 2);
    assert!(a.get(2, 1, 3).is_none());
    let mut b = ModeMap::new();
    b.insert(9, 9, 9, d(9));
    b.insert(1, 2, 3, d(7));
    a.merge(b);
    assert_eq!(a.get(9, 9, 9).unwrap().predictor, (9, 9));
    assert_eq!(a.get(1, 2, 3).unwrap().predictor, (7, 7));
    assert_eq!(a.get(1, 2, 6).unwrap().predictor, (2, 2));
    a.clear();
    assert!(a.get(1, 2, 3).is_none());
}

#[test]
fn superblocks_by_variance() {
    assert_eq!(sort_values(&[3, -1, 3, 2]), vec![-1, 2, 3, 3]);
    assert_eq!(median(&[5, 1, 9, 7]), 7);
    assert_eq!(segment_map(&[5, 1, 9, 7], 7), vec![0, 0, 1, 0]);
    assert_eq!(segment_qindex(60, 10), (50, 70));
    assert_eq!(segment_qindex(250, 10), (240, 255));
    assert_eq!(segment_qindex(5, 10), (1, 15));
    assert_eq!(sb_seg(true, &[0, 1, 1, 0], 2, 8, 7), 1);
    assert_eq!(sb_seg(false, &[0, 1, 1, 0], 2, 8, 7), 0);
    assert_eq!(sb_seg(true, &[], 2, 8, 7), 0);
    assert_eq!(dispatch_threshold(&[5, 1, 9], 0), i64::MIN);
    assert_eq!(dispatch_threshold(&[5, 1, 9], 1), 5);
    assert_eq!(dispatch_threshold(&[5, 1, 9], 3), i64::MAX);
    assert!(by_variance(4, 5, false) && !by_variance(5, 5, false));
    assert!(by_variance(5, 5, true) && !by_variance(4, 5, true));
}

#[test]
fn the_loop_filter_is_searched() {
    let error = |best: i64| move |l: u32| ((l as i64 - best) * (l as i64 - best)) as u64;
    for best in [1i64, 7, 13, 30, 45, 60, 63] {
        let plain = (best * best) as u64;
        assert_eq!(search_level(error(best), plain), Level { level: best as u32, sse: 0 });
    }
    // No filter is kept where none is better.
    assert_eq!(search_level(|_| 10, 10), Level { level: 0, sse: 10 });
    assert_eq!(lf_level_from_q(0, true), (279970 + (1 << 17)) >> 18);
    assert_eq!(lf_level_from_q(100, false), (100 * 17952 + 1823274 + (1 << 17)) >> 18);
    assert_eq!(lf_level_from_q(2000, true), 63);
}

#[test]
fn parts_get_what_fits_each() {
    let list = MvList { mvs: [(8, 16), (24, 0)], count: 2 };
    let cands = MvCandidates { lists: [[[list; 5]; 4]; 2] };
    let plan = PartPlan { hp: false, prescreen: 64, exhaustive: true };
    // The first part stands still, the second follows the near vector, the third needs a
    // new one, and the fourth is far off whatever it gets.
    let wanted: [Mv; 4] = [(0, 0), (8, 16), (16, -8), (0, 0)];
    let score = |part: usize, mv: Mv| -> i64 {
        let w = wanted[part];
        100 * ((mv.0 - w.0).abs() + (mv.1 - w.1).abs()) as i64 + if part == 3 { 1000 } else { 0 }
    };
    let (m, total) = sub8x8_search_ref(&cands, 0, 2, 1, plan, score);
    assert_eq!(m.bmi, [ZEROMV, NEARMV, NEWMV, ZEROMV]);
    assert_eq!(m.bmi_mv.map(|v| v[0]), [(0, 0), (8, 16), (16, -8), (0, 0)]);
    assert_eq!(total, 48 + 1000);
    assert_eq!((m.mode, m.mv[0], m.ref_frame, m.interp_filter), (ZEROMV, (0, 0), [2, -1], 1));
    // In a block of two columns each part stands for the one below it.
    let (tall, _) = sub8x8_search_ref(&cands, 1, 1, 0, plan, score);
    assert_eq!(tall.bmi, [ZEROMV, NEARMV, ZEROMV, NEARMV]);
    assert_eq!(tall.mv[0], (8, 16));
    // In one of two rows each stands for the one beside it.
    let (wide, sum) = sub8x8_search_ref(&cands, 2, 1, 0, plan, score);
    assert_eq!(wide.bmi, [ZEROMV, ZEROMV, NEWMV, NEWMV]);
    assert_eq!(sum, 48);
}

#[test]
fn the_first_of_equal_intra_modes_is_taken() {
    let src = Picture { buf: vec![10; 64], stride: 8, w: 8, h: 8, ss_x: 0, ss_y: 0 };
    assert_eq!(best_intra_mode(&src, 4, 4, |_| [9; 16]), 0);
    assert_eq!(best_intra_mode(&src, 4, 4, |m| if m == 9 { [10; 16] } else { [9; 16] }), 9);
    assert_eq!(best_intra_mode(&src, 0, 0, |m| [10 + (m as u16 + 1) % 3; 16]), 2);
}

#[test]
fn the_cheapest_trial_wins() {
    let mut t = InterTrials::new(6, 1, 0);
    assert_eq!(
        t.search_done(0, (8, 0), (10, 2), (0, 4)),
        vec![(ZEROMV, (0, 0)), (NEWMV, (10, 2)), (NEARESTMV, (8, 0)), (NEARMV, (0, 4))]
    );
    for (mode, mv, e) in [(ZEROMV, (0, 0), 50), (NEWMV, (10, 2), 20), (NEARESTMV, (8, 0), 30)] {
        assert_eq!(t.entry(3), None);
        t.estimated(0, mode, mv, e);
    }
    assert_eq!(t.entry(3), Some(50));
    t.estimated(0, NEARMV, (0, 4), 20);
    assert_eq!(t.entry(3), Some(30));
    assert_eq!(t.search_done(2, (0, 0), (0, 0), (0, 0)), vec![(ZEROMV, (0, 0))]);
    t.estimated(2, ZEROMV, (0, 0), 90);
    // Equal estimates are tried as they came.
    assert_eq!(t.shortlist(3), vec![1, 3, 2]);
    assert_eq!(t.shortlist(9), vec![1, 3, 2, 0, 4]);
    assert_eq!(t.block(4).ref_frame, [3, -1]);
    assert_eq!(t.partners(3, &[1, 2], false), vec![1]);
    assert_eq!(t.partners(2, &[1, 3], true), Vec::<usize>::new());
    assert!(t.single_tried(1, 500));
    assert!(t.single_tried(3, 400));
    assert!(!t.single_tried(2, 400));
    assert_eq!(t.winner(), (Winner::Single, 400));
    let (m, predictor) = t.chosen();
    assert_eq!((m.mode, m.mv[0], predictor), (NEARMV, (0, 4), (8, 0)));
    let pair = compound_choice(6, 1, (1, 3), NEWMV, ((10, 2), (0, 0)), 0);
    assert!(!t.pair_tried(pair, 400));
    assert!(t.pair_tried(pair, 399));
    assert!(!t.pair_tried(pair, 399));
    assert_eq!(t.winner(), (Winner::Compound, 399));
    assert_eq!(t.chosen().0.ref_frame, [1, 3]);
    // An intra block that is as good as the pair is taken.
    t.intra_tried(intra_choice(6, 1, 9, 0), 399);
    assert_eq!(t.winner(), (Winner::Intra, 399));
    assert_eq!(t.chosen().0.mode, 9);
}

#[test]
fn without_trials_the_first_candidate_stands() {
    let mut t = InterTrials::new(3, 0, 2);
    t.search_done(0, (2, 2), (4, 4), (0, 0));
    t.estimated(0, ZEROMV, (0, 0), 7);
    t.estimated(0, NEWMV, (4, 4), 5);
    assert_eq!(t.winner(), (Winner::Single, GIVEN_UP));
    let (m, predictor) = t.chosen();
    assert_eq!((m.mode, m.interp_filter, predictor), (ZEROMV, 2, (2, 2)));
}
