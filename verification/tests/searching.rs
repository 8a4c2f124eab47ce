use rff_codec_vp9::block::Mv;
use rff_codec_vp9::encode::pixels::{block_sad, sad4x4_scalar, sad8x8_scalar, Picture};
use rff_codec_vp9::encode::refine::{compound_refine, search_mv_sub};
use rff_codec_vp9::encode::predicting::{pred_sse, predicted_sad_sized};
use rff_codec_vp9::encode::scoring::{
    averaged, block_sad_sized, block_tiles, luma_sse_of, part_sad, tile_sad, upscale,
    window_sse,
};
use rff_codec_vp9::encode::search::{offer, search_mv, search_subpel, Best, SearchPlan, Subpel};
use rff_codec_vp9::encode::source::{
    activity, aligned_place, count_differences, pad_rows, tf_sad, tf_search, to_coded,
};

fn picture(w: usize, h: usize, f: fn(usize, usize) -> u16) -> Picture {
    let mut buf = Vec::new();
    for y in 0..h {
        for x in 0..w {
            buf.push(f(y, x));
        }
    }
    Picture { buf, stride: w, w, h, ss_x: 0, ss_y: 0 }
}

/// A picture without repetitions in reach of a search.
fn textured(y: usize, x: usize) -> u16 {
    ((x * x * 3 + y * y * 7 + x * y * 5) % 251) as u16
}

/// The same, three rows down and five columns to the right.
fn moved(y: usize, x: usize) -> u16 {
    textured(y.saturating_sub(3), x.saturating_sub(5))
}

#[test]
fn sums_of_absolute_differences() {
    let s: Vec<u16> = (0..128).collect();
    let r: Vec<u16> = (0..128).map(|v| v + 3).collect();
    assert_eq!(sad8x8_scalar(&s, 16, &r, 16), 64 * 3);
    assert_eq!(sad4x4_scalar(&s, 16, &r, 16), 16 * 3);
    // Rows that are further apart are others.
    assert_eq!(sad4x4_scalar(&s, 4, &s, 8), 4 * (4 + 8 + 12));
}

#[test]
fn blocks_are_compared_beyond_the_edges() {
    let a = picture(16, 16, |_, _| 10);
    let b = picture(16, 16, |_, x| if x == 15 { 30 } else { 10 });
    assert_eq!(block_sad(&a, &b, 0, 0, 0, 0), 0);
    // One column of the block meets the last column of the reference.
    assert_eq!(block_sad(&a, &b, 8, 8, 0, 0), 8 * 20);
    // Beyond the edge the last column repeats.
    assert_eq!(block_sad(&a, &b, 8, 8, 0, 100), 64 * 20);
    assert_eq!(block_sad(&a, &b, 8, 8, 100, -100), 0);
}

#[test]
fn large_blocks_take_every_other_tile() {
    assert_eq!(block_tiles(0, 0, 2, 2, 1, 64, 64), vec![(0, 0), (8, 0), (0, 8), (8, 8)]);
    assert_eq!(block_tiles(32, 0, 4, 4, 2, 64, 64).len(), 4);
    // Tiles that do not lie in the plane are left out.
    assert_eq!(block_tiles(0, 0, 2, 2, 1, 12, 64), vec![(0, 0), (0, 8)]);
    let a = picture(64, 64, |_, _| 1);
    let b = picture(64, 64, |_, _| 3);
    assert_eq!(block_sad_sized(&a, &b, 0, 0, 0, 0, 2, 2, i64::MAX), 4 * 128);
    assert_eq!(block_sad_sized(&a, &b, 0, 0, 0, 0, 8, 8, i64::MAX), 16 * 128);
    assert_eq!(block_sad_sized(&a, &b, 0, 0, 0, 0, 8, 8, 16 * 128), 16 * 128);
    assert_eq!(block_sad_sized(&a, &b, 0, 0, 0, 0, 8, 8, 16 * 128 - 1), i64::MAX);
}

#[test]
fn sums_over_tiles_give_up_over_a_bound() {
    let a = picture(64, 64, |_, _| 5);
    let by_column = |x: usize, _y: usize| [5 + x as u16 / 8; 64];
    // Of two by two tiles all are looked at.
    assert_eq!(predicted_sad_sized(&a, 0, 0, 2, 2, 128, by_column), 2 * 64);
    assert_eq!(predicted_sad_sized(&a, 0, 0, 2, 2, 127, by_column), i64::MAX);
    // Of four by four every other one: columns 0 and 2.
    assert_eq!(predicted_sad_sized(&a, 0, 0, 4, 4, 10_000, by_column), 2 * 2 * 64);
    assert_eq!(predicted_sad_sized(&a, 0, 0, 4, 4, i64::MAX, |_, _| [5; 64]), 0);
    assert_eq!(pred_sse(&a, 0, 0, 4, 4, false, i64::MAX, by_column), 4 * 64 * (1 + 4 + 9));
    // Sampled, and brought back to the size of all tiles.
    assert_eq!(pred_sse(&a, 0, 0, 4, 4, true, i64::MAX, by_column), 2 * 64 * 4 * 16 / 4);
    assert_eq!(pred_sse(&a, 0, 0, 4, 4, true, 2 * 64 * 4 - 1, by_column), i64::MAX);
    assert_eq!(pred_sse(&a, 0, 0, 1, 1, true, i64::MAX, |_, _| [7; 64]), 4 * 64);
    // Tiles below the plane are left out.
    assert_eq!(pred_sse(&a, 56, 56, 2, 2, false, i64::MAX, |_, _| [7; 64]), 4 * 64);
    assert_eq!(upscale(100, 2, 6), 300);
    assert_eq!(upscale(100, 2, 2), 100);
    assert_eq!(upscale(100, 0, 5), 100);
}

#[test]
fn errors_of_predictions() {
    let a = picture(16, 16, |y, x| (y * 16 + x) as u16);
    let mut pred = [0u16; 64];
    for y in 0..8 {
        for x in 0..8 {
            pred[y * 8 + x] = ((y + 4) * 16 + x + 2 + 1) as u16;
        }
    }
    assert_eq!(tile_sad(&a, 2, 4, &pred), 64);
    assert_eq!(window_sse(&a, 2, 4, &pred, 0, 8, 8, 8), 64);
    assert_eq!(window_sse(&a, 2, 4, &pred, 0, 8, 8, 4), 32);
    let mut part = [0u16; 16];
    part[5] = (5 * 16 + 3) as u16;
    // All samples but one differ by themselves.
    let all: i64 = (0..4).map(|y| (0..4).map(|x| ((y + 4) * 16 + x + 2) as i64).sum::<i64>()).sum();
    assert_eq!(part_sad(&a, 2, 4, &part), all - (5 * 16 + 3));
    assert_eq!(luma_sse_of(&[1, 2, 3], &[3, 2, 0], 3), 4 + 9);
    assert_eq!(luma_sse_of(&[1, 2, 3], &[3, 2, 0], 2), 4);
    let mean = averaged(&[3; 64], &[6; 64]);
    assert_eq!(mean, [5; 64]);
}

#[test]
fn of_equal_vectors_the_shorter_is_better() {
    let mut b = Best { mv: (4, 4), sad: 10 };
    assert!(!offer(&mut b, (0, 0), 11));
    assert!(offer(&mut b, (0, 3), 10));
    assert!(!offer(&mut b, (3, 0), 10));
    assert!(offer(&mut b, (90, 90), 9));
    assert_eq!(b, Best { mv: (90, 90), sad: 9 });
}

fn plan(exhaustive: bool, how: Subpel) -> SearchPlan {
    SearchPlan { exhaustive, corner: false, good_enough: None, hp: false, how }
}

#[test]
fn the_search_finds_a_shift() {
    let src = picture(64, 64, textured);
    let reference = picture(64, 64, moved);
    // Fractions never fit better here.
    let worse = |_: Mv, _: i64| 1_000_000i64;
    let exhaustive = plan(true, Subpel::Grid);
    let got = search_mv(&src, &reference, 3, 3, 8, 8, (0, 0), 2, 2, exhaustive, worse);
    assert_eq!(got, (24, 40));
    // From a predictor nearby the diamond finds it too.
    let diamond = plan(false, Subpel::Diagonal);
    let got = search_mv(&src, &reference, 3, 3, 8, 8, (24, 40), 2, 2, diamond, worse);
    assert_eq!(got, (24, 40));
}

#[test]
fn a_predictor_that_fits_well_is_taken() {
    let src = picture(64, 64, textured);
    let mut p = plan(true, Subpel::Grid);
    p.good_enough = Some(1);
    let got = search_mv(&src, &src, 3, 3, 8, 8, (3, -3), 1, 1, p, |_, _| 0);
    assert_eq!(got, (3, -3));
    p.good_enough = Some(0);
    let got = search_mv(&src, &src, 3, 3, 8, 8, (3, -3), 1, 1, p, |_, _| 9);
    assert_eq!(got, (0, 0));
}

/// How far a vector is from another, as a score.
fn distance(mv: Mv, to: Mv) -> i64 {
    ((mv.0 - to.0).abs() + (mv.1 - to.1).abs()) as i64
}

#[test]
fn fractions_are_searched_around_the_best() {
    let start = |to: Mv| Best { mv: (16, 16), sad: distance((16, 16), to) };
    for how in [
        Subpel::Grid,
        Subpel::Fast { tree: false, rounds: 0 },
        Subpel::Fast { tree: true, rounds: 3 },
        Subpel::Diagonal,
    ] {
        let to = (20, 14);
        let got = search_subpel(|mv, _| distance(mv, to), start(to), false, how);
        assert_eq!(got.mv, to, "{:?}", how);
        assert_eq!(got.sad, 0);
    }
    // Eighths only where they may be coded.
    let to = (15, 16);
    let hp = |on: bool| search_subpel(|mv, _| distance(mv, to), start(to), on, Subpel::Diagonal).mv;
    assert_eq!(hp(true), (15, 16));
    // A quarter on the other side is as good, and shorter.
    assert_eq!(hp(false), (14, 16));
    // A perfect match is kept without a look.
    let done = Best { mv: (8, 8), sad: 0 };
    assert_eq!(search_subpel(|_, _| panic!("scored"), done, true, Subpel::Grid), done);
}

#[test]
fn halves_that_are_no_better_end_the_search() {
    // Only a quarter away it fits better.
    let f = |mv: Mv, _: i64| if mv == (2, 0) { 1 } else { 10 };
    let b = Best { mv: (0, 0), sad: 10 };
    let tree = Subpel::Fast { tree: true, rounds: 0 };
    let full = Subpel::Fast { tree: false, rounds: 0 };
    assert_eq!(search_subpel(f, b, false, tree).mv, (0, 0));
    assert_eq!(search_subpel(f, b, false, full).mv, (2, 0));
}

#[test]
fn vectors_of_parts_and_pairs_are_refined() {
    let to = (34, -18);
    assert_eq!(search_mv_sub(|mv, _| distance(mv, to), (0, 0), true), to);
    assert_eq!(search_mv_sub(|mv, _| distance(mv, to), (32, -16), false), to);
    assert_eq!(compound_refine(|mv, _| distance(mv, (6, 0)), (0, 0)), (6, 0));
    // A score that is the same is not less.
    assert_eq!(compound_refine(|_, _| 5, (40, 40)), (40, 40));
}

#[test]
fn frames_are_extended_to_whole_units() {
    let plane = [1u8, 2, 9, 3, 4, 9];
    let got = to_coded(&plane, 3, 2, 2, 4, 3);
    assert_eq!(got, vec![1, 2, 2, 2, 3, 4, 4, 4, 3, 4, 4, 4]);
    assert_eq!(pad_rows(&[1, 2, 3, 4], 2, 2, 4), vec![1, 2, 3, 4, 3, 4, 3, 4]);
}

#[test]
fn activity_takes_every_nth_sample() {
    let a: Vec<u16> = vec![0; 10];
    let b: Vec<u16> = (0..10).collect();
    assert_eq!(activity(&a, &b, 4), (0 + 4 + 8, 3));
    assert_eq!(activity(&a, &b[..8], 4), (0 + 4, 2));
    assert_eq!(activity(&a, &[], 4), (0, 0));
}

#[test]
fn frames_are_aligned_block_by_block() {
    let a = picture(48, 48, textured);
    let b = picture(48, 48, moved);
    assert_eq!(tf_sad(&a.buf, &a.buf, 48, 48, 16, 16, 16, (0, 0)), 0);
    assert_eq!(tf_sad(&a.buf, &b.buf, 48, 48, 16, 16, 16, (3, 5)), 0);
    assert_eq!(tf_search(&a.buf, &b.buf, 48, 48, 16, 16, 16, 8), (3, 5));
    // Of frames that are flat the block itself is best.
    let flat = vec![5u16; 48 * 48];
    assert_eq!(tf_search(&flat, &flat, 48, 48, 40, 40, 16, 8), (0, 0));
    // A window of one vector, none, and one larger than the frame.
    assert_eq!(tf_search(&a.buf, &b.buf, 48, 48, 16, 16, 16, 0), (0, 0));
    assert_eq!(tf_search(&a.buf, &b.buf, 48, 48, 16, 16, 16, -1), (0, 0));
    assert_eq!(tf_search(&a.buf, &b.buf, 48, 48, 16, 16, 4, 70), (3, 5));
    assert_eq!(tf_sad(&flat, &flat, 48, 48, 0, 0, 100, (1000, -1000)), 0);
    assert_eq!(aligned_place(0, 0, 48, 48, (-4, 3)), 3);
    assert_eq!(aligned_place(47, 47, 48, 48, (9, 9)), 48 * 48 - 1);
}

#[test]
fn differences_of_planes_are_counted() {
    let a = [1u16, 2, 0, 3, 4, 0];
    let b = [1u8, 2, 7, 9];
    assert_eq!(count_differences(&a, 3, &b, 2, 2, 2), 2);
    assert_eq!(count_differences(&a, 3, &b, 2, 2, 1), 0);
}
