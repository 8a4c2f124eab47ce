use rff_codec_vp9::bits::BoolDecoder;
use rff_codec_vp9::block::{ALTREF_FRAME, GOLDEN_FRAME, LAST_FRAME, NEARESTMV, NEWMV};
use rff_codec_vp9::decode::counts::SWITCHABLE_INTERP_TREE;
use rff_codec_vp9::decode::modeinfo::read_inter_mode;
use rff_codec_vp9::encode::bitwriter::BoolEncoder;
use rff_codec_vp9::encode::intermode::{
    write_comp_inter, write_comp_ref, write_inter_mode, write_interp_filter, write_is_inter,
    write_single_ref,
};
use rff_codec_vp9::token::read_tree;

#[test]
fn inter_mode_roundtrips() {
    let probs = [90u8, 140, 60];
    for mode in NEARESTMV..=NEWMV {
        let mut enc = BoolEncoder::new();
        write_inter_mode(&mut enc, mode, &probs);
        let bytes = enc.finish();
        let mut bd = BoolDecoder::new(&bytes).unwrap();
        assert_eq!(read_inter_mode(&mut bd, &probs), mode);
    }
}

#[test]
fn interp_filter_roundtrips() {
    let probs = [110u8, 70];
    for filter in 0..3u8 {
        let mut enc = BoolEncoder::new();
        write_interp_filter(&mut enc, filter, &probs);
        let bytes = enc.finish();
        let mut bd = BoolDecoder::new(&bytes).unwrap();
        assert_eq!(read_tree(&mut bd, &SWITCHABLE_INTERP_TREE, &probs) as u8, filter);
    }
}

#[test]
fn single_ref_roundtrips() {
    let (p1, p2) = (100u8, 150u8);
    for rf in [LAST_FRAME, GOLDEN_FRAME, ALTREF_FRAME] {
        let mut enc = BoolEncoder::new();
        write_single_ref(&mut enc, rf, p1, p2);
        let bytes = enc.finish();
        let mut bd = BoolDecoder::new(&bytes).unwrap();
        let got = if bd.read_bool(p1) != 0 {
            if bd.read_bool(p2) != 0 {
                ALTREF_FRAME
            } else {
                GOLDEN_FRAME
            }
        } else {
            LAST_FRAME
        };
        assert_eq!(got, rf);
    }
}

#[test]
fn ref_mode_and_flag_bits_roundtrip() {
    for prob in [1u8, 50, 128, 200, 255] {
        for val in [false, true] {
            let mut enc = BoolEncoder::new();
            write_is_inter(&mut enc, val, prob);
            write_comp_inter(&mut enc, val, prob);
            write_comp_ref(&mut enc, val as u32, prob);
            let bytes = enc.finish();
            let mut bd = BoolDecoder::new(&bytes).unwrap();
            assert_eq!(bd.read_bool(prob) != 0, val);
            assert_eq!(bd.read_bool(prob) != 0, val);
            assert_eq!(bd.read_bool(prob), val as u32);
        }
    }
}
