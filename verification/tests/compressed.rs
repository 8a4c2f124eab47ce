use rff_codec_vp9::block::TX_MODE_SELECT;
use rff_codec_vp9::context::FrameContext;
use rff_codec_vp9::decode::compressed::parse_compressed_header;
use rff_codec_vp9::encode::bitwriter::BoolEncoder;
use rff_codec_vp9::encode::compressed::write_compressed_header;
use rff_codec_vp9::error::Error;
use rff_codec_vp9::geom_tables::TX_MODE_TO_BIGGEST_TX;
use rff_codec_vp9::header::FrameHeader;
use rff_codec_vp9::prob::inv_remap_prob;
use rff_codec_vp9::prob_tables::NmvContext;

fn xs(s: &mut u64) -> u64 {
    *s ^= *s << 13;
    *s ^= *s >> 7;
    *s ^= *s << 17;
    *s
}

/// A reachable probability perturbation (~18% of the time): the encoder can
/// only reach probs of the form `inv_remap_prob(delta, pre)`, so perturbing
/// to one guarantees the round-trip lands exactly.
fn pert(s: &mut u64, p: u8) -> u8 {
    if xs(s) % 100 < 18 {
        inv_remap_prob((xs(s) % 255) as i32, p as i32)
    } else {
        p
    }
}
fn pert_slice(s: &mut u64, pre: &[u8], out: &mut [u8]) {
    for (i, &p) in pre.iter().enumerate() {
        out[i] = pert(s, p);
    }
}
/// MV probs are always odd (`(literal<<1)|1`).
fn pert_mv(s: &mut u64, p: u8) -> u8 {
    if xs(s) % 100 < 25 {
        ((xs(s) % 128) << 1 | 1) as u8
    } else {
        p
    }
}
fn pert_mv_slice(s: &mut u64, pre: &[u8], out: &mut [u8]) {
    for (i, &p) in pre.iter().enumerate() {
        out[i] = pert_mv(s, p);
    }
}

fn perturb_coefs(s: &mut u64, pre: &FrameContext, t: &mut FrameContext, max_tx: usize) {
    for tx in 0..=max_tx {
        for i in 0..2 {
            for j in 0..2 {
                for k in 0..6 {
                    let nctx = if k == 0 { 3 } else { 6 };
                    for l in 0..nctx {
                        for m in 0..3 {
                            t.coef_probs[tx][i][j][k][l][m] =
                                pert(s, pre.coef_probs[tx][i][j][k][l][m]);
                        }
                    }
                }
            }
        }
    }
}

fn perturb_mv(s: &mut u64, pre: &NmvContext, t: &mut NmvContext) {
    pert_mv_slice(s, &pre.joints, &mut t.joints);
    for c in 0..2 {
        t.comps[c].sign = pert_mv(s, pre.comps[c].sign);
        pert_mv_slice(s, &pre.comps[c].classes, &mut t.comps[c].classes);
        pert_mv_slice(s, &pre.comps[c].class0, &mut t.comps[c].class0);
        pert_mv_slice(s, &pre.comps[c].bits, &mut t.comps[c].bits);
        for j in 0..2 {
            let pf = pre.comps[c].class0_fp[j];
            pert_mv_slice(s, &pf, &mut t.comps[c].class0_fp[j]);
        }
        pert_mv_slice(s, &pre.comps[c].fp, &mut t.comps[c].fp);
        t.comps[c].class0_hp = pert_mv(s, pre.comps[c].class0_hp);
        t.comps[c].hp = pert_mv(s, pre.comps[c].hp);
    }
}

fn roundtrip(pre: &FrameContext, t: &FrameContext, h: &FrameHeader) {
    let mut enc = BoolEncoder::new();
    write_compressed_header(&mut enc, pre, t, h);
    let bytes = enc.finish();
    let parsed = parse_compressed_header(&bytes, h, pre).unwrap();
    assert!(&parsed == t, "compressed header round-trip mismatch");
}

#[test]
fn keyframe_compressed_header_roundtrips() {
    let mut s = 0xc0de_0001_0002_0003u64;
    let pre = FrameContext::defaults();
    for tx_mode in 0..=4usize {
        for _ in 0..40 {
            let mut t = pre.clone();
            t.tx_mode = tx_mode;
            perturb_coefs(&mut s, &pre, &mut t, TX_MODE_TO_BIGGEST_TX[tx_mode] as usize);
            pert_slice(&mut s, &pre.skip_probs.to_vec(), &mut t.skip_probs);
            if tx_mode == TX_MODE_SELECT {
                for i in 0..2 {
                    let p = pre.tx_p8x8[i];
                    pert_slice(&mut s, &p, &mut t.tx_p8x8[i]);
                    let p = pre.tx_p16x16[i];
                    pert_slice(&mut s, &p, &mut t.tx_p16x16[i]);
                    let p = pre.tx_p32x32[i];
                    pert_slice(&mut s, &p, &mut t.tx_p32x32[i]);
                }
            }
            let h = FrameHeader {
                key_frame: true,
                lossless: false,
                ..Default::default()
            };
            roundtrip(&pre, &t, &h);
        }
    }
}

#[test]
fn inter_compressed_header_roundtrips() {
    let mut s = 0xbead_0009_0008_0007u64;
    let pre = FrameContext::defaults();
    // sign_bias=[false,true,false] → compound allowed; setup_compound_reference_mode
    // resolves comp_fixed_ref=2, comp_var_ref=[1,3].
    let sign_bias = [false, true, false];
    for ref_mode in 0..=2usize {
        for _ in 0..40 {
            let mut t = pre.clone();
            t.tx_mode = 4; // SELECT — exercise tx + all coef tx sizes
            perturb_coefs(&mut s, &pre, &mut t, 3);
            pert_slice(&mut s, &pre.skip_probs.to_vec(), &mut t.skip_probs);
            for i in 0..2 {
                let p = pre.tx_p8x8[i];
                pert_slice(&mut s, &p, &mut t.tx_p8x8[i]);
                let p = pre.tx_p16x16[i];
                pert_slice(&mut s, &p, &mut t.tx_p16x16[i]);
                let p = pre.tx_p32x32[i];
                pert_slice(&mut s, &p, &mut t.tx_p32x32[i]);
            }
            for i in 0..7 {
                let p = pre.inter_mode_probs[i];
                pert_slice(&mut s, &p, &mut t.inter_mode_probs[i]);
            }
            for j in 0..4 {
                let p = pre.switchable_interp_prob[j];
                pert_slice(&mut s, &p, &mut t.switchable_interp_prob[j]);
            }
            pert_slice(
                &mut s,
                &pre.intra_inter_prob.to_vec(),
                &mut t.intra_inter_prob,
            );
            t.reference_mode = ref_mode;
            if ref_mode != 0 {
                // setup_compound_reference_mode for this sign bias.
                t.comp_fixed_ref = 2;
                t.comp_var_ref = [1, 3];
            }
            if ref_mode == 2 {
                pert_slice(
                    &mut s,
                    &pre.comp_inter_prob.to_vec(),
                    &mut t.comp_inter_prob,
                );
            }
            if ref_mode != 1 {
                for i in 0..5 {
                    let p = pre.single_ref_prob[i];
                    pert_slice(&mut s, &p, &mut t.single_ref_prob[i]);
                }
            }
            if ref_mode != 0 {
                pert_slice(&mut s, &pre.comp_ref_prob.to_vec(), &mut t.comp_ref_prob);
            }
            for j in 0..4 {
                let p = pre.y_mode_prob[j];
                pert_slice(&mut s, &p, &mut t.y_mode_prob[j]);
            }
            for j in 0..16 {
                let p = pre.partition_prob[j];
                pert_slice(&mut s, &p, &mut t.partition_prob[j]);
            }
            perturb_mv(&mut s, &pre.nmvc, &mut t.nmvc);
            let h = FrameHeader {
                key_frame: false,
                intra_only: false,
                lossless: false,
                interp_filter: 4,
                allow_high_precision_mv: true,
                ref_sign_bias: sign_bias,
                ..Default::default()
            };
            roundtrip(&pre, &t, &h);
        }
    }
}

#[test]
fn an_empty_compressed_header_is_refused() {
    let pre = FrameContext::defaults();
    let h = FrameHeader { key_frame: true, ..Default::default() };
    assert!(matches!(parse_compressed_header(&[], &h, &pre), Err(Error::EmptyInput)));
}

#[test]
fn a_compressed_header_without_updates_changes_only_the_mode() {
    let pre = FrameContext::defaults();
    let h = FrameHeader { key_frame: true, ..Default::default() };
    let mut t = pre.clone();
    t.tx_mode = 3;
    let mut enc = BoolEncoder::new();
    write_compressed_header(&mut enc, &pre, &t, &h);
    let got = parse_compressed_header(&enc.finish(), &h, &pre).unwrap();
    assert!(got == t);
    assert!(got.coef_probs == pre.coef_probs);
}

#[test]
fn intra_headers_say_nothing_of_inter_probabilities() {
    let pre = FrameContext::defaults();
    let mut a = pre;
    a.tx_mode = 4;
    a.skip_probs[1] = inv_remap_prob(9, pre.skip_probs[1] as i32);
    let mut b = a;
    b.reference_mode = 2;
    b.inter_mode_probs[0][0] = 7;
    b.partition_prob[3][1] = 9;
    b.nmvc.joints[0] = 11;
    let key = FrameHeader { key_frame: true, ..Default::default() };
    let bytes = |t: &FrameContext| {
        let mut e = BoolEncoder::new();
        write_compressed_header(&mut e, &pre, t, &key);
        e.finish()
    };
    assert_eq!(bytes(&a), bytes(&b));
    assert!(parse_compressed_header(&bytes(&b), &key, &pre) == Ok(a));
}
