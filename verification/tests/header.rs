use rff_codec_vp9::bits::BitReader;
use rff_codec_vp9::encode::bitwriter::BitWriter;
use rff_codec_vp9::encode::header::write_uncompressed_header;
use rff_codec_vp9::error::Error;
use rff_codec_vp9::header::{parse_uncompressed_header, FrameHeader};

fn xs(s: &mut u64) -> u64 {
    *s ^= *s << 13;
    *s ^= *s >> 7;
    *s ^= *s << 17;
    *s
}

/// Writes a header, reads it back, and compares all but its length.
fn roundtrip(h: &FrameHeader) {
    let mut w = BitWriter::new();
    write_uncompressed_header(&mut w, h);
    let bytes = w.into_bytes();
    let mut r = BitReader::new(&bytes);
    let parsed = parse_uncompressed_header(&mut r, &[(0, 0); 8]).unwrap();
    let mut expect = h.clone();
    expect.uncompressed_bytes = parsed.uncompressed_bytes;
    assert_eq!(parsed, expect);
}

fn key_frame(w: u32, hgt: u32) -> FrameHeader {
    FrameHeader {
        profile: 0,
        key_frame: true,
        show_frame: true,
        bit_depth: 8,
        color_space: 1, // CS_BT_601
        subsampling_x: 1,
        subsampling_y: 1,
        width: w,
        height: hgt,
        lf_ref_deltas: [1, 0, -1, -1], // spec defaults
        lf_mode_deltas: [0, 0],
        seg_tree_probs: [255; 7],
        seg_pred_probs: [255; 3],
        sized: true,
        ..Default::default()
    }
}

#[test]
fn keyframe_headers_roundtrip() {
    let mut s = 0x1122_3344_5566_7788u64;
    for _ in 0..400 {
        let mut h = key_frame(
            1 + (xs(&mut s) % 4096) as u32,
            1 + (xs(&mut s) % 4096) as u32,
        );
        h.color_space = (xs(&mut s) % 7) as u32; // 0..6 (not RGB)
        h.error_resilient = xs(&mut s) & 1 == 0;
        if !h.error_resilient {
            h.refresh_frame_context = xs(&mut s) & 1 == 0;
            h.frame_parallel_decoding_mode = xs(&mut s) & 1 == 0;
        } else {
            h.frame_parallel_decoding_mode = true;
        }
        h.frame_context_idx = (xs(&mut s) % 4) as u32;
        h.loop_filter_level = (xs(&mut s) % 64) as u32;
        h.loop_filter_sharpness = (xs(&mut s) % 8) as u32;
        h.base_q_idx = (xs(&mut s) % 256) as u32;
        h.delta_q_y_dc = (xs(&mut s) % 31) as i32 - 15;
        h.delta_q_uv_dc = (xs(&mut s) % 31) as i32 - 15;
        h.delta_q_uv_ac = (xs(&mut s) % 31) as i32 - 15;
        h.lossless = h.base_q_idx == 0
            && h.delta_q_y_dc == 0
            && h.delta_q_uv_dc == 0
            && h.delta_q_uv_ac == 0;
        h.tile_rows_log2 = (xs(&mut s) % 3) as u32;
        h.header_size = 1 + (xs(&mut s) % 60000) as u32;
        roundtrip(&h);
    }
}

#[test]
fn keyframe_with_loopfilter_and_segmentation() {
    let mut h = key_frame(1920, 1080);
    h.base_q_idx = 64;
    h.header_size = 1234;
    // Loop-filter deltas (only the updated ones must differ from defaults).
    h.lf_delta_enabled = true;
    h.lf_ref_delta_updated = [true, false, false, true];
    h.lf_ref_deltas = [3, 0, -1, 2]; // index 1,2 stay at defaults (0, -1)
    h.lf_mode_delta_updated = [false, true];
    h.lf_mode_deltas = [0, -2];
    // Segmentation with a map + feature data.
    h.seg_enabled = true;
    h.seg_update_map = true;
    h.seg_tree_probs = [120, 255, 90, 200, 255, 130, 60];
    h.seg_update_data = true;
    h.seg_abs_delta = true;
    h.seg_feature_enabled[0][0] = true; // ALT_Q (8-bit signed)
    h.seg_feature_data[0][0] = -40;
    h.seg_feature_enabled[2][2] = true; // REF_FRAME (2-bit unsigned)
    h.seg_feature_data[2][2] = 2;
    h.seg_feature_enabled[3][3] = true; // SKIP (flag, 0 bits)
    roundtrip(&h);
}

#[test]
fn inter_headers_roundtrip() {
    let mut s = 0x9090_a0a0_b0b0_c0c0u64;
    for _ in 0..200 {
        let mut h = key_frame(1280, 720);
        h.key_frame = false;
        // Inter frames carry no colour format.
        h.bit_depth = 0;
        h.color_space = 0;
        h.subsampling_x = 0;
        h.subsampling_y = 0;
        h.show_frame = xs(&mut s) & 1 == 0;
        h.intra_only = false;
        h.refresh_frame_flags = (xs(&mut s) % 256) as u32;
        for i in 0..3 {
            h.ref_frame_idx[i] = (xs(&mut s) % 8) as usize;
            h.ref_sign_bias[i] = xs(&mut s) & 1 == 0;
        }
        h.allow_high_precision_mv = xs(&mut s) & 1 == 0;
        h.interp_filter = (xs(&mut s) % 5) as u32; // 0..3 fixed, 4 switchable
        h.reset_frame_context = (xs(&mut s) % 4) as u32;
        h.base_q_idx = 1 + (xs(&mut s) % 255) as u32;
        h.lossless = false;
        h.header_size = 1 + (xs(&mut s) % 60000) as u32;
        roundtrip(&h);
    }
}

fn parse(bytes: &[u8]) -> Result<FrameHeader, Error> {
    let mut r = BitReader::new(bytes);
    parse_uncompressed_header(&mut r, &[(64, 48); 8])
}

#[test]
fn headers_that_are_wrong_are_refused() {
    // The first two bits are not the marker.
    assert!(matches!(parse(&[0x00; 16]), Err(Error::BadFrameMarker)));
    // A key frame without its sync code.
    let mut w = BitWriter::new();
    w.put(2, 2);
    w.put(0, 2);
    w.put(0, 1);
    w.put(0, 1);
    w.put(1, 1);
    w.put(0, 1);
    w.put(0x123456, 24);
    w.put(0, 64 / 2);
    assert!(matches!(parse(&w.into_bytes()), Err(Error::BadSyncCode)));
    // Nothing but a marker.
    assert!(matches!(parse(&[0x80]), Err(Error::PastEnd)));
}

#[test]
fn a_frame_is_shown_again_by_its_header_alone() {
    let h = FrameHeader { show_existing_frame: true, frame_to_show: 5, ..Default::default() };
    let mut w = BitWriter::new();
    write_uncompressed_header(&mut w, &h);
    let bytes = w.into_bytes();
    assert_eq!(bytes.len(), 1);
    let got = parse(&bytes).unwrap();
    assert!(got.show_existing_frame);
    assert_eq!(got.frame_to_show, 5);
}
