use rff_codec_vp9::bits::BitReader;
use rff_codec_vp9::block::{ModeInfo, Mv, NEARESTMV, NEARMV, NEWMV, PARTITION_NONE, ZEROMV};
use rff_codec_vp9::context::FrameContext;
use rff_codec_vp9::decode::frame::{adapt_context, MvRef};
use rff_codec_vp9::decode::compressed::parse_compressed_header;
use rff_codec_vp9::decode::finish::visible_of;
use rff_codec_vp9::decode::motion::{append_sub8x8_mvs, MvCandidates, MvList};
use rff_codec_vp9::decode::plane::Plane;
use rff_codec_vp9::decode::partition::{Step, Task, Walk};
use rff_codec_vp9::decode::reconstructor::Reconstructor;
use rff_codec_vp9::decode::tiles::{split_tiles, superblocks, tile_offset};
use rff_codec_vp9::decode::tour::{Stop, Tour};
use rff_codec_vp9::error::Error;
use rff_codec_vp9::encode::bitwriter::BoolEncoder;
use rff_codec_vp9::encode::block::{write_inter_frame_block, write_intra_frame_block};
use rff_codec_vp9::encode::decide::{
    base_tx, compound_choice, finish_parts, intra_choice, set_part, single_choice, PartChoice,
};
use rff_codec_vp9::encode::frameenc::{finish_frame, frame_tx_mode, FrameEncoder, Planes};
use rff_codec_vp9::encode::modemap::PartMap;
use rff_codec_vp9::encode::partition::{
    cut_to_write, emit_step, full_fit, PartitionContext,
};
use rff_codec_vp9::header::{parse_uncompressed_header, FrameHeader};

fn xs(s: &mut u64) -> u64 {
    *s ^= *s << 13;
    *s ^= *s >> 7;
    *s ^= *s << 17;
    *s
}

fn flat(w: u32, h: u32, v: u16) -> Planes {
    let (c, r) = (((w + 7) / 8) as usize, ((h + 7) / 8) as usize);
    (vec![v; 64 * c * r], vec![v; 16 * c * r], vec![v; 16 * c * r])
}

fn context(e: &FrameEncoder) -> PartitionContext {
    PartitionContext {
        above_seg: vec![0; (e.canvas.mi_cols + 7) / 8 * 8],
        left_seg: [0; 8],
        mi_rows: e.canvas.mi_rows,
        mi_cols: e.canvas.mi_cols,
        is_inter: e.is_inter,
    }
}

/// What the surroundings of every block suggest.
fn suggestions() -> MvCandidates {
    let list = MvList { mvs: [(8, -16), (-24, 2)], count: 2 };
    MvCandidates { lists: [[[list; 5]; 4]; 2] }
}

fn neighbours(e: &FrameEncoder, row: usize, col: usize, tile: usize) -> (Option<ModeInfo>, Option<ModeInfo>) {
    let n = e.canvas.mi_cols;
    let above = if row > 0 { Some(e.canvas.mi[(row - 1) * n + col]) } else { None };
    let left = if col > tile { Some(e.canvas.mi[row * n + col - 1]) } else { None };
    (above, left)
}

/// A block of an inter frame with all kinds of modes.
fn some_block(s: &mut u64, e: &FrameEncoder, bsize: usize) -> ModeInfo {
    let tx = base_tx(bsize, false, false, e.tx_cap);
    let filter = (xs(s) % 3) as u8;
    let cands = suggestions();
    let pick = |s: &mut u64, mode: u8| -> Mv {
        match mode {
            NEARESTMV => (8, -16),
            NEARMV => (-24, 2),
            NEWMV => (2 * (xs(s) % 2000) as i32 - 2000, 2 * (xs(s) % 300) as i32 - 300),
            _ => (0, 0),
        }
    };
    if bsize < 3 {
        let mut m = single_choice(bsize, 0, 1 + (xs(s) % 3) as i8, ZEROMV, (0, 0), filter);
        let parts: &[usize] = match bsize {
            0 => &[0, 1, 2, 3],
            1 => &[0, 1],
            _ => &[0, 2],
        };
        for &part in parts {
            let mode = NEARESTMV + (xs(s) % 4) as u8;
            let mv = match mode {
                NEARESTMV | NEARMV => append_sub8x8_mvs(&cands, &m, mode, part, 0),
                NEWMV => pick(s, mode),
                _ => (0, 0),
            };
            set_part(&mut m, part, &PartChoice { mode, mv, cost: 0 });
        }
        finish_parts(&mut m);
        m.skip = true;
        return m;
    }
    match xs(s) % 4 {
        0 => intra_choice(bsize, tx, (xs(s) % 10) as u8, (xs(s) % 10) as u8),
        1 if e.compound => {
            let mode = NEARESTMV + (xs(s) % 4) as u8;
            let (a, b) = (pick(s, mode), pick(s, mode));
            let var = e.fc.comp_var_ref[(xs(s) % 2) as usize] as i8;
            let fixed = e.fc.comp_fixed_ref as i8;
            let mut m = compound_choice(bsize, tx, (var, fixed), mode, (a, b), filter);
            m.skip = true;
            m
        }
        _ => {
            let mode = NEARESTMV + (xs(s) % 4) as u8;
            let mv = pick(s, mode);
            let mut m = single_choice(bsize, tx, 1 + (xs(s) % 3) as i8, mode, mv, filter);
            m.skip = xs(s) % 2 == 0;
            m
        }
    }
}

/// Writes a frame of blocks without coefficients, and returns its bytes and blocks.
fn write_frame(e: &mut FrameEncoder, s: &mut u64, sub8x8: bool) -> (Vec<u8>, Vec<ModeInfo>) {
    e.set_up_references();
    let h = e.frame_header();
    let initial = e.fc;
    let mut target = initial;
    target.tx_mode = frame_tx_mode(false, false, e.tx_cap, initial.tx_mode);
    e.fc.tx_mode = target.tx_mode;
    let mut pc = context(e);
    let mut tiles: Vec<Vec<u8>> = Vec::new();
    for t in 0..(1usize << e.tile_cols_log2) {
        let start = tile_offset(t, e.canvas.mi_cols, e.tile_cols_log2);
        let end = tile_offset(t + 1, e.canvas.mi_cols, e.tile_cols_log2);
        e.begin_tile(start, end);
        let mut enc = BoolEncoder::new();
        for (row, col) in superblocks(0, e.canvas.mi_rows, start, end) {
            if col == start {
                pc.left_seg = [0; 8];
            }
            let mut walk = Walk::new(row, col);
            loop {
                let mut cut = PARTITION_NONE;
                if let Some(Task::Square { row, col, bsize }) = walk.first() {
                    if row < pc.mi_rows && col < pc.mi_cols {
                        let whole = full_fit(row, col, bsize, pc.mi_rows, pc.mi_cols);
                        let half = match bsize { 12 => 4, 9 => 2, 6 => 1, _ => 0 };
                        cut = if bsize == 3 {
                            if sub8x8 && e.is_inter { (xs(s) % 4) as usize } else { 0 }
                        } else if whole && col + half < pc.mi_cols && xs(s) % 3 == 0 {
                            0
                        } else {
                            3
                        };
                    }
                }
                match emit_step(&mut walk, &mut pc, &mut enc, &e.fc, cut) {
                    Step::Done => break,
                    Step::Next => {}
                    Step::Block { row, col, bsize } => {
                        let (above, left) = neighbours(e, row, col, start);
                        if e.is_inter {
                            let m = some_block(s, e, bsize);
                            write_inter_frame_block(
                                &mut enc, &e.fc, &m, 0, None, false, &e.sign_bias, e.interp_filter, 3,
                                &[(8, -16), (8, -16)], false, above.as_ref(), left.as_ref(),
                            );
                            e.canvas.store_mi(bsize, row, col, m);
                        } else {
                            let tx = base_tx(bsize, false, false, e.tx_cap);
                            let mut m = intra_choice(bsize, tx, (xs(s) % 10) as u8, (xs(s) % 10) as u8);
                            m.skip = true;
                            write_intra_frame_block(
                                &mut enc, &e.fc, &m, 0, None, false, above.as_ref(), left.as_ref(),
                            );
                            e.canvas.store_mi(bsize, row, col, m);
                        }
                    }
                }
            }
        }
        tiles.push(enc.finish());
    }
    let bytes = finish_frame(&h, &initial, &target, &tiles);
    (bytes, e.canvas.mi.clone())
}

/// Reads the blocks of a frame.
fn read_frame(bytes: &[u8], pre: &FrameContext) -> (FrameHeader, Reconstructor) {
    let mut r = BitReader::new(bytes);
    let mut h = parse_uncompressed_header(&mut r, &[(0, 0); 8]).unwrap();
    if !h.key_frame {
        h.subsampling_x = 1;
        h.subsampling_y = 1;
    }
    let (mut rec, end) = Reconstructor::begin(&h, bytes, pre, None).unwrap();
    let data = &bytes[end..];
    let (mut tour, mut b) = Tour::begin(data, h.tile_rows_log2, h.tile_cols_log2, &mut rec).unwrap();
    loop {
        match tour.next(&mut rec, &mut b).unwrap() {
            Stop::End => break,
            Stop::Further => {}
            Stop::Block { row, col, bsize } => {
                let m = if rec.is_inter_frame {
                    let mut m = rec.read_inter_frame_prelude(&mut b, row, col, bsize);
                    if m.is_inter {
                        rec.read_inter_frame_head(&mut b, row, col, 3, &mut m);
                        rec.read_inter_frame_motion(&mut b, &suggestions(), 3, &mut m);
                    } else {
                        rec.read_inter_frame_intra(&mut b, &mut m);
                    }
                    m
                } else {
                    rec.read_intra_frame_block(&mut b, row, col, bsize)
                };
                rec.store_mi(row, col, m);
            }
        }
    }
    (h, rec)
}

fn assert_same(got: &ModeInfo, want: &ModeInfo, i: usize) {
    assert_eq!(got.sb_type, want.sb_type, "size of cell {i}");
    assert_eq!(got.skip, want.skip, "skip of cell {i}");
    assert_eq!(got.tx_size, want.tx_size, "transform of cell {i}");
    assert_eq!(got.is_inter, want.is_inter, "kind of cell {i}");
    assert_eq!(got.mode, want.mode, "mode of cell {i}");
    assert_eq!(got.ref_frame, want.ref_frame, "references of cell {i}");
    assert_eq!(got.mv, want.mv, "vectors of cell {i}");
    assert_eq!(got.interp_filter, want.interp_filter, "filter of cell {i}");
    if got.is_inter {
        assert_eq!(got.bmi_mv, want.bmi_mv, "vectors of the parts of cell {i}");
    } else {
        assert_eq!(got.uv_mode, want.uv_mode, "chroma mode of cell {i}");
    }
}

fn assert_reads_back(bytes: &[u8], blocks: &[ModeInfo], pre: &FrameContext) -> Reconstructor {
    let (_, rec) = read_frame(bytes, pre);
    assert_eq!(rec.mi.len(), blocks.len());
    for (i, (got, want)) in rec.mi.iter().zip(blocks).enumerate() {
        assert_same(got, want, i);
    }
    rec
}

#[test]
fn key_frames_of_blocks_read_back() {
    let mut s = 0x0123_4567_89ab_cdefu64;
    for (w, h) in [(64, 64), (128, 128), (72, 40), (200, 136), (8, 8)] {
        let mut e = FrameEncoder::new(w, h, 60, &flat(w, h, 7), None);
        let (bytes, blocks) = write_frame(&mut e, &mut s, false);
        let rec = assert_reads_back(&bytes, &blocks, &FrameContext::defaults());
        assert!(!rec.is_inter_frame);
    }
}

#[test]
fn inter_frames_of_blocks_read_back() {
    let mut s = 0xfeed_beef_1357_9bdfu64;
    for (w, h) in [(64, 64), (128, 128), (72, 40), (200, 136)] {
        for _ in 0..4 {
            let mut e = FrameEncoder::new(w, h, 60, &flat(w, h, 7), Some(flat(w, h, 9)));
            e.hp_mv = false;
            let (bytes, blocks) = write_frame(&mut e, &mut s, true);
            let rec = assert_reads_back(&bytes, &blocks, &FrameContext::defaults());
            assert!(rec.is_inter_frame);
        }
    }
}

#[test]
fn frames_with_two_references_read_back() {
    let mut s = 0x1111_2222_3333_4444u64;
    for ahead in [false, true] {
        let mut pairs = 0;
        for _ in 0..6 {
            let (w, h) = (136, 64);
            let mut e = FrameEncoder::new(w, h, 60, &flat(w, h, 7), Some(flat(w, h, 9)));
            e.hp_mv = false;
            e.set_golden(flat(w, h, 3));
            if ahead {
                e.set_altref(flat(w, h, 4));
            }
            e.set_compound(true);
            let (bytes, blocks) = write_frame(&mut e, &mut s, true);
            pairs += blocks.iter().filter(|m| m.has_second_ref()).count();
            let rec = assert_reads_back(&bytes, &blocks, &FrameContext::defaults());
            assert_eq!(rec.fc.comp_fixed_ref, if ahead { 3 } else { 2 });
        }
        assert!(pairs > 0);
    }
}

#[test]
fn frames_with_several_tiles_read_back() {
    let mut s = 0x5555_6666_7777_8888u64;
    let (w, h) = (1032, 72);
    let mut e = FrameEncoder::new(w, h, 60, &flat(w, h, 7), Some(flat(w, h, 9)));
    e.hp_mv = false;
    assert_eq!(e.tile_cols_log2, 2);
    let (bytes, blocks) = write_frame(&mut e, &mut s, true);
    assert_reads_back(&bytes, &blocks, &FrameContext::defaults());
}

#[test]
fn what_is_read_is_counted_and_adapted_to() {
    let mut s = 0x9999_aaaa_bbbb_ccccu64;
    let (w, h) = (128, 128);
    let mut e = FrameEncoder::new(w, h, 60, &flat(w, h, 7), Some(flat(w, h, 9)));
    e.hp_mv = false;
    let still = MvRef { ref_frame: [1, -1], mv: [(0, 0), (0, 0)] };
    let mut motion = vec![still; 256];
    motion[16 * 3 + 5].mv[0] = (8, -8);
    assert_eq!(e.prev_mv(3, 5), None);
    e.set_chain(FrameContext::defaults(), Some(motion));
    assert_eq!(e.prev_mv(3, 5).map(|m| m.mv[0]), Some((8, -8)));
    assert_eq!(e.prev_mv(3, 4), Some(still));
    let (bytes, blocks) = write_frame(&mut e, &mut s, true);
    let (h, rec) = read_frame(&bytes, &FrameContext::defaults());
    assert!(h.refresh_frame_context && !h.frame_parallel_decoding_mode);
    let skips: u32 = rec.counts.skip.iter().map(|r| r[0] + r[1]).sum();
    let inter: u32 = rec.counts.intra_inter.iter().map(|r| r[1]).sum();
    assert!(skips > 0 && inter > 0 && inter < skips);
    assert_eq!(blocks.len(), 256);
    let pre = FrameContext::defaults();
    let kept = adapt_context(&h, &pre, &rec.fc, &rec.counts, true);
    assert!(kept.skip_probs != pre.skip_probs);
    // No coefficients were counted, so their probabilities are as they were.
    assert!(kept.coef_probs == pre.coef_probs);
    // A frame that does not ask for it keeps its probabilities as it read them.
    let mut quiet = h;
    quiet.refresh_frame_context = false;
    assert!(adapt_context(&quiet, &pre, &rec.fc, &rec.counts, true) == rec.fc);
}

#[test]
fn motion_is_remembered_cell_by_cell() {
    let mut s = 0x2468_ace0_1357_9bdfu64;
    let (w, h) = (64, 64);
    let mut e = FrameEncoder::new(w, h, 60, &flat(w, h, 7), Some(flat(w, h, 9)));
    e.hp_mv = false;
    let (bytes, blocks) = write_frame(&mut e, &mut s, false);
    let (_, rec) = read_frame(&bytes, &FrameContext::defaults());
    let records = rec.motion_records();
    assert_eq!(records.len(), 64);
    for (r, m) in records.iter().zip(&blocks) {
        assert_eq!((r.ref_frame, r.mv), (m.ref_frame, m.mv));
    }
}

#[test]
fn cuts_are_written_as_they_were_recorded() {
    let mut map = PartMap::new();
    map.insert(8, 16, 9, 0);
    assert_eq!(cut_to_write(true, map.get(8, 16, 9), 9, 3, true, true), 0);
    // What was not recorded is cut into four.
    assert_eq!(cut_to_write(true, map.get(8, 24, 9), 9, 3, true, true), 3);
    // Without a choice, blocks of the least size are not cut, if they fit.
    assert_eq!(cut_to_write(false, None, 9, 9, true, true), 0);
    assert_eq!(cut_to_write(false, None, 9, 9, false, true), 3);
    assert_eq!(cut_to_write(false, None, 12, 9, true, true), 3);
    assert_eq!(cut_to_write(false, None, 3, 0, true, true), 0);
}

#[test]
fn tours_end_where_bytes_are_missing() {
    let mut s = 0x7777_1234_5678_9abcu64;
    let (w, h) = (1032, 72);
    let mut e = FrameEncoder::new(w, h, 60, &flat(w, h, 7), Some(flat(w, h, 9)));
    e.hp_mv = false;
    let (bytes, _) = write_frame(&mut e, &mut s, false);
    let mut r = BitReader::new(&bytes);
    let mut h = parse_uncompressed_header(&mut r, &[(0, 0); 8]).unwrap();
    h.subsampling_x = 1;
    h.subsampling_y = 1;
    let pre = FrameContext::defaults();
    let start = |data: &[u8]| {
        let (mut rec, _) = Reconstructor::begin(&h, &bytes, &pre, None).unwrap();
        Tour::begin(data, 0, 2, &mut rec).err()
    };
    assert_eq!(start(&[0, 0, 0]), Some(Error::TileSizeOverrun));
    assert_eq!(start(&[0, 0, 0, 9, 1]), Some(Error::TileDataOverrun));
    // The first tile is opened before the size of the second is looked at.
    assert_eq!(start(&[0, 0, 0, 0, 255]), Some(Error::EmptyInput));
    assert_eq!(start(&[0, 0, 0, 1, 0x55]), None);
    let (mut rec, _) = Reconstructor::begin(&h, &bytes, &pre, None).unwrap();
    assert!(matches!(Tour::begin(&[0x55], 0, 0, &mut rec), Ok(_)));
    assert_eq!((rec.tile_col_start, rec.tile_col_end), (0, 129));
    let data = [0, 0, 0, 1, 0x55];
    let (_, end) = Reconstructor::begin(&h, &bytes, &pre, None).unwrap();
    let spans = split_tiles(&bytes[end..], 4).unwrap();
    assert_eq!(spans.len(), 4);
    assert_eq!(spans[3].1, bytes.len() - end);
    assert_eq!(split_tiles(&data, 4).err(), Some(Error::TileSizeOverrun));
}

#[test]
fn whole_frames_keep_what_their_headers_give() {
    let mut s = 0x2468_ace0_1357_9bdfu64;
    let (w, hgt) = (72, 40);
    let pre = FrameContext::defaults();
    let mut e = FrameEncoder::new(w, hgt, 60, &flat(w, hgt, 7), None);
    let (bytes, _) = write_frame(&mut e, &mut s, false);
    for (refresh, parallel) in [(false, false), (true, true), (true, false)] {
        let (mut h, rec) = read_frame(&bytes, &pre);
        h.refresh_frame_context = refresh;
        h.frame_parallel_decoding_mode = parallel;
        let end = h.uncompressed_bytes + h.header_size as usize;
        let parsed = parse_compressed_header(&bytes[h.uncompressed_bytes..end], &h, &pre).unwrap();
        let plane = |ss: usize| Plane::new(w as usize, hgt as usize, ss, ss);
        let cells = rec.mi.len();
        let done = rec.finish(&h, &pre, (plane(0), plane(1), plane(1)), false);
        // No coefficients were counted, so even those stay.
        assert!(done.context == parsed);
        assert_eq!((done.motion.len(), done.segments.len()), (cells, cells));
        let (out, ws, hs) = visible_of(Ok(done)).unwrap();
        assert_eq!((ws, hs), ([72, 36, 36], [40, 20, 20]));
        assert_eq!(out[0], vec![0; 72 * 40]);
        assert_eq!(out[2], vec![0; 36 * 20]);
    }
    assert_eq!(visible_of(Err(Error::EmptyInput)).err(), Some(Error::EmptyInput));
}
