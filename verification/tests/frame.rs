use rff_codec_vp9::bits::BoolDecoder;
use rff_codec_vp9::decode::tiles;
use rff_codec_vp9::encode::bitwriter::BoolEncoder;
use rff_codec_vp9::encode::frame::{assemble_frame, assemble_tiles};
use rff_codec_vp9::error::Error;

/// Splits tile data by the lengths before the tiles.
fn split_tiles(data: &[u8], n: usize) -> Vec<Vec<u8>> {
    let mut out = Vec::new();
    let mut off = 0usize;
    for i in 0..n {
        if i + 1 == n {
            out.push(data[off..].to_vec());
        } else {
            let sz =
                u32::from_be_bytes([data[off], data[off + 1], data[off + 2], data[off + 3]])
                    as usize;
            off += 4;
            out.push(data[off..off + sz].to_vec());
            off += sz;
        }
    }
    out
}

#[test]
fn tile_framing_roundtrips_and_preserves_bool_data() {
    for &n in &[1usize, 2, 4, 8] {
        let mut tiles = Vec::new();
        let mut expected = Vec::new();
        for ti in 0..n {
            let mut enc = BoolEncoder::new();
            let bools: Vec<(u32, u8)> = (0..50 + ti * 7)
                .map(|k| ((k & 1) as u32, (1 + (k * 13) % 255) as u8))
                .collect();
            for &(b, p) in &bools {
                enc.write_bool(b, p);
            }
            tiles.push(enc.finish());
            expected.push(bools);
        }
        let assembled = assemble_tiles(&tiles);
        let split = split_tiles(&assembled, n);
        assert_eq!(split, tiles, "tile split for n={n}");
        for (ti, bools) in expected.iter().enumerate() {
            let mut bd = BoolDecoder::new(&split[ti]).unwrap();
            for &(b, p) in bools {
                assert_eq!(bd.read_bool(p), b, "tile {ti} bool");
            }
        }
    }
}

#[test]
fn frame_layout_places_headers_and_tiles() {
    let uncompressed = vec![0xAAu8; 12];
    let compressed = vec![0xBBu8; 37];
    let tiles = vec![0xCCu8; 100];
    let frame = assemble_frame(&uncompressed, &compressed, &tiles);
    assert_eq!(&frame[..12], &uncompressed[..]);
    assert_eq!(&frame[12..12 + 37], &compressed[..]);
    assert_eq!(&frame[12 + 37..], &tiles[..]);
}

#[test]
fn spans_of_tiles_are_those_of_their_bytes() {
    let parts = vec![vec![1u8, 2, 3], vec![], vec![9u8; 5]];
    let data = assemble_tiles(&parts);
    let spans = tiles::split_tiles(&data, 3).unwrap();
    let got: Vec<Vec<u8>> = spans.iter().map(|s| data[s.0..s.1].to_vec()).collect();
    assert_eq!(got, parts);
}

#[test]
fn tile_lengths_that_overrun_are_errors() {
    assert!(matches!(tiles::split_tiles(&[0, 0, 0], 2), Err(Error::TileSizeOverrun)));
    assert!(matches!(tiles::split_tiles(&[0, 0, 0, 9, 1], 2), Err(Error::TileDataOverrun)));
    assert_eq!(tiles::split_tiles(&[0, 0, 0, 1, 7], 2), Ok(vec![(4, 5), (5, 5)]));
}

#[test]
fn tiles_start_at_multiples_of_64_pixels() {
    // 20 units are three 64x64 blocks, in two tiles.
    assert_eq!(tiles::tile_offset(0, 20, 1), 0);
    assert_eq!(tiles::tile_offset(1, 20, 1), 8);
    assert_eq!(tiles::tile_offset(2, 20, 1), 20);
}

#[test]
fn superblocks_of_a_tile_come_row_by_row() {
    assert_eq!(
        tiles::superblocks(0, 9, 8, 20),
        vec![(0, 8), (0, 16), (8, 8), (8, 16)]
    );
    assert_eq!(tiles::superblocks(0, 0, 0, 8), vec![]);
}
