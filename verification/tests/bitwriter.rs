use rff_codec_vp9::bits::{BitReader, BoolDecoder};
use rff_codec_vp9::encode::bitwriter::{BitWriter, BoolEncoder};
use rff_codec_vp9::token::read_tree;

fn xs(s: &mut u64) -> u64 {
    *s ^= *s << 13;
    *s ^= *s >> 7;
    *s ^= *s << 17;
    *s
}

#[test]
fn bool_roundtrip_random_streams() {
    let mut s = 0x1234_5678_9abc_def0u64;
    for _ in 0..300 {
        let n = 50 + (xs(&mut s) % 500) as usize;
        let pairs: Vec<(u32, u8)> =
            (0..n).map(|_| ((xs(&mut s) & 1) as u32, (1 + xs(&mut s) % 255) as u8)).collect();
        let mut enc = BoolEncoder::new();
        for &(b, p) in &pairs {
            enc.write_bool(b, p);
        }
        let bytes = enc.finish();
        let mut dec = BoolDecoder::new(&bytes).unwrap();
        for (i, &(b, p)) in pairs.iter().enumerate() {
            assert_eq!(dec.read_bool(p), b, "mismatch at bool {i}");
        }
    }
}

#[test]
fn bool_roundtrip_every_prob() {
    for prob in 1u8..=255 {
        let bits: Vec<u32> = (0..96).map(|i| (i & 1) as u32).collect();
        let mut enc = BoolEncoder::new();
        for &b in &bits {
            enc.write_bool(b, prob);
        }
        let bytes = enc.finish();
        let mut dec = BoolDecoder::new(&bytes).unwrap();
        for &b in &bits {
            assert_eq!(dec.read_bool(prob), b, "prob {prob}");
        }
    }
}

#[test]
fn write_literal_roundtrips() {
    let mut s = 0xdead_beef_0bad_f00du64;
    let mut enc = BoolEncoder::new();
    let mut vals = Vec::new();
    for _ in 0..1000 {
        let n = 1 + (xs(&mut s) % 16) as u32;
        let v = (xs(&mut s) as u32) & ((1u32 << n) - 1);
        enc.write_literal(v, n);
        vals.push((v, n));
    }
    let bytes = enc.finish();
    let mut dec = BoolDecoder::new(&bytes).unwrap();
    for (v, n) in vals {
        assert_eq!(dec.literal(n), v);
    }
}

#[test]
fn write_tree_roundtrips_partition_shape() {
    const PARTITION_TREE: [i8; 6] = [0, 2, -1, 4, -2, -3];
    let probs = [100u8, 60, 200];
    let mut s = 0x99_44_22_11u64;
    let mut enc = BoolEncoder::new();
    let mut syms = Vec::new();
    for _ in 0..2000 {
        let sym = (xs(&mut s) % 4) as i32;
        enc.write_tree(&PARTITION_TREE, &probs, sym);
        syms.push(sym);
    }
    let bytes = enc.finish();
    let mut dec = BoolDecoder::new(&bytes).unwrap();
    for sym in syms {
        assert_eq!(read_tree(&mut dec, &PARTITION_TREE, &probs), sym);
    }
}

#[test]
fn bitwriter_roundtrips_through_bitreader() {
    let mut s = 0x5a5a_a5a5u64;
    let mut w = BitWriter::new();
    let mut fields: Vec<(u32, u32)> = Vec::new();
    for _ in 0..500 {
        let n = 1 + (xs(&mut s) % 24) as u32;
        let v = (xs(&mut s) as u32) & ((1u64 << n) - 1) as u32;
        w.put(v, n);
        fields.push((v, n));
    }
    let bytes = w.into_bytes();
    let mut r = BitReader::new(&bytes);
    for (v, n) in fields {
        assert_eq!(r.f(n).unwrap(), v);
    }
}

#[test]
fn bitwriter_signed_roundtrips() {
    let mut w = BitWriter::new();
    let cases = [0i32, 1, -1, 7, -7, 31, -31, 100, -100];
    for &v in &cases {
        w.put_signed(v, 8);
    }
    let bytes = w.into_bytes();
    let mut r = BitReader::new(&bytes);
    for &v in &cases {
        assert_eq!(r.s(8).unwrap(), v);
    }
}

#[test]
fn bitwriter_fills_up_with_zeros() {
    let mut w = BitWriter::new();
    w.put(0b101, 3);
    assert_eq!(w.bit_len(), 3);
    w.put_bit(1);
    assert_eq!(w.into_bytes(), vec![0b1011_0000]);
    assert_eq!(BitWriter::new().into_bytes(), Vec::<u8>::new());
}

#[test]
fn an_empty_message_has_its_closing_bytes() {
    let bytes = BoolEncoder::new().finish();
    assert!(!bytes.is_empty());
    let mut dec = BoolDecoder::new(&bytes).unwrap();
    assert_eq!(dec.read_bool(128), 0);
}

#[test]
fn carries_ripple_through_the_output() {
    // Unlikely ones push the interval up to its end again and again.
    let mut enc = BoolEncoder::new();
    for _ in 0..200 {
        enc.write_bool(1, 255);
    }
    let bytes = enc.finish();
    let mut dec = BoolDecoder::new(&bytes).unwrap();
    for _ in 0..200 {
        assert_eq!(dec.read_bool(255), 1);
    }
}
