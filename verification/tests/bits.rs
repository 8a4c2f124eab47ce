use rff_codec_vp9::bits::{BitReader, BoolDecoder};
use rff_codec_vp9::error::Error;

#[test]
fn bitreader_msb_first() {
    let mut r = BitReader::new(&[0xA2, 0x49]);
    assert_eq!(r.f(2).unwrap(), 0b10);
    assert_eq!(r.f1().unwrap(), 1);
    assert_eq!(r.f1().unwrap(), 0);
    assert_eq!(r.f(4).unwrap(), 0b0010);
    assert_eq!(r.f(8).unwrap(), 0x49);
}

#[test]
fn bool_decoder_runs() {
    let mut b = BoolDecoder::new(&[0x80, 0x00, 0xFF, 0x55]).unwrap();
    let _ = b.literal(8);
    let _ = b.read_bool(128);
    assert!(b.range() >= 128);
}

#[test]
fn reading_past_the_end_is_an_error() {
    let mut r = BitReader::new(&[0xff]);
    assert_eq!(r.f(8), Ok(0xff));
    assert_eq!(r.f1(), Err(Error::PastEnd));
    assert_eq!(r.bit_pos(), 8);
}

#[test]
fn signed_fields_have_their_sign_last() {
    // 101 1: five, negative; 011 0: three.
    let mut r = BitReader::new(&[0b1011_0110]);
    assert_eq!(r.s(3), Ok(-5));
    assert_eq!(r.s(3), Ok(3));
}

#[test]
fn an_empty_section_is_refused() {
    assert!(matches!(BoolDecoder::new(&[]), Err(Error::EmptyInput)));
}

#[test]
fn bool_decoder_reads_zeros_behind_its_data() {
    let mut b = BoolDecoder::new(&[0x00]).unwrap();
    for _ in 0..100 {
        assert_eq!(b.read_bool(128), 0);
    }
}
