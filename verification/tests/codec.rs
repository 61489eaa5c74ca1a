use bitcodec::decode_all;
use bitcodec::BitBuf;
use bitcodec::CodecError;

#[test]
fn make_bitbuf() {
    let mut buf = BitBuf::new();

    buf.write_bit(true);
    buf.write_bit(false);
    buf.write_bit(false);
    buf.write_bit(true);
    buf.write_bytes(&[0x12, 0x34]);
    buf.write_bit(false);
    buf.write_bit(true);
    buf.write_bit(true);
    buf.write_bit(false);
    buf.write_bytes(&[0x56, 0x78]);

    buf.write_int(0x4321, 16).unwrap();
    buf.write_bit(true);
    buf.write_bit(false);
    buf.write_bit(true);
    buf.write_bit(false);
    buf.write_int(0b10100110, 4).unwrap();
    buf.write_int(0b10100110, 6).unwrap();

    assert_eq!(
        &buf.finish(),
        &[0x91, 0x23, 0x46, 0x56, 0x78, 0x43, 0x21, 0xa6, 0x98]
    );
}

#[test]
fn make_bitbuf2() {
    let mut buf = BitBuf::new();

    buf.write_int(466, 10).unwrap();
    buf.write_int(240, 10).unwrap();

    assert_eq!(&buf.finish(), &[0b01110100, 0b10001111, 0x00]);
}

#[test]
fn empty_writer_yields_no_bytes() {
    let buf = BitBuf::new();
    assert_eq!(buf.finish(), Vec::<u8>::new());
}

#[test]
fn bits_pack_msb_first_zero_padded() {
    let mut buf = BitBuf::new();
    buf.write_bit(true);
    buf.write_bit(false);
    buf.write_bit(false);
    buf.write_bit(true);
    buf.write_bit(true);
    assert_eq!(buf.finish(), vec![0b10011000]);

    let mut nine = BitBuf::new();
    for i in 0..9 {
        nine.write_bit(i % 2 == 0);
    }
    assert_eq!(nine.finish(), vec![0b10101010, 0b10000000]);
}

#[test]
fn int_multiple_of_8_matches_bytes() {
    let mut by_int = BitBuf::new();
    by_int.write_int(0xABCD, 16).unwrap();
    let mut by_bytes = BitBuf::new();
    by_bytes.write_bytes(&[0xAB, 0xCD]);
    assert_eq!(by_int.finish(), by_bytes.finish());

    let mut by_int = BitBuf::new();
    by_int.write_bit(true);
    by_int.write_bit(true);
    by_int.write_bit(false);
    by_int.write_int(0x00C0FFEE, 32).unwrap();
    let mut by_bytes = BitBuf::new();
    by_bytes.write_bit(true);
    by_bytes.write_bit(true);
    by_bytes.write_bit(false);
    by_bytes.write_bytes(&[0x00, 0xC0, 0xFF, 0xEE]);
    assert_eq!(by_int.finish(), by_bytes.finish());
}

#[test]
fn string_padded_with_spaces_aligned() {
    let mut buf = BitBuf::new();
    buf.write_string("ABC", 5).unwrap();
    assert_eq!(buf.finish(), vec![0x41, 0x42, 0x43, 0x20, 0x20]);
}

#[test]
fn string_padded_with_spaces_unaligned() {
    let mut buf = BitBuf::new();
    buf.write_bit(true);
    buf.write_string("ABC", 5).unwrap();
    assert_eq!(buf.finish(), vec![0xA0, 0xA1, 0x21, 0x90, 0x10, 0x00]);
}

#[test]
fn string_longer_than_field_is_rejected() {
    let mut buf = BitBuf::new();
    assert_eq!(
        buf.write_string("hello", 3),
        Err(CodecError::FieldOverflow)
    );
    assert_eq!(buf.write_string("hello", 5), Ok(()));
    assert_eq!(buf.finish(), vec![0x68, 0x65, 0x6C, 0x6C, 0x6F]);
}

#[test]
fn int_width_out_of_range_is_rejected() {
    let mut buf = BitBuf::new();
    assert_eq!(buf.write_int(5, 0), Err(CodecError::InvalidFieldWidth));
    assert_eq!(buf.write_int(5, 65), Err(CodecError::InvalidFieldWidth));
    assert_eq!(buf.write_int(5, 64), Ok(()));
    assert_eq!(buf.finish(), vec![0, 0, 0, 0, 0, 0, 0, 5]);
}

#[test]
fn rejected_write_leaves_buffer_unchanged() {
    let mut touched = BitBuf::new();
    touched.write_bit(true);
    touched.write_int(3, 2).unwrap();
    assert_eq!(touched.write_int(7, 70), Err(CodecError::InvalidFieldWidth));
    assert_eq!(
        touched.write_string("wide", 2),
        Err(CodecError::FieldOverflow)
    );
    let mut clean = BitBuf::new();
    clean.write_bit(true);
    clean.write_int(3, 2).unwrap();
    assert_eq!(touched.finish(), clean.finish());
}

#[test]
fn decode_all_ten_bit_fixture() {
    let fields = decode_all(&[0b01110100, 0b10001111, 0x00], 10);
    assert_eq!(fields, vec![466, 240]);
}

#[test]
fn decode_all_drops_trailing_partial_bits() {
    assert_eq!(decode_all(&[], 10), Vec::<u32>::new());
    assert_eq!(decode_all(&[0xFF], 10), Vec::<u32>::new());
    assert_eq!(decode_all(&[0xFF, 0xFF], 10), vec![1023]);
}

#[test]
fn round_trip_uniform_widths() {
    let values: [u64; 4] = [466, 240, 1023, 0];
    let mut buf = BitBuf::new();
    for &v in values.iter() {
        buf.write_int(v, 10).unwrap();
    }
    let bytes = buf.finish();
    let fields = decode_all(&bytes, 10);
    assert_eq!(fields, vec![466, 240, 1023, 0]);
}

#[test]
fn round_trip_masks_high_bits() {
    let mut buf = BitBuf::new();
    buf.write_int(0xFFFF, 10).unwrap();
    buf.write_int(0x12345, 10).unwrap();
    let bytes = buf.finish();
    let fields = decode_all(&bytes, 10);
    assert_eq!(fields, vec![0x3FF, 0x345]);
}

#[test]
fn round_trip_cross_byte_widths() {
    let mut buf = BitBuf::new();
    for v in 0..10u64 {
        buf.write_int(v, 3).unwrap();
    }
    let bytes = buf.finish();
    let fields = decode_all(&bytes, 3);
    assert_eq!(fields, vec![0, 1, 2, 3, 4, 5, 6, 7, 0, 1]);
}

#[test]
fn replay_is_deterministic() {
    let build = || {
        let mut buf = BitBuf::new();
        buf.write_bit(true);
        buf.write_int(0x4321, 13).unwrap();
        buf.write_bytes(&[0xDE, 0xAD]);
        buf.write_string("xy", 4).unwrap();
        buf.finish()
    };
    assert_eq!(build(), build());
}

#[test]
fn round_trip_width_32() {
    let mut buf = BitBuf::new();
    buf.write_int(0xDEADBEEF, 32).unwrap();
    buf.write_int(0xFFFFFFFF, 32).unwrap();
    let bytes = buf.finish();
    assert_eq!(bytes, vec![0xDE, 0xAD, 0xBE, 0xEF, 0xFF, 0xFF, 0xFF, 0xFF]);
    assert_eq!(decode_all(&bytes, 32), vec![0xDEADBEEF, 0xFFFFFFFF]);
}

#[test]
fn round_trip_width_1() {
    let mut buf = BitBuf::new();
    for v in [1u64, 0, 0, 1, 1, 0, 1, 0].iter() {
        buf.write_int(*v, 1).unwrap();
    }
    let bytes = buf.finish();
    assert_eq!(bytes, vec![0b10011010]);
    assert_eq!(decode_all(&bytes, 1), vec![1, 0, 0, 1, 1, 0, 1, 0]);
}
