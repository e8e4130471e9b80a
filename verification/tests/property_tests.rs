use azamcodec::decode::{
    azam_decode_bytes, azam_decode_bytes_until, azam_decode_bytes_vec, azam_decode_read,
    AzamDecode,
};
use azamcodec::encode::{azam_encode_bytes, azam_encode_bytes_vec, AzamEncode};
use azamcodec::error::AzamError;

#[test]
fn test_round_trip_each_width() {
    for v in [0x00u8, 0x01, 0x0f, 0x10, 0x7a, 0xff] {
        assert_eq!(v, u8::azam_decode(&v.azam_encode()).unwrap());
    }
    for v in [0x0000u16, 0x0001, 0x00ff, 0x0100, 0xc001, 0xffff] {
        assert_eq!(v, u16::azam_decode(&v.azam_encode()).unwrap());
    }
    for v in [0x00000000u32, 0xdeadbeef, 0x00010000, 0xffffffff] {
        assert_eq!(v, u32::azam_decode(&v.azam_encode()).unwrap());
    }
    for v in [0u64, 0x0123456789abcdef, u64::MAX] {
        assert_eq!(v, u64::azam_decode(&v.azam_encode()).unwrap());
    }
    for v in [0u128, 0x0102030405060708090a0b0c0d0e0f10, u128::MAX] {
        assert_eq!(v, u128::azam_decode(&v.azam_encode()).unwrap());
    }
}

#[test]
fn test_canonical_shortening_is_width_independent() {
    // 0x000000ff at width 32 encodes exactly as 0xff at width 8.
    assert_eq!("zf", 0x000000ffu32.azam_encode());
    assert_eq!("zf", 0xffu8.azam_encode());
    assert_eq!(0xffu8.azam_encode(), 0x00000000000000ffu64.azam_encode());
    assert_eq!(0x15u8.azam_encode(), 0x0015u16.azam_encode());
    assert_eq!(0xc001u16.azam_encode(), 0x0000c001u32.azam_encode());
}

#[test]
fn test_lexicographic_order_same_nybble_count() {
    // Values whose significant nybbles align encode in numeric order.
    let pairs16 = [
        (0x1234u16, 0x1235u16),
        (0x1234u16, 0x2000u16),
        (0x0100u16, 0x0fffu16),
        (0x0001u16, 0x0002u16),
        (0x0000u16, 0x0001u16),
    ];
    for (a, b) in pairs16 {
        assert!(a < b);
        assert!(a.azam_encode() < b.azam_encode());
    }
    // A shorter run of significant nybbles that is a prefix of the longer
    // one also keeps the order: the low terminator precedes every high glyph.
    assert!(0x0100u16.azam_encode() < 0x1000u16.azam_encode());
}

#[test]
fn test_padding_truncation_tolerance() {
    // Decoding stops at the terminator and ignores whatever follows, even
    // unmapped bytes.
    assert_eq!(0xffu8, u8::azam_decode("zf____").unwrap());
    assert_eq!(0xffu8, u8::azam_decode("zfzzzzzzzz").unwrap());
    assert_eq!(0x0fu16, u16::azam_decode("fzzzz").unwrap());
    assert_eq!(vec![0xff], azam_decode_bytes_until("zfgarbage", 2).unwrap());
}

#[test]
fn test_multi_section_pack_unpack() {
    let sections = vec![
        0xdeadbeefu32.to_be_bytes().to_vec(),
        0x15u8.to_be_bytes().to_vec(),
        0xc001u16.to_be_bytes().to_vec(),
    ];
    assert_eq!("xytxvyyfh5wgg1", azam_encode_bytes_vec(sections));

    let input = "xytxvyyfh5wgg1".as_bytes();
    let mut pos: usize = 0;
    let x = u32::azam_decode_read(input, &mut pos).unwrap();
    let y = u8::azam_decode_read(input, &mut pos).unwrap();
    let z = u16::azam_decode_read(input, &mut pos).unwrap();
    assert_eq!((0xdeadbeefu32, 0x15u8, 0xc001u16), (x, y, z));
    assert_eq!(input.len(), pos);

    let decoded = azam_decode_bytes_vec("xytxvyyfh5wgg1").unwrap();
    assert_eq!(
        vec![vec![0xde, 0xad, 0xbe, 0xef], vec![0x15], vec![0xc0, 0x01]],
        decoded
    );
}

#[test]
fn test_error_scenarios_each_width() {
    assert_eq!(AzamError::UnexpectedEndOfInput, u8::azam_decode("").unwrap_err());
    assert_eq!(AzamError::UnexpectedEndOfInput, u16::azam_decode("").unwrap_err());
    assert_eq!(AzamError::UnexpectedEndOfInput, u32::azam_decode("").unwrap_err());
    assert_eq!(AzamError::UnexpectedEndOfInput, u64::azam_decode("").unwrap_err());
    assert_eq!(AzamError::UnexpectedEndOfInput, u128::azam_decode("").unwrap_err());

    assert_eq!(AzamError::InvalidData, u8::azam_decode("_").unwrap_err());
    assert_eq!(AzamError::InvalidData, u16::azam_decode("_").unwrap_err());
    assert_eq!(AzamError::InvalidData, u32::azam_decode("_").unwrap_err());
    assert_eq!(AzamError::InvalidData, u64::azam_decode("_").unwrap_err());
    assert_eq!(AzamError::InvalidData, u128::azam_decode("_").unwrap_err());

    // A section may not start with the high-alphabet glyph for zero.
    assert_eq!(AzamError::InvalidData, u8::azam_decode("g0").unwrap_err());
    assert_eq!(AzamError::InvalidData, u16::azam_decode("g0").unwrap_err());
    assert_eq!(AzamError::InvalidData, u32::azam_decode("g").unwrap_err());
    assert_eq!(AzamError::InvalidData, u64::azam_decode("g1").unwrap_err());
    assert_eq!(AzamError::InvalidData, u128::azam_decode("g0").unwrap_err());
}

#[test]
fn test_odd_nybble_realignment_pads_left() {
    // An odd number of significant nybbles realigns to the right: "f" is
    // the single nybble 0xf, so the value is 0x0f at every width.
    assert_eq!(0x0fu8, u8::azam_decode("f").unwrap());
    assert_eq!(0x000fu16, u16::azam_decode("f").unwrap());
    assert_eq!(0x10u8, u8::azam_decode("h0").unwrap());
    assert_eq!(vec![0x01, 0x23], azam_decode_bytes("hj3").unwrap());
    assert_eq!(vec![0x01, 0x23, 0x45], azam_decode_bytes("hjkm5").unwrap());
}

#[test]
fn test_decode_aliases_and_case_insensitive() {
    // The low glyphs for zero and one accept look-alike letters, and all
    // letters decode case-insensitively.
    assert_eq!(0x00u8, u8::azam_decode("o").unwrap());
    assert_eq!(0x00u8, u8::azam_decode("O").unwrap());
    assert_eq!(0x01u8, u8::azam_decode("i").unwrap());
    assert_eq!(0x01u8, u8::azam_decode("l").unwrap());
    assert_eq!(0x01u8, u8::azam_decode("L").unwrap());
    assert_eq!(0xffu8, u8::azam_decode("ZF").unwrap());
    assert_eq!(0xdeadbeefu32, u32::azam_decode("XYTXVYYF").unwrap());
}

#[test]
fn test_decode_bytes_forms() {
    assert_eq!(vec![0xde, 0xad, 0xbe, 0xef], azam_decode_bytes("xytxvyyfh5wgg1").unwrap());
    assert_eq!(vec![0xff], azam_decode_bytes("zf").unwrap());
    assert_eq!(vec![0x00], azam_decode_bytes("0").unwrap());
    assert_eq!(AzamError::UnexpectedEndOfInput, azam_decode_bytes("").unwrap_err());
    // The limited form fails when the terminator lies beyond the limit.
    assert_eq!(
        AzamError::UnexpectedEndOfInput,
        azam_decode_bytes_until("zzzf", 2).unwrap_err()
    );
}

#[test]
fn test_encode_decode_buffers_round_trip() {
    let bufs = [
        vec![0x00u8],
        vec![0x00, 0x00, 0x01],
        vec![0xde, 0xad, 0xbe, 0xef],
        vec![0x0f],
        vec![0x10, 0x00],
    ];
    for buf in bufs {
        let encoded = azam_encode_bytes(buf.clone());
        let input = encoded.as_bytes();
        let mut pos: usize = 0;
        let mut decoded: Vec<u8> = Vec::new();
        azam_decode_read(input, &mut pos, &mut decoded).unwrap();
        assert_eq!(pos, input.len());
        // Decoding restores the buffer up to leading zero bytes, which the
        // canonical encoding elides.
        let first_nonzero = buf.iter().position(|&b| b != 0).unwrap_or(buf.len() - 1);
        assert_eq!(&buf[first_nonzero..], decoded.as_slice());
    }
}
