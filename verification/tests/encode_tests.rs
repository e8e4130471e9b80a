use azamcodec::encode::{azam_encode_bytes, azam_encode_write, AzamEncode};

#[test]
fn test_azam_encode_example() {
    assert_eq!("xytxvyyf", 0xdeadbeefu32.azam_encode());
    assert_eq!("h5", 0x15u8.azam_encode());
    assert_eq!("wgg1", 0xc001u16.azam_encode());
}

#[test]
fn test_azam_encode_uints() {
    assert_eq!("0", 0x00u8.azam_encode());
    assert_eq!("1", 0x01u8.azam_encode());
    assert_eq!("f", 0x0fu8.azam_encode());
    assert_eq!("h0", 0x10u8.azam_encode());
    assert_eq!("zf", 0xffu8.azam_encode());

    assert_eq!("0", 0x0000u32.azam_encode());
    assert_eq!("1", 0x0001u32.azam_encode());
    assert_eq!("f", 0x000fu32.azam_encode());
    assert_eq!("h0", 0x0010u32.azam_encode());
    assert_eq!("zf", 0x00ffu32.azam_encode());
    assert_eq!("hgg0", 0x1000u32.azam_encode());
}

#[test]
fn test_azam_encode_macro() {
    assert_eq!("zf", 0xffu8.azam_encode());
    assert_eq!("zzzf", 0xffffu16.azam_encode());
    assert_eq!(
        "zzzzzzzzzzzzzzzzzzzzzzzzzzzzzzzf",
        0xffffffffffffffffffffffffffffffffu128.azam_encode()
    );
    let mut bytes: Vec<u8> = Vec::new();
    0xffu8.azam_encode_write(&mut bytes);
    0xffffu16.azam_encode_write(&mut bytes);
    0xffffffffffffffffffffffffffffffffu128.azam_encode_write(&mut bytes);
    assert_eq!(
        "zfzzzfzzzzzzzzzzzzzzzzzzzzzzzzzzzzzzzf",
        String::from_utf8(bytes).unwrap()
    );
}

#[test]
fn test_encode_empty_input_is_noop() {
    let mut out: Vec<u8> = Vec::new();
    let count = azam_encode_write(&[], &mut out);
    assert_eq!(0, count);
    assert!(out.is_empty());
    assert_eq!("", azam_encode_bytes(Vec::new()));
}

#[test]
fn test_encode_write_reports_bytes_consumed() {
    let src = 0xdeadbeefu32.to_be_bytes();
    let mut dst: Vec<u8> = Vec::new();
    let count = azam_encode_write(src.as_slice(), &mut dst);
    assert_eq!(4, count);
    assert_eq!("xytxvyyf", String::from_utf8(dst).unwrap());
}
