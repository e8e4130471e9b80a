use azamcodec::decode::{azam_decode_read, AzamDecode};
use azamcodec::error::AzamError;

fn decode2_u8_u16(value: &str) -> Result<(u8, u16), AzamError> {
    let input = value.as_bytes();
    let mut pos: usize = 0;
    let x = u8::azam_decode_read(input, &mut pos)?;
    let y = u16::azam_decode_read(input, &mut pos)?;
    Ok((x, y))
}

fn decode3_u8_u16_u32(value: &str) -> Result<(u8, u16, u32), AzamError> {
    let input = value.as_bytes();
    let mut pos: usize = 0;
    let x = u8::azam_decode_read(input, &mut pos)?;
    let y = u16::azam_decode_read(input, &mut pos)?;
    let z = u32::azam_decode_read(input, &mut pos)?;
    Ok((x, y, z))
}

#[test]
fn test_azam_decode_macro() {
    // Decoding a tuple of zero sections reads nothing and cannot fail.
    let r: Result<(), AzamError> = Ok(());
    assert_eq!((), r.unwrap());
    assert_eq!(0x01u8, u8::azam_decode("123").unwrap());
    {
        let input = "123".as_bytes();
        let mut pos: usize = 0;
        let x = u8::azam_decode_read(input, &mut pos).unwrap();
        let y = u16::azam_decode_read(input, &mut pos).unwrap();
        assert_eq!((0x01u8, 0x02u16), (x, y));
    }
    {
        let input = "123".as_bytes();
        let mut pos: usize = 0;
        let x = u8::azam_decode_read(input, &mut pos).unwrap();
        let y = u16::azam_decode_read(input, &mut pos).unwrap();
        let z = u32::azam_decode_read(input, &mut pos).unwrap();
        assert_eq!((0x01u8, 0x02u16, 0x03u32), (x, y, z));
    }
}

#[test]
fn test_azam_decode_macro_err() {
    assert_eq!(
        AzamError::UnexpectedEndOfInput,
        decode2_u8_u16("").unwrap_err()
    );
    assert_eq!(
        AzamError::UnexpectedEndOfInput,
        decode3_u8_u16_u32("12").unwrap_err()
    );
    assert_eq!(AzamError::InvalidData, decode2_u8_u16("_2").unwrap_err());
}

#[test]
fn test_azam_decode_read_macro() {
    {
        let input = "123".as_bytes();
        let mut pos: usize = 0;
        assert_eq!(0x01u8, u8::azam_decode_read(input, &mut pos).unwrap());
    }
    {
        let input = "123".as_bytes();
        let mut pos: usize = 0;
        let x = u8::azam_decode_read(input, &mut pos).unwrap();
        let y = u16::azam_decode_read(input, &mut pos).unwrap();
        assert_eq!((0x01u8, 0x02u16), (x, y));
    }
    {
        let input = "123".as_bytes();
        let mut pos: usize = 0;
        let x = u8::azam_decode_read(input, &mut pos).unwrap();
        let y = u16::azam_decode_read(input, &mut pos).unwrap();
        let z = u32::azam_decode_read(input, &mut pos).unwrap();
        assert_eq!((0x01u8, 0x02u16, 0x03u32), (x, y, z));
    }
}

#[test]
fn test_azam_decode_read_macro_err() {
    {
        let input = "".as_bytes();
        let mut pos: usize = 0;
        let r = u8::azam_decode_read(input, &mut pos)
            .and_then(|_| u16::azam_decode_read(input, &mut pos).map(|_| ()));
        assert_eq!(AzamError::UnexpectedEndOfInput, r.unwrap_err());
    }
    {
        let input = "12".as_bytes();
        let mut pos: usize = 0;
        let mut run = || -> Result<(), AzamError> {
            u8::azam_decode_read(input, &mut pos)?;
            u16::azam_decode_read(input, &mut pos)?;
            u32::azam_decode_read(input, &mut pos)?;
            Ok(())
        };
        assert_eq!(AzamError::UnexpectedEndOfInput, run().unwrap_err());
    }
    {
        let input = "_2".as_bytes();
        let mut pos: usize = 0;
        let mut run = || -> Result<(), AzamError> {
            u8::azam_decode_read(input, &mut pos)?;
            u16::azam_decode_read(input, &mut pos)?;
            Ok(())
        };
        assert_eq!(AzamError::InvalidData, run().unwrap_err());
    }
}

fn assert_decode_uints_err(
    kind: AzamError,
    u8_str: &str,
    u16_str: &str,
    u32_str: &str,
    u64_str: &str,
    u128_str: &str,
) {
    assert_eq!(kind, u8::azam_decode(u8_str).unwrap_err());
    assert_eq!(kind, u16::azam_decode(u16_str).unwrap_err());
    assert_eq!(kind, u32::azam_decode(u32_str).unwrap_err());
    assert_eq!(kind, u64::azam_decode(u64_str).unwrap_err());
    assert_eq!(kind, u128::azam_decode(u128_str).unwrap_err());
}

#[test]
fn test_decode_uints_empty() {
    assert_decode_uints_err(AzamError::UnexpectedEndOfInput, "", "", "", "", "");
}

#[test]
fn test_decode_uints_invalid_symbol() {
    assert_decode_uints_err(AzamError::InvalidData, "_", "_", "_", "_", "_");
}

#[test]
fn test_decode_uints_invalid_middle_nybble() {
    assert_decode_uints_err(
        AzamError::InvalidData,
        "z_",
        "zz_f",
        "zzzzzz_f",
        "zzzzzzzzzzzzzz_f",
        "zzzzzzzzzzzzzzzzzzzzzzzzzzzzzz_f",
    );
}

#[test]
fn test_decode_uints_invalid_last_nybble() {
    assert_decode_uints_err(
        AzamError::UnexpectedEndOfInput,
        "hh",
        "hhhh",
        "hhhhhhhh",
        "hhhhhhhhhhhhhhhh",
        "hhhhhhhhhhhhhhhhhhhhhhhhhhhhhhhh",
    );
}

#[test]
fn test_decode_uints_invalid_last_nybble_odd() {
    assert_decode_uints_err(
        AzamError::UnexpectedEndOfInput,
        "h",
        "hhh",
        "hhhhhhh",
        "hhhhhhhhhhhhhhh",
        "hhhhhhhhhhhhhhhhhhhhhhhhhhhhhhh",
    );
}

#[test]
fn test_decode_uints() {
    assert_eq!(0x00u8, u8::azam_decode("0").unwrap());
    assert_eq!(0x10u8, u8::azam_decode("h0").unwrap());
    assert_eq!(0x0fu8, u8::azam_decode("f").unwrap());
    assert_eq!(0xffu8, u8::azam_decode("zf").unwrap());
    assert_eq!(0xffu8, u8::azam_decode("zf_").unwrap());
    assert_eq!(0xffu8, u8::azam_decode("zfaaaa").unwrap());

    assert_eq!(0x0000u16, u16::azam_decode("0").unwrap());
    assert_eq!(0x0010u16, u16::azam_decode("h0").unwrap());
    assert_eq!(0x1000u16, u16::azam_decode("hgg0").unwrap());
    assert_eq!(0x000fu16, u16::azam_decode("f").unwrap());
    assert_eq!(0x00ffu16, u16::azam_decode("zf").unwrap());
    assert_eq!(0x0fffu16, u16::azam_decode("zzf").unwrap());
    assert_eq!(0xffffu16, u16::azam_decode("zzzf").unwrap());
    assert_eq!(0xffffu16, u16::azam_decode("zzzf_").unwrap());
    assert_eq!(0xffffu16, u16::azam_decode("zzzfaaaa").unwrap());

    assert_eq!(0x00000000u32, u32::azam_decode("0").unwrap());
    assert_eq!(0x00000010u32, u32::azam_decode("h0").unwrap());
    assert_eq!(0x10000000u32, u32::azam_decode("hgggggg0").unwrap());
    assert_eq!(0x0000000fu32, u32::azam_decode("f").unwrap());
    assert_eq!(0x000000ffu32, u32::azam_decode("zf").unwrap());
    assert_eq!(0x00000fffu32, u32::azam_decode("zzf").unwrap());
    assert_eq!(0x0000ffffu32, u32::azam_decode("zzzf").unwrap());
    assert_eq!(0x000fffffu32, u32::azam_decode("zzzzf").unwrap());
    assert_eq!(0x00ffffffu32, u32::azam_decode("zzzzzf").unwrap());
    assert_eq!(0x0fffffffu32, u32::azam_decode("zzzzzzf").unwrap());
    assert_eq!(0xffffffffu32, u32::azam_decode("zzzzzzzf").unwrap());
    assert_eq!(0xffffffffu32, u32::azam_decode("zzzzzzzf_").unwrap());
    assert_eq!(0xffffffffu32, u32::azam_decode("zzzzzzzfaaaa").unwrap());

    assert_eq!(0x0000000000000000u64, u64::azam_decode("0").unwrap());
    assert_eq!(0x0000000000000010u64, u64::azam_decode("h0").unwrap());
    assert_eq!(
        0x1000000000000000u64,
        u64::azam_decode("hgggggggggggggg0").unwrap()
    );
    assert_eq!(0x000000000000000fu64, u64::azam_decode("f").unwrap());
    assert_eq!(0x00000000000000ffu64, u64::azam_decode("zf").unwrap());
    assert_eq!(0x0000000000000fffu64, u64::azam_decode("zzf").unwrap());
    assert_eq!(0x000000000000ffffu64, u64::azam_decode("zzzf").unwrap());
    assert_eq!(0x00000000000fffffu64, u64::azam_decode("zzzzf").unwrap());
    assert_eq!(0x0000000000ffffffu64, u64::azam_decode("zzzzzf").unwrap());
    assert_eq!(0x000000000fffffffu64, u64::azam_decode("zzzzzzf").unwrap());
    assert_eq!(0x00000000ffffffffu64, u64::azam_decode("zzzzzzzf").unwrap());
    assert_eq!(0x0000000fffffffffu64, u64::azam_decode("zzzzzzzzf").unwrap());
    assert_eq!(0x000000ffffffffffu64, u64::azam_decode("zzzzzzzzzf").unwrap());
    assert_eq!(0x00000fffffffffffu64, u64::azam_decode("zzzzzzzzzzf").unwrap());
    assert_eq!(0x0000ffffffffffffu64, u64::azam_decode("zzzzzzzzzzzf").unwrap());
    assert_eq!(0x000fffffffffffffu64, u64::azam_decode("zzzzzzzzzzzzf").unwrap());
    assert_eq!(0x00ffffffffffffffu64, u64::azam_decode("zzzzzzzzzzzzzf").unwrap());
    assert_eq!(0x0fffffffffffffffu64, u64::azam_decode("zzzzzzzzzzzzzzf").unwrap());
    assert_eq!(0xffffffffffffffffu64, u64::azam_decode("zzzzzzzzzzzzzzzf").unwrap());
    assert_eq!(0xffffffffffffffffu64, u64::azam_decode("zzzzzzzzzzzzzzzf_").unwrap());
    assert_eq!(
        0xffffffffffffffffu64,
        u64::azam_decode("zzzzzzzzzzzzzzzfaaaa").unwrap()
    );
}

#[test]
fn test_decode_read_advances_past_section() {
    let input = "xytxvyyfh5wgg1".as_bytes();
    let mut pos: usize = 0;
    let mut bytes: Vec<u8> = Vec::new();
    let count = azam_decode_read(input, &mut pos, &mut bytes).unwrap();
    assert_eq!(8, count);
    assert_eq!(8, pos);
    assert_eq!(vec![0xde, 0xad, 0xbe, 0xef], bytes);
}
