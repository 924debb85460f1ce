//! Round trips through every entry point: exhaustive over the small
//! widths, boundary values for the wide ones.

use leb128_codec::{
    leb128_i128, leb128_i16, leb128_i32, leb128_i64, leb128_i8, leb128_isize, leb128_u128,
    leb128_u16, leb128_u32, leb128_u64, leb128_u8, leb128_usize, Leb128Result, write_i128_leb128,
    write_i16_leb128, write_i32_leb128, write_i64_leb128, write_i8_leb128, write_isize_leb128,
    write_u128_leb128, write_u16_leb128, write_u32_leb128, write_u64_leb128, write_u8_leb128,
    write_usize_leb128,
};

#[test]
fn roundtrip_u8() {
    for n in u8::MIN..=u8::MAX {
        let encoded = write_u8_leb128(n);
        assert_eq!(
            leb128_u8(encoded.as_slice()),
            Leb128Result::Decoded(n, &b""[..])
        );
    }
}

#[test]
fn roundtrip_u16() {
    for n in u16::MIN..=u16::MAX {
        let encoded = write_u16_leb128(n);
        assert_eq!(
            leb128_u16(encoded.as_slice()),
            Leb128Result::Decoded(n, &b""[..])
        );
    }
}

#[test]
fn roundtrip_i8() {
    for n in i8::MIN..=i8::MAX {
        let encoded = write_i8_leb128(n);
        assert_eq!(
            leb128_i8(encoded.as_slice()),
            Leb128Result::Decoded(n, &b""[..])
        );
    }
}

#[test]
fn roundtrip_i16() {
    for n in i16::MIN..=i16::MAX {
        let encoded = write_i16_leb128(n);
        assert_eq!(
            leb128_i16(encoded.as_slice()),
            Leb128Result::Decoded(n, &b""[..])
        );
    }
}

#[test]
fn roundtrip_u32() {
    for n in [0u32, 1, 127, 128, 255, 256, 65535, 65536, u32::MAX] {
        let encoded = write_u32_leb128(n);
        assert_eq!(
            leb128_u32(encoded.as_slice()),
            Leb128Result::Decoded(n, &b""[..])
        );
    }
}

#[test]
fn roundtrip_u64() {
    for n in [0u64, 1, 127, 128, 255, 256, 65535, 65536, u64::MAX] {
        let encoded = write_u64_leb128(n);
        assert_eq!(
            leb128_u64(encoded.as_slice()),
            Leb128Result::Decoded(n, &b""[..])
        );
    }
}

#[test]
fn roundtrip_u128() {
    for n in [0u128, 1, 127, 128, 255, 256, 65535, 65536, u128::MAX] {
        let encoded = write_u128_leb128(n);
        assert_eq!(
            leb128_u128(encoded.as_slice()),
            Leb128Result::Decoded(n, &b""[..])
        );
    }
}

#[test]
fn roundtrip_usize() {
    for n in [0usize, 1, 127, 128, 255, 256, 65535, 65536, usize::MAX] {
        let encoded = write_usize_leb128(n);
        assert_eq!(
            leb128_usize(encoded.as_slice()),
            Leb128Result::Decoded(n, &b""[..])
        );
    }
}

#[test]
fn roundtrip_i32() {
    for n in [
        0i32,
        1,
        127,
        128,
        255,
        256,
        65535,
        65536,
        i32::MAX,
        -1,
        -127,
        -128,
        -255,
        -256,
        -65535,
        -65536,
        i32::MIN,
    ] {
        let encoded = write_i32_leb128(n);
        assert_eq!(
            leb128_i32(encoded.as_slice()),
            Leb128Result::Decoded(n, &b""[..])
        );
    }
}

#[test]
fn roundtrip_i64() {
    for n in [
        0i64,
        1,
        127,
        128,
        255,
        256,
        65535,
        65536,
        i64::MAX,
        -1,
        -127,
        -128,
        -255,
        -256,
        -65535,
        -65536,
        i64::MIN,
    ] {
        let encoded = write_i64_leb128(n);
        assert_eq!(
            leb128_i64(encoded.as_slice()),
            Leb128Result::Decoded(n, &b""[..])
        );
    }
}

#[test]
fn roundtrip_i128() {
    for n in [
        0i128,
        1,
        127,
        128,
        255,
        256,
        65535,
        65536,
        i128::MAX,
        -1,
        -127,
        -128,
        -255,
        -256,
        -65535,
        -65536,
        i128::MIN,
    ] {
        let encoded = write_i128_leb128(n);
        assert_eq!(
            leb128_i128(encoded.as_slice()),
            Leb128Result::Decoded(n, &b""[..])
        );
    }
}

#[test]
fn roundtrip_isize() {
    for n in [
        0isize,
        1,
        127,
        128,
        255,
        256,
        65535,
        65536,
        isize::MAX,
        -1,
        -127,
        -128,
        -255,
        -256,
        -65535,
        -65536,
        isize::MIN,
    ] {
        let encoded = write_isize_leb128(n);
        assert_eq!(
            leb128_isize(encoded.as_slice()),
            Leb128Result::Decoded(n, &b""[..])
        );
    }
}

#[test]
fn exact_signed_bytes() {
    assert_eq!(write_i32_leb128(0).as_slice(), &[0x00]);
    assert_eq!(write_i32_leb128(-1).as_slice(), &[0x7f]);
    assert_eq!(write_i32_leb128(63).as_slice(), &[0x3f]);
    assert_eq!(write_i32_leb128(64).as_slice(), &[0xc0, 0x00]);
    assert_eq!(write_i32_leb128(-64).as_slice(), &[0x40]);
    assert_eq!(write_i32_leb128(-65).as_slice(), &[0xbf, 0x7f]);
    assert_eq!(write_i32_leb128(-128).as_slice(), &[0x80, 0x7f]);
    assert_eq!(write_i32_leb128(127).as_slice(), &[0xff, 0x00]);
}

#[test]
fn signed_trailing_data() {
    let mut vec = write_i64_leb128(-300);
    vec.extend([0xaa, 0xbb].iter().copied());
    assert_eq!(
        leb128_i64(vec.as_slice()),
        Leb128Result::Decoded(-300, &[0xaa, 0xbb][..])
    );
}
