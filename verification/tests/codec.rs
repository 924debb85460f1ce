//! The behaviour of the codec on concrete inputs: trailing data, truncated
//! input, overflow, the error payload, and the minimal success path.

use leb128_codec::{
    leb128_size, leb128_u16, leb128_u32, leb128_u64, Leb128ErrorKind, Leb128Result,
    write_u32_leb128, write_u64_leb128, write_unsigned_leb128,
};

#[test]
fn test() {
    assert_eq!(2 + 2, 4);
}

#[test]
fn data_after_num() {
    let mut vec = write_u32_leb128(1337u32);
    vec.extend(b"hello".iter().copied());

    match leb128_u32(vec.as_slice()) {
        Leb128Result::Decoded(decoded, slice) => {
            assert_eq!(slice, b"hello");
            assert_eq!(decoded, 1337);
        }
        other => panic!("expected a decoded value, got {:?}", other),
    }
}

#[test]
fn truncated_num() {
    let mut vec = write_u64_leb128(u64::MAX);
    vec.truncate(2);

    let res = leb128_u32(vec.as_slice());

    assert_eq!(res, Leb128Result::NeedsMoreInput(1));
}

#[test]
fn overflow() {
    let vec = write_u64_leb128(u64::MAX);

    let res = leb128_u16(vec.as_slice());

    match res {
        Leb128Result::Malformed(e) => assert_eq!(e.kind, Leb128ErrorKind::TooLarge),
        other => panic!("expected an overflow error, got {:?}", other),
    }
}

#[test]
fn tests_overflow() {
    let vec = write_u64_leb128(u64::MAX);

    let res = leb128_u16(vec.as_slice());

    match res {
        Leb128Result::Malformed(e) => {
            assert_eq!(e.kind, Leb128ErrorKind::TooLarge);
            assert_eq!(e.message, "LEB128 integer is too big to fit in u16");
        }
        other => panic!("expected an overflow error, got {:?}", other),
    }
}

#[test]
fn minimal_error() {
    let vec = write_u32_leb128(1337u32);

    assert!(matches!(
        leb128_u32(vec.as_slice()),
        Leb128Result::Decoded(1337, _)
    ));
}

#[test]
fn minimal_zero() {
    match leb128_u32(&[0x00]) {
        Leb128Result::Decoded(v, rest) => {
            assert_eq!(v, 0);
            assert_eq!(rest, b"");
        }
        other => panic!("expected a decoded value, got {:?}", other),
    }
}

#[test]
fn empty_input_needs_more() {
    assert_eq!(leb128_u32(&[]), Leb128Result::NeedsMoreInput(1));
    assert_eq!(leb128_u64(&[0xff, 0x80]), Leb128Result::NeedsMoreInput(1));
}

#[test]
fn size_bounds() {
    assert_eq!(leb128_size(8), 2);
    assert_eq!(leb128_size(16), 3);
    assert_eq!(leb128_size(32), 5);
    assert_eq!(leb128_size(64), 10);
    assert_eq!(leb128_size(128), 19);
}

#[test]
fn exact_unsigned_bytes() {
    assert_eq!(write_u32_leb128(0).as_slice(), &[0x00]);
    assert_eq!(write_u32_leb128(127).as_slice(), &[0x7f]);
    assert_eq!(write_u32_leb128(128).as_slice(), &[0x80, 0x01]);
    assert_eq!(write_u32_leb128(1337).as_slice(), &[0xb9, 0x0a]);
    assert_eq!(
        write_u64_leb128(u64::MAX).as_slice(),
        &[0xff, 0xff, 0xff, 0xff, 0xff, 0xff, 0xff, 0xff, 0xff, 0x01]
    );
    assert_eq!(write_unsigned_leb128(300).as_slice(), &[0xac, 0x02]);
}

#[test]
fn redundant_encoding_accepted() {
    // a non-minimal encoding of 1 that still fits the width must decode
    assert_eq!(
        leb128_u32(&[0x81, 0x80, 0x80, 0x00]),
        Leb128Result::Decoded(1, &b""[..])
    );
}

#[test]
fn overflow_message_names_the_width() {
    let vec = write_u64_leb128(u64::MAX);
    match leb128_u32(vec.as_slice()) {
        Leb128Result::Malformed(e) => {
            assert_eq!(e.message, "LEB128 integer is too big to fit in u32");
        }
        other => panic!("expected an overflow error, got {:?}", other),
    }
}
