//! The encode engines and the per-width encode entry points.
//!
//! Both engines emit into a fixed-capacity buffer sized by the byte bound
//! of the widest supported integer, so encoding never allocates. The
//! per-width entry points are thin instantiations: an encoding depends on
//! the value alone, so every width feeds the widest engine.

use crate::buffer::{buf_new, buf_push, stored_bytes, MAX_ENCODED_SIZE};
use crate::model::{signed_encoding, signed_measure, unsigned_encoding};
use crate::props::{
    lemma_signed_encoding_len, lemma_signed_encoding_props, lemma_unsigned_encoding_len,
    lemma_unsigned_encoding_props,
};
use crate::shifts::{lemma_pow2_u128_range, lemma_ptr_width};
use arrayvec::ArrayVec;
use vstd::arithmetic::div_mod::lemma_div_is_strictly_smaller;
use vstd::arithmetic::power2::{lemma2_to64, lemma2_to64_rest, lemma_pow2_adds, pow2};
use vstd::bits::lemma_u128_shr_is_div;
use vstd::prelude::*;

verus! {

/// 2^127 written out, for the `i128` range.
proof fn lemma_pow2_127()
    ensures
        pow2(127) == 0x80000000_00000000_00000000_00000000,
{
    lemma2_to64();
    lemma2_to64_rest();
    lemma_pow2_adds(64, 63);
}

/// Encodes an unsigned number as LEB128: seven bits at a time, least
/// significant first, the continuation flag on every byte but the last.
/// Every unsigned width feeds this engine, since the encoding depends on
/// the value alone.
pub fn write_unsigned_leb128(n: u128) -> (r: ArrayVec<u8, MAX_ENCODED_SIZE>)
    ensures
        stored_bytes(r) == unsigned_encoding(n as nat),
        1 <= unsigned_encoding(n as nat).len() <= MAX_ENCODED_SIZE,
{
    proof {
        lemma_pow2_u128_range(128);
        lemma_unsigned_encoding_len(n as nat, 128);
        lemma_unsigned_encoding_props(n as nat);
    }
    let mut vec = buf_new();
    let mut cur = n;
    proof {
        assert(Seq::<u8>::empty() + unsigned_encoding(n as nat) =~= unsigned_encoding(n as nat));
    }
    loop
        invariant
            stored_bytes(vec) + unsigned_encoding(cur as nat) == unsigned_encoding(n as nat),
            stored_bytes(vec).len() + unsigned_encoding(cur as nat).len() <= MAX_ENCODED_SIZE,
        decreases cur,
    {
        if cur < 0x80 {
            proof {
                assert(unsigned_encoding(cur as nat) == seq![cur as u8]);
                assert(stored_bytes(vec).push(cur as u8) + Seq::<u8>::empty() =~= stored_bytes(
                vec) + seq![cur as u8]);
                assert(stored_bytes(vec).push(cur as u8) =~= stored_bytes(vec) + seq![cur as u8]);
            }
            buf_push(&mut vec, cur as u8);
            return vec;
        } else {
            proof {
                assert((cur & 0x7f) == cur % 0x80 && (cur & 0x7f) < 0x80) by (bit_vector);
            }
            let low = (cur & 0x7f) as u8;
            proof {
                assert(low | 0x80 == low + 0x80) by (bit_vector)
                    requires
                        low < 0x80,
                ;
            }
            let byte = low | 0x80;
            proof {
                lemma2_to64();
                lemma_u128_shr_is_div(cur, 7);
                lemma_div_is_strictly_smaller(cur as int, 0x80);
                lemma_unsigned_encoding_props((cur / 0x80) as nat);
                assert(unsigned_encoding(cur as nat) == seq![byte] + unsigned_encoding(
                (cur / 0x80) as nat));
                assert(stored_bytes(vec).push(byte) + unsigned_encoding((cur / 0x80) as nat)
                    =~= stored_bytes(vec) + (seq![byte] + unsigned_encoding(
                (cur / 0x80) as nat)));
            }
            buf_push(&mut vec, byte);
            cur = cur >> 7;
        }
    }
}

/// Encodes a signed number as LEB128: seven bits at a time of the
/// arithmetically shifted value, stopping once the remaining value is 0
/// with the sign bit clear or -1 with the sign bit set. Every signed
/// width feeds this engine, since the encoding depends on the value alone.
pub fn write_signed_leb128(n: i128) -> (r: ArrayVec<u8, MAX_ENCODED_SIZE>)
    ensures
        stored_bytes(r) == signed_encoding(n as int),
        1 <= signed_encoding(n as int).len() <= MAX_ENCODED_SIZE,
{
    proof {
        lemma_pow2_127();
        lemma_signed_encoding_len(n as int, 128);
        lemma_signed_encoding_props(n as int);
    }
    let mut vec = buf_new();
    let mut cur = n;
    proof {
        assert(Seq::<u8>::empty() + signed_encoding(n as int) =~= signed_encoding(n as int));
    }
    loop
        invariant
            stored_bytes(vec) + signed_encoding(cur as int) == signed_encoding(n as int),
            stored_bytes(vec).len() + signed_encoding(cur as int).len() <= MAX_ENCODED_SIZE,
        decreases signed_measure(cur as int),
    {
        let r0 = cur % 0x80;
        let q0 = cur / 0x80;
        let q: i128 = if r0 < 0 {
            q0 - 1
        } else {
            q0
        };
        let b: i128 = if r0 < 0 {
            r0 + 0x80
        } else {
            r0
        };
        proof {
            assert(b == (cur as int) % 0x80);
            assert(q == (cur as int) / 0x80);
        }
        let bu = b as u8;
        proof {
            assert(bu & 0x40 == 0 <==> bu < 0x40) by (bit_vector)
                requires
                    bu < 0x80,
            ;
        }
        if (q == 0 && (bu & 0x40) == 0) || (q == -1 && (bu & 0x40) != 0) {
            proof {
                assert(signed_encoding(cur as int) == seq![bu]);
                assert(stored_bytes(vec).push(bu) =~= stored_bytes(vec) + seq![bu]);
            }
            buf_push(&mut vec, bu);
            return vec;
        } else {
            proof {
                assert(bu | 0x80 == bu + 0x80) by (bit_vector)
                    requires
                        bu < 0x80,
                ;
            }
            let byte = bu | 0x80;
            proof {
                lemma_signed_encoding_props(q as int);
                assert(signed_encoding(cur as int) == seq![byte] + signed_encoding(q as int));
                assert(stored_bytes(vec).push(byte) + signed_encoding(q as int) =~= stored_bytes(
                vec) + (seq![byte] + signed_encoding(q as int)));
            }
            buf_push(&mut vec, byte);
            cur = q;
        }
    }
}

/// Encodes a `u8` as LEB128.
pub fn write_u8_leb128(n: u8) -> (r: ArrayVec<u8, MAX_ENCODED_SIZE>)
    ensures
        stored_bytes(r) == unsigned_encoding(n as nat),
{
    write_unsigned_leb128(n as u128)
}

/// Encodes a `u16` as LEB128.
pub fn write_u16_leb128(n: u16) -> (r: ArrayVec<u8, MAX_ENCODED_SIZE>)
    ensures
        stored_bytes(r) == unsigned_encoding(n as nat),
{
    write_unsigned_leb128(n as u128)
}

/// Encodes a `u32` as LEB128.
pub fn write_u32_leb128(n: u32) -> (r: ArrayVec<u8, MAX_ENCODED_SIZE>)
    ensures
        stored_bytes(r) == unsigned_encoding(n as nat),
{
    write_unsigned_leb128(n as u128)
}

/// Encodes a `u64` as LEB128.
pub fn write_u64_leb128(n: u64) -> (r: ArrayVec<u8, MAX_ENCODED_SIZE>)
    ensures
        stored_bytes(r) == unsigned_encoding(n as nat),
{
    write_unsigned_leb128(n as u128)
}

/// Encodes a `u128` as LEB128.
pub fn write_u128_leb128(n: u128) -> (r: ArrayVec<u8, MAX_ENCODED_SIZE>)
    ensures
        stored_bytes(r) == unsigned_encoding(n as nat),
{
    write_unsigned_leb128(n)
}

/// Encodes a `usize` as LEB128.
pub fn write_usize_leb128(n: usize) -> (r: ArrayVec<u8, MAX_ENCODED_SIZE>)
    ensures
        stored_bytes(r) == unsigned_encoding(n as nat),
{
    proof {
        lemma_ptr_width();
    }
    write_unsigned_leb128(n as u128)
}

/// Encodes an `i8` as LEB128.
pub fn write_i8_leb128(n: i8) -> (r: ArrayVec<u8, MAX_ENCODED_SIZE>)
    ensures
        stored_bytes(r) == signed_encoding(n as int),
{
    write_signed_leb128(n as i128)
}

/// Encodes an `i16` as LEB128.
pub fn write_i16_leb128(n: i16) -> (r: ArrayVec<u8, MAX_ENCODED_SIZE>)
    ensures
        stored_bytes(r) == signed_encoding(n as int),
{
    write_signed_leb128(n as i128)
}

/// Encodes an `i32` as LEB128.
pub fn write_i32_leb128(n: i32) -> (r: ArrayVec<u8, MAX_ENCODED_SIZE>)
    ensures
        stored_bytes(r) == signed_encoding(n as int),
{
    write_signed_leb128(n as i128)
}

/// Encodes an `i64` as LEB128.
pub fn write_i64_leb128(n: i64) -> (r: ArrayVec<u8, MAX_ENCODED_SIZE>)
    ensures
        stored_bytes(r) == signed_encoding(n as int),
{
    write_signed_leb128(n as i128)
}

/// Encodes an `i128` as LEB128.
pub fn write_i128_leb128(n: i128) -> (r: ArrayVec<u8, MAX_ENCODED_SIZE>)
    ensures
        stored_bytes(r) == signed_encoding(n as int),
{
    write_signed_leb128(n)
}

/// Encodes an `isize` as LEB128.
pub fn write_isize_leb128(n: isize) -> (r: ArrayVec<u8, MAX_ENCODED_SIZE>)
    ensures
        stored_bytes(r) == signed_encoding(n as int),
{
    proof {
        lemma_ptr_width();
    }
    write_signed_leb128(n as i128)
}

} // verus!
