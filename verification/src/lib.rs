//! A variable-length integer codec for the LEB128 (Little Endian Base 128)
//! wire format.
//!
//! Every supported integer width (8, 16, 32, 64, 128 bits and the pointer
//! width) has one decode and one encode entry point. A decode consumes a
//! prefix of its input and reports one of three outcomes: the value together
//! with the unconsumed remainder, a signal that more input is needed, or a
//! malformed-input error. An encode emits the byte sequence into a
//! fixed-capacity buffer, never allocating.

use vstd::prelude::*;

pub mod buffer;
pub mod decode;
pub mod encode;
pub mod model;
pub mod outcome;
pub mod props;
mod shifts;

pub use buffer::MAX_ENCODED_SIZE;
pub use decode::{
    leb128_i128, leb128_i16, leb128_i32, leb128_i64, leb128_i8, leb128_isize, leb128_u128,
    leb128_u16, leb128_u32, leb128_u64, leb128_u8, leb128_usize,
};
pub use encode::{
    write_i128_leb128, write_i16_leb128, write_i32_leb128, write_i64_leb128, write_i8_leb128,
    write_isize_leb128, write_signed_leb128, write_u128_leb128, write_u16_leb128,
    write_u32_leb128, write_u64_leb128, write_u8_leb128, write_unsigned_leb128,
    write_usize_leb128,
};
pub use outcome::{Leb128Error, Leb128ErrorKind, Leb128Result};

verus! {

/// Greatest number of bytes a LEB128 encoding of an integer of the given
/// bit width can occupy: the ceiling of `bits / 7`.
pub fn leb128_size(bits: usize) -> (r: usize)
    requires
        bits <= usize::MAX - 6,
    ensures
        r == crate::model::max_encoded_len(bits as nat),
{
    (bits + 6) / 7
}

} // verus!
