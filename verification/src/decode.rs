//! The decode engine and the per-width decode entry points.
//!
//! One verified core scans the input once, accumulating seven bits per byte
//! into a 128-bit register and truncating to the target width at the
//! terminal byte. A second core layers sign extension on top of the first.
//! The per-width entry points are thin instantiations of the two cores.

use crate::model::{
    finds_value, group_value, has_cont_bit, max_encoded_len, needs_more, overflows_width,
    signed_decoded, signed_value, terminal_at, unsigned_decoded, unsigned_value,
};
use crate::outcome::{Leb128Error, Leb128ErrorKind, Leb128Result};
use crate::props::{
    lemma_as_signed_range, lemma_group_value_bound, lemma_group_value_snoc,
    lemma_terminal_truncation,
};
use crate::shifts::{
    lemma_pow2_u128_range, lemma_u128_one_shl, lemma_u128_or_shl, lemma_u128_shl_is_mul,
};
use vstd::arithmetic::div_mod::{
    lemma_div_is_ordered, lemma_fundamental_div_mod, lemma_mod_division_less_than_divisor,
    lemma_small_mod,
};
use vstd::arithmetic::power2::{
    lemma2_to64, lemma2_to64_rest, lemma_pow2_adds, lemma_pow2_pos,
    lemma_pow2_strictly_increases, pow2,
};
use vstd::prelude::*;
use vstd::slice::{slice_index_get, slice_subrange};

verus! {

/// What a decode core reports before the per-width entry dresses it up.
enum RawDecode<T> {
    /// The decoded value and how many input bytes it consumed.
    Value { v: T, used: usize },
    /// The input ended before a terminal byte.
    More,
    /// The value cannot fit in the target width.
    TooBig,
}

/// 2^127 written out, for the casts between `u128` and `i128`.
proof fn lemma_pow2_127()
    ensures
        pow2(127) == 0x80000000_00000000_00000000_00000000,
{
    lemma2_to64();
    lemma2_to64_rest();
    lemma_pow2_adds(64, 63);
}

/// The all-ones pattern of the given width.
fn width_mask(bits: usize) -> (m: u128)
    requires
        8 <= bits <= 128,
    ensures
        m == pow2(bits as nat) - 1,
{
    if bits == 128 {
        proof {
            lemma_pow2_u128_range(128);
        }
        u128::MAX
    } else {
        proof {
            lemma_u128_one_shl(bits as u128);
            lemma_pow2_pos(bits as nat);
        }
        (1u128 << (bits as u128)) - 1
    }
}

/// Decodes an unsigned number of the given bit width from a prefix of
/// `input`: the first continuation-clear byte inside the width's byte
/// bound ends the value; running past the bound overflows; running out of
/// input asks for more.
fn decode_unsigned_core(input: &[u8], bits: usize) -> (r: RawDecode<u128>)
    requires
        8 <= bits <= 128,
    ensures
        match r {
            RawDecode::Value { v, used } => {
                &&& 1 <= used <= input@.len()
                &&& finds_value(input@, bits as nat, used - 1)
                &&& v == unsigned_value(input@.take(used as int), bits as nat)
                &&& v < pow2(bits as nat)
            },
            RawDecode::More => needs_more(input@, bits as nat),
            RawDecode::TooBig => overflows_width(input@, bits as nat),
        },
{
    let bound = crate::leb128_size(bits);
    proof {
        lemma_fundamental_div_mod((bits + 6) as int, 7);
        lemma_mod_division_less_than_divisor((bits + 6) as int, 7);
        lemma_div_is_ordered(14, (bits + 6) as int, 7);
        lemma_div_is_ordered((bits + 6) as int, 134, 7);
        assert(input@.take(0) =~= Seq::<u8>::empty());
        lemma2_to64();
    }
    let mut pos: usize = 0;
    let mut acc: u128 = 0;
    while pos < input.len()
        invariant
            8 <= bits <= 128,
            bound == max_encoded_len(bits as nat),
            7 * bound <= bits + 6,
            2 <= bound <= 19,
            pos <= input@.len(),
            pos < bound,
            forall|j: int| 0 <= j < pos ==> has_cont_bit(#[trigger] input@[j]),
            acc == group_value(input@.take(pos as int)),
            acc < pow2(7 * (pos as nat)),
        decreases input@.len() - pos,
    {
        let byte = *slice_index_get(input, pos);
        proof {
            assert(input@.take(pos as int).push(input@[pos as int]) =~= input@.take(
            pos as int + 1));
            lemma_group_value_snoc(input@.take(pos as int), byte);
        }
        if byte & 0x80 == 0 {
            proof {
                assert(byte < 0x80 && byte % 0x80 == byte) by (bit_vector)
                    requires
                        byte & 0x80 == 0,
                ;
            }
            let shift = 7 * pos;
            let avail = bits - shift;
            let kept: u128 = if avail < 7 {
                proof {
                    lemma_u128_one_shl(avail as u128);
                    lemma_pow2_pos(avail as nat);
                }
                (byte as u128) % (1u128 << (avail as u128))
            } else {
                proof {
                    lemma2_to64();
                    if avail > 7 {
                        lemma_pow2_strictly_increases(7, avail as nat);
                    }
                    lemma_small_mod(byte as nat, pow2(avail as nat));
                }
                byte as u128
            };
            proof {
                lemma_terminal_truncation(acc as nat, byte as nat, shift as nat, bits as nat);
                lemma_pow2_u128_range(bits as nat);
                lemma_pow2_pos(shift as nat);
                lemma_u128_shl_is_mul(kept, shift as u128);
                lemma_u128_one_shl(shift as u128);
                lemma_u128_or_shl(acc, kept, shift as u128);
            }
            let v = acc | (kept << (shift as u128));
            proof {
                assert(terminal_at(input@, pos as int));
                assert(v == ((acc + (byte as nat) * pow2(shift as nat)) as nat) % pow2(
                bits as nat));
            }
            return RawDecode::Value { v, used: pos + 1 };
        } else if pos == bound - 1 {
            proof {
                assert(byte >= 0x80) by (bit_vector)
                    requires
                        byte & 0x80 != 0,
                ;
            }
            return RawDecode::TooBig;
        } else {
            proof {
                assert(byte >= 0x80 && (byte & 0x7f) == byte % 0x80 && (byte & 0x7f) < 0x80)
                    by (bit_vector)
                    requires
                        byte & 0x80 != 0,
                ;
            }
            let low = byte & 0x7f;
            let shift = 7 * pos;
            proof {
                lemma_pow2_adds(7, 7 * (pos as nat));
                lemma_pow2_u128_range((7 * (pos as nat) + 7) as nat);
                lemma2_to64();
                assert((low as int) * pow2(shift as nat) <= 0x7f * pow2(shift as nat))
                    by (nonlinear_arith)
                    requires
                        low <= 0x7f,
                        pow2(shift as nat) >= 0,
                ;
                lemma_u128_shl_is_mul(low as u128, shift as u128);
                lemma_u128_one_shl(shift as u128);
                lemma_u128_or_shl(acc, low as u128, shift as u128);
            }
            acc = acc | ((low as u128) << (shift as u128));
            pos = pos + 1;
        }
    }
    RawDecode::More
}

/// Decodes a signed number of the given bit width: the unsigned scan,
/// then sign extension from the terminal byte's 0x40 bit when the sign
/// position falls strictly inside the width.
fn decode_signed_core(input: &[u8], bits: usize) -> (r: RawDecode<i128>)
    requires
        8 <= bits <= 128,
    ensures
        match r {
            RawDecode::Value { v, used } => {
                &&& 1 <= used <= input@.len()
                &&& finds_value(input@, bits as nat, used - 1)
                &&& v == signed_value(input@.take(used as int), bits as nat)
                &&& -pow2((bits - 1) as nat) <= v < pow2((bits - 1) as nat)
            },
            RawDecode::More => needs_more(input@, bits as nat),
            RawDecode::TooBig => overflows_width(input@, bits as nat),
        },
{
    match decode_unsigned_core(input, bits) {
        RawDecode::Value { v: raw, used } => {
            let ghost p = input@.take(used as int);
            let ghost w = bits as nat;
            let t = used - 1;
            proof {
                lemma_div_is_ordered((bits + 6) as int, 134, 7);
                assert(p[t as int] == input@[t as int]);
                assert(p.last() == input@[t as int]);
                lemma_group_value_bound(p);
                lemma_pow2_pos(w);
            }
            let byte = *slice_index_get(input, t);
            let shift = 7 * t;
            let mask = width_mask(bits);
            proof {
                assert(byte < 0x80 ==> ((byte & 0x40 != 0) <==> (byte % 0x80 >= 0x40)))
                    by (bit_vector);
            }
            let extended: u128 = if shift + 7 < bits && (byte & 0x40) != 0 {
                proof {
                    // the groups sit strictly inside the width, so the raw
                    // value is the exact group value
                    lemma_pow2_strictly_increases((shift + 7) as nat, w);
                    lemma_small_mod(group_value(p), pow2(w));
                    lemma_u128_one_shl((shift + 7) as u128);
                    lemma_pow2_u128_range(w);
                }
                raw + (mask - ((1u128 << ((shift + 7) as u128)) - 1))
            } else {
                raw
            };
            proof {
                lemma_pow2_u128_range(w);
                lemma_u128_one_shl((bits - 1) as u128);
                lemma_pow2_127();
                lemma_pow2_strictly_increases((bits - 1) as nat, w);
                if ((bits - 1) as nat) < 127 {
                    lemma_pow2_strictly_increases((bits - 1) as nat, 127);
                }
                lemma_as_signed_range(extended as nat, w);
            }
            let half = 1u128 << ((bits - 1) as u128);
            let sv: i128 = if extended >= half {
                -((mask - extended) as i128) - 1
            } else {
                extended as i128
            };
            RawDecode::Value { v: sv, used }
        },
        RawDecode::More => RawDecode::More,
        RawDecode::TooBig => RawDecode::TooBig,
    }
}

/// Recognizes an LEB128-encoded number that fits in a `u8`.
pub fn leb128_u8<'a>(input: &'a [u8]) -> (r: Leb128Result<'a, u8>)
    ensures
        match r {
            Leb128Result::Decoded(v, rest) => unsigned_decoded(input@, 8, v as nat, rest@),
            Leb128Result::NeedsMoreInput(n) => n == 1 && needs_more(input@, 8),
            Leb128Result::Malformed(e) => {
                &&& overflows_width(input@, 8)
                &&& e.kind == Leb128ErrorKind::TooLarge
                &&& e.message@ == "LEB128 integer is too big to fit in u8"@
            },
        },
{
    match decode_unsigned_core(input, 8) {
        RawDecode::Value { v, used } => {
            proof {
                lemma2_to64();
                assert(input@.skip(used as int) =~= input@.subrange(
                    used as int,
                    input@.len() as int,
                ));
            }
            Leb128Result::Decoded(v as u8, slice_subrange(input, used, input.len()))
        },
        RawDecode::More => Leb128Result::NeedsMoreInput(1),
        RawDecode::TooBig => Leb128Result::Malformed(
            Leb128Error {
                kind: Leb128ErrorKind::TooLarge,
                message: "LEB128 integer is too big to fit in u8",
            },
        ),
    }
}

/// Recognizes an LEB128-encoded number that fits in a `u16`.
pub fn leb128_u16<'a>(input: &'a [u8]) -> (r: Leb128Result<'a, u16>)
    ensures
        match r {
            Leb128Result::Decoded(v, rest) => unsigned_decoded(input@, 16, v as nat, rest@),
            Leb128Result::NeedsMoreInput(n) => n == 1 && needs_more(input@, 16),
            Leb128Result::Malformed(e) => {
                &&& overflows_width(input@, 16)
                &&& e.kind == Leb128ErrorKind::TooLarge
                &&& e.message@ == "LEB128 integer is too big to fit in u16"@
            },
        },
{
    match decode_unsigned_core(input, 16) {
        RawDecode::Value { v, used } => {
            proof {
                lemma2_to64();
                assert(input@.skip(used as int) =~= input@.subrange(
                    used as int,
                    input@.len() as int,
                ));
            }
            Leb128Result::Decoded(v as u16, slice_subrange(input, used, input.len()))
        },
        RawDecode::More => Leb128Result::NeedsMoreInput(1),
        RawDecode::TooBig => Leb128Result::Malformed(
            Leb128Error {
                kind: Leb128ErrorKind::TooLarge,
                message: "LEB128 integer is too big to fit in u16",
            },
        ),
    }
}

/// Recognizes an LEB128-encoded number that fits in a `u32`.
pub fn leb128_u32<'a>(input: &'a [u8]) -> (r: Leb128Result<'a, u32>)
    ensures
        match r {
            Leb128Result::Decoded(v, rest) => unsigned_decoded(input@, 32, v as nat, rest@),
            Leb128Result::NeedsMoreInput(n) => n == 1 && needs_more(input@, 32),
            Leb128Result::Malformed(e) => {
                &&& overflows_width(input@, 32)
                &&& e.kind == Leb128ErrorKind::TooLarge
                &&& e.message@ == "LEB128 integer is too big to fit in u32"@
            },
        },
{
    match decode_unsigned_core(input, 32) {
        RawDecode::Value { v, used } => {
            proof {
                lemma2_to64();
                assert(input@.skip(used as int) =~= input@.subrange(
                    used as int,
                    input@.len() as int,
                ));
            }
            Leb128Result::Decoded(v as u32, slice_subrange(input, used, input.len()))
        },
        RawDecode::More => Leb128Result::NeedsMoreInput(1),
        RawDecode::TooBig => Leb128Result::Malformed(
            Leb128Error {
                kind: Leb128ErrorKind::TooLarge,
                message: "LEB128 integer is too big to fit in u32",
            },
        ),
    }
}

/// Recognizes an LEB128-encoded number that fits in a `u64`.
pub fn leb128_u64<'a>(input: &'a [u8]) -> (r: Leb128Result<'a, u64>)
    ensures
        match r {
            Leb128Result::Decoded(v, rest) => unsigned_decoded(input@, 64, v as nat, rest@),
            Leb128Result::NeedsMoreInput(n) => n == 1 && needs_more(input@, 64),
            Leb128Result::Malformed(e) => {
                &&& overflows_width(input@, 64)
                &&& e.kind == Leb128ErrorKind::TooLarge
                &&& e.message@ == "LEB128 integer is too big to fit in u64"@
            },
        },
{
    match decode_unsigned_core(input, 64) {
        RawDecode::Value { v, used } => {
            proof {
                lemma2_to64();
                assert(input@.skip(used as int) =~= input@.subrange(
                    used as int,
                    input@.len() as int,
                ));
            }
            Leb128Result::Decoded(v as u64, slice_subrange(input, used, input.len()))
        },
        RawDecode::More => Leb128Result::NeedsMoreInput(1),
        RawDecode::TooBig => Leb128Result::Malformed(
            Leb128Error {
                kind: Leb128ErrorKind::TooLarge,
                message: "LEB128 integer is too big to fit in u64",
            },
        ),
    }
}

/// Recognizes an LEB128-encoded number that fits in a `u128`.
pub fn leb128_u128<'a>(input: &'a [u8]) -> (r: Leb128Result<'a, u128>)
    ensures
        match r {
            Leb128Result::Decoded(v, rest) => unsigned_decoded(input@, 128, v as nat, rest@),
            Leb128Result::NeedsMoreInput(n) => n == 1 && needs_more(input@, 128),
            Leb128Result::Malformed(e) => {
                &&& overflows_width(input@, 128)
                &&& e.kind == Leb128ErrorKind::TooLarge
                &&& e.message@ == "LEB128 integer is too big to fit in u128"@
            },
        },
{
    match decode_unsigned_core(input, 128) {
        RawDecode::Value { v, used } => {
            proof {
                assert(input@.skip(used as int) =~= input@.subrange(
                    used as int,
                    input@.len() as int,
                ));
            }
            Leb128Result::Decoded(v, slice_subrange(input, used, input.len()))
        },
        RawDecode::More => Leb128Result::NeedsMoreInput(1),
        RawDecode::TooBig => Leb128Result::Malformed(
            Leb128Error {
                kind: Leb128ErrorKind::TooLarge,
                message: "LEB128 integer is too big to fit in u128",
            },
        ),
    }
}

/// Recognizes an LEB128-encoded number that fits in a `usize`.
pub fn leb128_usize<'a>(input: &'a [u8]) -> (r: Leb128Result<'a, usize>)
    ensures
        match r {
            Leb128Result::Decoded(v, rest) => unsigned_decoded(
                input@,
                usize::BITS as nat,
                v as nat,
                rest@,
            ),
            Leb128Result::NeedsMoreInput(n) => n == 1 && needs_more(input@, usize::BITS as nat),
            Leb128Result::Malformed(e) => {
                &&& overflows_width(input@, usize::BITS as nat)
                &&& e.kind == Leb128ErrorKind::TooLarge
                &&& e.message@ == "LEB128 integer is too big to fit in usize"@
            },
        },
{
    proof {
        crate::shifts::lemma_ptr_width();
    }
    let bits = usize::BITS as usize;
    match decode_unsigned_core(input, bits) {
        RawDecode::Value { v, used } => {
            proof {
                assert(input@.skip(used as int) =~= input@.subrange(
                    used as int,
                    input@.len() as int,
                ));
            }
            Leb128Result::Decoded(v as usize, slice_subrange(input, used, input.len()))
        },
        RawDecode::More => Leb128Result::NeedsMoreInput(1),
        RawDecode::TooBig => Leb128Result::Malformed(
            Leb128Error {
                kind: Leb128ErrorKind::TooLarge,
                message: "LEB128 integer is too big to fit in usize",
            },
        ),
    }
}

/// Recognizes an LEB128-encoded number that fits in an `i8`.
pub fn leb128_i8<'a>(input: &'a [u8]) -> (r: Leb128Result<'a, i8>)
    ensures
        match r {
            Leb128Result::Decoded(v, rest) => signed_decoded(input@, 8, v as int, rest@),
            Leb128Result::NeedsMoreInput(n) => n == 1 && needs_more(input@, 8),
            Leb128Result::Malformed(e) => {
                &&& overflows_width(input@, 8)
                &&& e.kind == Leb128ErrorKind::TooLarge
                &&& e.message@ == "LEB128 integer is too big to fit in i8"@
            },
        },
{
    match decode_signed_core(input, 8) {
        RawDecode::Value { v, used } => {
            proof {
                lemma2_to64();
                assert(input@.skip(used as int) =~= input@.subrange(
                    used as int,
                    input@.len() as int,
                ));
            }
            Leb128Result::Decoded(v as i8, slice_subrange(input, used, input.len()))
        },
        RawDecode::More => Leb128Result::NeedsMoreInput(1),
        RawDecode::TooBig => Leb128Result::Malformed(
            Leb128Error {
                kind: Leb128ErrorKind::TooLarge,
                message: "LEB128 integer is too big to fit in i8",
            },
        ),
    }
}

/// Recognizes an LEB128-encoded number that fits in an `i16`.
pub fn leb128_i16<'a>(input: &'a [u8]) -> (r: Leb128Result<'a, i16>)
    ensures
        match r {
            Leb128Result::Decoded(v, rest) => signed_decoded(input@, 16, v as int, rest@),
            Leb128Result::NeedsMoreInput(n) => n == 1 && needs_more(input@, 16),
            Leb128Result::Malformed(e) => {
                &&& overflows_width(input@, 16)
                &&& e.kind == Leb128ErrorKind::TooLarge
                &&& e.message@ == "LEB128 integer is too big to fit in i16"@
            },
        },
{
    match decode_signed_core(input, 16) {
        RawDecode::Value { v, used } => {
            proof {
                lemma2_to64();
                assert(input@.skip(used as int) =~= input@.subrange(
                    used as int,
                    input@.len() as int,
                ));
            }
            Leb128Result::Decoded(v as i16, slice_subrange(input, used, input.len()))
        },
        RawDecode::More => Leb128Result::NeedsMoreInput(1),
        RawDecode::TooBig => Leb128Result::Malformed(
            Leb128Error {
                kind: Leb128ErrorKind::TooLarge,
                message: "LEB128 integer is too big to fit in i16",
            },
        ),
    }
}

/// Recognizes an LEB128-encoded number that fits in an `i32`.
pub fn leb128_i32<'a>(input: &'a [u8]) -> (r: Leb128Result<'a, i32>)
    ensures
        match r {
            Leb128Result::Decoded(v, rest) => signed_decoded(input@, 32, v as int, rest@),
            Leb128Result::NeedsMoreInput(n) => n == 1 && needs_more(input@, 32),
            Leb128Result::Malformed(e) => {
                &&& overflows_width(input@, 32)
                &&& e.kind == Leb128ErrorKind::TooLarge
                &&& e.message@ == "LEB128 integer is too big to fit in i32"@
            },
        },
{
    match decode_signed_core(input, 32) {
        RawDecode::Value { v, used } => {
            proof {
                lemma2_to64();
                assert(input@.skip(used as int) =~= input@.subrange(
                    used as int,
                    input@.len() as int,
                ));
            }
            Leb128Result::Decoded(v as i32, slice_subrange(input, used, input.len()))
        },
        RawDecode::More => Leb128Result::NeedsMoreInput(1),
        RawDecode::TooBig => Leb128Result::Malformed(
            Leb128Error {
                kind: Leb128ErrorKind::TooLarge,
                message: "LEB128 integer is too big to fit in i32",
            },
        ),
    }
}

/// Recognizes an LEB128-encoded number that fits in an `i64`.
pub fn leb128_i64<'a>(input: &'a [u8]) -> (r: Leb128Result<'a, i64>)
    ensures
        match r {
            Leb128Result::Decoded(v, rest) => signed_decoded(input@, 64, v as int, rest@),
            Leb128Result::NeedsMoreInput(n) => n == 1 && needs_more(input@, 64),
            Leb128Result::Malformed(e) => {
                &&& overflows_width(input@, 64)
                &&& e.kind == Leb128ErrorKind::TooLarge
                &&& e.message@ == "LEB128 integer is too big to fit in i64"@
            },
        },
{
    match decode_signed_core(input, 64) {
        RawDecode::Value { v, used } => {
            proof {
                lemma2_to64();
                lemma2_to64_rest();
                assert(input@.skip(used as int) =~= input@.subrange(
                    used as int,
                    input@.len() as int,
                ));
            }
            Leb128Result::Decoded(v as i64, slice_subrange(input, used, input.len()))
        },
        RawDecode::More => Leb128Result::NeedsMoreInput(1),
        RawDecode::TooBig => Leb128Result::Malformed(
            Leb128Error {
                kind: Leb128ErrorKind::TooLarge,
                message: "LEB128 integer is too big to fit in i64",
            },
        ),
    }
}

/// Recognizes an LEB128-encoded number that fits in an `i128`.
pub fn leb128_i128<'a>(input: &'a [u8]) -> (r: Leb128Result<'a, i128>)
    ensures
        match r {
            Leb128Result::Decoded(v, rest) => signed_decoded(input@, 128, v as int, rest@),
            Leb128Result::NeedsMoreInput(n) => n == 1 && needs_more(input@, 128),
            Leb128Result::Malformed(e) => {
                &&& overflows_width(input@, 128)
                &&& e.kind == Leb128ErrorKind::TooLarge
                &&& e.message@ == "LEB128 integer is too big to fit in i128"@
            },
        },
{
    match decode_signed_core(input, 128) {
        RawDecode::Value { v, used } => {
            proof {
                lemma_pow2_127();
                assert(input@.skip(used as int) =~= input@.subrange(
                    used as int,
                    input@.len() as int,
                ));
            }
            Leb128Result::Decoded(v, slice_subrange(input, used, input.len()))
        },
        RawDecode::More => Leb128Result::NeedsMoreInput(1),
        RawDecode::TooBig => Leb128Result::Malformed(
            Leb128Error {
                kind: Leb128ErrorKind::TooLarge,
                message: "LEB128 integer is too big to fit in i128",
            },
        ),
    }
}

/// Recognizes an LEB128-encoded number that fits in an `isize`.
pub fn leb128_isize<'a>(input: &'a [u8]) -> (r: Leb128Result<'a, isize>)
    ensures
        match r {
            Leb128Result::Decoded(v, rest) => signed_decoded(
                input@,
                usize::BITS as nat,
                v as int,
                rest@,
            ),
            Leb128Result::NeedsMoreInput(n) => n == 1 && needs_more(input@, usize::BITS as nat),
            Leb128Result::Malformed(e) => {
                &&& overflows_width(input@, usize::BITS as nat)
                &&& e.kind == Leb128ErrorKind::TooLarge
                &&& e.message@ == "LEB128 integer is too big to fit in isize"@
            },
        },
{
    proof {
        crate::shifts::lemma_ptr_width();
    }
    let bits = usize::BITS as usize;
    match decode_signed_core(input, bits) {
        RawDecode::Value { v, used } => {
            proof {
                assert(input@.skip(used as int) =~= input@.subrange(
                    used as int,
                    input@.len() as int,
                ));
            }
            Leb128Result::Decoded(v as isize, slice_subrange(input, used, input.len()))
        },
        RawDecode::More => Leb128Result::NeedsMoreInput(1),
        RawDecode::TooBig => Leb128Result::Malformed(
            Leb128Error {
                kind: Leb128ErrorKind::TooLarge,
                message: "LEB128 integer is too big to fit in isize",
            },
        ),
    }
}

} // verus!
