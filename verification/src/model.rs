//! The mathematical model of the codec: what a byte sequence is worth, when a
//! decode succeeds, needs more input or overflows its width, and which bytes
//! the encoders emit.

use vstd::arithmetic::power2::pow2;
use vstd::prelude::*;

verus! {

/// Greatest number of bytes a LEB128 encoding of a `w`-bit integer can
/// occupy: the ceiling of `w / 7`.
pub open spec fn max_encoded_len(w: nat) -> nat {
    ((w + 6) / 7) as nat
}

/// Does the byte carry the continuation flag (high bit 0x80)?
pub open spec fn has_cont_bit(b: u8) -> bool {
    b >= 0x80
}

/// Does the byte carry the sign flag (bit 0x40) in its low seven bits?
pub open spec fn has_sign_bit(b: u8) -> bool {
    b % 0x80 >= 0x40
}

/// The number carried by the low seven bits of each byte of `s`, least
/// significant group first.
pub open spec fn group_value(s: Seq<u8>) -> nat
    decreases s.len(),
{
    if s.len() == 0 {
        0
    } else {
        ((s[0] % 0x80) + 0x80 * group_value(s.drop_first())) as nat
    }
}

/// Position `t` holds the first byte of `s` without the continuation flag.
pub open spec fn terminal_at(s: Seq<u8>, t: int) -> bool {
    &&& 0 <= t < s.len()
    &&& !has_cont_bit(s[t])
    &&& forall|j: int| 0 <= j < t ==> has_cont_bit(#[trigger] s[j])
}

/// A decode of width `w` succeeds on `s`, consuming the bytes up to and
/// including position `t`: the first terminal byte stands within the
/// width's byte bound.
pub open spec fn finds_value(s: Seq<u8>, w: nat, t: int) -> bool {
    terminal_at(s, t) && t < max_encoded_len(w)
}

/// The input ends before a terminal byte appears, and the width's byte bound
/// is not yet exhausted: one more byte may settle the parse.
pub open spec fn needs_more(s: Seq<u8>, w: nat) -> bool {
    s.len() < max_encoded_len(w) && (forall|j: int|
        0 <= j < s.len() ==> has_cont_bit(#[trigger] s[j]))
}

/// Every byte the width's bound admits carries the continuation flag: the
/// number cannot fit in `w` bits, however the input continues.
pub open spec fn overflows_width(s: Seq<u8>, w: nat) -> bool {
    s.len() >= max_encoded_len(w) && (forall|j: int|
        0 <= j < max_encoded_len(w) ==> has_cont_bit(#[trigger] s[j]))
}

/// The unsigned value a decode of width `w` yields from the consumed prefix
/// `p` (terminal byte last): the accumulated groups, truncated to `w` bits.
pub open spec fn unsigned_value(p: Seq<u8>, w: nat) -> nat {
    group_value(p) % pow2(w)
}

/// Reads the `w`-bit pattern `n` as a two's-complement number.
pub open spec fn as_signed(n: nat, w: nat) -> int {
    if n >= pow2((w - 1) as nat) {
        n - pow2(w)
    } else {
        n as int
    }
}

/// The signed value a decode of width `w` yields from the consumed prefix
/// `p`: the accumulated groups, sign-extended from the terminal byte's 0x40
/// bit when the sign position falls strictly inside the width, read as a
/// two's-complement number.
pub open spec fn signed_value(p: Seq<u8>, w: nat) -> int {
    let t = p.len() - 1;
    let raw = group_value(p) % pow2(w);
    let n = if has_sign_bit(p[t]) && 7 * t < w - 7 {
        (raw + pow2(w) - pow2((7 * t + 7) as nat)) as nat
    } else {
        raw
    };
    as_signed(n, w)
}

/// A successful unsigned decode of width `w` on input `s` returned value `v`
/// and left `rest`: the consumed prefix ends at the first terminal byte,
/// inside the width's byte bound, and `rest` is exactly what follows it.
pub open spec fn unsigned_decoded(s: Seq<u8>, w: nat, v: nat, rest: Seq<u8>) -> bool {
    let t = s.len() - rest.len() - 1;
    &&& finds_value(s, w, t)
    &&& v == unsigned_value(s.take(t + 1), w)
    &&& rest == s.skip(t + 1)
}

/// The signed counterpart of `unsigned_decoded`.
pub open spec fn signed_decoded(s: Seq<u8>, w: nat, v: int, rest: Seq<u8>) -> bool {
    let t = s.len() - rest.len() - 1;
    &&& finds_value(s, w, t)
    &&& v == signed_value(s.take(t + 1), w)
    &&& rest == s.skip(t + 1)
}

/// The byte sequence the unsigned encoder emits for `n`: seven bits at a
/// time, least significant first, the continuation flag on every byte but
/// the last.
pub open spec fn unsigned_encoding(n: nat) -> Seq<u8>
    decreases n,
{
    if n < 0x80 {
        seq![n as u8]
    } else {
        seq![((n % 0x80) + 0x80) as u8] + unsigned_encoding(n / 0x80)
    }
}

/// Termination measure for `signed_encoding`: how far `n` stands from 0
/// or -1, the two fixed points of the arithmetic shift.
pub open spec fn signed_measure(n: int) -> nat {
    if n >= 0 {
        n as nat
    } else {
        (-1 - n) as nat
    }
}

/// The byte sequence the signed encoder emits for `n`: seven bits at a time
/// of the arithmetically shifted value, stopping once the remaining value is
/// 0 with the sign bit clear or -1 with the sign bit set.
pub open spec fn signed_encoding(n: int) -> Seq<u8>
    decreases signed_measure(n),
{
    let b = n % 0x80;
    let q = n / 0x80;
    if (q == 0 && b < 0x40) || (q == -1 && b >= 0x40) {
        seq![b as u8]
    } else {
        seq![(b + 0x80) as u8] + signed_encoding(q)
    }
}

} // verus!
