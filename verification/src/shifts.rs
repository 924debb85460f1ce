//! Links between the 128-bit machine operations the engines use and the
//! powers of two the model speaks of. vstd ships these facts for the
//! narrower widths; the `u128` versions are proved here.

use vstd::arithmetic::power2::{
    lemma2_to64, lemma_pow2_adds, lemma_pow2_pos, lemma_pow2_strictly_increases,
    lemma_pow2_unfold, pow2,
};
use vstd::layout::size_of;
use vstd::prelude::*;

verus! {

/// 2^n fits in a `u128` for n < 128, and 2^128 is one past `u128::MAX`.
pub(crate) proof fn lemma_pow2_u128_range(n: nat)
    requires
        n <= 128,
    ensures
        pow2(128) == u128::MAX + 1,
        n < 128 ==> pow2(n) <= u128::MAX,
{
    lemma2_to64();
    lemma_pow2_adds(64, 64);
    if n < 128 {
        lemma_pow2_strictly_increases(n, 128);
    }
}

/// Shifting 1 left by `s` places yields 2^s.
pub(crate) proof fn lemma_u128_one_shl(s: u128)
    requires
        s < 128,
    ensures
        (1u128 << s) == pow2(s as nat),
    decreases s,
{
    if s == 0 {
        assert(1u128 << 0u128 == 1) by (bit_vector);
        lemma2_to64();
    } else {
        lemma_u128_one_shl((s - 1) as u128);
        lemma_pow2_u128_range((s - 1) as nat);
        assert(1u128 << s == 2 * (1u128 << ((s - 1) as u128))) by (bit_vector)
            requires
                1 <= s < 128,
        ;
        lemma_pow2_unfold(s as nat);
    }
}

/// Shifting left by `s` places multiplies by 2^s, when the product fits.
pub(crate) proof fn lemma_u128_shl_is_mul(x: u128, s: u128)
    requires
        s < 128,
        x * pow2(s as nat) <= u128::MAX,
    ensures
        (x << s) == x * pow2(s as nat),
    decreases s,
{
    if s == 0 {
        assert(x << 0u128 == x) by (bit_vector);
        lemma2_to64();
    } else {
        let s1 = (s - 1) as u128;
        lemma_pow2_unfold(s as nat);
        lemma_pow2_pos((s - 1) as nat);
        assert(x * pow2(s1 as nat) <= 0x7fffffff_ffffffff_ffffffff_ffffffff) by (nonlinear_arith)
            requires
                x >= 0,
                pow2(s as nat) == 2 * pow2(s1 as nat),
                x * pow2(s as nat) <= u128::MAX,
        ;
        lemma_u128_shl_is_mul(x, s1);
        assert(x << s == 2 * (x << ((s - 1) as u128))) by (bit_vector)
            requires
                1 <= s < 128,
                (x << ((s - 1) as u128)) <= 0x7fffffff_ffffffff_ffffffff_ffffffff,
        ;
        assert(2 * (x * pow2(s1 as nat)) == x * (2 * pow2(s1 as nat))) by (nonlinear_arith);
    }
}

/// The pointer width in powers of two: what `usize` and `isize` can hold.
pub(crate) proof fn lemma_ptr_width()
    ensures
        usize::BITS == 32 || usize::BITS == 64,
        usize::MAX == pow2(usize::BITS as nat) - 1,
        isize::MAX == pow2((usize::BITS - 1) as nat) - 1,
        isize::MIN == -(pow2((usize::BITS - 1) as nat) as int),
{
    broadcast use vstd::layout::layout_of_primitives;

    vstd::layout::unsigned_int_max_values();
    vstd::layout::signed_int_min_max_values();
    lemma_pow2_unfold(usize::BITS as nat);
    assert(size_of::<usize>() == size_of::<isize>());
}

/// The bits below place `s` and the bits a shift by `s` leaves behind do
/// not overlap, so OR-ing them is addition.
pub(crate) proof fn lemma_u128_or_shl(a: u128, x: u128, s: u128)
    requires
        s < 128,
        a < (1u128 << s),
    ensures
        (a | (x << s)) == a + (x << s),
{
    assert(a < (1u128 << s) ==> (a | (x << s)) == a + (x << s)) by (bit_vector)
        requires
            s < 128,
    ;
}

} // verus!
