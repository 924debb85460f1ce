//! Proofs about the model: what the canonical encodings look like, how the
//! accumulated group value grows, and the laws of the codec — every decode
//! outcome is one of exactly three, and decoding an encoding gives the
//! value back with any trailing bytes untouched.

use crate::model::{
    as_signed, finds_value, group_value, has_cont_bit, has_sign_bit, max_encoded_len, needs_more,
    overflows_width, signed_decoded, signed_encoding, signed_value, terminal_at,
    unsigned_decoded, unsigned_encoding,
};
use vstd::arithmetic::div_mod::{
    lemma_div_multiples_vanish, lemma_div_plus_one, lemma_fundamental_div_mod,
    lemma_mod_add_multiples_vanish, lemma_mod_division_less_than_divisor,
    lemma_mod_multiples_vanish, lemma_multiply_divide_lt, lemma_small_mod,
};
use vstd::arithmetic::power2::{
    lemma2_to64, lemma_pow2_adds, lemma_pow2_pos, lemma_pow2_strictly_increases,
    lemma_pow2_unfold, pow2,
};
use vstd::prelude::*;

verus! {

/// The accumulated group value of `s` occupies fewer than `7 * s.len()` bits.
pub(crate) proof fn lemma_group_value_bound(s: Seq<u8>)
    ensures
        group_value(s) < pow2(7 * s.len()),
    decreases s.len(),
{
    if s.len() == 0 {
        lemma2_to64();
    } else {
        let tail = s.drop_first();
        lemma_group_value_bound(tail);
        lemma_pow2_adds(7, 7 * tail.len());
        lemma2_to64();
        assert(0x80 * group_value(tail) <= 0x80 * (pow2(7 * tail.len()) - 1)) by (nonlinear_arith)
            requires
                group_value(tail) <= pow2(7 * tail.len()) - 1,
        ;
    }
}

/// Appending a byte contributes its low seven bits at the next group
/// position.
pub(crate) proof fn lemma_group_value_snoc(p: Seq<u8>, b: u8)
    ensures
        group_value(p.push(b)) == group_value(p) + (b % 0x80) * pow2(7 * p.len()),
    decreases p.len(),
{
    if p.len() == 0 {
        assert(p.push(b) =~= seq![b]);
        assert(seq![b].drop_first() =~= Seq::<u8>::empty());
        assert(group_value(Seq::<u8>::empty()) == 0);
        assert(group_value(p) == 0);
        assert(group_value(seq![b]) == (b % 0x80));
        lemma2_to64();
    } else {
        let q = p.drop_first();
        assert(p.push(b).drop_first() =~= q.push(b));
        lemma_group_value_snoc(q, b);
        lemma_pow2_adds(7, 7 * q.len());
        lemma2_to64();
        let m = (b % 0x80) as int;
        let pq = pow2(7 * q.len()) as int;
        assert(p.push(b)[0] == p[0]);
        assert(group_value(p.push(b)) == (p[0] % 0x80) + 0x80 * group_value(q.push(b)));
        assert(group_value(p) == (p[0] % 0x80) + 0x80 * group_value(q));
        assert(group_value(q.push(b)) == group_value(q) + m * pq);
        assert(pow2(7 * p.len()) == 0x80 * pq);
        assert(0x80 * (group_value(q) + m * pq) == 0x80 * group_value(q) + m * (0x80 * pq))
            by (nonlinear_arith);
    }
}

/// What the unsigned encoder emits: at least one byte, the continuation
/// flag on every byte but the last, and the group value is the number
/// itself.
pub(crate) proof fn lemma_unsigned_encoding_props(n: nat)
    ensures
        unsigned_encoding(n).len() >= 1,
        !has_cont_bit(unsigned_encoding(n).last()),
        forall|j: int|
            0 <= j < unsigned_encoding(n).len() - 1 ==> has_cont_bit(
                #[trigger] unsigned_encoding(n)[j],
            ),
        group_value(unsigned_encoding(n)) == n,
    decreases n,
{
    let e = unsigned_encoding(n);
    lemma_mod_division_less_than_divisor(n as int, 0x80);
    if n < 0x80 {
        assert(e.drop_first() =~= Seq::<u8>::empty());
        assert(group_value(Seq::<u8>::empty()) == 0);
        assert(group_value(e) == (e[0] % 0x80));
    } else {
        let ep = unsigned_encoding(n / 0x80);
        lemma_unsigned_encoding_props(n / 0x80);
        assert(e.drop_first() =~= ep);
        assert(e.last() == ep.last());
        lemma_mod_add_multiples_vanish((n % 0x80) as int, 0x80);
        lemma_small_mod(n % 0x80, 0x80);
        assert(e[0] == ((n % 0x80) + 0x80) as u8);
        assert(e[0] % 0x80 == n % 0x80);
        assert(group_value(e) == (e[0] % 0x80) + 0x80 * group_value(ep));
        lemma_fundamental_div_mod(n as int, 0x80);
    }
}

/// A number below 2^w encodes in at most the byte bound of width `w`.
pub(crate) proof fn lemma_unsigned_encoding_len(n: nat, w: nat)
    requires
        1 <= w,
        n < pow2(w),
    ensures
        unsigned_encoding(n).len() <= max_encoded_len(w),
    decreases n,
{
    if n < 0x80 {
        assert(7int / 7 <= (w + 6) / 7) by {
            vstd::arithmetic::div_mod::lemma_div_is_ordered(7, (w + 6) as int, 7);
        }
    } else {
        // n >= 2^7 forces w >= 8
        lemma2_to64();
        if w < 7 {
            lemma_pow2_strictly_increases(w, 7);
        }
        assert(w >= 8) by {
            if w == 7 {
            } else {
                lemma_pow2_strictly_increases(7, w);
            }
        }
        lemma_pow2_adds((w - 7) as nat, 7);
        lemma_multiply_divide_lt(n as int, 0x80, pow2((w - 7) as nat) as int);
        lemma_unsigned_encoding_len(n / 0x80, (w - 7) as nat);
        lemma_div_plus_one((w - 1) as int, 7);
    }
}

/// What the signed encoder emits: at least one byte, the continuation flag
/// on every byte but the last, and the number is the group value minus
/// 2^(7 len) exactly when the terminal byte carries the sign bit.
pub(crate) proof fn lemma_signed_encoding_props(n: int)
    ensures
        signed_encoding(n).len() >= 1,
        !has_cont_bit(signed_encoding(n).last()),
        forall|j: int|
            0 <= j < signed_encoding(n).len() - 1 ==> has_cont_bit(
                #[trigger] signed_encoding(n)[j],
            ),
        n == group_value(signed_encoding(n)) - (if has_sign_bit(signed_encoding(n).last()) {
            pow2(7 * signed_encoding(n).len()) as int
        } else {
            0
        }),
    decreases crate::model::signed_measure(n),
{
    let e = signed_encoding(n);
    let b = n % 0x80;
    let q = n / 0x80;
    lemma_fundamental_div_mod(n, 0x80);
    lemma_mod_division_less_than_divisor(n, 0x80);
    lemma2_to64();
    if (q == 0 && b < 0x40) || (q == -1 && b >= 0x40) {
        assert(e.drop_first() =~= Seq::<u8>::empty());
        assert(group_value(Seq::<u8>::empty()) == 0);
        assert(e[0] == b as u8);
        assert(group_value(e) == (e[0] % 0x80));
        assert(group_value(e) == b);
    } else {
        let ep = signed_encoding(q);
        lemma_signed_encoding_props(q);
        assert(e.drop_first() =~= ep);
        assert(e.last() == ep.last());
        lemma_mod_add_multiples_vanish(b, 0x80);
        lemma_small_mod(b as nat, 0x80);
        assert(e[0] == (b + 0x80) as u8);
        assert(e[0] % 0x80 == b);
        assert(group_value(e) == b + 0x80 * group_value(ep));
        lemma_pow2_adds(7, 7 * ep.len());
        assert(pow2(7 * e.len()) == 0x80 * pow2(7 * ep.len()));
        if has_sign_bit(ep.last()) {
            assert(q == group_value(ep) - pow2(7 * ep.len()));
            assert(0x80 * (group_value(ep) - pow2(7 * ep.len())) == 0x80 * group_value(ep) - (
            0x80 * pow2(7 * ep.len()))) by (nonlinear_arith);
        } else {
            assert(q == group_value(ep));
        }
    }
}

/// A number representable in `k` signed bits encodes in at most the byte
/// bound of width `k`.
pub(crate) proof fn lemma_signed_encoding_len(v: int, k: nat)
    requires
        1 <= k,
        -pow2((k - 1) as nat) <= v < pow2((k - 1) as nat),
    ensures
        signed_encoding(v).len() <= max_encoded_len(k),
    decreases k,
{
    let b = v % 0x80;
    let q = v / 0x80;
    lemma_fundamental_div_mod(v, 0x80);
    lemma2_to64();
    if (q == 0 && b < 0x40) || (q == -1 && b >= 0x40) {
        assert(7int / 7 <= (k + 6) / 7) by {
            vstd::arithmetic::div_mod::lemma_div_is_ordered(7, (k + 6) as int, 7);
        }
    } else {
        // not terminal, so v lies outside [-2^6, 2^6) and k exceeds 7
        if k <= 7 {
            lemma_pow2_strictly_increases((k - 1) as nat, 6);
            if k == 7 {
            }
            assert(-0x40 <= v < 0x40) by {
                if (k - 1) as nat == 6 {
                } else {
                    lemma_pow2_strictly_increases((k - 1) as nat, 6);
                }
            }
            assert(false);
        }
        let k7 = (k - 7) as nat;
        lemma_pow2_adds((k7 - 1) as nat, 7);
        // bound the shifted value: -2^(k-8) <= q < 2^(k-8)
        assert(q < pow2((k7 - 1) as nat)) by {
            lemma_multiply_divide_lt(v, 0x80, pow2((k7 - 1) as nat) as int);
        }
        assert(-pow2((k7 - 1) as nat) <= q) by {
            vstd::arithmetic::div_mod::lemma_div_is_ordered(
                -(pow2((k7 - 1) as nat) as int) * 0x80,
                v,
                0x80,
            );
            lemma_div_multiples_vanish(-(pow2((k7 - 1) as nat) as int), 0x80);
        }
        lemma_signed_encoding_len(q, k7);
        lemma_div_plus_one((k - 1) as int, 7);
    }
}

/// `as_signed` stays within the signed range of width `w`.
pub(crate) proof fn lemma_as_signed_range(n: nat, w: nat)
    requires
        1 <= w,
        n < pow2(w),
    ensures
        -pow2((w - 1) as nat) <= as_signed(n, w) < pow2((w - 1) as nat),
{
    lemma_pow2_unfold(w);
}

/// Splitting a byte's contribution at the width boundary: only the bits
/// that fall below the width survive the truncation.
pub(crate) proof fn lemma_terminal_truncation(a: nat, b: nat, sh: nat, w: nat)
    ensures
        sh < w && a < pow2(sh) && b < 0x80 ==> {
            let kept = b % pow2((w - sh) as nat);
            &&& a + kept * pow2(sh) < pow2(w)
            &&& (a + b * pow2(sh)) % pow2(w) == a + kept * pow2(sh)
        },
{
    if sh < w && a < pow2(sh) && b < 0x80 {
        let av = (w - sh) as nat;
        let kept = b % pow2(av);
        let hi = b / pow2(av);
        lemma_pow2_pos(av);
        lemma_pow2_pos(sh);
        lemma_pow2_pos(w);
        lemma_fundamental_div_mod(b as int, pow2(av) as int);
        lemma_pow2_adds(av, sh);
        lemma_mod_division_less_than_divisor(b as int, pow2(av) as int);
        assert(kept * pow2(sh) <= pow2(av) * pow2(sh) - pow2(sh)) by (nonlinear_arith)
            requires
                kept <= pow2(av) - 1,
                pow2(sh) >= 0,
        ;
        assert(a + kept * pow2(sh) < pow2(w));
        assert(a + b * pow2(sh) == pow2(w) * hi + (a + kept * pow2(sh))) by (nonlinear_arith)
            requires
                b == pow2(av) * hi + kept,
                pow2(av) * pow2(sh) == pow2(w),
        ;
        lemma_mod_multiples_vanish(hi as int, (a + kept * pow2(sh)) as int, pow2(w) as int);
        lemma_small_mod((a + kept * pow2(sh)) as nat, pow2(w));
        assert((a + b * pow2(sh)) % pow2(w) == a + kept * pow2(sh));
    }
}

/// Scanning a prefix: either every byte of it carries the continuation
/// flag, or a first terminal byte stands inside it.
pub(crate) proof fn lemma_scan_prefix(s: Seq<u8>, k: int)
    requires
        0 <= k <= s.len(),
    ensures
        (forall|j: int| 0 <= j < k ==> has_cont_bit(#[trigger] s[j])) || (exists|t: int|
            0 <= t < k && terminal_at(s, t)),
    decreases k,
{
    if k > 0 {
        lemma_scan_prefix(s, k - 1);
        if forall|j: int| 0 <= j < k - 1 ==> has_cont_bit(#[trigger] s[j]) {
            if !has_cont_bit(s[k - 1]) {
                assert(terminal_at(s, k - 1));
            }
        }
    }
}

/// The three decode outcomes are mutually exclusive and cover every input:
/// a success within the width's byte bound, a request for more input, or
/// an overflow of the width — exactly one holds of any byte sequence.
pub proof fn lemma_decode_outcomes_partition(s: Seq<u8>, w: nat)
    requires
        1 <= w,
    ensures
        (exists|t: int| finds_value(s, w, t)) || needs_more(s, w) || overflows_width(s, w),
        (exists|t: int| finds_value(s, w, t)) ==> !needs_more(s, w) && !overflows_width(s, w),
        !(needs_more(s, w) && overflows_width(s, w)),
{
    let max = max_encoded_len(w) as int;
    assert(max >= 1) by {
        vstd::arithmetic::div_mod::lemma_div_is_ordered(7, (w + 6) as int, 7);
    }
    let k = if s.len() < max {
        s.len() as int
    } else {
        max
    };
    lemma_scan_prefix(s, k);
    if exists|t: int| 0 <= t < k && terminal_at(s, t) {
        let t = choose|t: int| 0 <= t < k && terminal_at(s, t);
        assert(finds_value(s, w, t));
    }
    if exists|t: int| finds_value(s, w, t) {
        let t = choose|t: int| finds_value(s, w, t);
        assert(!has_cont_bit(s[t]));
    }
}

/// Round trip with trailing data: decoding an unsigned encoding with
/// anything appended yields the value back and leaves exactly the
/// appended bytes.
pub proof fn lemma_unsigned_trailing_data(n: nat, w: nat, extra: Seq<u8>)
    requires
        1 <= w,
        n < pow2(w),
    ensures
        unsigned_decoded(unsigned_encoding(n) + extra, w, n, extra),
{
    let e = unsigned_encoding(n);
    let s = e + extra;
    lemma_unsigned_encoding_props(n);
    lemma_unsigned_encoding_len(n, w);
    let t = e.len() - 1;
    assert(terminal_at(s, t as int));
    assert(s.take(t + 1) =~= e);
    assert(s.skip(t + 1) =~= extra);
    lemma_pow2_pos(w);
    lemma_small_mod(n, pow2(w));
}

/// Round trip: decoding an unsigned encoding yields the value back with
/// nothing left over.
pub proof fn lemma_unsigned_round_trip(n: nat, w: nat)
    requires
        1 <= w,
        n < pow2(w),
    ensures
        unsigned_decoded(unsigned_encoding(n), w, n, Seq::<u8>::empty()),
{
    lemma_unsigned_trailing_data(n, w, Seq::<u8>::empty());
    assert(unsigned_encoding(n) + Seq::<u8>::empty() =~= unsigned_encoding(n));
}

/// Round trip with trailing data for the signed encoder: decoding with
/// sign extension recovers the number and leaves the appended bytes.
pub proof fn lemma_signed_trailing_data(v: int, w: nat, extra: Seq<u8>)
    requires
        8 <= w,
        -pow2((w - 1) as nat) <= v < pow2((w - 1) as nat),
    ensures
        signed_decoded(signed_encoding(v) + extra, w, v, extra),
{
    let e = signed_encoding(v);
    let s = e + extra;
    lemma_signed_encoding_props(v);
    lemma_signed_encoding_len(v, w);
    lemma_group_value_bound(e);
    let t = e.len() - 1;
    assert(terminal_at(s, t as int));
    assert(s.take(t + 1) =~= e);
    assert(s.skip(t + 1) =~= extra);
    let gv = group_value(e);
    let el = e.len();
    lemma_pow2_pos(w);
    lemma_pow2_unfold(w);
    if !has_sign_bit(e.last()) {
        // v is the plain group value, already inside [0, 2^(w-1))
        lemma_small_mod(gv, pow2(w));
        if gv >= pow2((w - 1) as nat) {
            lemma_pow2_strictly_increases((w - 1) as nat, w);
        }
    } else if 7 * el < w {
        // sign extension fires: the groups sit strictly inside the width
        lemma_pow2_strictly_increases(7 * el, w);
        lemma_small_mod(gv, pow2(w));
        assert(signed_value(e, w) == as_signed((gv + pow2(w) - pow2(7 * el)) as nat, w));
    } else {
        // the groups reach the top of the width: truncation alone extends
        // the sign, as v and the group value agree modulo 2^w
        let d = (7 * el - w) as nat;
        lemma_pow2_adds(w, d);
        assert(gv == pow2(w) * (pow2(d) as int) + v) by (nonlinear_arith)
            requires
                gv == v + (pow2(w) * pow2(d)) as int,
        ;
        lemma_mod_multiples_vanish(pow2(d) as int, v, pow2(w) as int);
        lemma_mod_add_multiples_vanish(v, pow2(w) as int);
        lemma_small_mod((v + pow2(w)) as nat, pow2(w));
        assert(7 * (el - 1) >= w - 7);
    }
}

/// Round trip for the signed encoder with nothing appended.
pub proof fn lemma_signed_round_trip(v: int, w: nat)
    requires
        8 <= w,
        -pow2((w - 1) as nat) <= v < pow2((w - 1) as nat),
    ensures
        signed_decoded(signed_encoding(v), w, v, Seq::<u8>::empty()),
{
    lemma_signed_trailing_data(v, w, Seq::<u8>::empty());
    assert(signed_encoding(v) + Seq::<u8>::empty() =~= signed_encoding(v));
}

} // verus!
