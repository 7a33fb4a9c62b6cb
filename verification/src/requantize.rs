//! Weights that are ternary already stay as they are.

use crate::arith::{int_times, Arith};
use crate::float::{is_nan, is_tiny, lemma_units_ordered, magnitude, units};
use crate::i2::{code_at, is_peak, lemma_packing_unique, ternary, I2Tensor};
use vstd::arithmetic::power2::{lemma_pow2_pos, pow2};
use vstd::prelude::*;

verus! {

/// `t` holds the weights `src`, rounded to ternary codes.
pub open spec fn is_quantized(src: Seq<u32>, t: I2Tensor) -> bool {
    &&& t.wf()
    &&& t.n == src.len()
    &&& forall|i: int| 0 <= i < t.n ==> #[trigger] code_at(t.packed@, i) == ternary(src[i])
    &&& forall|b: int| 0 <= b < t.scales@.len() ==> is_peak(src, #[trigger] t.scales@[b])
}

/// `v` holds the weights of `t` as numbers.
pub open spec fn is_dequantized<A: Arith>(ar: &A, t: I2Tensor, v: Seq<u32>) -> bool {
    &&& v.len() == t.n
    &&& forall|i: int|
        #![trigger v[i]]
        0 <= i < t.n ==> int_times(ar, t.weight(i), t.scales@[i / 64], v[i])
}

/// 1 times `s` is `s`, -1 times `s` is `s` with the other sign, and 0 times `s` is a zero, where `s`
/// has no sign.
pub open spec fn multiplies_units<A: Arith>(ar: &A, s: u32) -> bool {
    &&& forall|r: u32| #[trigger] int_times(ar, 1, s, r) ==> r == s
    &&& forall|r: u32| #[trigger] int_times(ar, -1, s, r) ==> r == s + 0x8000_0000
    &&& forall|r: u32| #[trigger] int_times(ar, 0, s, r) ==> magnitude(r) == 0
}

/// `r` is a number that is rounded to `code` and has the magnitude `s`, or none where the code is
/// that of zero.
spec fn comes_back(s: u32, code: u8, r: u32) -> bool {
    &&& ternary(r) == code
    &&& !is_nan(r)
    &&& magnitude(r) == s || code == 1 && magnitude(r) == 0
}

proof fn lemma_peak_unique(src: Seq<u32>, a: u32, b: u32)
    requires
        is_peak(src, a),
        is_peak(src, b),
    ensures
        a == b,
{
}

/// What quantised weights are: -1, 0 or 1 as the number is negative, closer to zero than 10^-6, or
/// positive, with one scale for all blocks, which is the greatest magnitude of all numbers.
pub proof fn lemma_what_is_quantized(src: Seq<u32>, t: I2Tensor, i: int, b: int)
    requires
        is_quantized(src, t),
        0 <= i < src.len(),
        0 <= b < t.scales@.len(),
    ensures
        code_at(t.packed@, i) == 1 <==> units(magnitude(src[i])) * 1_000_000 < pow2(149),
        code_at(t.packed@, i) == 2 <==> !is_nan(src[i]) && src[i] < 0x8000_0000 && units(
            magnitude(src[i]),
        ) * 1_000_000 >= pow2(149),
        code_at(t.packed@, i) <= 2,
        !is_nan(src[i]) ==> magnitude(src[i]) <= t.scales@[b],
        t.scales@[b] == 0 || exists|j: int|
            0 <= j < src.len() && !is_nan(#[trigger] src[j]) && magnitude(src[j]) == t.scales@[b],
        t.scales@.len() == src.len() / 64,
        t.scales@[b] == t.scales@[0],
{
    let bits = src[i];
    lemma_pow2_pos(149);
    assert(code_at(t.packed@, i) == ternary(bits));
    assert(is_peak(src, t.scales@[b]) && is_peak(src, t.scales@[0]));
    lemma_peak_unique(src, t.scales@[b], t.scales@[0]);
    if !is_tiny(bits) {
        if magnitude(bits) > 0 {
            lemma_units_ordered(0, magnitude(bits));
        }
        assert(units(magnitude(bits)) > 0);
    }
}

/// Quantising what was quantised changes nothing: where some weight is a number that does not round
/// to zero, and the arithmetic multiplies the scale with -1, 0 and 1 as it should, the weights that
/// come back out of a tensor are quantised to the same bytes and the same scales.
pub proof fn lemma_quantized_again<A: Arith>(
    ar: &A,
    src: Seq<u32>,
    t: I2Tensor,
    v: Seq<u32>,
    u: I2Tensor,
    i: int,
)
    requires
        is_quantized(src, t),
        is_dequantized(ar, t, v),
        is_quantized(v, u),
        0 <= i < src.len(),
        !is_nan(src[i]),
        !is_tiny(src[i]),
        multiplies_units(ar, t.scales@[0]),
    ensures
        u.packed@ == t.packed@,
        u.scales@ == t.scales@,
        u.n == t.n,
{
    let s = t.scales@[0];
    assert(is_peak(src, s));
    assert(magnitude(src[i]) <= s);
    if s > 0 {
        let w = choose|w: int|
            0 <= w < src.len() && !is_nan(#[trigger] src[w]) && magnitude(src[w]) == s;
        assert(s <= 0x7f80_0000);
    }
    assert(units(magnitude(src[i])) <= units(s as int)) by {
        if magnitude(src[i]) < s {
            lemma_units_ordered(magnitude(src[i]), s as int);
        }
    }
    assert(!is_tiny(s));
    assert(s > 0) by {
        if s == 0 {
            lemma_zero_tiny();
        }
    }
    lemma_units_ordered(0, s as int);
    assert forall|j: int| 0 <= j < v.len() implies comes_back(
        s,
        code_at(t.packed@, j),
        #[trigger] v[j],
    ) by {
        assert(code_at(t.packed@, j) == ternary(src[j]));
        assert(is_peak(src, t.scales@[j / 64]));
        lemma_peak_unique(src, s, t.scales@[j / 64]);
        assert(int_times(ar, t.weight(j), t.scales@[j / 64], v[j]));
        lemma_zero_tiny();
    }
    assert(code_at(t.packed@, i) == ternary(src[i]));
    assert(magnitude(v[i]) == s);
    assert(is_peak(v, s));
    assert forall|j: int| 0 <= j < 4 * u.packed@.len() implies #[trigger] code_at(u.packed@, j)
        == code_at(t.packed@, j) by {
        assert(code_at(u.packed@, j) == ternary(v[j]));
    }
    lemma_packing_unique(u.packed@, t.packed@);
    assert forall|b: int| 0 <= b < u.scales@.len() implies u.scales@[b] == t.scales@[b] by {
        lemma_peak_unique(v, s, u.scales@[b]);
        lemma_peak_unique(src, s, t.scales@[b]);
    }
    assert(u.scales@ =~= t.scales@);
}

proof fn lemma_zero_tiny()
    ensures
        forall|r: u32| magnitude(r) == 0 ==> #[trigger] is_tiny(r) && !is_nan(r),
{
    lemma_pow2_pos(149);
}

} // verus!
