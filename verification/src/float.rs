//! Single-precision floating-point numbers as bit patterns.

use vstd::arithmetic::power2::{lemma2_to64, lemma_pow2_adds, lemma_pow2_pos, lemma_pow2_unfold, pow2};
use vstd::prelude::*;

verus! {

/// Positive zero.
pub const ZERO: u32 = 0;

/// The pattern of 1.0.
pub const ONE: u32 = 0x3f80_0000;

/// The pattern of 0.5.
pub const HALF: u32 = 0x3f00_0000;

/// The pattern of negative infinity.
pub const NEG_INFINITY: u32 = 0xff80_0000;

/// The pattern without its sign, as a number. Patterns without sign are ordered as the
/// magnitudes that they stand for.
pub open spec fn magnitude(bits: u32) -> int {
    bits as int % 0x8000_0000
}

pub open spec fn is_negative(bits: u32) -> bool {
    bits >= 0x8000_0000
}

pub open spec fn is_nan(bits: u32) -> bool {
    magnitude(bits) > 0x7f80_0000
}

/// The absolute value of the number whose pattern without sign is `m`, in units of 2^-149, of
/// which every finite single-precision number is a whole multiple. Infinity counts as 2^128.
pub open spec fn units(m: int) -> int {
    if m < 0x80_0000 {
        m
    } else {
        (0x80_0000 + m % 0x80_0000) * pow2((m / 0x80_0000 - 1) as nat)
    }
}

/// The number that a pattern stands for, in units of 2^-149. Both zeros have the value 0.
pub open spec fn value(bits: u32) -> int {
    if is_negative(bits) {
        -units(magnitude(bits))
    } else {
        units(magnitude(bits))
    }
}

/// Whether the number lies strictly between -10^-6 and 10^-6.
pub open spec fn is_tiny(bits: u32) -> bool {
    units(magnitude(bits)) * 1_000_000 < pow2(149)
}

/// One step of the pattern is one strict step of the magnitude.
proof fn lemma_units_step(m: int)
    requires
        0 <= m,
    ensures
        units(m) < units(m + 1),
{
    let e = m / 0x80_0000;
    let f = m % 0x80_0000;
    assert(m == e * 0x80_0000 + f);
    if m + 1 < 0x80_0000 {
    } else if m < 0x80_0000 {
        assert(m + 1 == 0x80_0000);
        lemma2_to64();
        assert((m + 1) / 0x80_0000 == 1 && (m + 1) % 0x80_0000 == 0);
        assert(units(m + 1) == 0x80_0000 * 1);
    } else if f + 1 < 0x80_0000 {
        assert((m + 1) / 0x80_0000 == e && (m + 1) % 0x80_0000 == f + 1);
        lemma_pow2_pos((e - 1) as nat);
        let p = pow2((e - 1) as nat) as int;
        assert((0x80_0000 + f) * p < (0x80_0000 + f + 1) * p) by (nonlinear_arith)
            requires
                p > 0,
        ;
    } else {
        assert((m + 1) / 0x80_0000 == e + 1 && (m + 1) % 0x80_0000 == 0);
        lemma_pow2_pos((e - 1) as nat);
        lemma_pow2_unfold(e as nat);
        let p = pow2((e - 1) as nat) as int;
        assert(pow2(e as nat) == 2 * p);
        assert((0x80_0000 + f) * p < 0x80_0000 * (2 * p)) by (nonlinear_arith)
            requires
                p > 0,
                f < 0x80_0000,
        ;
    }
}

/// Patterns without sign are ordered as the magnitudes they stand for.
pub proof fn lemma_units_ordered(a: int, b: int)
    requires
        0 <= a < b,
    ensures
        units(a) < units(b),
    decreases b - a,
{
    lemma_units_step(b - 1);
    if a < b - 1 {
        lemma_units_ordered(a, b - 1);
    }
}

/// The order of two numbers is that of their signed patterns.
proof fn lemma_value_ordered(a: u32, b: u32)
    ensures
        value(a) < value(b) <==> signed_pattern(a) < signed_pattern(b),
        value(a) == value(b) <==> signed_pattern(a) == signed_pattern(b),
{
    let ma = magnitude(a);
    let mb = magnitude(b);
    assert(units(0) == 0);
    if ma < mb {
        lemma_units_ordered(ma, mb);
    } else if mb < ma {
        lemma_units_ordered(mb, ma);
    }
    if 0 < ma {
        lemma_units_ordered(0, ma);
    }
    if 0 < mb {
        lemma_units_ordered(0, mb);
    }
}

spec fn signed_pattern(bits: u32) -> int {
    if is_negative(bits) {
        -magnitude(bits)
    } else {
        magnitude(bits)
    }
}

fn signed(bits: u32) -> (r: i64)
    ensures
        r == signed_pattern(bits),
{
    if bits >= 0x8000_0000 {
        -((bits - 0x8000_0000) as i64)
    } else {
        bits as i64
    }
}

/// A pattern without sign that is neither zero nor above infinity stands for a positive number.
pub proof fn lemma_positive(bits: u32)
    requires
        0 < bits <= 0x7f80_0000,
    ensures
        !is_nan(bits),
        value(bits) > 0,
        value(ZERO) == 0,
{
    lemma_value_ordered(ZERO, bits);
}

/// Minus infinity is less than every other number.
pub proof fn lemma_least(bits: u32)
    requires
        !is_nan(bits),
        bits != NEG_INFINITY,
    ensures
        value(NEG_INFINITY) < value(bits),
{
    lemma_value_ordered(NEG_INFINITY, bits);
}

/// `a <= b` on two numbers.
pub open spec fn at_most(a: u32, b: u32) -> bool {
    !is_nan(a) && !is_nan(b) && value(a) <= value(b)
}

/// `a < b` on two numbers; false where either is not a number.
pub fn less(a: u32, b: u32) -> (r: bool)
    ensures
        r == (!is_nan(a) && !is_nan(b) && value(a) < value(b)),
{
    proof {
        lemma_value_ordered(a, b);
    }
    !not_a_number(a) && !not_a_number(b) && signed(a) < signed(b)
}

/// `a <= b` on two numbers; false where either is not a number.
pub fn less_eq(a: u32, b: u32) -> (r: bool)
    ensures
        r == at_most(a, b),
{
    proof {
        lemma_value_ordered(a, b);
    }
    !not_a_number(a) && !not_a_number(b) && signed(a) <= signed(b)
}

pub fn not_a_number(bits: u32) -> (r: bool)
    ensures
        r == is_nan(bits),
{
    bits % 0x8000_0000 > 0x7f80_0000
}

/// The same number without its sign.
pub fn absolute(bits: u32) -> (r: u32)
    ensures
        r == magnitude(bits),
        !is_negative(r),
        magnitude(r) == magnitude(bits),
{
    bits % 0x8000_0000
}

/// The largest single-precision number below 10^-6 has the pattern `0x358637bd`.
proof fn lemma_tiny_threshold(bits: u32)
    ensures
        is_tiny(bits) <==> magnitude(bits) <= 0x3586_37bd,
{
    let m = magnitude(bits);
    lemma2_to64();
    lemma_pow2_adds(43, 106);
    lemma_pow2_pos(106);
    let p = pow2(106) as int;
    lemma_pow2_adds(32, 11);
    assert(pow2(43) == 0x800_0000_0000);
    assert(0x3586_37bdint / 0x80_0000 == 107 && 0x3586_37bdint % 0x80_0000 == 0x0637bd);
    assert(units(0x3586_37bd) == (0x80_0000 + 0x0637bd) * p);
    assert(units(0x3586_37be) == (0x80_0000 + 0x0637be) * p);
    assert((0x80_0000 + 0x0637bd) * p * 1_000_000 < 0x800_0000_0000 * p) by (nonlinear_arith)
        requires
            p > 0,
    ;
    assert((0x80_0000 + 0x0637be) * p * 1_000_000 >= 0x800_0000_0000 * p) by (nonlinear_arith)
        requires
            p > 0,
    ;
    if m < 0x3586_37bd {
        lemma_units_ordered(m, 0x3586_37bd);
    }
    if m > 0x3586_37be {
        lemma_units_ordered(0x3586_37be, m);
    }
}

/// Whether the number is closer to zero than 10^-6; false where it is not a number.
pub fn below_threshold(bits: u32) -> (r: bool)
    ensures
        r == is_tiny(bits),
        r ==> !is_nan(bits),
{
    proof {
        lemma_tiny_threshold(bits);
    }
    bits % 0x8000_0000 <= 0x3586_37bd
}

/// The absolute value of a finite half-precision number whose pattern without sign is `m`, in
/// units of 2^-24.
pub open spec fn half_units(m: int) -> int {
    if m < 0x400 {
        m
    } else {
        (0x400 + m % 0x400) * pow2((m / 0x400 - 1) as nat)
    }
}

/// What the widening of a half-precision pattern gives: the same sign; for a finite number the
/// same value, exactly; infinity for infinity; and for what is not a number the same payload,
/// with the new bits clear.
pub open spec fn widens(half: u16, bits: u32) -> bool {
    let m = half as int % 0x8000;
    &&& is_negative(bits) <==> half >= 0x8000
    &&& if m < 0x7c00 {
        units(magnitude(bits)) == half_units(m) * pow2(125) && magnitude(bits) < 0x7f80_0000
    } else {
        magnitude(bits) == 0x7f80_0000 + (m - 0x7c00) * 0x2000
    }
}

/// There is only one single-precision pattern with a given sign and value.
pub proof fn lemma_widens_unique(half: u16, a: u32, b: u32)
    requires
        widens(half, a),
        widens(half, b),
    ensures
        a == b,
{
    let ma = magnitude(a);
    let mb = magnitude(b);
    if ma < mb {
        lemma_units_ordered(ma, mb);
    } else if mb < ma {
        lemma_units_ordered(mb, ma);
    }
}

/// Half precision to single precision.
pub fn half_to_f32(h: u16) -> (bits: u32)
    ensures
        widens(h, bits),
{
    let sign: u32 = (h / 0x8000) as u32;
    let exp: u32 = ((h / 0x400) % 0x20) as u32;
    let frac: u32 = (h % 0x400) as u32;
    let ghost m = h as int % 0x8000;
    assert(m == exp * 0x400 + frac);
    let mag: u32 = if exp == 0 {
        if frac == 0 {
            assert(half_units(m) * pow2(125) == 0) by (nonlinear_arith)
                requires
                    half_units(m) == 0,
            ;
            0
        } else {
            let mut e: u32 = 113;
            let mut f: u32 = frac;
            proof {
                lemma2_to64();
                assert(pow2(10) == 0x400);
            }
            while f < 0x400
                invariant
                    0 < f < 0x800,
                    0 < frac < 0x400,
                    103 <= e <= 113,
                    f * pow2(e as nat) == frac * pow2(113),
                    f as int * pow2((e - 103) as nat) == frac * 0x400,
                decreases e,
            {
                proof {
                    lemma2_to64();
                    if e == 103 {
                        assert(f as int * pow2(0) == f) by (nonlinear_arith)
                            requires
                                pow2(0) == 1,
                        ;
                        assert(false);
                    }
                    lemma_pow2_unfold(e as nat);
                    lemma_pow2_unfold((e - 103) as nat);
                    let p = pow2((e - 1) as nat) as int;
                    assert(f * (2 * p) == (2 * f) * p) by (nonlinear_arith);
                    let q = pow2((e - 104) as nat) as int;
                    assert(f * (2 * q) == (2 * f) * q) by (nonlinear_arith);
                }
                f = f * 2;
                e = e - 1;
            }
            proof {
                lemma_subnormal(frac as int, f as int, e as int);
            }
            e * 0x80_0000 + (f - 0x400) * 0x2000
        }
    } else if exp == 0x1f {
        0x7f80_0000 + frac * 0x2000
    } else {
        proof {
            lemma_normal(exp as int, frac as int);
        }
        (exp + 112) * 0x80_0000 + frac * 0x2000
    };
    sign * 0x8000_0000 + mag
}

proof fn lemma_subnormal(frac: int, f: int, e: int)
    requires
        0 < frac < 0x400,
        0x400 <= f < 0x800,
        103 <= e <= 113,
        f * pow2(e as nat) == frac * pow2(113),
    ensures
        units(e * 0x80_0000 + (f - 0x400) * 0x2000) == frac * pow2(125),
{
    let m = e * 0x80_0000 + (f - 0x400) * 0x2000;
    assert(m / 0x80_0000 == e && m % 0x80_0000 == (f - 0x400) * 0x2000);
    let p = pow2((e - 1) as nat) as int;
    lemma_pow2_unfold(e as nat);
    lemma_pow2_adds(113, 12);
    lemma2_to64();
    let q = pow2(113) as int;
    assert(units(m) == (f * 0x2000) * p);
    assert((f * 0x2000) * p == (f * (2 * p)) * 0x1000) by (nonlinear_arith);
    assert(frac * q * 0x1000 == frac * (q * 0x1000)) by (nonlinear_arith);
}

proof fn lemma_normal(exp: int, frac: int)
    requires
        0 < exp < 0x1f,
        0 <= frac < 0x400,
    ensures
        units((exp + 112) * 0x80_0000 + frac * 0x2000) == half_units(exp * 0x400 + frac) * pow2(125),
{
    let m = (exp + 112) * 0x80_0000 + frac * 0x2000;
    assert(m / 0x80_0000 == exp + 112 && m % 0x80_0000 == frac * 0x2000);
    let h = exp * 0x400 + frac;
    assert(h / 0x400 == exp && h % 0x400 == frac);
    lemma_pow2_adds((exp - 1) as nat, 112);
    lemma_pow2_adds(112, 13);
    lemma2_to64();
    let p = pow2((exp - 1) as nat) as int;
    let q = pow2(112) as int;
    assert(((0x400 + frac) * 0x2000) * (p * q) == ((0x400 + frac) * p) * (q * 0x2000))
        by (nonlinear_arith);
}

/// The upper half of a single-precision pattern, completed with zeros.
pub fn bf16_to_f32(b: u16) -> (bits: u32)
    ensures
        bits == b * 0x1_0000,
{
    b as u32 * 0x1_0000
}

} // verus!
