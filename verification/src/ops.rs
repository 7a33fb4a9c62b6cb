//! The building blocks of a layer that hold no weights of their own: normalisation, activation,
//! rotary positions and softmax.

use crate::arith::{
    exponential, from_count, inner_product, minus, narrow, over, plus, power, product3, root,
    sin_cos, times, times3, total, dot_product, Arith,
};
use crate::float::{is_nan, less, value, NEG_INFINITY, ONE, ZERO};
use crate::gguf::RealBits;
use vstd::prelude::*;

verus! {

/// `r` is the number `v` in single precision.
pub open spec fn single<A: Arith>(ar: &A, v: RealBits, r: u32) -> bool {
    match v {
        RealBits::Single(bits) => r == bits,
        RealBits::Double(bits) => narrow(ar, bits, r),
    }
}

pub fn to_single<A: Arith>(ar: &A, v: RealBits) -> (r: u32)
    ensures
        single(ar, v, r),
{
    match v {
        RealBits::Single(bits) => bits,
        RealBits::Double(bits) => ar.narrow(bits),
    }
}

/// `m` is the sum of the squares of `x` over their number.
pub open spec fn mean_square<A: Arith>(ar: &A, x: Seq<u32>, m: u32) -> bool {
    exists|s: u32, n: u32|
        inner_product(ar, x, x, s) && from_count(ar, x.len() as u64, n) && #[trigger] over(
            ar,
            s,
            n,
            m,
        )
}

/// `inv` is 1 over the root of the mean square of `x` plus `eps`.
pub open spec fn inverse_rms<A: Arith>(ar: &A, x: Seq<u32>, eps: u32, inv: u32) -> bool {
    exists|m: u32, e: u32, d: u32|
        mean_square(ar, x, m) && #[trigger] plus(ar, m, eps, e) && #[trigger] root(ar, e, d)
            && over(ar, ONE, d, inv)
}

/// `out` is `x` over its root mean square, times `w`, as far as both go.
pub open spec fn rms_normed<A: Arith>(
    ar: &A,
    x: Seq<u32>,
    w: Seq<u32>,
    eps: u32,
    out: Seq<u32>,
) -> bool {
    &&& out.len() == if x.len() <= w.len() {
        x.len()
    } else {
        w.len()
    }
    &&& exists|inv: u32| #[trigger]
        inverse_rms(ar, x, eps, inv) && forall|i: int|
            0 <= i < out.len() ==> product3(ar, x[i], inv, w[i], #[trigger] out[i])
}

pub fn rms_norm<A: Arith>(ar: &A, x: &[u32], w: &[u32], eps: u32) -> (out: Vec<u32>)
    ensures
        rms_normed(ar, x@, w@, eps, out@),
{
    let s: u32 = dot_product(ar, x, x);
    let len: usize = x.len();
    let n: u32 = ar.from_count(len as u64);
    let m: u32 = ar.over(s, n);
    let e: u32 = ar.plus(m, eps);
    let d: u32 = ar.root(e);
    let inv: u32 = ar.over(ONE, d);
    proof {
        assert(over(ar, s, n, m));
        assert(plus(ar, m, eps, e) && root(ar, e, d));
        assert(inverse_rms(ar, x@, eps, inv));
    }
    let end: usize = if len <= w.len() {
        len
    } else {
        w.len()
    };
    let mut out: Vec<u32> = Vec::new();
    let mut i: usize = 0;
    while i < end
        invariant
            end <= x@.len(),
            end <= w@.len(),
            i <= end,
            out@.len() == i,
            forall|j: int| 0 <= j < i ==> product3(ar, x@[j], inv, w@[j], #[trigger] out@[j]),
        decreases end - i,
    {
        out.push(times3(ar, x[i], inv, w[i]));
        i += 1;
    }
    out
}

/// `v` where it is positive, else 0.
pub open spec fn rectified(v: u32) -> u32 {
    if !is_nan(v) && value(v) > 0 {
        v
    } else {
        ZERO
    }
}

/// `r` is the square of `v` where that is positive, else the square of 0.
pub open spec fn squared_relu<A: Arith>(ar: &A, v: u32, r: u32) -> bool {
    times(ar, rectified(v), rectified(v), r)
}

pub fn relu2<A: Arith>(ar: &A, v: u32) -> (r: u32)
    ensures
        squared_relu(ar, v, r),
{
    let p: u32 = if less(ZERO, v) {
        v
    } else {
        ZERO
    };
    assert(p == rectified(v));
    ar.times(p, p)
}

/// Element `i` is greater than all numbers before it.
pub open spec fn is_record(v: Seq<u32>, i: int) -> bool {
    &&& 0 <= i < v.len()
    &&& forall|j: int|
        0 <= j < i ==> !is_nan(#[trigger] v[j]) ==> value(v[j]) < value(v[i])
}

/// `m` is the greatest of the numbers in `v`, the first one of those that are equal, or minus
/// infinity where there is none.
pub open spec fn is_greatest(v: Seq<u32>, m: u32) -> bool {
    &&& !is_nan(m)
    &&& forall|i: int|
        0 <= i < v.len() ==> !is_nan(#[trigger] v[i]) ==> value(v[i]) <= value(m)
    &&& m == NEG_INFINITY || exists|i: int| #[trigger] is_record(v, i) && v[i] == m
}

pub fn greatest(v: &[u32]) -> (m: u32)
    ensures
        is_greatest(v@, m),
{
    let mut m: u32 = NEG_INFINITY;
    let mut i: usize = 0;
    assert(!is_nan(NEG_INFINITY));
    while i < v.len()
        invariant
            i <= v@.len(),
            !is_nan(m),
            forall|j: int|
                0 <= j < i ==> !is_nan(#[trigger] v@[j]) ==> value(v@[j]) <= value(m),
            m == NEG_INFINITY || exists|j: int| #[trigger] is_record(v@, j) && v@[j] == m,
        decreases v@.len() - i,
    {
        if less(m, v[i]) {
            m = v[i];
            assert(is_record(v@, i as int));
        }
        i += 1;
    }
    m
}

/// `r` is e to the power of `a - m`.
pub open spec fn shifted_exp<A: Arith>(ar: &A, a: u32, m: u32, r: u32) -> bool {
    exists|d: u32| #[trigger] minus(ar, a, m, d) && exponential(ar, d, r)
}

/// `out` is each of `v` over `sum`.
pub open spec fn quotients<A: Arith>(ar: &A, v: Seq<u32>, sum: u32, out: Seq<u32>) -> bool {
    &&& out.len() == v.len()
    &&& forall|i: int| 0 <= i < out.len() ==> over(ar, v[i], sum, #[trigger] out[i])
}

pub fn divide_all<A: Arith>(ar: &A, v: &[u32], sum: u32) -> (out: Vec<u32>)
    ensures
        quotients(ar, v@, sum, out@),
{
    let mut out: Vec<u32> = Vec::new();
    let mut i: usize = 0;
    while i < v.len()
        invariant
            i <= v@.len(),
            out@.len() == i,
            forall|j: int| 0 <= j < i ==> over(ar, v@[j], sum, #[trigger] out@[j]),
        decreases v@.len() - i,
    {
        out.push(ar.over(v[i], sum));
        i += 1;
    }
    out
}

/// `exps` is e to the power of each of `v` less `m`.
pub open spec fn shifted_exps<A: Arith>(ar: &A, v: Seq<u32>, m: u32, exps: Seq<u32>) -> bool {
    &&& exps.len() == v.len()
    &&& forall|i: int| 0 <= i < exps.len() ==> shifted_exp(ar, v[i], m, #[trigger] exps[i])
}

/// `out` is the softmax of `v`, whose greatest number is taken off first.
pub open spec fn softmaxed<A: Arith>(ar: &A, v: Seq<u32>, out: Seq<u32>) -> bool {
    exists|m: u32, exps: Seq<u32>, sum: u32|
        is_greatest(v, m) && #[trigger] shifted_exps(ar, v, m, exps) && #[trigger] total(
            ar,
            exps,
            sum,
        ) && quotients(ar, exps, sum, out)
}

pub fn softmax<A: Arith>(ar: &A, v: &[u32]) -> (out: Vec<u32>)
    ensures
        softmaxed(ar, v@, out@),
        out@.len() == v@.len(),
{
    let m: u32 = greatest(v);
    let mut exps: Vec<u32> = Vec::new();
    let mut i: usize = 0;
    while i < v.len()
        invariant
            i <= v@.len(),
            exps@.len() == i,
            forall|j: int| 0 <= j < i ==> shifted_exp(ar, v@[j], m, #[trigger] exps@[j]),
        decreases v@.len() - i,
    {
        let d: u32 = ar.minus(v[i], m);
        let e: u32 = ar.exponential(d);
        assert(minus(ar, v@[i as int], m, d));
        exps.push(e);
        i += 1;
    }
    let sum: u32 = ar.total(exps.as_slice());
    assert(shifted_exps(ar, v@, m, exps@) && total(ar, exps@, sum));
    divide_all(ar, exps.as_slice(), sum)
}

/// `sc` is the sine and the cosine of the angle by which dimension `d` of a head is turned at
/// position `pos`: `pos / theta^(d / head_dim)`.
pub open spec fn rotation<A: Arith>(
    ar: &A,
    pos: int,
    d: int,
    head_dim: int,
    theta: u32,
    sc: (u32, u32),
) -> bool {
    exists|a: u32, b: u32, e: u32, p: u32, freq: u32, at: u32, angle: u32|
        from_count(ar, d as u64, a) && from_count(ar, head_dim as u64, b) && #[trigger] over(
            ar,
            a,
            b,
            e,
        ) && #[trigger] power(ar, theta, e, p) && #[trigger] over(ar, ONE, p, freq) && from_count(
            ar,
            pos as u64,
            at,
        ) && #[trigger] times(ar, at, freq, angle) && sin_cos(ar, angle, sc)
}

pub fn turn_by<A: Arith>(ar: &A, pos: usize, d: usize, head_dim: usize, theta: u32) -> (sc: (u32, u32))
    ensures
        rotation(ar, pos as int, d as int, head_dim as int, theta, sc),
{
    let a: u32 = ar.from_count(d as u64);
    let b: u32 = ar.from_count(head_dim as u64);
    let e: u32 = ar.over(a, b);
    let p: u32 = ar.power(theta, e);
    let freq: u32 = ar.over(ONE, p);
    let at: u32 = ar.from_count(pos as u64);
    let angle: u32 = ar.times(at, freq);
    let sc: (u32, u32) = ar.sin_cos(angle);
    assert(over(ar, a, b, e) && power(ar, theta, e, p) && over(ar, ONE, p, freq) && times(
        ar,
        at,
        freq,
        angle,
    ));
    sc
}

/// `r` is `a * c - b * s`.
pub open spec fn cross_minus<A: Arith>(ar: &A, a: u32, c: u32, b: u32, s: u32, r: u32) -> bool {
    exists|p: u32, q: u32|
        times(ar, a, c, p) && times(ar, b, s, q) && #[trigger] minus(ar, p, q, r)
}

/// `r` is `a * s + b * c`.
pub open spec fn cross_plus<A: Arith>(ar: &A, a: u32, s: u32, b: u32, c: u32, r: u32) -> bool {
    exists|p: u32, q: u32|
        times(ar, a, s, p) && times(ar, b, c, q) && #[trigger] plus(ar, p, q, r)
}

/// `(x, y)` is `(a, b)`, turned by the angle with sine and cosine `sc`.
pub open spec fn turned<A: Arith>(ar: &A, a: u32, b: u32, sc: (u32, u32), x: u32, y: u32) -> bool {
    cross_minus(ar, a, sc.1, b, sc.0, x) && cross_plus(ar, a, sc.0, b, sc.1, y)
}

pub fn turn<A: Arith>(ar: &A, a: u32, b: u32, sc: (u32, u32)) -> (r: (u32, u32))
    ensures
        turned(ar, a, b, sc, r.0, r.1),
{
    let ac: u32 = ar.times(a, sc.1);
    let bs: u32 = ar.times(b, sc.0);
    let x: u32 = ar.minus(ac, bs);
    let sa: u32 = ar.times(a, sc.0);
    let bc: u32 = ar.times(b, sc.1);
    let y: u32 = ar.plus(sa, bc);
    assert(minus(ar, ac, bs, x) && plus(ar, sa, bc, y));
    (x, y)
}

} // verus!
