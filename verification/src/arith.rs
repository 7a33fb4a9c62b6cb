//! The floating-point arithmetic that the model is evaluated with.

use crate::float::ZERO;
use vstd::prelude::*;

verus! {

/// Single-precision arithmetic on bit patterns.
///
/// Nothing is assumed of an implementation, not even that it answers the same question twice in
/// the same way: the functions that take one state which operation is applied to what, and in
/// which order.
pub trait Arith {
    /// `a + b`
    fn plus(&self, a: u32, b: u32) -> u32;

    /// `a - b`
    fn minus(&self, a: u32, b: u32) -> u32;

    /// `a * b`
    fn times(&self, a: u32, b: u32) -> u32;

    /// `a / b`
    fn over(&self, a: u32, b: u32) -> u32;

    /// The square root of `a`.
    fn root(&self, a: u32) -> u32;

    /// e to the power of `a`.
    fn exponential(&self, a: u32) -> u32;

    /// `a` to the power of `b`.
    fn power(&self, a: u32, b: u32) -> u32;

    /// The sine and the cosine of `a`.
    fn sin_cos(&self, a: u32) -> (u32, u32);

    /// The sum of all of `xs`, from the first to the last.
    fn total(&self, xs: &[u32]) -> u32;

    /// The number closest to an integer.
    fn from_int(&self, v: i32) -> u32;

    /// The number closest to a count.
    fn from_count(&self, v: u64) -> u32;

    /// The single-precision number closest to a double-precision one.
    fn narrow(&self, v: u64) -> u32;

    /// The greatest integer that is not above `a`.
    fn floor(&self, a: u32) -> u32;

    /// The integer closest to `a`, of two the even one.
    fn rint(&self, a: u32) -> u32;

    /// `a` without its fraction, brought into the range of `i8`.
    fn to_i8(&self, a: u32) -> i8;
}

pub open spec fn plus<A: Arith>(ar: &A, a: u32, b: u32, r: u32) -> bool {
    call_ensures(A::plus, (ar, a, b), r)
}

pub open spec fn minus<A: Arith>(ar: &A, a: u32, b: u32, r: u32) -> bool {
    call_ensures(A::minus, (ar, a, b), r)
}

pub open spec fn times<A: Arith>(ar: &A, a: u32, b: u32, r: u32) -> bool {
    call_ensures(A::times, (ar, a, b), r)
}

pub open spec fn over<A: Arith>(ar: &A, a: u32, b: u32, r: u32) -> bool {
    call_ensures(A::over, (ar, a, b), r)
}

pub open spec fn root<A: Arith>(ar: &A, a: u32, r: u32) -> bool {
    call_ensures(A::root, (ar, a), r)
}

pub open spec fn exponential<A: Arith>(ar: &A, a: u32, r: u32) -> bool {
    call_ensures(A::exponential, (ar, a), r)
}

pub open spec fn power<A: Arith>(ar: &A, a: u32, b: u32, r: u32) -> bool {
    call_ensures(A::power, (ar, a, b), r)
}

pub open spec fn sin_cos<A: Arith>(ar: &A, a: u32, r: (u32, u32)) -> bool {
    call_ensures(A::sin_cos, (ar, a), r)
}

pub open spec fn total<A: Arith>(ar: &A, xs: Seq<u32>, r: u32) -> bool {
    exists|s: &[u32]| s@ == xs && #[trigger] call_ensures(A::total, (ar, s), r)
}

pub open spec fn from_int<A: Arith>(ar: &A, v: i32, r: u32) -> bool {
    call_ensures(A::from_int, (ar, v), r)
}

pub open spec fn from_count<A: Arith>(ar: &A, v: u64, r: u32) -> bool {
    call_ensures(A::from_count, (ar, v), r)
}

pub open spec fn narrow<A: Arith>(ar: &A, v: u64, r: u32) -> bool {
    call_ensures(A::narrow, (ar, v), r)
}

pub open spec fn floor<A: Arith>(ar: &A, a: u32, r: u32) -> bool {
    call_ensures(A::floor, (ar, a), r)
}

pub open spec fn rint<A: Arith>(ar: &A, a: u32, r: u32) -> bool {
    call_ensures(A::rint, (ar, a), r)
}

pub open spec fn to_i8<A: Arith>(ar: &A, a: u32, r: i8) -> bool {
    call_ensures(A::to_i8, (ar, a), r)
}

/// `r` is `v * a`.
pub open spec fn int_times<A: Arith>(ar: &A, v: int, a: u32, r: u32) -> bool {
    exists|f: u32| from_int(ar, v as i32, f) && #[trigger] times(ar, f, a, r)
}

/// `v * a`
pub fn times_int<A: Arith>(ar: &A, v: i32, a: u32) -> (r: u32)
    ensures
        int_times(ar, v as int, a, r),
{
    let f: u32 = ar.from_int(v);
    let r: u32 = ar.times(f, a);
    assert(from_int(ar, v, f) && times(ar, f, a, r));
    r
}

/// `r` is `v * a * b`.
pub open spec fn scaled<A: Arith>(ar: &A, v: int, a: u32, b: u32, r: u32) -> bool {
    exists|p: u32| int_times(ar, v, a, p) && #[trigger] times(ar, p, b, r)
}

/// `v * a * b`
pub fn scale<A: Arith>(ar: &A, v: i32, a: u32, b: u32) -> (r: u32)
    ensures
        scaled(ar, v as int, a, b, r),
{
    let p: u32 = times_int(ar, v, a);
    let r: u32 = ar.times(p, b);
    assert(times(ar, p, b, r));
    r
}

/// `r` is `a * b * c`.
pub open spec fn product3<A: Arith>(ar: &A, a: u32, b: u32, c: u32, r: u32) -> bool {
    exists|p: u32| times(ar, a, b, p) && #[trigger] times(ar, p, c, r)
}

/// `a * b * c`
pub fn times3<A: Arith>(ar: &A, a: u32, b: u32, c: u32) -> (r: u32)
    ensures
        product3(ar, a, b, c, r),
{
    let p: u32 = ar.times(a, b);
    let r: u32 = ar.times(p, c);
    assert(times(ar, a, b, p) && times(ar, p, c, r));
    r
}

/// The products of two vectors, element by element, as far as both go.
pub open spec fn products<A: Arith>(ar: &A, xs: Seq<u32>, ys: Seq<u32>, ps: Seq<u32>) -> bool {
    &&& ps.len() == if xs.len() <= ys.len() {
        xs.len()
    } else {
        ys.len()
    }
    &&& forall|i: int| 0 <= i < ps.len() ==> times(ar, xs[i], ys[i], #[trigger] ps[i])
}

/// The sum of those products.
pub open spec fn inner_product<A: Arith>(ar: &A, xs: Seq<u32>, ys: Seq<u32>, r: u32) -> bool {
    exists|ps: Seq<u32>| #[trigger] products(ar, xs, ys, ps) && total(ar, ps, r)
}

pub fn multiply_all<A: Arith>(ar: &A, xs: &[u32], ys: &[u32]) -> (ps: Vec<u32>)
    ensures
        products(ar, xs@, ys@, ps@),
{
    let n: usize = if xs.len() <= ys.len() {
        xs.len()
    } else {
        ys.len()
    };
    let mut ps: Vec<u32> = Vec::new();
    let mut i: usize = 0;
    while i < n
        invariant
            n <= xs@.len(),
            n <= ys@.len(),
            i <= n,
            ps@.len() == i,
            forall|j: int| 0 <= j < i ==> times(ar, xs@[j], ys@[j], #[trigger] ps@[j]),
        decreases n - i,
    {
        let p: u32 = ar.times(xs[i], ys[i]);
        ps.push(p);
        i += 1;
    }
    ps
}

pub fn dot_product<A: Arith>(ar: &A, xs: &[u32], ys: &[u32]) -> (r: u32)
    ensures
        inner_product(ar, xs@, ys@, r),
{
    let ps: Vec<u32> = multiply_all(ar, xs, ys);
    let r: u32 = ar.total(ps.as_slice());
    assert(total(ar, ps@, r));
    r
}

/// `r` is the sum of the first `n` products of two vectors, added one after the other to 0.
pub open spec fn running_dot<A: Arith>(ar: &A, xs: Seq<u32>, ys: Seq<u32>, n: int, r: u32) -> bool
    decreases n,
{
    if n <= 0 {
        r == ZERO
    } else {
        exists|s: u32, p: u32|
            running_dot(ar, xs, ys, n - 1, s) && times(ar, xs[n - 1], ys[n - 1], p)
                && #[trigger] plus(ar, s, p, r)
    }
}

pub fn accumulate<A: Arith>(ar: &A, xs: &[u32], ys: &[u32]) -> (r: u32)
    requires
        xs@.len() == ys@.len(),
    ensures
        running_dot(ar, xs@, ys@, xs@.len() as int, r),
{
    let mut acc: u32 = ZERO;
    let mut i: usize = 0;
    while i < xs.len()
        invariant
            xs@.len() == ys@.len(),
            i <= xs@.len(),
            running_dot(ar, xs@, ys@, i as int, acc),
        decreases xs@.len() - i,
    {
        let p: u32 = ar.times(xs[i], ys[i]);
        let ghost s = acc;
        acc = ar.plus(acc, p);
        assert(plus(ar, s, p, acc));
        i += 1;
    }
    acc
}

} // verus!
