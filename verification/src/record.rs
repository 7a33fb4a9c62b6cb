//! Records of one quantised dot product: the packed weights, both scales and the result, as bytes.

use crate::arith::{from_int, over, rint, times, to_i8, Arith};
use crate::bytes::{append_u32, le};
use crate::dot::{row_dot, vec_dot_i2_i8_s_1x1};
use crate::float::{is_nan, magnitude, ONE};
use crate::i2::{code_at, is_peak, peak, quantize_i2_s, ternary, I2Tensor};
use crate::linear::LARGEST_I8;
use vstd::prelude::*;

verus! {

/// `packed` holds the ternary codes of the weights `w`.
pub open spec fn packs(w: Seq<u32>, packed: Seq<u8>) -> bool {
    &&& packed.len() == w.len() / 4
    &&& forall|i: int| 0 <= i < w.len() ==> #[trigger] code_at(packed, i) == ternary(w[i])
}

/// The scale of activations with the greatest magnitude `m`.
pub open spec fn activation_scale(m: u32) -> u32 {
    if m == 0 {
        ONE
    } else {
        m
    }
}

/// `q` is `v * inv`, rounded with halves to even.
pub open spec fn rounded<A: Arith>(ar: &A, v: u32, inv: u32, q: i8) -> bool {
    exists|p: u32, r: u32| #[trigger]
        times(ar, v, inv, p) && #[trigger] rint(ar, p, r) && to_i8(ar, r, q)
}

/// `y` holds the activations, times 127 over their scale, rounded.
pub open spec fn rounded_all<A: Arith>(ar: &A, a: Seq<u32>, inv: u32, y: Seq<i8>) -> bool {
    &&& y.len() == a.len()
    &&& forall|i: int| 0 <= i < y.len() ==> rounded(ar, a[i], inv, #[trigger] y[i])
}

/// The parts of a record.
pub struct RecordParts {
    pub packed: Seq<u8>,
    pub scale: u32,
    pub y_scale: u32,
    pub inv: u32,
    pub y: Seq<i8>,
    pub dot: u32,
}

/// The parts belong to the weights `w` and the activations `a`.
pub open spec fn parts_of<A: Arith>(ar: &A, w: Seq<u32>, a: Seq<u32>, p: RecordParts) -> bool {
    &&& packs(w, p.packed)
    &&& is_peak(w, p.scale)
    &&& exists|m: u32| #[trigger] is_peak(a, m) && p.y_scale == activation_scale(m)
    &&& over(ar, LARGEST_I8, p.y_scale, p.inv)
    &&& rounded_all(ar, a, p.inv, p.y)
    &&& from_int(ar, row_dot(p.packed, p.y, w.len() as int) as i32, p.dot)
}

/// The bytes are those of the parts, one behind the other, numbers least significant byte first.
pub open spec fn laid_out(p: RecordParts, bytes: Seq<u8>) -> bool {
    let n = p.packed.len() as int;
    &&& bytes.len() == n + 12
    &&& bytes.take(n) == p.packed
    &&& le(bytes.subrange(n, n + 4)) == p.scale
    &&& le(bytes.subrange(n + 4, n + 8)) == p.y_scale
    &&& le(bytes.subrange(n + 8, n + 12)) == p.dot
}

/// A record holds the codes of the weights, four to a byte, then their greatest magnitude, then that
/// of the activations, or 1 where they are all zero, and then the dot product of the codes with the
/// activations, each of which was multiplied with 127 over that magnitude and rounded.
pub proof fn lemma_record_parts<A: Arith>(
    ar: &A,
    w: Seq<u32>,
    a: Seq<u32>,
    p: RecordParts,
    bytes: Seq<u8>,
    i: int,
) -> (s: (u32, u32))
    requires
        parts_of(ar, w, a, p),
        laid_out(p, bytes),
        0 <= i < a.len(),
    ensures
        bytes.len() == w.len() / 4 + 12,
        forall|j: int|
            0 <= j < w.len() && !is_nan(#[trigger] w[j]) ==> magnitude(w[j]) <= le(
                bytes.subrange(w.len() as int / 4, w.len() as int / 4 + 4),
            ),
        forall|j: int|
            #![trigger a[j]]
            0 <= j < a.len() && !is_nan(a[j]) ==> magnitude(a[j]) <= p.y_scale || p.y_scale
                == 0x3f80_0000 && magnitude(a[j]) == 0,
        p.y_scale == 0x3f80_0000 || exists|j: int|
            0 <= j < a.len() && !is_nan(#[trigger] a[j]) && magnitude(a[j]) == p.y_scale,
        le(bytes.subrange(w.len() as int / 4 + 4, w.len() as int / 4 + 8)) == p.y_scale,
        over(ar, 0x42fe_0000, p.y_scale, p.inv),
        times(ar, a[i], p.inv, s.0),
        rint(ar, s.0, s.1),
        to_i8(ar, s.1, p.y[i]),
        from_int(
            ar,
            row_dot(bytes.take(w.len() as int / 4), p.y, w.len() as int) as i32,
            le(bytes.subrange(w.len() as int / 4 + 8, w.len() as int / 4 + 12)) as u32,
        ),
{
    assert(rounded(ar, a[i], p.inv, p.y[i]));
    choose|m: u32, r: u32| #[trigger]
        times(ar, a[i], p.inv, m) && #[trigger] rint(ar, m, r) && to_i8(ar, r, p.y[i])
}

fn round_all<A: Arith>(ar: &A, a: &[u32], inv: u32) -> (y: Vec<i8>)
    ensures
        rounded_all(ar, a@, inv, y@),
{
    let mut y: Vec<i8> = Vec::new();
    let mut i: usize = 0;
    while i < a.len()
        invariant
            i <= a@.len(),
            y@.len() == i,
            forall|j: int| 0 <= j < i ==> rounded(ar, a@[j], inv, #[trigger] y@[j]),
        decreases a@.len() - i,
    {
        let p: u32 = ar.times(a[i], inv);
        let r: u32 = ar.rint(p);
        let q: i8 = ar.to_i8(r);
        assert(times(ar, a@[i as int], inv, p) && rint(ar, p, r));
        y.push(q);
        i += 1;
    }
    y
}

/// The record of the dot product of weights with activations.
pub fn dot_record<A: Arith>(ar: &A, w: &[u32], a: &[u32]) -> (bytes: Vec<u8>)
    requires
        w@.len() > 0,
        w@.len() % 64 == 0,
        w@.len() <= a@.len(),
    ensures
        exists|p: RecordParts| #[trigger] parts_of(ar, w@, a@, p) && laid_out(p, bytes@),
{
    let n: usize = w.len();
    let t: I2Tensor = quantize_i2_s(w);
    let m: u32 = peak(a);
    let y_scale: u32 = if m == 0 {
        ONE
    } else {
        m
    };
    let inv: u32 = ar.over(LARGEST_I8, y_scale);
    let y: Vec<i8> = round_all(ar, a, inv);
    let dots: Vec<i32> = vec_dot_i2_i8_s_1x1(n, t.packed.as_slice(), y.as_slice(), 1);
    let dot: u32 = ar.from_int(dots[0]);
    let mut bytes: Vec<u8> = Vec::new();
    bytes.extend_from_slice(t.packed.as_slice());
    let scale: u32 = t.scales[0];
    let ghost b0 = bytes@;
    append_u32(&mut bytes, scale);
    let ghost b1 = bytes@;
    append_u32(&mut bytes, y_scale);
    let ghost b2 = bytes@;
    append_u32(&mut bytes, dot);
    proof {
        assert(0 * (n as int / 4) == 0);
        assert(t.packed@.subrange(0, n as int / 64 * 16) =~= t.packed@);
        let p = RecordParts { packed: t.packed@, scale, y_scale, inv, y: y@, dot };
        assert(is_peak(a@, m) && y_scale == activation_scale(m));
        assert(parts_of(ar, w@, a@, p));
        let k = b0.len() as int;
        assert(b0 =~= t.packed@);
        assert(b2 =~= bytes@.take(k + 8));
        assert(b1 =~= b2.take(k + 4));
        assert(bytes@.take(k) =~= b1.take(k));
        assert(bytes@.subrange(k, k + 4) =~= b1.skip(k));
        assert(bytes@.subrange(k + 4, k + 8) =~= b2.skip(k + 4));
        assert(bytes@.subrange(k + 8, k + 12) =~= bytes@.skip(k + 8));
        assert(laid_out(p, bytes@));
    }
    bytes
}

} // verus!
