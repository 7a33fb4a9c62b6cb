//! Linear layers: 8-bit activations against ternary weights.

use crate::arith::{
    floor, int_times, minus, over, plus, scale, scaled, times, times_int, to_i8, Arith,
};
use crate::dot::dot;
use crate::float::{at_most, less_eq, HALF, ONE, ZERO};
use crate::i2::{byte_index, code_at, field_of, is_peak, peak, I2Tensor, QK_I2_S};
use vstd::arithmetic::div_mod::lemma_fundamental_div_mod;
use vstd::prelude::*;
use vstd::slice::slice_subrange;

verus! {

/// The pattern of 127.0.
pub const LARGEST_I8: u32 = 0x42fe_0000;

/// `r` is `v`, rounded to the nearest integer, halves upwards.
pub open spec fn rounded_half_up<A: Arith>(ar: &A, v: u32, r: u32) -> bool {
    exists|f: u32, d: u32| #[trigger]
        floor(ar, v, f) && #[trigger] minus(ar, v, f, d) && if at_most(HALF, d) {
            plus(ar, f, ONE, r)
        } else {
            r == f
        }
}

/// `v`, rounded to the nearest integer, halves upwards.
pub fn round_f32<A: Arith>(ar: &A, v: u32) -> (r: u32)
    ensures
        rounded_half_up(ar, v, r),
{
    let f: u32 = ar.floor(v);
    let d: u32 = ar.minus(v, f);
    let r: u32 = if less_eq(HALF, d) {
        ar.plus(f, ONE)
    } else {
        f
    };
    assert(floor(ar, v, f) && minus(ar, v, f, d));
    r
}

/// `q` is `v / scale`, rounded.
pub open spec fn quantized<A: Arith>(ar: &A, v: u32, scale: u32, q: i8) -> bool {
    exists|d: u32, r: u32| #[trigger]
        over(ar, v, scale, d) && #[trigger] rounded_half_up(ar, d, r) && to_i8(ar, r, q)
}

/// The symmetric 8-bit quantisation of a vector: where all numbers in it are zero the codes are
/// zero and the scale is 1; else the scale is the greatest magnitude over 127.
pub open spec fn quantized_all<A: Arith>(ar: &A, x: Seq<u32>, q: Seq<i8>, scale: u32) -> bool {
    &&& q.len() == x.len()
    &&& exists|m: u32| #[trigger]
        is_peak(x, m) && if m == 0 {
            scale == ONE && forall|i: int| 0 <= i < q.len() ==> #[trigger] q[i] == 0
        } else {
            over(ar, m, LARGEST_I8, scale) && forall|i: int|
                0 <= i < q.len() ==> quantized(ar, x[i], scale, #[trigger] q[i])
        }
}

/// Quantises activations to 8 bits with one scale.
pub fn quantize_i8<A: Arith>(ar: &A, x: &[u32]) -> (r: (Vec<i8>, u32))
    ensures
        quantized_all(ar, x@, r.0@, r.1),
{
    let n: usize = x.len();
    let m: u32 = peak(x);
    let mut q: Vec<i8> = Vec::new();
    let mut i: usize = 0;
    if m == 0 {
        while i < n
            invariant
                i <= n,
                q@.len() == i,
                forall|j: int| 0 <= j < i ==> #[trigger] q@[j] == 0,
            decreases n - i,
        {
            q.push(0);
            i += 1;
        }
        (q, ONE)
    } else {
        let scale: u32 = ar.over(m, LARGEST_I8);
        while i < n
            invariant
                n == x@.len(),
                i <= n,
                q@.len() == i,
                forall|j: int| 0 <= j < i ==> quantized(ar, x@[j], scale, #[trigger] q@[j]),
            decreases n - i,
        {
            let d: u32 = ar.over(x[i], scale);
            let r: u32 = round_f32(ar, d);
            let c: i8 = ar.to_i8(r);
            assert(over(ar, x@[i as int], scale, d) && rounded_half_up(ar, d, r));
            q.push(c);
            i += 1;
        }
        assert(over(ar, m, LARGEST_I8, scale));
        (q, scale)
    }
}

/// Where block `b` of a vector of `n` elements ends.
pub open spec fn block_end(n: int, b: int) -> int {
    if (b + 1) * 64 <= n {
        (b + 1) * 64
    } else {
        n
    }
}

/// Each block of 64 elements, of which the last may be shorter, is quantised by itself.
pub open spec fn quantized_blocks<A: Arith>(
    ar: &A,
    x: Seq<u32>,
    q: Seq<i8>,
    scales: Seq<u32>,
) -> bool {
    &&& q.len() == x.len()
    &&& scales.len() == (x.len() + 63) / 64
    &&& forall|b: int|
        #![trigger scales[b]]
        0 <= b < scales.len() ==> quantized_all(
            ar,
            x.subrange(b * 64, block_end(x.len() as int, b)),
            q.subrange(b * 64, block_end(x.len() as int, b)),
            scales[b],
        )
}

/// Quantises activations to 8 bits with one scale for each block of 64.
pub fn quantize_i8_blocks<A: Arith>(ar: &A, x: &[u32]) -> (r: (Vec<i8>, Vec<u32>))
    ensures
        quantized_blocks(ar, x@, r.0@, r.1@),
{
    let n: usize = x.len();
    let mut q: Vec<i8> = Vec::new();
    let mut scales: Vec<u32> = Vec::new();
    let mut start: usize = 0;
    while start < n
        invariant
            n == x@.len(),
            start <= n,
            q@.len() == start,
            scales@.len() == (start + 63) / 64,
            start == n || start == scales@.len() * 64,
            forall|b: int|
                #![trigger scales@[b]]
                0 <= b < scales@.len() ==> quantized_all(
                    ar,
                    x@.subrange(b * 64, block_end(n as int, b)),
                    q@.subrange(b * 64, block_end(n as int, b)),
                    scales@[b],
                ),
        decreases n - start,
    {
        let end: usize = if n - start <= QK_I2_S {
            n
        } else {
            start + QK_I2_S
        };
        let (mut block, scale) = quantize_i8(ar, slice_subrange(x, start, end));
        let ghost q0 = q@;
        let ghost s0 = scales@;
        let ghost codes = block@;
        q.append(&mut block);
        scales.push(scale);
        proof {
            let b0 = s0.len() as int;
            assert(end == block_end(n as int, b0));
            assert forall|b: int|
                #![trigger scales@[b]]
                0 <= b < scales@.len() implies quantized_all(
                ar,
                x@.subrange(b * 64, block_end(n as int, b)),
                q@.subrange(b * 64, block_end(n as int, b)),
                scales@[b],
            ) by {
                if b < b0 {
                    assert(s0[b] == scales@[b]);
                    assert(q@.subrange(b * 64, block_end(n as int, b)) =~= q0.subrange(
                        b * 64,
                        block_end(n as int, b),
                    ));
                } else {
                    assert(q@.subrange(b * 64, block_end(n as int, b)) =~= codes);
                }
            }
        }
        start = end;
    }
    (q, scales)
}

/// The sum of the activations from `lo` up to `hi`.
pub open spec fn activation_sum(y: Seq<i8>, lo: int, hi: int) -> int
    decreases hi - lo,
{
    if hi <= lo {
        0
    } else {
        activation_sum(y, lo, hi - 1) + y[hi - 1]
    }
}

/// The dot product of the ternary weights themselves, a code less one each.
pub open spec fn ternary_dot(x: Seq<u8>, y: Seq<i8>, lo: int, hi: int) -> int
    decreases hi - lo,
{
    if hi <= lo {
        0
    } else {
        ternary_dot(x, y, lo, hi - 1) + (code_at(x, hi - 1) - 1) * y[hi - 1]
    }
}

/// To take off the sum of the activations turns the dot product of the codes 0, 1, 2 into that of
/// the weights -1, 0, +1.
pub proof fn lemma_compensation(x: Seq<u8>, y: Seq<i8>, lo: int, hi: int)
    ensures
        ternary_dot(x, y, lo, hi) == dot(x, y, lo, hi) - activation_sum(y, lo, hi),
    decreases hi - lo,
{
    if lo < hi {
        lemma_compensation(x, y, lo, hi - 1);
        let c = code_at(x, hi - 1) as int;
        let v = y[hi - 1] as int;
        assert((c - 1) * v == c * v - v) by (nonlinear_arith);
    }
}

/// The dot product of one block of codes with 64 activations.
pub fn dot64(p: &[u8], y: &[i8]) -> (r: i32)
    requires
        p@.len() >= 16,
        y@.len() >= 64,
    ensures
        r == dot(p@, y@, 0, 64),
        -24576 <= r <= 24576,
{
    let mut acc: i32 = 0;
    let mut j: usize = 0;
    while j < 64
        invariant
            j <= 64,
            p@.len() >= 16,
            y@.len() >= 64,
            acc == dot(p@, y@, 0, j as int),
            -384 * j <= acc <= 384 * j,
        decreases 64 - j,
    {
        let c: u8 = field_of(p[j % 16], j / 16);
        assert(byte_index(j as int) == j % 16 && j as int % 64 / 16 == j / 16);
        let v: i8 = y[j];
        assert(-384 <= c as int * v as int <= 384) by (nonlinear_arith)
            requires
                c < 4,
                -128 <= v <= 127,
        ;
        acc = acc + c as i32 * v as i32;
        j += 1;
    }
    acc
}

fn sum64(y: &[i8]) -> (r: i32)
    requires
        y@.len() >= 64,
    ensures
        r == activation_sum(y@, 0, 64),
        -8192 <= r <= 8192,
{
    let mut acc: i32 = 0;
    let mut j: usize = 0;
    while j < 64
        invariant
            j <= 64,
            y@.len() >= 64,
            acc == activation_sum(y@, 0, j as int),
            -128 * j <= acc <= 128 * j,
        decreases 64 - j,
    {
        acc = acc + y[j] as i32;
        j += 1;
    }
    acc
}

/// The bytes of block `b`.
pub open spec fn block_bytes(w: I2Tensor, b: int) -> Seq<u8> {
    w.packed@.subrange(b * 16, b * 16 + 16)
}

/// The activations of the block that starts at `start`.
pub open spec fn block_activations(y: Seq<i8>, start: int) -> Seq<i8> {
    y.subrange(start, start + 64)
}

/// `r` is the sum, block by block, of the dot product of the codes of the first `blocks` blocks
/// with the activations, times the scale of the block.
pub open spec fn code_sum<A: Arith>(ar: &A, w: I2Tensor, y: Seq<i8>, blocks: int, r: u32) -> bool
    decreases blocks,
{
    if blocks <= 0 {
        r == ZERO
    } else {
        exists|s: u32, t: u32|
            code_sum(ar, w, y, blocks - 1, s) && int_times(
                ar,
                dot(block_bytes(w, blocks - 1), block_activations(y, (blocks - 1) * 64), 0, 64),
                w.scales@[blocks - 1],
                t,
            ) && #[trigger] plus(ar, s, t, r)
    }
}

/// A single row of weights, as long as the input: the sum of the scaled dot products of the codes,
/// times the scale of the activations. The codes are not shifted to -1, 0, +1 here.
pub fn linear<A: Arith>(ar: &A, w: &I2Tensor, x: &[u32]) -> (r: u32)
    requires
        w.n == x@.len(),
        w.n % 64 == 0,
        w.n <= w.packed@.len() * 4,
        w.n <= w.scales@.len() * 64,
    ensures
        exists|y: Seq<i8>, scale: u32, s: u32| #[trigger]
            quantized_all(ar, x@, y, scale) && #[trigger] code_sum(ar, *w, y, w.n as int / 64, s)
                && times(ar, s, scale, r),
{
    let (y, scale) = quantize_i8(ar, x);
    let n_blocks: usize = w.n / QK_I2_S;
    let mut acc: u32 = ZERO;
    let mut b: usize = 0;
    while b < n_blocks
        invariant
            w.n <= w.packed@.len() * 4,
            w.n <= w.scales@.len() * 64,
            y@.len() == w.n,
            n_blocks == w.n / 64,
            b <= n_blocks,
            code_sum(ar, *w, y@, b as int, acc),
        decreases n_blocks - b,
    {
        let p: &[u8] = slice_subrange(w.packed.as_slice(), b * 16, b * 16 + 16);
        let yb: &[i8] = slice_subrange(y.as_slice(), b * 64, b * 64 + 64);
        let d: i32 = dot64(p, yb);
        let t: u32 = times_int(ar, d, w.scales[b]);
        let ghost s = acc;
        acc = ar.plus(acc, t);
        proof {
            assert(p@ == block_bytes(*w, b as int));
            assert(yb@ == block_activations(y@, b * 64));
            assert(plus(ar, s, t, acc));
        }
        b += 1;
    }
    let r: u32 = ar.times(acc, scale);
    proof {
        assert(quantized_all(ar, x@, y@, scale));
        assert(code_sum(ar, *w, y@, w.n as int / 64, acc));
        assert(times(ar, acc, scale, r));
    }
    r
}

/// The block that holds the weights of row `row` from column `start` on, in a matrix with `k`
/// columns.
pub open spec fn row_block(row: int, k: int, start: int) -> int {
    (row * k + start) / 64
}

/// `r` is the sum over the first `blocks` blocks of a row of the dot product of the ternary
/// weights with the activations, times the scale of the weights, times that of the activations.
pub open spec fn row_sum<A: Arith>(
    ar: &A,
    w: I2Tensor,
    row: int,
    k: int,
    y: Seq<i8>,
    act_scales: Seq<u32>,
    blocks: int,
    r: u32,
) -> bool
    decreases blocks,
{
    if blocks <= 0 {
        r == ZERO
    } else {
        let b = row_block(row, k, (blocks - 1) * 64);
        exists|s: u32, t: u32|
            row_sum(ar, w, row, k, y, act_scales, blocks - 1, s) && scaled(
                ar,
                ternary_dot(block_bytes(w, b), block_activations(y, (blocks - 1) * 64), 0, 64),
                w.scales@[b],
                act_scales[blocks - 1],
                t,
            ) && #[trigger] plus(ar, s, t, r)
    }
}

/// Row `row` of the matrix can be multiplied with activations in blocks of 64.
pub open spec fn row_fits(w: I2Tensor, row: int, k: int, y_len: int, scales_len: int) -> bool {
    &&& k > 0
    &&& w.n as int % k == 0
    &&& (k + 63) / 64 * 64 <= y_len
    &&& (k + 63) / 64 <= scales_len
    &&& (row_block(row, k, (k - 1) / 64 * 64) + 1) * 16 <= w.packed@.len()
    &&& row_block(row, k, (k - 1) / 64 * 64) < w.scales@.len()
    &&& row * k + k <= usize::MAX
}

/// One row of a matrix with `k` columns times quantised activations.
pub fn linear_row_q<A: Arith>(
    ar: &A,
    w: &I2Tensor,
    row: usize,
    k: usize,
    y: &[i8],
    act_scales: &[u32],
) -> (r: u32)
    requires
        row_fits(*w, row as int, k as int, y@.len() as int, act_scales@.len() as int),
    ensures
        row_sum(
            ar,
            *w,
            row as int,
            k as int,
            y@,
            act_scales@,
            (k as int + 63) / 64,
            r,
        ),
{
    proof {
        let a = row as int;
        let c = k as int;
        assert(a * c >= 0) by (nonlinear_arith)
            requires
                a >= 0,
                c >= 0,
        ;
    }
    let row_start: usize = row * k;
    let y_len: usize = y.len();
    let n_blocks: usize = (k - 1) / QK_I2_S + 1;
    let mut acc: u32 = ZERO;
    let mut i: usize = 0;
    while i < n_blocks
        invariant
            row_fits(*w, row as int, k as int, y@.len() as int, act_scales@.len() as int),
            row_start == row * k,
            y_len == y@.len(),
            n_blocks == (k - 1) / 64 + 1,
            i <= n_blocks,
            row_sum(ar, *w, row as int, k as int, y@, act_scales@, i as int, acc),
        decreases n_blocks - i,
    {
        let start: usize = i * QK_I2_S;
        let b: usize = (row_start + start) / QK_I2_S;
        assert(b == row_block(row as int, k as int, start as int));
        assert(b <= row_block(row as int, k as int, (k as int - 1) / 64 * 64));
        let p: &[u8] = slice_subrange(w.packed.as_slice(), b * 16, b * 16 + 16);
        assert(start + 64 <= y_len);
        let yb: &[i8] = slice_subrange(y, start, start + 64);
        let d: i32 = dot64(p, yb) - sum64(yb);
        proof {
            lemma_compensation(p@, yb@, 0, 64);
            assert(p@ == block_bytes(*w, b as int));
            assert(yb@ == block_activations(y@, i * 64));
        }
        let t: u32 = scale(ar, d, w.scales[b], act_scales[i]);
        let ghost s = acc;
        acc = ar.plus(acc, t);
        proof {
            assert(plus(ar, s, t, acc));
        }
        i += 1;
    }
    acc
}

/// One row of a matrix with `k` columns times a vector, which is quantised block by block.
pub fn linear_row<A: Arith>(ar: &A, w: &I2Tensor, row: usize, k: usize, x: &[u32]) -> (r: u32)
    requires
        row_fits(*w, row as int, k as int, x@.len() as int, (x@.len() as int + 63) / 64),
    ensures
        exists|y: Seq<i8>, act_scales: Seq<u32>| #[trigger]
            quantized_blocks(ar, x@, y, act_scales) && row_sum(
                ar,
                *w,
                row as int,
                k as int,
                y,
                act_scales,
                (k as int + 63) / 64,
                r,
            ),
{
    let (y, act_scales) = quantize_i8_blocks(ar, x);
    let r: u32 = linear_row_q(ar, w, row, k, y.as_slice(), act_scales.as_slice());
    assert(quantized_blocks(ar, x@, y@, act_scales@));
    r
}

/// The rows from `start` up to `end`.
pub fn linear_rows_q<A: Arith>(
    ar: &A,
    w: &I2Tensor,
    start: usize,
    end: usize,
    k: usize,
    y: &[i8],
    act_scales: &[u32],
) -> (out: Vec<u32>)
    requires
        start <= end,
        forall|r: int|
            start <= r < end ==> #[trigger] row_fits(
                *w,
                r,
                k as int,
                y@.len() as int,
                act_scales@.len() as int,
            ),
    ensures
        out@.len() == end - start,
        forall|i: int|
            0 <= i < out@.len() ==> row_sum(
                ar,
                *w,
                start + i,
                k as int,
                y@,
                act_scales@,
                (k as int + 63) / 64,
                #[trigger] out@[i],
            ),
{
    let mut out: Vec<u32> = Vec::new();
    let mut r: usize = start;
    while r < end
        invariant
            start <= r <= end,
            out@.len() == r - start,
            forall|r: int|
                start <= r < end ==> #[trigger] row_fits(
                    *w,
                    r,
                    k as int,
                    y@.len() as int,
                    act_scales@.len() as int,
                ),
            forall|i: int|
                0 <= i < out@.len() ==> row_sum(
                    ar,
                    *w,
                    start + i,
                    k as int,
                    y@,
                    act_scales@,
                    (k as int + 63) / 64,
                    #[trigger] out@[i],
                ),
        decreases end - r,
    {
        assert(row_fits(*w, r as int, k as int, y@.len() as int, act_scales@.len() as int));
        let v: u32 = linear_row_q(ar, w, r, k, y, act_scales);
        out.push(v);
        r += 1;
    }
    out
}

impl I2Tensor {
    /// The weights as numbers: each ternary weight times the scale of its block.
    pub fn dequantize<A: Arith>(&self, ar: &A) -> (out: Vec<u32>)
        requires
            self.holds_weights(),
        ensures
            out@.len() == self.n,
            forall|i: int|
                #![trigger out@[i]]
                0 <= i < self.n ==> int_times(ar, self.weight(i), self.scales@[i / 64], out@[i]),
    {
        let mut out: Vec<u32> = Vec::new();
        let mut idx: usize = 0;
        while idx < self.n
            invariant
                self.holds_weights(),
                idx <= self.n,
                out@.len() == idx,
                forall|i: int|
                    #![trigger out@[i]]
                    0 <= i < idx ==> int_times(ar, self.weight(i), self.scales@[i / 64], out@[i]),
            decreases self.n - idx,
        {
            assert(self.has_weight(idx as int));
            let w: i8 = self.get_code(idx);
            let v: u32 = times_int(ar, w as i32, self.scale_of(idx));
            out.push(v);
            idx += 1;
        }
        out
    }
}

/// Where worker `i` of those that share `n_rows` rows, `chunk` to each, stops.
pub open spec fn share_end(n_rows: int, chunk: int, i: int) -> int {
    if (i + 1) * chunk <= n_rows {
        (i + 1) * chunk
    } else {
        n_rows
    }
}

/// The rows that each worker computes: all get the same number, the last may get fewer, and none
/// gets nothing. `n_threads` workers are available.
pub fn row_shares(n_rows: usize, n_threads: usize) -> (shares: Vec<(usize, usize)>)
    requires
        n_rows > 0,
        n_threads > 0,
    ensures
        ({
            let workers = if n_threads <= n_rows {
                n_threads as int
            } else {
                n_rows as int
            };
            let chunk = (n_rows + workers - 1) / workers;
            &&& 0 < shares@.len() <= workers
            &&& forall|i: int|
                #![trigger shares@[i]]
                0 <= i < shares@.len() ==> shares@[i].0 == i * chunk && shares@[i].1 == share_end(
                    n_rows as int,
                    chunk,
                    i,
                ) && shares@[i].0 < shares@[i].1
            &&& shares@.last().1 == n_rows
        }),
        shares@[0].0 == 0,
        forall|i: int|
            0 <= i < shares@.len() - 1 ==> (#[trigger] shares@[i]).1 == shares@[i + 1].0,
{
    let workers: usize = if n_threads <= n_rows {
        n_threads
    } else {
        n_rows
    };
    let chunk: usize = (n_rows - 1) / workers + 1;
    proof {
        let a = n_rows as int;
        let w = workers as int;
        let q = (a - 1) / w;
        let m = (a - 1) % w;
        lemma_fundamental_div_mod(a - 1, w);
        assert(a + w - 1 == (q + 1) * w + m && (q + 1) * w >= a) by (nonlinear_arith)
            requires
                a - 1 == w * q + m,
                0 <= m < w,
        ;
        vstd::arithmetic::div_mod::lemma_fundamental_div_mod_converse(a + w - 1, w, q + 1, m);
    }
    let mut shares: Vec<(usize, usize)> = Vec::new();
    let mut start: usize = 0;
    while start < n_rows
        invariant
            0 < chunk,
            0 < n_rows,
            start <= n_rows,
            start == n_rows || start == shares@.len() * chunk,
            workers * chunk >= n_rows,
            shares@.len() * chunk < n_rows + chunk,
            shares@.len() <= workers,
            shares@.len() == 0 <==> start == 0,
            shares@.len() > 0 ==> shares@.last().1 == start,
            forall|i: int|
                #![trigger shares@[i]]
                0 <= i < shares@.len() ==> shares@[i].0 == i * chunk && shares@[i].1 == share_end(
                    n_rows as int,
                    chunk as int,
                    i,
                ) && shares@[i].0 < shares@[i].1,
        decreases n_rows - start,
    {
        let end: usize = if n_rows - start <= chunk {
            n_rows
        } else {
            start + chunk
        };
        proof {
            let l = shares@.len() as int;
            let c = chunk as int;
            let w = workers as int;
            assert((l + 1) * c == l * c + c) by (nonlinear_arith);
            assert(l < w) by (nonlinear_arith)
                requires
                    l * c < n_rows,
                    w * c >= n_rows,
                    c > 0,
            ;
        }
        shares.push((start, end));
        start = end;
    }
    shares
}

/// What the workers computed, in the order of their shares, put together.
pub fn gather(parts: &Vec<Vec<u32>>) -> (out: Vec<u32>)
    ensures
        out@ == parts@.map_values(|p: Vec<u32>| p@).flatten(),
{
    let mut out: Vec<u32> = Vec::new();
    let ghost all = parts@.map_values(|p: Vec<u32>| p@);
    let mut i: usize = 0;
    assert(all.take(0).flatten() =~= Seq::<u32>::empty());
    while i < parts.len()
        invariant
            i <= parts@.len(),
            all == parts@.map_values(|p: Vec<u32>| p@),
            out@ == all.take(i as int).flatten(),
        decreases parts@.len() - i,
    {
        out.extend_from_slice(parts[i].as_slice());
        proof {
            let t = all.take(i + 1);
            assert(t =~= all.take(i as int).push(parts@[i as int]@));
            all.take(i as int).lemma_flatten_push(parts@[i as int]@);
        }
        i += 1;
    }
    assert(all.take(i as int) =~= all);
    out
}

/// `part` has one element for each row of share `i`, which is not empty.
pub open spec fn is_share(part: Seq<u32>, n_rows: int, chunk: int, i: int) -> bool {
    &&& i * chunk < share_end(n_rows, chunk, i)
    &&& part.len() == share_end(n_rows, chunk, i) - i * chunk
}

/// Parts that follow the shares, put together, hold in place `r` what the worker that row `r` fell
/// to computed for it, however many workers there were.
pub proof fn lemma_gathered_rows(parts: Seq<Seq<u32>>, n_rows: int, chunk: int)
    requires
        0 < chunk,
        0 < parts.len(),
        forall|i: int| 0 <= i < parts.len() ==> #[trigger] is_share(parts[i], n_rows, chunk, i),
        share_end(n_rows, chunk, parts.len() - 1) == n_rows,
    ensures
        parts.flatten().len() == n_rows,
        forall|i: int, j: int|
            0 <= i < parts.len() && 0 <= j < parts[i].len() ==> parts.flatten()[i * chunk + j]
                == #[trigger] parts[i][j],
{
    lemma_gathered_prefix(parts, n_rows, chunk, parts.len() as int);
    assert(parts.take(parts.len() as int) =~= parts);
}

proof fn lemma_gathered_prefix(parts: Seq<Seq<u32>>, n_rows: int, chunk: int, k: int)
    requires
        0 < chunk,
        0 < k <= parts.len(),
        forall|i: int| 0 <= i < parts.len() ==> #[trigger] is_share(parts[i], n_rows, chunk, i),
    ensures
        parts.take(k).flatten().len() == share_end(n_rows, chunk, k - 1),
        forall|i: int, j: int|
            0 <= i < k && 0 <= j < parts[i].len() ==> parts.take(k).flatten()[i * chunk + j]
                == #[trigger] parts[i][j],
    decreases k,
{
    let before = parts.take(k - 1);
    assert(parts.take(k) =~= before.push(parts[k - 1]));
    before.lemma_flatten_push(parts[k - 1]);
    assert(is_share(parts[k - 1], n_rows, chunk, k - 1));
    if k == 1 {
        assert(before.flatten() =~= Seq::<u32>::empty());
        assert((k - 1) * chunk == 0) by (nonlinear_arith)
            requires
                k == 1,
        ;
    } else {
        lemma_gathered_prefix(parts, n_rows, chunk, k - 1);
    }
    assert(before.flatten().len() == (k - 1) * chunk);
    let f = parts.take(k).flatten();
    assert(f == before.flatten() + parts[k - 1]);
    assert forall|i: int, j: int| 0 <= i < k && 0 <= j < parts[i].len() implies f[i * chunk + j]
        == #[trigger] parts[i][j] by {
        assert(parts[i].len() <= chunk) by {
            assert(is_share(parts[i], n_rows, chunk, i));
            assert((i + 1) * chunk == i * chunk + chunk) by (nonlinear_arith);
        }
        assert(i * chunk >= 0) by (nonlinear_arith)
            requires
                i >= 0,
                chunk > 0,
        ;
        if i < k - 1 {
            assert(i * chunk + chunk <= (k - 1) * chunk) by (nonlinear_arith)
                requires
                    i + 1 <= k - 1,
                    chunk > 0,
            ;
        }
    }
}

/// Every row of the matrix can be multiplied with activations in blocks of 64.
pub open spec fn rows_fit(w: I2Tensor, k: int, y_len: int, scales_len: int) -> bool {
    &&& k > 0
    &&& w.n as int / k > 0 ==> row_fits(w, w.n as int / k - 1, k, y_len, scales_len)
}

proof fn lemma_row_before(w: I2Tensor, k: int, y_len: int, scales_len: int, row: int)
    requires
        rows_fit(w, k, y_len, scales_len),
        0 <= row < w.n as int / k,
    ensures
        row_fits(w, row, k, y_len, scales_len),
{
    let last = w.n as int / k - 1;
    assert(row * k <= last * k) by (nonlinear_arith)
        requires
            row <= last,
            k > 0,
    ;
}

/// Tells whether every row can be multiplied.
pub fn check_rows_fit(w: &I2Tensor, k: usize, y_len: usize, scales_len: usize) -> (r: bool)
    ensures
        r == rows_fit(*w, k as int, y_len as int, scales_len as int),
{
    if k == 0 {
        return false;
    }
    let n_rows: usize = w.n / k;
    if n_rows == 0 {
        return true;
    }
    let blocks: usize = (k - 1) / QK_I2_S + 1;
    assert(blocks == (k + 63) / 64);
    proof {
        let a = n_rows as int;
        let c = k as int;
        let n = w.n as int;
        lemma_fundamental_div_mod(n, c);
        assert((a - 1) * c + c == c * a) by (nonlinear_arith);
        assert((a - 1) * c >= 0) by (nonlinear_arith)
            requires
                a >= 1,
                c > 0,
        ;
    }
    let b: usize = ((n_rows - 1) * k + (k - 1) / QK_I2_S * QK_I2_S) / QK_I2_S;
    assert(b == row_block(n_rows - 1, k as int, (k as int - 1) / 64 * 64));
    w.n % k == 0 && blocks <= y_len / QK_I2_S && blocks <= scales_len && b < w.packed.len() / 16
        && b < w.scales.len()
}

/// `out` holds every row of the matrix times quantised activations.
pub open spec fn rows_product<A: Arith>(
    ar: &A,
    w: I2Tensor,
    k: int,
    y: Seq<i8>,
    act_scales: Seq<u32>,
    out: Seq<u32>,
) -> bool {
    &&& out.len() == w.n as int / k
    &&& forall|i: int|
        0 <= i < out.len() ==> row_sum(
            ar,
            w,
            i,
            k,
            y,
            act_scales,
            (k + 63) / 64,
            #[trigger] out[i],
        )
}

/// All rows times quantised activations.
pub fn multiply_rows<A: Arith>(
    ar: &A,
    w: &I2Tensor,
    k: usize,
    y: &[i8],
    act_scales: &[u32],
) -> (out: Vec<u32>)
    requires
        rows_fit(*w, k as int, y@.len() as int, act_scales@.len() as int),
    ensures
        rows_product(ar, *w, k as int, y@, act_scales@, out@),
{
    let n_rows: usize = w.n / k;
    proof {
        assert forall|r: int| 0 <= r < n_rows implies #[trigger] row_fits(
            *w,
            r,
            k as int,
            y@.len() as int,
            act_scales@.len() as int,
        ) by {
            lemma_row_before(*w, k as int, y@.len() as int, act_scales@.len() as int, r);
        }
    }
    linear_rows_q(ar, w, 0, n_rows, k, y, act_scales)
}

/// A matrix with `k` columns times a vector, which is quantised once, block by block. The rows are
/// computed in the shares of `n_threads` workers; how many there are makes no difference to what
/// is computed for a row.
pub fn i2_matvec_parallel<A: Arith>(
    ar: &A,
    w: &I2Tensor,
    k: usize,
    x: &[u32],
    n_threads: usize,
) -> (out: Vec<u32>)
    requires
        n_threads > 0,
        rows_fit(*w, k as int, x@.len() as int, (x@.len() as int + 63) / 64),
        w.n >= k,
    ensures
        exists|y: Seq<i8>, act_scales: Seq<u32>| #[trigger]
            quantized_blocks(ar, x@, y, act_scales) && rows_product(
                ar,
                *w,
                k as int,
                y,
                act_scales,
                out@,
            ),
{
    let (y, act_scales) = quantize_i8_blocks(ar, x);
    let n_rows: usize = w.n / k;
    proof {
        let c = k as int;
        let n = w.n as int;
        assert(n / c >= 1) by (nonlinear_arith)
            requires
                n >= c,
                c > 0,
        ;
    }
    let shares: Vec<(usize, usize)> = row_shares(n_rows, n_threads);
    let ghost workers = if n_threads <= n_rows {
        n_threads as int
    } else {
        n_rows as int
    };
    let ghost chunk = (n_rows + workers - 1) / workers;
    let mut parts: Vec<Vec<u32>> = Vec::new();
    let mut i: usize = 0;
    while i < shares.len()
        invariant
            i <= shares@.len(),
            parts@.len() == i,
            n_rows == w.n as int / k as int,
            rows_fit(*w, k as int, y@.len() as int, act_scales@.len() as int),
            forall|j: int|
                0 <= j < shares@.len() ==> 0 <= (#[trigger] shares@[j]).0 < shares@[j].1 <= n_rows,
            forall|j: int|
                0 <= j < i ==> (#[trigger] parts@[j])@.len() == shares@[j].1 - shares@[j].0,
            forall|j: int, r: int|
                0 <= j < i && 0 <= r < parts@[j]@.len() ==> row_sum(
                    ar,
                    *w,
                    shares@[j].0 + r,
                    k as int,
                    y@,
                    act_scales@,
                    (k as int + 63) / 64,
                    #[trigger] parts@[j]@[r],
                ),
        decreases shares@.len() - i,
    {
        let (start, end) = shares[i];
        proof {
            assert forall|r: int| start <= r < end implies #[trigger] row_fits(
                *w,
                r,
                k as int,
                y@.len() as int,
                act_scales@.len() as int,
            ) by {
                lemma_row_before(*w, k as int, y@.len() as int, act_scales@.len() as int, r);
            }
        }
        parts.push(linear_rows_q(ar, w, start, end, k, y.as_slice(), act_scales.as_slice()));
        i += 1;
    }
    let out: Vec<u32> = gather(&parts);
    proof {
        let all = parts@.map_values(|p: Vec<u32>| p@);
        assert forall|j: int| 0 <= j < all.len() implies #[trigger] is_share(
            all[j],
            n_rows as int,
            chunk,
            j,
        ) by {
            assert(all[j] == parts@[j]@);
            assert(shares@[j].0 == j * chunk);
        }
        lemma_gathered_rows(all, n_rows as int, chunk);
        assert forall|r: int| 0 <= r < out@.len() implies row_sum(
            ar,
            *w,
            r,
            k as int,
            y@,
            act_scales@,
            (k as int + 63) / 64,
            #[trigger] out@[r],
        ) by {
            let j = r / chunk;
            let l = r % chunk;
            lemma_fundamental_div_mod(r, chunk);
            assert(chunk * j == j * chunk) by (nonlinear_arith);
            let m = all.len() - 1;
            assert(j <= m) by (nonlinear_arith)
                requires
                    j * chunk <= r,
                    r < (m + 1) * chunk,
                    chunk > 0,
            ;
            assert(j >= 0) by (nonlinear_arith)
                requires
                    j * chunk > -chunk,
                    chunk > 0,
            ;
            assert(is_share(all[j], n_rows as int, chunk, j));
            assert((j + 1) * chunk == j * chunk + chunk) by (nonlinear_arith);
            assert(parts@[j]@[l] == all[j][l]);
            assert(out@[r] == all[j][l]);
            assert(shares@[j].0 == j * chunk);
        }
        assert(quantized_blocks(ar, x@, y@, act_scales@));
    }
    out
}

} // verus!
