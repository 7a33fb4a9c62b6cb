//! Weight matrices, ternary or dense, times vectors.

use crate::arith::{dot_product, inner_product, int_times, times_int, Arith};
use crate::linear::{
    check_rows_fit, i2_matvec_parallel, multiply_rows, quantized_blocks, rows_fit, rows_product,
};
use crate::weights::TensorData;
use vstd::arithmetic::div_mod::lemma_fundamental_div_mod;
use vstd::prelude::*;
use vstd::slice::slice_subrange;

verus! {

/// Row `r` of a dense matrix with `k` columns.
pub open spec fn dense_row(m: Seq<u32>, k: int, r: int) -> Seq<u32> {
    m.subrange(r * k, r * k + k)
}

/// `out` holds the inner product of every whole row of a dense matrix with `k` columns with `x`.
pub open spec fn dense_product<A: Arith>(
    ar: &A,
    m: Seq<u32>,
    k: int,
    x: Seq<u32>,
    out: Seq<u32>,
) -> bool {
    &&& out.len() == m.len() as int / k
    &&& forall|r: int|
        0 <= r < out.len() ==> inner_product(ar, dense_row(m, k, r), x, #[trigger] out[r])
}

pub fn dense_matvec<A: Arith>(ar: &A, m: &[u32], k: usize, x: &[u32]) -> (out: Vec<u32>)
    requires
        k > 0,
    ensures
        dense_product(ar, m@, k as int, x@, out@),
{
    let len: usize = m.len();
    let n_rows: usize = len / k;
    let mut out: Vec<u32> = Vec::new();
    let mut r: usize = 0;
    while r < n_rows
        invariant
            k > 0,
            len == m@.len(),
            n_rows == len as int / k as int,
            r <= n_rows,
            out@.len() == r,
            forall|i: int|
                0 <= i < r ==> inner_product(
                    ar,
                    dense_row(m@, k as int, i),
                    x@,
                    #[trigger] out@[i],
                ),
        decreases n_rows - r,
    {
        proof {
            let a = r as int;
            let b = n_rows as int;
            let c = k as int;
            lemma_fundamental_div_mod(len as int, c);
            assert(0 <= a * c && a * c + c <= c * b) by (nonlinear_arith)
                requires
                    0 <= a < b,
                    c > 0,
            ;
        }
        let start: usize = r * k;
        let row: &[u32] = slice_subrange(m, start, start + k);
        out.push(dot_product(ar, row, x));
        r += 1;
    }
    out
}

/// `x` holds quantised activations as numbers again.
pub open spec fn dequantized<A: Arith>(
    ar: &A,
    y: Seq<i8>,
    act_scales: Seq<u32>,
    x: Seq<u32>,
) -> bool {
    &&& x.len() == y.len()
    &&& forall|i: int|
        #![trigger x[i]]
        0 <= i < x.len() ==> int_times(ar, y[i] as int, act_scales[i / 64], x[i])
}

pub fn restore<A: Arith>(ar: &A, y: &[i8], act_scales: &[u32]) -> (x: Vec<u32>)
    requires
        y@.len() <= act_scales@.len() * 64,
    ensures
        dequantized(ar, y@, act_scales@, x@),
{
    let mut x: Vec<u32> = Vec::new();
    let mut i: usize = 0;
    while i < y.len()
        invariant
            y@.len() <= act_scales@.len() * 64,
            i <= y@.len(),
            x@.len() == i,
            forall|j: int|
                #![trigger x@[j]]
                0 <= j < i ==> int_times(ar, y@[j] as int, act_scales@[j / 64], x@[j]),
        decreases y@.len() - i,
    {
        x.push(times_int(ar, y[i] as i32, act_scales[i / 64]));
        i += 1;
    }
    x
}

/// The number of rows of a matrix with `k` columns.
pub open spec fn row_count(w: TensorData, k: int) -> int {
    match w {
        TensorData::I2(t) => t.n as int / k,
        TensorData::F32(m) => m@.len() as int / k,
    }
}

pub fn count_rows(w: &TensorData, k: usize) -> (r: usize)
    requires
        k > 0,
    ensures
        r == row_count(*w, k as int),
{
    match w {
        TensorData::I2(t) => t.n / k,
        TensorData::F32(m) => m.len() / k,
    }
}

/// `out` is a matrix with as many columns as `x` has elements, times `x`. Where the matrix is
/// ternary, `x` is quantised.
pub open spec fn matrix_product<A: Arith>(
    ar: &A,
    w: TensorData,
    x: Seq<u32>,
    out: Seq<u32>,
) -> bool {
    match w {
        TensorData::I2(t) => exists|y: Seq<i8>, act_scales: Seq<u32>| #[trigger]
            quantized_blocks(ar, x, y, act_scales) && rows_product(
                ar,
                t,
                x.len() as int,
                y,
                act_scales,
                out,
            ),
        TensorData::F32(m) => dense_product(ar, m@, x.len() as int, x, out),
    }
}

/// The matrix can be multiplied with a vector of `x_len` elements.
pub open spec fn accepts(w: TensorData, x_len: int) -> bool {
    &&& x_len > 0
    &&& match w {
        TensorData::I2(t) => t.n >= x_len && rows_fit(t, x_len, x_len, (x_len + 63) / 64),
        TensorData::F32(_) => true,
    }
}

pub fn check_accepts(w: &TensorData, x_len: usize) -> (r: bool)
    ensures
        r == accepts(*w, x_len as int),
{
    if x_len == 0 {
        return false;
    }
    match w {
        TensorData::I2(t) => t.n >= x_len && check_rows_fit(t, x_len, x_len, (x_len - 1) / 64 + 1),
        TensorData::F32(_) => true,
    }
}

/// A matrix with as many columns as `x` has elements, times `x`.
pub fn i2_matvec<A: Arith>(ar: &A, w: &TensorData, x: &[u32]) -> (out: Vec<u32>)
    requires
        accepts(*w, x@.len() as int),
    ensures
        matrix_product(ar, *w, x@, out@),
        out@.len() == row_count(*w, x@.len() as int),
{
    let k: usize = x.len();
    match w {
        TensorData::I2(t) => i2_matvec_parallel(ar, t, k, x, 1),
        TensorData::F32(m) => dense_matvec(ar, m.as_slice(), k, x),
    }
}

/// `out` is a matrix with `k` columns times activations that are quantised already.
pub open spec fn quantized_product<A: Arith>(
    ar: &A,
    w: TensorData,
    y: Seq<i8>,
    act_scales: Seq<u32>,
    k: int,
    out: Seq<u32>,
) -> bool {
    match w {
        TensorData::I2(t) => rows_product(ar, t, k, y, act_scales, out),
        TensorData::F32(m) => out.len() == m@.len() as int / k && (out.len() > 0 ==> exists|
            x: Seq<u32>,
        | #[trigger]
            dequantized(ar, y, act_scales, x) && dense_product(ar, m@, k, x, out)),
    }
}

/// The matrix can be multiplied with `y_len` activations that have `scales_len` scales.
pub open spec fn accepts_quantized(w: TensorData, k: int, y_len: int, scales_len: int) -> bool {
    &&& k > 0
    &&& match w {
        TensorData::I2(t) => rows_fit(t, k, y_len, scales_len),
        TensorData::F32(m) => m@.len() as int / k > 0 ==> y_len <= scales_len * 64,
    }
}

pub fn check_accepts_quantized(
    w: &TensorData,
    k: usize,
    y_len: usize,
    scales_len: usize,
) -> (r: bool)
    ensures
        r == accepts_quantized(*w, k as int, y_len as int, scales_len as int),
{
    if k == 0 {
        return false;
    }
    match w {
        TensorData::I2(t) => check_rows_fit(t, k, y_len, scales_len),
        TensorData::F32(m) => m.len() / k == 0 || y_len == 0 || (y_len - 1) / 64 < scales_len,
    }
}

/// A matrix with `k` columns times activations that are quantised already, so that several
/// matrices share one quantisation.
pub fn i2_matvec_q<A: Arith>(
    ar: &A,
    w: &TensorData,
    y: &[i8],
    act_scales: &[u32],
    k: usize,
) -> (out: Vec<u32>)
    requires
        accepts_quantized(*w, k as int, y@.len() as int, act_scales@.len() as int),
    ensures
        quantized_product(ar, *w, y@, act_scales@, k as int, out@),
        out@.len() == row_count(*w, k as int),
{
    match w {
        TensorData::I2(t) => multiply_rows(ar, t, k, y, act_scales),
        TensorData::F32(m) => {
            if m.len() / k == 0 {
                return Vec::new();
            }
            let x: Vec<u32> = restore(ar, y, act_scales);
            let out: Vec<u32> = dense_matvec(ar, m.as_slice(), k, x.as_slice());
            assert(dequantized(ar, y@, act_scales@, x@));
            out
        },
    }
}

} // verus!
