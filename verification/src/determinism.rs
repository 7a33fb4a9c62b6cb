//! Greedy generation has one outcome, wherever the arithmetic has.

use crate::arith::{
    exponential, floor, from_count, from_int, inner_product, int_times, minus, narrow, over, plus,
    power, product3, products, root, running_dot, scaled, sin_cos, times, to_i8, total, Arith,
};
use crate::attention::{
    attended, column, found, head_attended, head_part, kv_head, mixed, scored, scored_all,
};
use crate::cache::{cell, layout, Layout};
use crate::causal::{agree, lemma_forward_reads_past};
use crate::float::{at_most, lemma_least, value, NEG_INFINITY, ONE, ZERO};
use crate::forward::{
    added, attention_step, embedding, forwarded, gated_value, is_forward, network_step, ready, step_at,
    AttentionTrace, Flow, ForwardTrace, NetworkTrace,
};
use crate::generation::{continued, fed_at, generated, is_run, starts_with, Run};
use crate::i2::{is_peak, I2Tensor};
use crate::linear::{
    block_activations, block_bytes, block_end, quantized, quantized_all, quantized_blocks,
    row_block, row_sum, rows_product, ternary_dot, LARGEST_I8,
};
use crate::matrix::{
    dense_product, dense_row, dequantized, matrix_product, quantized_product,
};
use crate::model::Model;
use crate::ops::{
    inverse_rms, is_greatest, is_record, mean_square, quotients, rms_normed, rotation, shifted_exp,
    shifted_exps, softmaxed,
};
use crate::rope::{pair_dim, pair_start, pairs, roped, turn_step, turned_at, turned_pair, turns};
use crate::sampling::{lemma_greedy_is_deterministic, sampled_token};
use crate::weights::TensorData;
use vstd::arithmetic::div_mod::lemma_fundamental_div_mod;
use vstd::prelude::*;

verus! {

/// Each operation gives the same answer to the same question.
pub open spec fn repeatable<A: Arith>(ar: &A) -> bool {
    &&& forall|a: u32, b: u32, r: u32, s: u32| #[trigger]
        plus(ar, a, b, r) && #[trigger] plus(ar, a, b, s) ==> r == s
    &&& forall|a: u32, b: u32, r: u32, s: u32| #[trigger]
        minus(ar, a, b, r) && #[trigger] minus(ar, a, b, s) ==> r == s
    &&& forall|a: u32, b: u32, r: u32, s: u32| #[trigger]
        times(ar, a, b, r) && #[trigger] times(ar, a, b, s) ==> r == s
    &&& forall|a: u32, b: u32, r: u32, s: u32| #[trigger]
        over(ar, a, b, r) && #[trigger] over(ar, a, b, s) ==> r == s
    &&& forall|a: u32, r: u32, s: u32| #[trigger]
        root(ar, a, r) && #[trigger] root(ar, a, s) ==> r == s
    &&& forall|a: u32, r: u32, s: u32| #[trigger]
        exponential(ar, a, r) && #[trigger] exponential(ar, a, s) ==> r == s
    &&& forall|a: u32, b: u32, r: u32, s: u32| #[trigger]
        power(ar, a, b, r) && #[trigger] power(ar, a, b, s) ==> r == s
    &&& forall|a: u32, r: (u32, u32), s: (u32, u32)| #[trigger]
        sin_cos(ar, a, r) && #[trigger] sin_cos(ar, a, s) ==> r == s
    &&& forall|xs: Seq<u32>, r: u32, s: u32| #[trigger]
        total(ar, xs, r) && #[trigger] total(ar, xs, s) ==> r == s
    &&& forall|v: i32, r: u32, s: u32| #[trigger]
        from_int(ar, v, r) && #[trigger] from_int(ar, v, s) ==> r == s
    &&& forall|v: u64, r: u32, s: u32| #[trigger]
        from_count(ar, v, r) && #[trigger] from_count(ar, v, s) ==> r == s
    &&& forall|v: u64, r: u32, s: u32| #[trigger]
        narrow(ar, v, r) && #[trigger] narrow(ar, v, s) ==> r == s
    &&& forall|a: u32, r: u32, s: u32| #[trigger]
        floor(ar, a, r) && #[trigger] floor(ar, a, s) ==> r == s
    &&& forall|a: u32, r: i8, s: i8| #[trigger]
        to_i8(ar, a, r) && #[trigger] to_i8(ar, a, s) ==> r == s
}

proof fn lemma_inner_product<A: Arith>(ar: &A, xs: Seq<u32>, ys: Seq<u32>, r: u32, s: u32)
    requires
        repeatable(ar),
        inner_product(ar, xs, ys, r),
        inner_product(ar, xs, ys, s),
    ensures
        r == s,
{
    let p = choose|ps: Seq<u32>| #[trigger] products(ar, xs, ys, ps) && total(ar, ps, r);
    let q = choose|ps: Seq<u32>| #[trigger] products(ar, xs, ys, ps) && total(ar, ps, s);
    assert forall|i: int| 0 <= i < p.len() implies p[i] == q[i] by {
        assert(times(ar, xs[i], ys[i], p[i]) && times(ar, xs[i], ys[i], q[i]));
    }
    assert(p =~= q);
}

proof fn lemma_running_dot<A: Arith>(ar: &A, xs: Seq<u32>, ys: Seq<u32>, n: int, r: u32, s: u32)
    requires
        repeatable(ar),
        running_dot(ar, xs, ys, n, r),
        running_dot(ar, xs, ys, n, s),
    ensures
        r == s,
    decreases n,
{
    if n > 0 {
        let (a, p) = choose|a: u32, p: u32|
            running_dot(ar, xs, ys, n - 1, a) && times(ar, xs[n - 1], ys[n - 1], p)
                && #[trigger] plus(ar, a, p, r);
        let (b, q) = choose|b: u32, q: u32|
            running_dot(ar, xs, ys, n - 1, b) && times(ar, xs[n - 1], ys[n - 1], q)
                && #[trigger] plus(ar, b, q, s);
        lemma_running_dot(ar, xs, ys, n - 1, a, b);
        assert(times(ar, xs[n - 1], ys[n - 1], p) && times(ar, xs[n - 1], ys[n - 1], q));
    }
}

proof fn lemma_rms<A: Arith>(ar: &A, x: Seq<u32>, w: Seq<u32>, eps: u32, r: Seq<u32>, s: Seq<u32>)
    requires
        repeatable(ar),
        rms_normed(ar, x, w, eps, r),
        rms_normed(ar, x, w, eps, s),
    ensures
        r == s,
{
    let a = choose|inv: u32| #[trigger]
        inverse_rms(ar, x, eps, inv) && forall|i: int|
            0 <= i < r.len() ==> product3(ar, x[i], inv, w[i], #[trigger] r[i]);
    let b = choose|inv: u32| #[trigger]
        inverse_rms(ar, x, eps, inv) && forall|i: int|
            0 <= i < s.len() ==> product3(ar, x[i], inv, w[i], #[trigger] s[i]);
    let (m1, e1, d1) = choose|m: u32, e: u32, d: u32|
        mean_square(ar, x, m) && #[trigger] plus(ar, m, eps, e) && #[trigger] root(ar, e, d)
            && over(ar, ONE, d, a);
    let (m2, e2, d2) = choose|m: u32, e: u32, d: u32|
        mean_square(ar, x, m) && #[trigger] plus(ar, m, eps, e) && #[trigger] root(ar, e, d)
            && over(ar, ONE, d, b);
    let (s1, n1) = choose|s: u32, n: u32|
        inner_product(ar, x, x, s) && from_count(ar, x.len() as u64, n) && #[trigger] over(
            ar,
            s,
            n,
            m1,
        );
    let (s2, n2) = choose|s: u32, n: u32|
        inner_product(ar, x, x, s) && from_count(ar, x.len() as u64, n) && #[trigger] over(
            ar,
            s,
            n,
            m2,
        );
    lemma_inner_product(ar, x, x, s1, s2);
    assert(a == b);
    assert forall|i: int| 0 <= i < r.len() implies r[i] == s[i] by {
        assert(product3(ar, x[i], a, w[i], r[i]) && product3(ar, x[i], a, w[i], s[i]));
    }
    assert(r =~= s);
}

proof fn lemma_greatest(v: Seq<u32>, m: u32, n: u32)
    requires
        is_greatest(v, m),
        is_greatest(v, n),
    ensures
        m == n,
{
    if m == NEG_INFINITY && n != NEG_INFINITY {
        lemma_least(n);
        let j = choose|j: int| #[trigger] is_record(v, j) && v[j] == n;
        assert(value(v[j]) <= value(m));
    } else if n == NEG_INFINITY && m != NEG_INFINITY {
        lemma_least(m);
        let i = choose|i: int| #[trigger] is_record(v, i) && v[i] == m;
        assert(value(v[i]) <= value(n));
    } else if m != NEG_INFINITY {
        let i = choose|i: int| #[trigger] is_record(v, i) && v[i] == m;
        let j = choose|j: int| #[trigger] is_record(v, j) && v[j] == n;
        assert(value(v[i]) <= value(n) && value(v[j]) <= value(m));
        assert(i == j);
    }
}

proof fn lemma_softmax<A: Arith>(ar: &A, v: Seq<u32>, r: Seq<u32>, s: Seq<u32>)
    requires
        repeatable(ar),
        softmaxed(ar, v, r),
        softmaxed(ar, v, s),
    ensures
        r == s,
{
    let (m, p, a) = choose|m: u32, exps: Seq<u32>, sum: u32|
        is_greatest(v, m) && #[trigger] shifted_exps(ar, v, m, exps) && #[trigger] total(
            ar,
            exps,
            sum,
        ) && quotients(ar, exps, sum, r);
    let (n, q, b) = choose|m: u32, exps: Seq<u32>, sum: u32|
        is_greatest(v, m) && #[trigger] shifted_exps(ar, v, m, exps) && #[trigger] total(
            ar,
            exps,
            sum,
        ) && quotients(ar, exps, sum, s);
    lemma_greatest(v, m, n);
    assert forall|i: int| 0 <= i < p.len() implies p[i] == q[i] by {
        assert(shifted_exp(ar, v[i], m, p[i]) && shifted_exp(ar, v[i], m, q[i]));
    }
    assert(p =~= q);
    assert(a == b);
    assert forall|i: int| 0 <= i < r.len() implies r[i] == s[i] by {
        assert(over(ar, p[i], a, r[i]) && over(ar, p[i], a, s[i]));
    }
    assert(r =~= s);
}

proof fn lemma_turn_step<A: Arith>(
    ar: &A,
    v: Seq<u32>,
    a: Seq<u32>,
    b: Seq<u32>,
    s: int,
    pos: int,
    head_dim: int,
    theta: u32,
)
    requires
        repeatable(ar),
        turn_step(ar, v, a, s, pos, head_dim, theta),
        turn_step(ar, v, b, s, pos, head_dim, theta),
    ensures
        a == b,
{
    let at = pair_start(head_dim, s);
    let d = pair_dim(head_dim, s);
    let (sc1, x1, y1) = choose|sc: (u32, u32), x: u32, y: u32|
        rotation(ar, pos, d, head_dim, theta, sc) && #[trigger] turned_pair(ar, v, at, sc, x, y)
            && a == v.update(at, x).update(at + 1, y);
    let (sc2, x2, y2) = choose|sc: (u32, u32), x: u32, y: u32|
        rotation(ar, pos, d, head_dim, theta, sc) && #[trigger] turned_pair(ar, v, at, sc, x, y)
            && b == v.update(at, x).update(at + 1, y);
    assert(sc1 == sc2);
    assert(x1 == x2);
    assert(y1 == y2);
}

proof fn lemma_stages<A: Arith>(
    ar: &A,
    a: Seq<Seq<u32>>,
    b: Seq<Seq<u32>>,
    before: Seq<u32>,
    r: Seq<u32>,
    s: Seq<u32>,
    heads: int,
    pos: int,
    head_dim: int,
    theta: u32,
    n: int,
)
    requires
        repeatable(ar),
        turns(ar, a, before, r, heads, pos, head_dim, theta),
        turns(ar, b, before, s, heads, pos, head_dim, theta),
        0 <= n < a.len(),
    ensures
        a[n] == b[n],
    decreases n,
{
    if n > 0 {
        lemma_stages(ar, a, b, before, r, s, heads, pos, head_dim, theta, n - 1);
        assert(turned_at(ar, a, n - 1, pos, head_dim, theta));
        assert(turned_at(ar, b, n - 1, pos, head_dim, theta));
        lemma_turn_step(ar, a[n - 1], a[n], b[n], n - 1, pos, head_dim, theta);
    }
}

proof fn lemma_roped<A: Arith>(
    ar: &A,
    before: Seq<u32>,
    r: Seq<u32>,
    s: Seq<u32>,
    heads: int,
    pos: int,
    head_dim: int,
    theta: u32,
)
    requires
        repeatable(ar),
        heads >= 0,
        head_dim >= 0,
        roped(ar, before, r, heads, pos, head_dim, theta),
        roped(ar, before, s, heads, pos, head_dim, theta),
    ensures
        r == s,
{
    let a = choose|stages: Seq<Seq<u32>>| #[trigger]
        turns(ar, stages, before, r, heads, pos, head_dim, theta);
    let b = choose|stages: Seq<Seq<u32>>| #[trigger]
        turns(ar, stages, before, s, heads, pos, head_dim, theta);
    let p = pairs(head_dim);
    assert(heads * p >= 0) by (nonlinear_arith)
        requires
            heads >= 0,
            p >= 0,
    ;
    lemma_stages(ar, a, b, before, r, s, heads, pos, head_dim, theta, a.len() - 1);
}

proof fn lemma_quantized_all<A: Arith>(
    ar: &A,
    x: Seq<u32>,
    q: Seq<i8>,
    a: u32,
    p: Seq<i8>,
    b: u32,
)
    requires
        repeatable(ar),
        quantized_all(ar, x, q, a),
        quantized_all(ar, x, p, b),
    ensures
        q == p,
        a == b,
{
    let m = choose|m: u32| #[trigger]
        is_peak(x, m) && if m == 0 {
            a == ONE && forall|i: int| 0 <= i < q.len() ==> #[trigger] q[i] == 0
        } else {
            over(ar, m, LARGEST_I8, a) && forall|i: int|
                0 <= i < q.len() ==> quantized(ar, x[i], a, #[trigger] q[i])
        };
    let n = choose|m: u32| #[trigger]
        is_peak(x, m) && if m == 0 {
            b == ONE && forall|i: int| 0 <= i < p.len() ==> #[trigger] p[i] == 0
        } else {
            over(ar, m, LARGEST_I8, b) && forall|i: int|
                0 <= i < p.len() ==> quantized(ar, x[i], b, #[trigger] p[i])
        };
    assert(m == n);
    assert(a == b);
    assert forall|i: int| 0 <= i < q.len() implies q[i] == p[i] by {
        if m != 0 {
            assert(quantized(ar, x[i], a, q[i]) && quantized(ar, x[i], a, p[i]));
        }
    }
    assert(q =~= p);
}

proof fn lemma_quantized_blocks<A: Arith>(
    ar: &A,
    x: Seq<u32>,
    q: Seq<i8>,
    a: Seq<u32>,
    p: Seq<i8>,
    b: Seq<u32>,
)
    requires
        repeatable(ar),
        quantized_blocks(ar, x, q, a),
        quantized_blocks(ar, x, p, b),
    ensures
        q == p,
        a == b,
{
    let n = x.len() as int;
    assert forall|k: int| 0 <= k < a.len() implies a[k] == b[k] by {
        let lo = k * 64;
        let hi = block_end(n, k);
        assert(quantized_all(ar, x.subrange(lo, hi), q.subrange(lo, hi), a[k]));
        assert(quantized_all(ar, x.subrange(lo, hi), p.subrange(lo, hi), b[k]));
        lemma_quantized_all(
            ar,
            x.subrange(lo, hi),
            q.subrange(lo, hi),
            a[k],
            p.subrange(lo, hi),
            b[k],
        );
    }
    assert forall|i: int| 0 <= i < q.len() implies q[i] == p[i] by {
        let k = i / 64;
        let lo = k * 64;
        let hi = block_end(n, k);
        assert(quantized_all(ar, x.subrange(lo, hi), q.subrange(lo, hi), a[k]));
        assert(quantized_all(ar, x.subrange(lo, hi), p.subrange(lo, hi), b[k]));
        lemma_quantized_all(
            ar,
            x.subrange(lo, hi),
            q.subrange(lo, hi),
            a[k],
            p.subrange(lo, hi),
            b[k],
        );
        assert(q.subrange(lo, hi)[i - lo] == p.subrange(lo, hi)[i - lo]);
    }
    assert(q =~= p);
    assert(a =~= b);
}

/// Where the arithmetic is repeatable, each block of a vector that is quantised by blocks, with its
/// scale, is what that block alone is quantised to.
pub proof fn lemma_blocks_are_quantized_alone<A: Arith>(
    ar: &A,
    x: Seq<u32>,
    q: Seq<i8>,
    scales: Seq<u32>,
    b: int,
    p: Seq<i8>,
    scale: u32,
)
    requires
        repeatable(ar),
        quantized_blocks(ar, x, q, scales),
        0 <= b < scales.len(),
        quantized_all(ar, x.subrange(b * 64, block_end(x.len() as int, b)), p, scale),
    ensures
        q.subrange(b * 64, block_end(x.len() as int, b)) == p,
        scales[b] == scale,
{
    let lo = b * 64;
    let hi = block_end(x.len() as int, b);
    assert(quantized_all(ar, x.subrange(lo, hi), q.subrange(lo, hi), scales[b]));
    lemma_quantized_all(ar, x.subrange(lo, hi), q.subrange(lo, hi), scales[b], p, scale);
}

proof fn lemma_row_sum<A: Arith>(
    ar: &A,
    w: I2Tensor,
    row: int,
    k: int,
    y: Seq<i8>,
    act_scales: Seq<u32>,
    blocks: int,
    r: u32,
    s: u32,
)
    requires
        repeatable(ar),
        row_sum(ar, w, row, k, y, act_scales, blocks, r),
        row_sum(ar, w, row, k, y, act_scales, blocks, s),
    ensures
        r == s,
    decreases blocks,
{
    if blocks > 0 {
        let b = row_block(row, k, (blocks - 1) * 64);
        let dot = ternary_dot(block_bytes(w, b), block_activations(y, (blocks - 1) * 64), 0, 64);
        let (s1, t1) = choose|u: u32, t: u32|
            row_sum(ar, w, row, k, y, act_scales, blocks - 1, u) && scaled(
                ar,
                dot,
                w.scales@[b],
                act_scales[blocks - 1],
                t,
            ) && #[trigger] plus(ar, u, t, r);
        let (s2, t2) = choose|u: u32, t: u32|
            row_sum(ar, w, row, k, y, act_scales, blocks - 1, u) && scaled(
                ar,
                dot,
                w.scales@[b],
                act_scales[blocks - 1],
                t,
            ) && #[trigger] plus(ar, u, t, s);
        lemma_row_sum(ar, w, row, k, y, act_scales, blocks - 1, s1, s2);
        assert(t1 == t2);
    }
}

proof fn lemma_rows_product<A: Arith>(
    ar: &A,
    w: I2Tensor,
    k: int,
    y: Seq<i8>,
    act_scales: Seq<u32>,
    r: Seq<u32>,
    s: Seq<u32>,
)
    requires
        repeatable(ar),
        rows_product(ar, w, k, y, act_scales, r),
        rows_product(ar, w, k, y, act_scales, s),
    ensures
        r == s,
{
    assert forall|i: int| 0 <= i < r.len() implies r[i] == s[i] by {
        lemma_row_sum(ar, w, i, k, y, act_scales, (k + 63) / 64, r[i], s[i]);
    }
    assert(r =~= s);
}

/// Where the arithmetic is repeatable, row `row` of the product of a ternary matrix with a vector is
/// what that row alone gives with the same vector.
pub proof fn lemma_rows_are_computed_alone<A: Arith>(
    ar: &A,
    w: I2Tensor,
    k: int,
    x: Seq<u32>,
    out: Seq<u32>,
    row: int,
    r: u32,
)
    requires
        repeatable(ar),
        exists|y: Seq<i8>, a: Seq<u32>| #[trigger]
            quantized_blocks(ar, x, y, a) && rows_product(ar, w, k, y, a, out),
        exists|y: Seq<i8>, a: Seq<u32>| #[trigger]
            quantized_blocks(ar, x, y, a) && row_sum(ar, w, row, k, y, a, (k + 63) / 64, r),
        0 <= row < out.len(),
    ensures
        out[row] == r,
{
    let (y, a) = choose|y: Seq<i8>, a: Seq<u32>| #[trigger]
        quantized_blocks(ar, x, y, a) && rows_product(ar, w, k, y, a, out);
    let (z, b) = choose|y: Seq<i8>, a: Seq<u32>| #[trigger]
        quantized_blocks(ar, x, y, a) && row_sum(ar, w, row, k, y, a, (k + 63) / 64, r);
    lemma_quantized_blocks(ar, x, y, a, z, b);
    lemma_row_sum(ar, w, row, k, y, a, (k + 63) / 64, out[row], r);
}

proof fn lemma_dense_product<A: Arith>(
    ar: &A,
    m: Seq<u32>,
    k: int,
    x: Seq<u32>,
    r: Seq<u32>,
    s: Seq<u32>,
)
    requires
        repeatable(ar),
        dense_product(ar, m, k, x, r),
        dense_product(ar, m, k, x, s),
    ensures
        r == s,
{
    assert forall|i: int| 0 <= i < r.len() implies r[i] == s[i] by {
        lemma_inner_product(ar, dense_row(m, k, i), x, r[i], s[i]);
    }
    assert(r =~= s);
}

proof fn lemma_matrix_product<A: Arith>(
    ar: &A,
    w: TensorData,
    x: Seq<u32>,
    r: Seq<u32>,
    s: Seq<u32>,
)
    requires
        repeatable(ar),
        matrix_product(ar, w, x, r),
        matrix_product(ar, w, x, s),
    ensures
        r == s,
{
    match w {
        TensorData::I2(t) => {
            lemma_workers_make_no_difference(ar, t, x.len() as int, x, r, s);
        },
        TensorData::F32(m) => {
            lemma_dense_product(ar, m@, x.len() as int, x, r, s);
        },
    }
}

/// Where the arithmetic is repeatable, the product of a ternary matrix with a vector has one
/// outcome, however many workers share the rows.
pub proof fn lemma_workers_make_no_difference<A: Arith>(
    ar: &A,
    w: I2Tensor,
    k: int,
    x: Seq<u32>,
    r: Seq<u32>,
    s: Seq<u32>,
)
    requires
        repeatable(ar),
        exists|y: Seq<i8>, a: Seq<u32>| #[trigger]
            quantized_blocks(ar, x, y, a) && rows_product(ar, w, k, y, a, r),
        exists|y: Seq<i8>, a: Seq<u32>| #[trigger]
            quantized_blocks(ar, x, y, a) && rows_product(ar, w, k, y, a, s),
    ensures
        r == s,
{
    let (y, a) = choose|y: Seq<i8>, a: Seq<u32>| #[trigger]
        quantized_blocks(ar, x, y, a) && rows_product(ar, w, k, y, a, r);
    let (z, b) = choose|y: Seq<i8>, a: Seq<u32>| #[trigger]
        quantized_blocks(ar, x, y, a) && rows_product(ar, w, k, y, a, s);
    lemma_quantized_blocks(ar, x, y, a, z, b);
    lemma_rows_product(ar, w, k, y, a, r, s);
}

proof fn lemma_quantized_product<A: Arith>(
    ar: &A,
    w: TensorData,
    y: Seq<i8>,
    act_scales: Seq<u32>,
    k: int,
    r: Seq<u32>,
    s: Seq<u32>,
)
    requires
        repeatable(ar),
        quantized_product(ar, w, y, act_scales, k, r),
        quantized_product(ar, w, y, act_scales, k, s),
    ensures
        r == s,
{
    match w {
        TensorData::I2(t) => {
            lemma_rows_product(ar, t, k, y, act_scales, r, s);
        },
        TensorData::F32(m) => {
            if r.len() > 0 {
                let a = choose|x: Seq<u32>| #[trigger]
                    dequantized(ar, y, act_scales, x) && dense_product(ar, m@, k, x, r);
                let b = choose|x: Seq<u32>| #[trigger]
                    dequantized(ar, y, act_scales, x) && dense_product(ar, m@, k, x, s);
                assert forall|i: int| 0 <= i < a.len() implies a[i] == b[i] by {
                    assert(int_times(ar, y[i] as int, act_scales[i / 64], a[i]));
                    assert(int_times(ar, y[i] as int, act_scales[i / 64], b[i]));
                }
                assert(a =~= b);
                lemma_dense_product(ar, m@, k, a, r, s);
            } else {
                assert(r =~= s);
            }
        },
    }
}

/// Where the arithmetic is repeatable, a ternary matrix times activations that are quantised
/// already is the matrix times the vector that they come from.
pub proof fn lemma_activations_are_shared<A: Arith>(
    ar: &A,
    t: I2Tensor,
    x: Seq<u32>,
    y: Seq<i8>,
    act_scales: Seq<u32>,
    r: Seq<u32>,
    s: Seq<u32>,
)
    requires
        repeatable(ar),
        quantized_blocks(ar, x, y, act_scales),
        quantized_product(ar, TensorData::I2(t), y, act_scales, x.len() as int, r),
        matrix_product(ar, TensorData::I2(t), x, s),
    ensures
        r == s,
        r.len() == t.n as int / x.len() as int,
{
    let n = x.len() as int;
    let (z, b) = choose|y: Seq<i8>, a: Seq<u32>| #[trigger]
        quantized_blocks(ar, x, y, a) && rows_product(ar, t, n, y, a, s);
    lemma_quantized_blocks(ar, x, y, act_scales, z, b);
    lemma_rows_product(ar, t, n, y, act_scales, r, s);
}

proof fn lemma_found<A: Arith>(
    ar: &A,
    a: Layout,
    k: Seq<u32>,
    v: Seq<u32>,
    l: int,
    g: int,
    n: int,
    q: Seq<u32>,
    r: Seq<u32>,
    s: Seq<u32>,
)
    requires
        repeatable(ar),
        found(ar, a, k, v, l, g, n, q, r),
        found(ar, a, k, v, l, g, n, q, s),
    ensures
        r == s,
{
    let (s1, p1) = choose|scores: Seq<u32>, probs: Seq<u32>|
        scores.len() == n && probs.len() == n && #[trigger] scored_all(ar, a, k, l, g, q, scores)
            && softmaxed(ar, scores, probs) && #[trigger] mixed(ar, a, v, l, g, probs, r);
    let (s2, p2) = choose|scores: Seq<u32>, probs: Seq<u32>|
        scores.len() == n && probs.len() == n && #[trigger] scored_all(ar, a, k, l, g, q, scores)
            && softmaxed(ar, scores, probs) && #[trigger] mixed(ar, a, v, l, g, probs, s);
    assert forall|t: int| 0 <= t < s1.len() implies s1[t] == s2[t] by {
        let c = cell(a, k, l, g, t);
        assert(scored(ar, q, c, a.dim, s1[t]) && scored(ar, q, c, a.dim, s2[t]));
        let (x1, c1, d1) = choose|x: u32, c0: u32, d: u32|
            running_dot(ar, q, c, a.dim, x) && from_count(ar, a.dim as u64, c0)
                && #[trigger] root(ar, c0, d) && #[trigger] over(ar, x, d, s1[t]);
        let (x2, c2, d2) = choose|x: u32, c0: u32, d: u32|
            running_dot(ar, q, c, a.dim, x) && from_count(ar, a.dim as u64, c0)
                && #[trigger] root(ar, c0, d) && #[trigger] over(ar, x, d, s2[t]);
        lemma_running_dot(ar, q, c, a.dim, x1, x2);
    }
    assert(s1 =~= s2);
    lemma_softmax(ar, s1, p1, p2);
    assert forall|d: int| 0 <= d < r.len() implies r[d] == s[d] by {
        let len = p1.len() as int;
        lemma_running_dot(ar, p1, column(a, v, l, g, d, len), len, r[d], s[d]);
    }
    assert(r =~= s);
}

proof fn lemma_attended<A: Arith>(
    ar: &A,
    m: Model,
    l: int,
    pos: int,
    q: Seq<u32>,
    k: Seq<u32>,
    v: Seq<u32>,
    r: Seq<u32>,
    s: Seq<u32>,
)
    requires
        repeatable(ar),
        m.n_head * m.head_dim <= m.n_embd,
        attended(ar, m, l, pos, q, k, v, r),
        attended(ar, m, l, pos, q, k, v, s),
    ensures
        r == s,
{
    let dim = m.head_dim as int;
    let heads = m.n_head as int;
    assert forall|i: int| 0 <= i < r.len() implies r[i] == s[i] by {
        if i < heads * dim {
            if dim == 0 {
                assert(heads * 0 == 0);
            }
            let h = i / dim;
            lemma_fundamental_div_mod(i, dim);
            let e = i % dim;
            assert(0 <= h < heads) by (nonlinear_arith)
                requires
                    i == dim * h + e,
                    0 <= e < dim,
                    0 <= i < heads * dim,
            ;
            assert(h * dim + dim <= heads * dim) by (nonlinear_arith)
                requires
                    h < heads,
                    dim > 0,
            ;
            assert(h * dim == dim * h) by (nonlinear_arith);
            assert(head_attended(ar, m, l, pos, h, q, k, v, r));
            assert(head_attended(ar, m, l, pos, h, q, k, v, s));
            lemma_found(
                ar,
                layout(m),
                k,
                v,
                l,
                kv_head(m, h),
                pos + 1,
                head_part(q, dim, h),
                head_part(r, dim, h),
                head_part(s, dim, h),
            );
            assert(head_part(r, dim, h)[e] == head_part(s, dim, h)[e]);
        }
    }
    assert(r =~= s);
}

proof fn lemma_added<A: Arith>(ar: &A, x: Seq<u32>, y: Seq<u32>, r: Seq<u32>, s: Seq<u32>)
    requires
        repeatable(ar),
        added(ar, x, y, r),
        added(ar, x, y, s),
    ensures
        r == s,
{
    assert forall|i: int| 0 <= i < r.len() implies r[i] == s[i] by {
        assert(plus(ar, x[i], y[i], r[i]) && plus(ar, x[i], y[i], s[i]));
    }
    assert(r =~= s);
}

proof fn lemma_attention_step<A: Arith>(
    ar: &A,
    m: Model,
    l: int,
    pos: int,
    eps: u32,
    theta: u32,
    before: Flow,
    t: AttentionTrace,
    r: Flow,
    u: AttentionTrace,
    s: Flow,
)
    requires
        repeatable(ar),
        m.n_head * m.head_dim <= m.n_embd,
        attention_step(ar, m, l, pos, eps, theta, before, t, r),
        attention_step(ar, m, l, pos, eps, theta, before, u, s),
    ensures
        r == s,
{
    let w = m.layers@[l];
    let n = m.n_embd as int;
    let dim = m.head_dim as int;
    lemma_rms(ar, before.x, w.attn_norm@, eps, t.normed, u.normed);
    lemma_quantized_blocks(ar, t.normed, t.y, t.scales, u.y, u.scales);
    lemma_quantized_product(ar, w.q, t.y, t.scales, n, t.q0, u.q0);
    lemma_quantized_product(ar, w.k, t.y, t.scales, n, t.k0, u.k0);
    lemma_quantized_product(ar, w.v, t.y, t.scales, n, t.v, u.v);
    lemma_roped(ar, t.q0, t.q, u.q, m.n_head as int, pos, dim, theta);
    lemma_roped(ar, t.k0, t.k, u.k, m.n_head_kv as int, pos, dim, theta);
    lemma_attended(ar, m, l, pos, t.q, r.k, r.v, t.found, u.found);
    lemma_rms(ar, t.found, w.attn_sub_norm@, eps, t.found_normed, u.found_normed);
    lemma_matrix_product(ar, w.o, t.found_normed, t.o, u.o);
    lemma_added(ar, before.x, t.o, r.x, s.x);
}

proof fn lemma_network_step<A: Arith>(
    ar: &A,
    m: Model,
    l: int,
    eps: u32,
    before: Seq<u32>,
    t: NetworkTrace,
    r: Seq<u32>,
    u: NetworkTrace,
    s: Seq<u32>,
)
    requires
        repeatable(ar),
        network_step(ar, m, l, eps, before, t, r),
        network_step(ar, m, l, eps, before, u, s),
    ensures
        r == s,
{
    let w = m.layers@[l];
    let n = m.n_embd as int;
    lemma_rms(ar, before, w.ffn_norm@, eps, t.normed, u.normed);
    lemma_quantized_blocks(ar, t.normed, t.y, t.scales, u.y, u.scales);
    lemma_quantized_product(ar, w.gate, t.y, t.scales, n, t.gate, u.gate);
    lemma_quantized_product(ar, w.up, t.y, t.scales, n, t.up, u.up);
    assert forall|i: int| 0 <= i < t.gated.len() implies t.gated[i] == u.gated[i] by {
        assert(gated_value(ar, t.gate[i], t.up[i], t.gated[i]));
        assert(gated_value(ar, t.gate[i], t.up[i], u.gated[i]));
    }
    assert(t.gated =~= u.gated);
    lemma_rms(ar, t.gated, w.ffn_sub_norm@, eps, t.gated_normed, u.gated_normed);
    lemma_matrix_product(ar, w.down, t.gated_normed, t.down, u.down);
    lemma_added(ar, before, t.down, r, s);
}

proof fn lemma_flows<A: Arith>(
    ar: &A,
    m: Model,
    pos: int,
    t: ForwardTrace,
    u: ForwardTrace,
    l: int,
)
    requires
        repeatable(ar),
        m.layers@.len() > 0 ==> m.n_head * m.head_dim <= m.n_embd,
        t.eps == u.eps,
        t.theta == u.theta,
        t.flows.len() == m.layers@.len() + 1,
        u.flows.len() == m.layers@.len() + 1,
        t.flows.first() == u.flows.first(),
        forall|i: int| 0 <= i < m.layers@.len() ==> #[trigger] step_at(ar, m, pos, t, i),
        forall|i: int| 0 <= i < m.layers@.len() ==> #[trigger] step_at(ar, m, pos, u, i),
        0 <= l <= m.layers@.len(),
    ensures
        t.flows[l] == u.flows[l],
    decreases l,
{
    if l > 0 {
        lemma_flows(ar, m, pos, t, u, l - 1);
        assert(step_at(ar, m, pos, t, l - 1) && step_at(ar, m, pos, u, l - 1));
        let a = t.layers[l - 1];
        let b = u.layers[l - 1];
        let before = t.flows[l - 1];
        lemma_attention_step(
            ar,
            m,
            l - 1,
            pos,
            t.eps,
            t.theta,
            before,
            a.attention,
            a.mid,
            b.attention,
            b.mid,
        );
        lemma_network_step(
            ar,
            m,
            l - 1,
            t.eps,
            a.mid.x,
            a.network,
            t.flows[l].x,
            b.network,
            u.flows[l].x,
        );
    }
}

/// Where the arithmetic is repeatable, a token has one outcome: the same token at the same position
/// with the same caches gives the same logits and leaves the same caches.
pub proof fn lemma_forward_is_deterministic<A: Arith>(
    ar: &A,
    m: Model,
    token: int,
    pos: int,
    k: Seq<u32>,
    v: Seq<u32>,
    k1: Seq<u32>,
    v1: Seq<u32>,
    logits1: Seq<u32>,
    k2: Seq<u32>,
    v2: Seq<u32>,
    logits2: Seq<u32>,
)
    requires
        repeatable(ar),
        m.layers@.len() > 0 ==> m.n_head * m.head_dim <= m.n_embd,
        forwarded(ar, m, token, pos, k, v, k1, v1, logits1),
        forwarded(ar, m, token, pos, k, v, k2, v2, logits2),
    ensures
        k1 == k2,
        v1 == v2,
        logits1 == logits2,
{
    let t = choose|t: ForwardTrace| #[trigger]
        is_forward(ar, m, token, pos, k, v, k1, v1, logits1, t);
    let u = choose|t: ForwardTrace| #[trigger]
        is_forward(ar, m, token, pos, k, v, k2, v2, logits2, t);
    assert(t.eps == u.eps && t.theta == u.theta);
    lemma_flows(ar, m, pos, t, u, m.layers@.len() as int);
    lemma_rms(ar, t.flows.last().x, m.final_norm@, t.eps, t.normed, u.normed);
    lemma_dense_product(ar, embedding(m), m.n_embd as int, t.normed, logits1, logits2);
}

/// Where the arithmetic is repeatable, a token depends on the positions before its own and on no
/// others: caches that agree on those lead to the same logits, and to caches that agree on its own
/// position as well.
pub proof fn lemma_forward_depends_on_past<A: Arith>(
    ar: &A,
    m: Model,
    token: int,
    pos: int,
    k1: Seq<u32>,
    v1: Seq<u32>,
    after_k1: Seq<u32>,
    after_v1: Seq<u32>,
    logits1: Seq<u32>,
    k2: Seq<u32>,
    v2: Seq<u32>,
    after_k2: Seq<u32>,
    after_v2: Seq<u32>,
    logits2: Seq<u32>,
)
    requires
        repeatable(ar),
        ready(m),
        0 <= pos,
        m.layers@.len() > 0 ==> pos < m.n_ctx,
        agree(m, k1, k2, pos, 0),
        agree(m, v1, v2, pos, 0),
        forwarded(ar, m, token, pos, k1, v1, after_k1, after_v1, logits1),
        forwarded(ar, m, token, pos, k2, v2, after_k2, after_v2, logits2),
    ensures
        logits1 == logits2,
        agree(m, after_k1, after_k2, pos + 1, 0),
        agree(m, after_v1, after_v2, pos + 1, 0),
{
    let (k3, v3) = lemma_forward_reads_past(
        ar,
        m,
        token,
        pos,
        k1,
        v1,
        after_k1,
        after_v1,
        logits1,
        k2,
        v2,
    );
    lemma_forward_is_deterministic(
        ar,
        m,
        token,
        pos,
        k2,
        v2,
        k3,
        v3,
        logits1,
        after_k2,
        after_v2,
        logits2,
    );
}

proof fn lemma_runs<A: Arith>(ar: &A, m: Model, start: int, a: Run, b: Run, n: int)
    requires
        repeatable(ar),
        m.layers@.len() > 0 ==> m.n_head * m.head_dim <= m.n_embd,
        is_run(ar, m, start, a),
        is_run(ar, m, start, b),
        starts_with(b, a.keys.first(), a.values.first()),
        0 <= n <= a.fed.len(),
        n <= b.fed.len(),
        forall|i: int| 0 <= i < n ==> a.fed[i] == b.fed[i],
    ensures
        a.keys[n] == b.keys[n],
        a.values[n] == b.values[n],
        forall|i: int| 0 <= i < n ==> #[trigger] a.logits[i] == b.logits[i],
    decreases n,
{
    if n > 0 {
        lemma_runs(ar, m, start, a, b, n - 1);
        assert(fed_at(ar, m, start, a, n - 1) && fed_at(ar, m, start, b, n - 1));
        lemma_forward_is_deterministic(
            ar,
            m,
            a.fed[n - 1] as int,
            start + (n - 1),
            a.keys[n - 1],
            a.values[n - 1],
            a.keys[n],
            a.values[n],
            a.logits[n - 1],
            b.keys[n],
            b.values[n],
            b.logits[n - 1],
        );
    }
}

proof fn lemma_same_tokens<A: Arith>(
    ar: &A,
    m: Model,
    ids: Seq<u32>,
    temp: u32,
    max: int,
    run1: Run,
    out1: Seq<u32>,
    run2: Run,
    out2: Seq<u32>,
    n: int,
)
    requires
        repeatable(ar),
        at_most(temp, ZERO),
        m.layers@.len() > 0 ==> m.n_head * m.head_dim <= m.n_embd,
        ids.len() > 0,
        continued(ar, m, ids, temp, max, run1, out1),
        continued(ar, m, ids, temp, max, run2, out2),
        0 <= n <= out1.len(),
        n <= out2.len(),
    ensures
        forall|i: int| 0 <= i < n ==> out1[i] == out2[i],
        forall|i: int|
            0 <= i < ids.len() + n ==> #[trigger] run1.logits[i] == run2.logits[i],
    decreases n,
{
    assert(run1.keys.first() =~= run2.keys.first());
    assert(run1.values.first() =~= run2.values.first());
    if n > 0 {
        lemma_same_tokens(ar, m, ids, temp, max, run1, out1, run2, out2, n - 1);
        let at = ids.len() + (n - 1) - 1;
        assert(run1.logits[at] == run2.logits[at]);
        assert(sampled_token(ar, run1.logits[at], temp, out1[n - 1]));
        assert(sampled_token(ar, run2.logits[at], temp, out2[n - 1]));
        lemma_greedy_is_deterministic(ar, run1.logits[at], temp, out1[n - 1], out2[n - 1]);
    }
    lemma_runs(ar, m, 0, run1, run2, ids.len() + n);
}

proof fn lemma_no_shorter<A: Arith>(
    ar: &A,
    m: Model,
    ids: Seq<u32>,
    temp: u32,
    max: int,
    run1: Run,
    out1: Seq<u32>,
    run2: Run,
    out2: Seq<u32>,
)
    requires
        repeatable(ar),
        at_most(temp, ZERO),
        m.layers@.len() > 0 ==> m.n_head * m.head_dim <= m.n_embd,
        ids.len() > 0,
        generated(ar, m, ids, temp, max, run1, out1),
        generated(ar, m, ids, temp, max, run2, out2),
    ensures
        out1.len() >= out2.len(),
{
    if out1.len() < out2.len() {
        let n = out1.len() as int;
        lemma_same_tokens(ar, m, ids, temp, max, run1, out1, run2, out2, n);
        let at = ids.len() + n - 1;
        assert(run1.logits[at] == run2.logits[at]);
        assert(sampled_token(ar, run2.logits[at], temp, out2[n]));
        lemma_greedy_is_deterministic(ar, run1.logits[at], temp, m.eos_id, out2[n]);
    }
}

/// Greedy generation is deterministic: where the arithmetic is repeatable and the temperature is
/// not positive, the same prompt always gives the same tokens.
pub proof fn lemma_generation_is_deterministic<A: Arith>(
    ar: &A,
    m: Model,
    ids: Seq<u32>,
    temp: u32,
    max: int,
    run1: Run,
    out1: Seq<u32>,
    run2: Run,
    out2: Seq<u32>,
)
    requires
        repeatable(ar),
        at_most(temp, ZERO),
        m.layers@.len() > 0 ==> m.n_head * m.head_dim <= m.n_embd,
        ids.len() > 0,
        generated(ar, m, ids, temp, max, run1, out1),
        generated(ar, m, ids, temp, max, run2, out2),
    ensures
        out1 == out2,
{
    lemma_no_shorter(ar, m, ids, temp, max, run1, out1, run2, out2);
    lemma_no_shorter(ar, m, ids, temp, max, run2, out2, run1, out1);
    lemma_same_tokens(ar, m, ids, temp, max, run1, out1, run2, out2, out1.len() as int);
    assert(out1 =~= out2);
}

/// A greedy run with a smaller bound is the start of the run with a larger one: where the arithmetic
/// is repeatable and the temperature is not positive, the tokens of the first are the first tokens
/// of the second, as many of them as the smaller bound lets in.
pub proof fn lemma_shorter_generation_is_a_prefix<A: Arith>(
    ar: &A,
    m: Model,
    ids: Seq<u32>,
    temp: u32,
    max1: int,
    run1: Run,
    out1: Seq<u32>,
    max2: int,
    run2: Run,
    out2: Seq<u32>,
)
    requires
        repeatable(ar),
        at_most(temp, ZERO),
        m.layers@.len() > 0 ==> m.n_head * m.head_dim <= m.n_embd,
        ids.len() > 0,
        max1 <= max2,
        generated(ar, m, ids, temp, max1, run1, out1),
        generated(ar, m, ids, temp, max2, run2, out2),
    ensures
        out1.len() == if max1 <= out2.len() {
            max1
        } else {
            out2.len() as int
        },
        out1 == out2.take(out1.len() as int),
{
    assert(continued(ar, m, ids, temp, max2, run1, out1));
    let n = if out1.len() <= out2.len() {
        out1.len() as int
    } else {
        out2.len() as int
    };
    lemma_same_tokens(ar, m, ids, temp, max2, run1, out1, run2, out2, n);
    let at = ids.len() + n - 1;
    assert(run1.logits[at] == run2.logits[at]);
    if out2.len() < out1.len() {
        assert(sampled_token(ar, run1.logits[at], temp, out1[n]));
        lemma_greedy_is_deterministic(ar, run1.logits[at], temp, m.eos_id, out1[n]);
    } else if out1.len() < out2.len() && out1.len() < max1 {
        assert(sampled_token(ar, run2.logits[at], temp, out2[n]));
        lemma_greedy_is_deterministic(ar, run1.logits[at], temp, m.eos_id, out2[n]);
    }
    assert(out1 =~= out2.take(out1.len() as int));
}

} // verus!
