//! A token on its way through the model, taken apart: which elements of the tables, the weights and
//! the caches go into what.

use crate::arith::{
    exponential, floor, from_count, inner_product, int_times, minus, narrow, over, plus, power,
    product3, products, root, running_dot, scaled, sin_cos, times, total, Arith,
};
use crate::attention::{
    attended, column, found, head_attended, head_part, kv_head, mixed, scored, scored_all,
};
use crate::cache::{cell, layer_len, layout, lemma_written_cell, lemma_written_elsewhere};
use crate::dot::dot;
use crate::float::{at_most, is_nan, magnitude, value, HALF, ONE};
use crate::forward::{
    forwarded, gated_value, is_forward, layer_step, step_at, Flow, ForwardTrace, LayerTrace,
};
use crate::gguf::RealBits;
use crate::i2::{code_at, is_peak, I2Tensor};
use crate::linear::{
    block_activations, block_bytes, block_end, code_sum, quantized, quantized_all,
    quantized_blocks, rounded_half_up, row_block, row_sum, rows_product, ternary_dot, LARGEST_I8,
};
use crate::matrix::{dense_product, dequantized, matrix_product, quantized_product};
use crate::model::Model;
use crate::ops::{
    cross_minus, cross_plus, inverse_rms, is_greatest, mean_square, quotients, rms_normed, rotation,
    shifted_exp, shifted_exps, softmaxed, squared_relu, turned,
};
use crate::rope::{heads_fit, lemma_pairs_turned, pair_dim, pairs, roped, turned_pair};
use crate::weights::TensorData;
use vstd::arithmetic::div_mod::lemma_fundamental_div_mod_converse;
use vstd::prelude::*;

verus! {

/// The products that an inner product is the sum of: one for each place that both vectors have.
pub proof fn lemma_inner_product_parts<A: Arith>(ar: &A, xs: Seq<u32>, ys: Seq<u32>, r: u32) -> (ps:
    Seq<u32>)
    requires
        inner_product(ar, xs, ys, r),
    ensures
        ps.len() <= xs.len(),
        ps.len() <= ys.len(),
        ps.len() == xs.len() || ps.len() == ys.len(),
        forall|i: int| 0 <= i < ps.len() ==> times(ar, xs[i], ys[i], #[trigger] ps[i]),
        total(ar, ps, r),
{
    choose|ps: Seq<u32>| #[trigger] products(ar, xs, ys, ps) && total(ar, ps, r)
}

/// The products of a running sum, and the sums after each of them, from 0 on.
pub proof fn lemma_running_sums<A: Arith>(ar: &A, xs: Seq<u32>, ys: Seq<u32>, n: int, r: u32) -> (s:
    (Seq<u32>, Seq<u32>))
    requires
        n >= 0,
        running_dot(ar, xs, ys, n, r),
    ensures
        s.0.len() == n,
        s.1.len() == n + 1,
        s.1[0] == 0,
        s.1[n] == r,
        forall|i: int| 0 <= i < n ==> times(ar, xs[i], ys[i], #[trigger] s.0[i]),
        forall|i: int| 0 <= i < n ==> plus(ar, s.1[i], #[trigger] s.0[i], s.1[i + 1]),
    decreases n,
{
    if n == 0 {
        (Seq::empty(), seq![r])
    } else {
        let (before, p) = choose|s: u32, p: u32|
            running_dot(ar, xs, ys, n - 1, s) && times(ar, xs[n - 1], ys[n - 1], p)
                && #[trigger] plus(ar, s, p, r);
        let (ps, sums) = lemma_running_sums(ar, xs, ys, n - 1, before);
        let all = (ps.push(p), sums.push(r));
        assert forall|i: int| 0 <= i < n implies times(ar, xs[i], ys[i], #[trigger] all.0[i])
            && plus(ar, all.1[i], all.0[i], all.1[i + 1]) by {
            if i < n - 1 {
                assert(all.0[i] == ps[i]);
            }
        }
        all
    }
}

/// The heads of a query share the heads of keys and values in groups that lie one behind the
/// other: with `n` heads of the query to each of keys, the heads from `g * n` up to `(g + 1) * n`
/// attend to head `g`. Each finds its scores at all positions up to `pos`, over the root of the
/// dimension, and adds up the values of these positions by the softmax of the scores.
pub proof fn lemma_heads_attend_in_groups<A: Arith>(
    ar: &A,
    m: Model,
    l: int,
    pos: int,
    q: Seq<u32>,
    k: Seq<u32>,
    v: Seq<u32>,
    out: Seq<u32>,
    h: int,
    g: int,
) -> (s: (Seq<u32>, Seq<u32>))
    requires
        attended(ar, m, l, pos, q, k, v, out),
        m.n_head_kv > 0,
        m.head_dim > 0,
        pos >= 0,
        0 <= h < m.n_head,
        g * (m.n_head as int / m.n_head_kv as int) <= h < (g + 1) * (m.n_head as int
            / m.n_head_kv as int),
    ensures
        s.0.len() == pos + 1,
        s.1.len() == pos + 1,
        forall|t: int|
            0 <= t <= pos ==> scored(
                ar,
                q.subrange(h * m.head_dim, h * m.head_dim + m.head_dim),
                k.subrange(
                    ((l * m.n_head_kv + g) * m.n_ctx + t) * m.head_dim,
                    ((l * m.n_head_kv + g) * m.n_ctx + t) * m.head_dim + m.head_dim,
                ),
                m.head_dim as int,
                #[trigger] s.0[t],
            ),
        softmaxed(ar, s.0, s.1),
        forall|d: int|
            #![trigger out.subrange(h * m.head_dim, h * m.head_dim + m.head_dim)[d]]
            0 <= d < m.head_dim ==> running_dot(
                ar,
                s.1,
                Seq::new(
                    (pos + 1) as nat,
                    |t: int| v[((l * m.n_head_kv + g) * m.n_ctx + t) * m.head_dim + d],
                ),
                pos + 1,
                out.subrange(h * m.head_dim, h * m.head_dim + m.head_dim)[d],
            ),
{
    let a = layout(m);
    let n = m.n_head as int / m.n_head_kv as int;
    assert(h / n == g) by (nonlinear_arith)
        requires
            g * n <= h < (g + 1) * n,
            n > 0 || n <= 0,
            h >= 0,
    ;
    assert(kv_head(m, h) == g);
    assert(head_attended(ar, m, l, pos, h, q, k, v, out));
    let qh = head_part(q, a.dim, h);
    let oh = head_part(out, a.dim, h);
    assert(found(ar, a, k, v, l, g, pos + 1, qh, oh));
    let (scores, probs) = choose|scores: Seq<u32>, probs: Seq<u32>|
        scores.len() == pos + 1 && probs.len() == pos + 1 && #[trigger] scored_all(
            ar,
            a,
            k,
            l,
            g,
            qh,
            scores,
        ) && softmaxed(ar, scores, probs) && #[trigger] mixed(ar, a, v, l, g, probs, oh);
    assert forall|d: int|
        #![trigger out.subrange(h * m.head_dim, h * m.head_dim + m.head_dim)[d]]
        0 <= d < m.head_dim implies running_dot(
        ar,
        probs,
        Seq::new(
            (pos + 1) as nat,
            |t: int| v[((l * m.n_head_kv + g) * m.n_ctx + t) * m.head_dim + d],
        ),
        pos + 1,
        out.subrange(h * m.head_dim, h * m.head_dim + m.head_dim)[d],
    ) by {
        assert(oh[d] == out.subrange(h * m.head_dim, h * m.head_dim + m.head_dim)[d]);
        assert(column(a, v, l, g, d, pos + 1) =~= Seq::new(
            (pos + 1) as nat,
            |t: int| v[((l * m.n_head_kv + g) * m.n_ctx + t) * m.head_dim + d],
        ));
    }
    (scores, probs)
}

/// What goes into a score: the running sum of the products of query and key, the dimension, and
/// its root.
pub proof fn lemma_score_parts<A: Arith>(ar: &A, q: Seq<u32>, k: Seq<u32>, dim: int, r: u32) -> (s:
    (u32, u32, u32))
    requires
        scored(ar, q, k, dim, r),
    ensures
        running_dot(ar, q, k, dim, s.0),
        from_count(ar, dim as u64, s.1),
        root(ar, s.1, s.2),
        over(ar, s.0, s.2, r),
{
    choose|s: u32, c: u32, d: u32|
        running_dot(ar, q, k, dim, s) && from_count(ar, dim as u64, c) && #[trigger] root(ar, c, d)
            && #[trigger] over(ar, s, d, r)
}

/// A token starts as its own row of the table, goes through all layers, the caches with it, and
/// its logits are the inner products of all rows of the table with what comes out, normalised.
pub proof fn lemma_token_through_the_model<A: Arith>(
    ar: &A,
    m: Model,
    token: int,
    pos: int,
    k0: Seq<u32>,
    v0: Seq<u32>,
    k1: Seq<u32>,
    v1: Seq<u32>,
    logits: Seq<u32>,
) -> (t: ForwardTrace)
    requires
        m.token_embd is F32,
        forwarded(ar, m, token, pos, k0, v0, k1, v1, logits),
    ensures
        m.rms_eps matches RealBits::Single(bits) ==> t.eps == bits,
        m.rms_eps matches RealBits::Double(bits) ==> narrow(ar, bits, t.eps),
        m.rope_theta matches RealBits::Single(bits) ==> t.theta == bits,
        m.rope_theta matches RealBits::Double(bits) ==> narrow(ar, bits, t.theta),
        t.flows.len() == m.layers@.len() + 1,
        t.flows[0].x == m.token_embd->F32_0@.subrange(
            token * m.n_embd,
            token * m.n_embd + m.n_embd,
        ),
        t.flows[0].k == k0,
        t.flows[0].v == v0,
        forall|l: int|
            0 <= l < m.layers@.len() ==> layer_step(
                ar,
                m,
                l,
                pos,
                t.eps,
                t.theta,
                t.flows[l],
                #[trigger] t.layers[l],
                t.flows[l + 1],
            ),
        t.flows[m.layers@.len() as int].k == k1,
        t.flows[m.layers@.len() as int].v == v1,
        rms_normed(
            ar,
            t.flows[m.layers@.len() as int].x,
            m.final_norm@,
            t.eps,
            t.normed,
        ),
        logits.len() == m.token_embd->F32_0@.len() as int / m.n_embd as int,
        forall|r: int|
            0 <= r < logits.len() ==> inner_product(
                ar,
                m.token_embd->F32_0@.subrange(r * m.n_embd, r * m.n_embd + m.n_embd),
                t.normed,
                #[trigger] logits[r],
            ),
        is_forward(ar, m, token, pos, k0, v0, k1, v1, logits, t),
{
    let t = choose|t: ForwardTrace| #[trigger]
        is_forward(ar, m, token, pos, k0, v0, k1, v1, logits, t);
    assert forall|l: int| 0 <= l < m.layers@.len() implies layer_step(
        ar,
        m,
        l,
        pos,
        t.eps,
        t.theta,
        t.flows[l],
        #[trigger] t.layers[l],
        t.flows[l + 1],
    ) by {
        assert(step_at(ar, m, pos, t, l));
    }
    t
}

/// The caches of a trace keep their length, and later layers leave the cells of a layer alone.
proof fn lemma_cells_after<A: Arith>(
    ar: &A,
    m: Model,
    token: int,
    pos: int,
    k0: Seq<u32>,
    v0: Seq<u32>,
    k1: Seq<u32>,
    v1: Seq<u32>,
    logits: Seq<u32>,
    t: ForwardTrace,
    l: int,
    h: int,
    j: int,
)
    requires
        is_forward(ar, m, token, pos, k0, v0, k1, v1, logits, t),
        m.layers@.len() * layer_len(layout(m)) <= k0.len(),
        m.layers@.len() * layer_len(layout(m)) <= v0.len(),
        0 <= pos < m.n_ctx,
        0 <= l < m.layers@.len(),
        0 <= h < m.n_head_kv,
        0 <= j <= m.layers@.len(),
    ensures
        t.flows[j].k.len() == k0.len(),
        t.flows[j].v.len() == v0.len(),
        j > l ==> cell(layout(m), t.flows[j].k, l, h, pos) == cell(
            layout(m),
            t.flows[l + 1].k,
            l,
            h,
            pos,
        ),
        j > l ==> cell(layout(m), t.flows[j].v, l, h, pos) == cell(
            layout(m),
            t.flows[l + 1].v,
            l,
            h,
            pos,
        ),
    decreases j,
{
    if j > 0 {
        lemma_cells_after(ar, m, token, pos, k0, v0, k1, v1, logits, t, l, h, j - 1);
        assert(step_at(ar, m, pos, t, j - 1));
        if j - 1 > l {
            let a = layout(m);
            let n = m.layers@.len() as int;
            let w = t.layers[j - 1].attention;
            lemma_written_elsewhere(a, n, t.flows[j - 1].k, j - 1, pos, w.k, l, h, pos);
            lemma_written_elsewhere(a, n, t.flows[j - 1].v, j - 1, pos, w.v, l, h, pos);
        }
    }
}

/// Every layer puts its keys and values into its own cells: for each layer `l` and each head `h`,
/// the elements from `((l * heads + h) * context + pos) * dim` on are the turned key and the value
/// that the weights of this layer make of the token.
pub proof fn lemma_every_layer_is_cached<A: Arith>(
    ar: &A,
    m: Model,
    token: int,
    pos: int,
    k0: Seq<u32>,
    v0: Seq<u32>,
    k1: Seq<u32>,
    v1: Seq<u32>,
    logits: Seq<u32>,
    t: ForwardTrace,
    l: int,
    h: int,
)
    requires
        is_forward(ar, m, token, pos, k0, v0, k1, v1, logits, t),
        m.layers@.len() * layer_len(layout(m)) <= k0.len(),
        m.layers@.len() * layer_len(layout(m)) <= v0.len(),
        0 <= pos < m.n_ctx,
        0 <= l < m.layers@.len(),
        0 <= h < m.n_head_kv,
        m.n_head_kv * m.head_dim <= t.layers[l].attention.k.len(),
        m.n_head_kv * m.head_dim <= t.layers[l].attention.v.len(),
    ensures
        k1.subrange(
            ((l * m.n_head_kv + h) * m.n_ctx + pos) * m.head_dim,
            ((l * m.n_head_kv + h) * m.n_ctx + pos) * m.head_dim + m.head_dim,
        ) == t.layers[l].attention.k.subrange(h * m.head_dim, h * m.head_dim + m.head_dim),
        v1.subrange(
            ((l * m.n_head_kv + h) * m.n_ctx + pos) * m.head_dim,
            ((l * m.n_head_kv + h) * m.n_ctx + pos) * m.head_dim + m.head_dim,
        ) == t.layers[l].attention.v.subrange(h * m.head_dim, h * m.head_dim + m.head_dim),
        quantized_product(
            ar,
            m.layers@[l].k,
            t.layers[l].attention.y,
            t.layers[l].attention.scales,
            m.n_embd as int,
            t.layers[l].attention.k0,
        ),
        roped(
            ar,
            t.layers[l].attention.k0,
            t.layers[l].attention.k,
            m.n_head_kv as int,
            pos,
            m.head_dim as int,
            t.theta,
        ),
        quantized_product(
            ar,
            m.layers@[l].v,
            t.layers[l].attention.y,
            t.layers[l].attention.scales,
            m.n_embd as int,
            t.layers[l].attention.v,
        ),
{
    let a = layout(m);
    let n = m.layers@.len() as int;
    assert(step_at(ar, m, pos, t, l));
    lemma_cells_after(ar, m, token, pos, k0, v0, k1, v1, logits, t, l, h, l);
    lemma_cells_after(ar, m, token, pos, k0, v0, k1, v1, logits, t, l, h, n);
    let w = t.layers[l].attention;
    lemma_written_cell(a, n, t.flows[l].k, l, h, pos, w.k);
    lemma_written_cell(a, n, t.flows[l].v, l, h, pos, w.v);
}

/// The rows of a dense matrix times quantised activations: each activation is scaled back with the
/// scale of its block of 64, and each row is multiplied with the result.
pub proof fn lemma_dense_rows<A: Arith>(
    ar: &A,
    w: TensorData,
    y: Seq<i8>,
    act_scales: Seq<u32>,
    k: int,
    out: Seq<u32>,
) -> (x: Seq<u32>)
    requires
        w is F32,
        out.len() > 0,
        quantized_product(ar, w, y, act_scales, k, out),
    ensures
        x.len() == y.len(),
        forall|i: int|
            0 <= i < y.len() ==> int_times(ar, y[i] as int, act_scales[i / 64], #[trigger] x[i]),
        out.len() == w->F32_0@.len() as int / k,
        forall|r: int|
            0 <= r < out.len() ==> inner_product(
                ar,
                w->F32_0@.subrange(r * k, r * k + k),
                x,
                #[trigger] out[r],
            ),
{
    let m = w->F32_0@;
    choose|x: Seq<u32>| #[trigger]
        dequantized(ar, y, act_scales, x) && dense_product(ar, m, k, x, out)
}

/// The sums of a row of ternary weights, block by block: of each block the dot product of the
/// weights with the activations, times the scale of the weights, times that of the activations,
/// added up from 0 on.
pub proof fn lemma_row_sums<A: Arith>(
    ar: &A,
    w: I2Tensor,
    row: int,
    k: int,
    y: Seq<i8>,
    act_scales: Seq<u32>,
    blocks: int,
    r: u32,
) -> (s: (Seq<u32>, Seq<u32>))
    requires
        blocks >= 0,
        row_sum(ar, w, row, k, y, act_scales, blocks, r),
    ensures
        s.0.len() == blocks,
        s.1.len() == blocks + 1,
        s.1[0] == 0,
        s.1[blocks] == r,
        forall|b: int|
            #![trigger s.0[b]]
            0 <= b < blocks ==> scaled(
                ar,
                ternary_dot(
                    w.packed@.subrange(
                        (row * k + b * 64) / 64 * 16,
                        (row * k + b * 64) / 64 * 16 + 16,
                    ),
                    y.subrange(b * 64, b * 64 + 64),
                    0,
                    64,
                ),
                w.scales@[(row * k + b * 64) / 64],
                act_scales[b],
                s.0[b],
            ) && plus(ar, s.1[b], s.0[b], s.1[b + 1]),
    decreases blocks,
{
    if blocks == 0 {
        (Seq::empty(), seq![r])
    } else {
        let c = blocks - 1;
        let at = row_block(row, k, c * 64);
        let (before, term) = choose|s: u32, t: u32|
            row_sum(ar, w, row, k, y, act_scales, c, s) && scaled(
                ar,
                ternary_dot(block_bytes(w, at), block_activations(y, c * 64), 0, 64),
                w.scales@[at],
                act_scales[c],
                t,
            ) && #[trigger] plus(ar, s, t, r);
        let (terms, sums) = lemma_row_sums(ar, w, row, k, y, act_scales, c, before);
        let all = (terms.push(term), sums.push(r));
        assert forall|b: int|
            #![trigger all.0[b]]
            0 <= b < blocks implies scaled(
            ar,
            ternary_dot(
                w.packed@.subrange(
                    (row * k + b * 64) / 64 * 16,
                    (row * k + b * 64) / 64 * 16 + 16,
                ),
                y.subrange(b * 64, b * 64 + 64),
                0,
                64,
            ),
            w.scales@[(row * k + b * 64) / 64],
            act_scales[b],
            all.0[b],
        ) && plus(ar, all.1[b], all.0[b], all.1[b + 1]) by {
            if b < c {
                assert(all.0[b] == terms[b]);
            }
        }
        all
    }
}

/// A row of ternary weights times quantised activations: of each of the blocks that the row has,
/// the last one included, the dot product of the weights with the activations of the block, times
/// the scale of the weights, times that of the activations, added up from 0 on.
pub proof fn lemma_ternary_rows<A: Arith>(
    ar: &A,
    w: TensorData,
    y: Seq<i8>,
    act_scales: Seq<u32>,
    k: int,
    out: Seq<u32>,
    row: int,
) -> (s: (Seq<u32>, Seq<u32>))
    requires
        w is I2,
        k > 0,
        0 <= row < out.len(),
        quantized_product(ar, w, y, act_scales, k, out),
    ensures
        out.len() == w->I2_0.n as int / k,
        s.0.len() == (k + 63) / 64,
        s.1.len() == (k + 63) / 64 + 1,
        s.1[0] == 0,
        s.1[(k + 63) / 64] == out[row],
        forall|b: int|
            #![trigger s.0[b]]
            0 <= b < (k + 63) / 64 ==> scaled(
                ar,
                ternary_dot(
                    w->I2_0.packed@.subrange(
                        (row * k + b * 64) / 64 * 16,
                        (row * k + b * 64) / 64 * 16 + 16,
                    ),
                    y.subrange(b * 64, b * 64 + 64),
                    0,
                    64,
                ),
                w->I2_0.scales@[(row * k + b * 64) / 64],
                act_scales[b],
                s.0[b],
            ) && plus(ar, s.1[b], s.0[b], s.1[b + 1]),
{
    let t = w->I2_0;
    assert(rows_product(ar, t, k, y, act_scales, out));
    lemma_row_sums(ar, t, row, k, y, act_scales, (k + 63) / 64, out[row])
}

/// The sums of a single row of codes, block by block: of each block the dot product of the codes
/// with the activations, times the scale of the block, added up from 0 on.
pub proof fn lemma_code_sums<A: Arith>(ar: &A, w: I2Tensor, y: Seq<i8>, blocks: int, r: u32) -> (s: (
    Seq<u32>,
    Seq<u32>,
))
    requires
        blocks >= 0,
        code_sum(ar, w, y, blocks, r),
    ensures
        s.0.len() == blocks,
        s.1.len() == blocks + 1,
        s.1[0] == 0,
        s.1[blocks] == r,
        forall|b: int|
            #![trigger s.0[b]]
            0 <= b < blocks ==> int_times(
                ar,
                dot(
                    w.packed@.subrange(b * 16, b * 16 + 16),
                    y.subrange(b * 64, b * 64 + 64),
                    0,
                    64,
                ),
                w.scales@[b],
                s.0[b],
            ) && plus(ar, s.1[b], s.0[b], s.1[b + 1]),
    decreases blocks,
{
    if blocks == 0 {
        (Seq::empty(), seq![r])
    } else {
        let c = blocks - 1;
        let (before, term) = choose|s: u32, t: u32|
            code_sum(ar, w, y, c, s) && int_times(
                ar,
                dot(block_bytes(w, c), block_activations(y, c * 64), 0, 64),
                w.scales@[c],
                t,
            ) && #[trigger] plus(ar, s, t, r);
        let (terms, sums) = lemma_code_sums(ar, w, y, c, before);
        let all = (terms.push(term), sums.push(r));
        assert forall|b: int|
            #![trigger all.0[b]]
            0 <= b < blocks implies int_times(
            ar,
            dot(w.packed@.subrange(b * 16, b * 16 + 16), y.subrange(b * 64, b * 64 + 64), 0, 64),
            w.scales@[b],
            all.0[b],
        ) && plus(ar, all.1[b], all.0[b], all.1[b + 1]) by {
            if b < c {
                assert(all.0[b] == terms[b]);
            }
        }
        all
    }
}

/// A quantised activation: it is rounded with the scale of its block of 64, which is the greatest
/// magnitude of the numbers in this block over 127. Where all of them are zero, so is the
/// activation, and the scale is 1.
pub proof fn lemma_activation_of_a_block<A: Arith>(
    ar: &A,
    x: Seq<u32>,
    q: Seq<i8>,
    scales: Seq<u32>,
    i: int,
) -> (peak: u32)
    requires
        quantized_blocks(ar, x, q, scales),
        0 <= i < x.len(),
    ensures
        q.len() == x.len(),
        i / 64 < scales.len(),
        forall|j: int|
            0 <= j < x.len() && j / 64 == i / 64 && !is_nan(#[trigger] x[j]) ==> magnitude(x[j])
                <= peak,
        peak == 0 || exists|j: int|
            0 <= j < x.len() && j / 64 == i / 64 && !is_nan(#[trigger] x[j]) && magnitude(x[j])
                == peak,
        peak == 0 ==> scales[i / 64] == 0x3f80_0000 && q[i] == 0,
        peak != 0 ==> over(ar, peak, 0x42fe_0000, scales[i / 64]) && quantized(
            ar,
            x[i],
            scales[i / 64],
            q[i],
        ),
{
    let b = i / 64;
    let n = x.len() as int;
    assert(0 <= b < scales.len());
    let lo = b * 64;
    let hi = block_end(n, b);
    let xs = x.subrange(lo, hi);
    let qs = q.subrange(lo, hi);
    assert(quantized_all(ar, xs, qs, scales[b]));
    let peak = choose|m: u32| #[trigger]
        is_peak(xs, m) && if m == 0 {
            scales[b] == ONE && forall|i: int| 0 <= i < qs.len() ==> #[trigger] qs[i] == 0
        } else {
            over(ar, m, LARGEST_I8, scales[b]) && forall|i: int|
                0 <= i < qs.len() ==> quantized(ar, xs[i], scales[b], #[trigger] qs[i])
        };
    assert(xs[i - lo] == x[i] && qs[i - lo] == q[i]);
    assert forall|j: int|
        0 <= j < x.len() && j / 64 == i / 64 && !is_nan(#[trigger] x[j]) implies magnitude(x[j])
        <= peak by {
        assert(xs[j - lo] == x[j]);
    }
    if peak != 0 {
        let k = choose|k: int|
            0 <= k < xs.len() && !is_nan(#[trigger] xs[k]) && magnitude(xs[k]) == peak;
        assert(x[lo + k] == xs[k]);
        assert((lo + k) / 64 == b);
    }
    peak
}

/// The dot product of ternary weights is the sum of the activations times -1, 0 or 1, which the
/// codes 0, 1 and 2 stand for.
pub proof fn lemma_ternary_dot_is_the_sum(x: Seq<u8>, y: Seq<i8>, lo: int, mid: int, hi: int)
    requires
        lo <= mid <= hi,
    ensures
        ternary_dot(x, y, lo, hi) == ternary_dot(x, y, lo, mid) + ternary_dot(x, y, mid, hi),
        code_at(x, lo) == 0 ==> ternary_dot(x, y, lo, lo + 1) == 0 - y[lo],
        code_at(x, lo) == 1 ==> ternary_dot(x, y, lo, lo + 1) == 0,
        code_at(x, lo) == 2 ==> ternary_dot(x, y, lo, lo + 1) == y[lo],
    decreases hi - mid,
{
    reveal_with_fuel(ternary_dot, 2);
    let c = code_at(x, lo) as int;
    let v = y[lo] as int;
    assert((c == 0 ==> (c - 1) * v == 0 - v) && (c == 1 ==> (c - 1) * v == 0) && (c == 2 ==> (c - 1)
        * v == v)) by (nonlinear_arith);
    if mid < hi {
        lemma_ternary_dot_is_the_sum(x, y, lo, mid, hi - 1);
    }
}

/// The parts of a softmax: the greatest number, the differences to it, e to the power of each, and
/// their sum, which each is divided by.
pub proof fn lemma_softmax_parts<A: Arith>(ar: &A, v: Seq<u32>, out: Seq<u32>) -> (s: (
    u32,
    Seq<u32>,
    Seq<u32>,
    u32,
))
    requires
        softmaxed(ar, v, out),
    ensures
        !is_nan(s.0),
        forall|i: int| 0 <= i < v.len() && !is_nan(#[trigger] v[i]) ==> value(v[i]) <= value(s.0),
        s.0 == 0xff80_0000 || v.contains(s.0),
        s.1.len() == v.len(),
        s.2.len() == v.len(),
        out.len() == v.len(),
        forall|i: int| 0 <= i < v.len() ==> minus(ar, v[i], s.0, #[trigger] s.1[i]),
        forall|i: int| 0 <= i < v.len() ==> exponential(ar, s.1[i], #[trigger] s.2[i]),
        total(ar, s.2, s.3),
        forall|i: int| 0 <= i < v.len() ==> over(ar, s.2[i], s.3, #[trigger] out[i]),
{
    let (m, exps, sum) = choose|m: u32, exps: Seq<u32>, sum: u32|
        is_greatest(v, m) && #[trigger] shifted_exps(ar, v, m, exps) && #[trigger] total(
            ar,
            exps,
            sum,
        ) && quotients(ar, exps, sum, out);
    let gap = |i: int| choose|d: u32| #[trigger] minus(ar, v[i], m, d) && exponential(ar, d, exps[i]);
    let gaps = Seq::new(v.len(), gap);
    assert forall|i: int| 0 <= i < v.len() implies minus(ar, v[i], m, #[trigger] gaps[i])
        && exponential(ar, gaps[i], exps[i]) by {
        assert(shifted_exp(ar, v[i], m, exps[i]));
    }
    (m, gaps, exps, sum)
}

/// What goes into a normalisation.
pub struct Norm {
    /// The sum of the squares, their number, and the one over the other.
    pub squares: u32,
    pub count: u32,
    pub mean: u32,
    /// That plus a small number, its root, and 1 over it.
    pub padded: u32,
    pub root: u32,
    pub inverse: u32,
    /// The elements times that.
    pub scaled: Seq<u32>,
}

/// The parts of a normalisation: each element is multiplied with 1 over the root of the mean square
/// plus `eps`, and then with its weight.
pub proof fn lemma_norm_parts<A: Arith>(
    ar: &A,
    x: Seq<u32>,
    w: Seq<u32>,
    eps: u32,
    out: Seq<u32>,
) -> (n: Norm)
    requires
        rms_normed(ar, x, w, eps, out),
    ensures
        inner_product(ar, x, x, n.squares),
        from_count(ar, x.len() as u64, n.count),
        over(ar, n.squares, n.count, n.mean),
        plus(ar, n.mean, eps, n.padded),
        root(ar, n.padded, n.root),
        over(ar, 0x3f80_0000, n.root, n.inverse),
        out.len() <= x.len(),
        out.len() <= w.len(),
        out.len() == x.len() || out.len() == w.len(),
        n.scaled.len() == out.len(),
        forall|i: int|
            0 <= i < out.len() ==> times(ar, x[i], n.inverse, #[trigger] n.scaled[i]),
        forall|i: int| 0 <= i < out.len() ==> times(ar, n.scaled[i], w[i], #[trigger] out[i]),
{
    let inv = choose|inv: u32| #[trigger]
        inverse_rms(ar, x, eps, inv) && forall|i: int|
            0 <= i < out.len() ==> product3(ar, x[i], inv, w[i], #[trigger] out[i]);
    let (mean, padded, root_of) = choose|m: u32, e: u32, d: u32|
        mean_square(ar, x, m) && #[trigger] plus(ar, m, eps, e) && #[trigger] root(ar, e, d)
            && over(ar, ONE, d, inv);
    let (squares, count) = choose|s: u32, n: u32|
        inner_product(ar, x, x, s) && from_count(ar, x.len() as u64, n) && #[trigger] over(
            ar,
            s,
            n,
            mean,
        );
    let part = |i: int|
        choose|p: u32| times(ar, x[i], inv, p) && #[trigger] times(ar, p, w[i], out[i]);
    let scaled_by = Seq::new(out.len(), part);
    let n = Norm { squares, count, mean, padded, root: root_of, inverse: inv, scaled: scaled_by };
    assert forall|i: int| 0 <= i < out.len() implies times(ar, x[i], inv, #[trigger] scaled_by[i])
        && times(ar, scaled_by[i], w[i], out[i]) by {
        assert(product3(ar, x[i], inv, w[i], out[i]));
    }
    assert forall|i: int| 0 <= i < out.len() implies times(
        ar,
        n.scaled[i],
        w[i],
        #[trigger] out[i],
    ) by {
        assert(scaled_by[i] == n.scaled[i]);
    }
    n
}

/// The rows of a matrix times a vector: those of a dense one with the vector as it is, those of a
/// ternary one with the vector quantised by blocks.
pub proof fn lemma_matrix_rows<A: Arith>(ar: &A, w: TensorData, x: Seq<u32>, out: Seq<u32>) -> (q: (
    Seq<i8>,
    Seq<u32>,
))
    requires
        matrix_product(ar, w, x, out),
    ensures
        w matches TensorData::F32(m) ==> out.len() == m@.len() as int / x.len() as int && forall|
            r: int,
        |
            0 <= r < out.len() ==> inner_product(
                ar,
                m@.subrange(r * x.len(), r * x.len() + x.len()),
                x,
                #[trigger] out[r],
            ),
        w is I2 ==> quantized_blocks(ar, x, q.0, q.1) && quantized_product(
            ar,
            w,
            q.0,
            q.1,
            x.len() as int,
            out,
        ),
{
    match w {
        TensorData::I2(t) => choose|y: Seq<i8>, act_scales: Seq<u32>| #[trigger]
            quantized_blocks(ar, x, y, act_scales) && rows_product(
                ar,
                t,
                x.len() as int,
                y,
                act_scales,
                out,
            ),
        TensorData::F32(_) => (Seq::empty(), Seq::empty()),
    }
}

/// The parts of a layer, with the weights that each of them takes: the token is normalised,
/// quantised and multiplied to query, key and value; query and key are turned, key and value are
/// cached, and what the query finds is normalised, multiplied and added to the token. The sum goes
/// through gate and up projection, the rectified square of the one times the other, and down again,
/// and is added to what went in.
pub proof fn lemma_layer_parts<A: Arith>(
    ar: &A,
    m: Model,
    l: int,
    pos: int,
    eps: u32,
    theta: u32,
    before: Flow,
    t: LayerTrace,
    after: Flow,
) -> (squares: Seq<u32>)
    requires
        layer_step(ar, m, l, pos, eps, theta, before, t, after),
    ensures
        rms_normed(ar, before.x, m.layers@[l].attn_norm@, eps, t.attention.normed),
        quantized_blocks(ar, t.attention.normed, t.attention.y, t.attention.scales),
        quantized_product(
            ar,
            m.layers@[l].q,
            t.attention.y,
            t.attention.scales,
            m.n_embd as int,
            t.attention.q0,
        ),
        quantized_product(
            ar,
            m.layers@[l].k,
            t.attention.y,
            t.attention.scales,
            m.n_embd as int,
            t.attention.k0,
        ),
        quantized_product(
            ar,
            m.layers@[l].v,
            t.attention.y,
            t.attention.scales,
            m.n_embd as int,
            t.attention.v,
        ),
        roped(
            ar,
            t.attention.q0,
            t.attention.q,
            m.n_head as int,
            pos,
            m.head_dim as int,
            theta,
        ),
        roped(
            ar,
            t.attention.k0,
            t.attention.k,
            m.n_head_kv as int,
            pos,
            m.head_dim as int,
            theta,
        ),
        attended(ar, m, l, pos, t.attention.q, after.k, after.v, t.attention.found),
        rms_normed(
            ar,
            t.attention.found,
            m.layers@[l].attn_sub_norm@,
            eps,
            t.attention.found_normed,
        ),
        matrix_product(ar, m.layers@[l].o, t.attention.found_normed, t.attention.o),
        t.mid.x.len() == before.x.len(),
        forall|i: int|
            0 <= i < before.x.len() ==> plus(
                ar,
                before.x[i],
                t.attention.o[i],
                #[trigger] t.mid.x[i],
            ),
        rms_normed(ar, t.mid.x, m.layers@[l].ffn_norm@, eps, t.network.normed),
        quantized_blocks(ar, t.network.normed, t.network.y, t.network.scales),
        quantized_product(
            ar,
            m.layers@[l].gate,
            t.network.y,
            t.network.scales,
            m.n_embd as int,
            t.network.gate,
        ),
        quantized_product(
            ar,
            m.layers@[l].up,
            t.network.y,
            t.network.scales,
            m.n_embd as int,
            t.network.up,
        ),
        squares.len() == m.n_ff,
        t.network.gated.len() == m.n_ff,
        forall|i: int|
            #![trigger squares[i]]
            0 <= i < m.n_ff ==> {
                let g = t.network.gate[i];
                &&& !is_nan(g) && value(g) > 0 ==> times(ar, g, g, squares[i])
                &&& is_nan(g) || value(g) <= 0 ==> times(ar, 0, 0, squares[i])
                &&& times(ar, squares[i], t.network.up[i], t.network.gated[i])
            },
        rms_normed(
            ar,
            t.network.gated,
            m.layers@[l].ffn_sub_norm@,
            eps,
            t.network.gated_normed,
        ),
        matrix_product(ar, m.layers@[l].down, t.network.gated_normed, t.network.down),
        after.x.len() == t.mid.x.len(),
        forall|i: int|
            0 <= i < after.x.len() ==> plus(
                ar,
                t.mid.x[i],
                t.network.down[i],
                #[trigger] after.x[i],
            ),
{
    let n = t.network;
    let square = |i: int|
        choose|s: u32| squared_relu(ar, n.gate[i], s) && #[trigger] times(ar, s, n.up[i], n.gated[i]);
    let squares = Seq::new(m.n_ff as nat, square);
    assert forall|i: int|
        #![trigger squares[i]]
        0 <= i < m.n_ff implies squared_relu(ar, n.gate[i], squares[i]) && times(
        ar,
        squares[i],
        n.up[i],
        n.gated[i],
    ) by {
        assert(gated_value(ar, n.gate[i], n.up[i], n.gated[i]));
    }
    squares
}

/// Rounding to the nearest integer, halves upwards: the floor, and one more where what is above it
/// is at least a half.
pub proof fn lemma_rounding_parts<A: Arith>(ar: &A, v: u32, r: u32) -> (s: (u32, u32))
    requires
        rounded_half_up(ar, v, r),
    ensures
        floor(ar, v, s.0),
        minus(ar, v, s.0, s.1),
        !is_nan(s.1) && value(s.1) >= value(0x3f00_0000) ==> plus(ar, s.0, 0x3f80_0000, r),
        is_nan(s.1) || value(s.1) < value(0x3f00_0000) ==> r == s.0,
{
    choose|f: u32, d: u32| #[trigger]
        floor(ar, v, f) && #[trigger] minus(ar, v, f, d) && if at_most(HALF, d) {
            plus(ar, f, ONE, r)
        } else {
            r == f
        }
}

/// What a pair of dimensions is turned by, and what comes of it.
pub struct Turn {
    /// The dimension and the number of dimensions of a head, the one over the other, and the base
    /// to the power of that.
    pub dim: u32,
    pub dims: u32,
    pub exponent: u32,
    pub period: u32,
    /// 1 over it, the position, and their product.
    pub frequency: u32,
    pub position: u32,
    pub angle: u32,
    pub sine: u32,
    pub cosine: u32,
    /// The products of the two elements with cosine and sine.
    pub a_cosine: u32,
    pub b_sine: u32,
    pub a_sine: u32,
    pub b_cosine: u32,
}

/// Dimensions `d` and `d + 1` of head `h`, `d` even, are turned as a pair, by the position over
/// `theta` to the power of `d` over the number of dimensions.
pub proof fn lemma_pair_of_a_head<A: Arith>(
    ar: &A,
    before: Seq<u32>,
    after: Seq<u32>,
    heads: int,
    pos: int,
    head_dim: int,
    theta: u32,
    h: int,
    d: int,
) -> (t: Turn)
    requires
        head_dim > 0,
        head_dim % 2 == 0,
        heads_fit(before.len() as int, heads, head_dim),
        roped(ar, before, after, heads, pos, head_dim, theta),
        0 <= h < heads,
        0 <= d < head_dim,
        d % 2 == 0,
    ensures
        from_count(ar, d as u64, t.dim),
        from_count(ar, head_dim as u64, t.dims),
        over(ar, t.dim, t.dims, t.exponent),
        power(ar, theta, t.exponent, t.period),
        over(ar, 0x3f80_0000, t.period, t.frequency),
        from_count(ar, pos as u64, t.position),
        times(ar, t.position, t.frequency, t.angle),
        sin_cos(ar, t.angle, (t.sine, t.cosine)),
        times(ar, before[h * head_dim + d], t.cosine, t.a_cosine),
        times(ar, before[h * head_dim + d + 1], t.sine, t.b_sine),
        minus(ar, t.a_cosine, t.b_sine, after[h * head_dim + d]),
        times(ar, before[h * head_dim + d], t.sine, t.a_sine),
        times(ar, before[h * head_dim + d + 1], t.cosine, t.b_cosine),
        plus(ar, t.a_sine, t.b_cosine, after[h * head_dim + d + 1]),
{
    let p = pairs(head_dim);
    let s = h * p + d / 2;
    assert(head_dim == 2 * p);
    assert(2 * s == h * head_dim + d) by (nonlinear_arith)
        requires
            s == h * p + d / 2,
            head_dim == 2 * p,
            d % 2 == 0,
    ;
    assert(0 <= h * p && h * p + p <= heads * p) by (nonlinear_arith)
        requires
            0 <= h < heads,
            p > 0,
    ;
    lemma_fundamental_div_mod_converse(s, p, h, d / 2);
    assert(pair_dim(head_dim, s) == d);
    lemma_pairs_turned(ar, before, after, heads, pos, head_dim, theta, s);
    let sc = choose|sc: (u32, u32)|
        rotation(ar, pos, pair_dim(head_dim, s), head_dim, theta, sc) && #[trigger] turned_pair(
            ar,
            before,
            2 * s,
            sc,
            after[2 * s],
            after[2 * s + 1],
        );
    let (dim, dims, exponent, period, frequency, position, angle) = choose|
        a: u32,
        b: u32,
        e: u32,
        p: u32,
        freq: u32,
        at: u32,
        angle: u32,
    |
        from_count(ar, d as u64, a) && from_count(ar, head_dim as u64, b) && #[trigger] over(
            ar,
            a,
            b,
            e,
        ) && #[trigger] power(ar, theta, e, p) && #[trigger] over(ar, ONE, p, freq) && from_count(
            ar,
            pos as u64,
            at,
        ) && #[trigger] times(ar, at, freq, angle) && sin_cos(ar, angle, sc);
    let a = before[2 * s];
    let b = before[2 * s + 1];
    let x = after[2 * s];
    let y = after[2 * s + 1];
    assert(turned(ar, a, b, sc, x, y));
    assert(cross_minus(ar, a, sc.1, b, sc.0, x) && cross_plus(ar, a, sc.0, b, sc.1, y));
    let (a_cosine, b_sine) = choose|p: u32, q: u32|
        times(ar, a, sc.1, p) && times(ar, b, sc.0, q) && #[trigger] minus(ar, p, q, x);
    let (a_sine, b_cosine) = choose|p: u32, q: u32|
        times(ar, a, sc.0, p) && times(ar, b, sc.1, q) && #[trigger] plus(ar, p, q, y);
    Turn {
        dim,
        dims,
        exponent,
        period,
        frequency,
        position,
        angle,
        sine: sc.0,
        cosine: sc.1,
        a_cosine,
        b_sine,
        a_sine,
        b_cosine,
    }
}

} // verus!
