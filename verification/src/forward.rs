//! One token through the model: the layers, the cache and the logits.

use crate::arith::{plus, times, Arith};
use crate::attention::{attend, attended, check_grouped, grouped};
use crate::cache::{layout, write_row, written, KVCache};
use crate::linear::{quantize_i8_blocks, quantized_blocks};
use crate::matrix::{
    accepts, accepts_quantized, check_accepts, check_accepts_quantized, count_rows, dense_matvec,
    dense_product, dense_row, i2_matvec, i2_matvec_q, matrix_product, quantized_product, row_count,
};
use crate::model::{Layer, Model};
use crate::ops::{relu2, rms_norm, rms_normed, single, squared_relu, to_single};
use crate::rope::{heads_fit, rope, roped};
use crate::weights::TensorData;
use vstd::arithmetic::div_mod::lemma_fundamental_div_mod;
use vstd::prelude::*;
use vstd::slice::slice_subrange;

verus! {

/// What flows from layer to layer: the vector of the token, and the caches.
pub struct Flow {
    pub x: Seq<u32>,
    pub k: Seq<u32>,
    pub v: Seq<u32>,
}

/// The vectors inside of the attention of a layer.
pub struct AttentionTrace {
    pub normed: Seq<u32>,
    pub y: Seq<i8>,
    pub scales: Seq<u32>,
    pub q0: Seq<u32>,
    pub k0: Seq<u32>,
    pub q: Seq<u32>,
    pub k: Seq<u32>,
    pub v: Seq<u32>,
    pub found: Seq<u32>,
    pub found_normed: Seq<u32>,
    pub o: Seq<u32>,
}

/// The vectors inside of the feed-forward network of a layer.
pub struct NetworkTrace {
    pub normed: Seq<u32>,
    pub y: Seq<i8>,
    pub scales: Seq<u32>,
    pub gate: Seq<u32>,
    pub up: Seq<u32>,
    pub gated: Seq<u32>,
    pub gated_normed: Seq<u32>,
    pub down: Seq<u32>,
}

/// The vectors inside of a layer.
pub struct LayerTrace {
    pub attention: AttentionTrace,
    pub mid: Flow,
    pub network: NetworkTrace,
}

/// `r` is `x` with the first elements of `y` added to it.
pub open spec fn added<A: Arith>(ar: &A, x: Seq<u32>, y: Seq<u32>, r: Seq<u32>) -> bool {
    &&& r.len() == x.len()
    &&& forall|i: int| 0 <= i < r.len() ==> plus(ar, x[i], y[i], #[trigger] r[i])
}

/// The attention of layer `l`: the token is normalised and quantised; query, key and value come
/// out of it; the turned key and the value go into the cache at `pos`; what the turned query finds
/// is normalised, projected and added to the token.
pub open spec fn attention_step<A: Arith>(
    ar: &A,
    m: Model,
    l: int,
    pos: int,
    eps: u32,
    theta: u32,
    before: Flow,
    t: AttentionTrace,
    after: Flow,
) -> bool {
    let w = m.layers@[l];
    let n = m.n_embd as int;
    let dim = m.head_dim as int;
    &&& rms_normed(ar, before.x, w.attn_norm@, eps, t.normed)
    &&& quantized_blocks(ar, t.normed, t.y, t.scales)
    &&& quantized_product(ar, w.q, t.y, t.scales, n, t.q0)
    &&& quantized_product(ar, w.k, t.y, t.scales, n, t.k0)
    &&& quantized_product(ar, w.v, t.y, t.scales, n, t.v)
    &&& roped(ar, t.q0, t.q, m.n_head as int, pos, dim, theta)
    &&& roped(ar, t.k0, t.k, m.n_head_kv as int, pos, dim, theta)
    &&& after.k == written(layout(m), before.k, l, pos, t.k)
    &&& after.v == written(layout(m), before.v, l, pos, t.v)
    &&& attended(ar, m, l, pos, t.q, after.k, after.v, t.found)
    &&& rms_normed(ar, t.found, w.attn_sub_norm@, eps, t.found_normed)
    &&& matrix_product(ar, w.o, t.found_normed, t.o)
    &&& added(ar, before.x, t.o, after.x)
}

/// `r` is the squared rectified `g`, times `u`.
pub open spec fn gated_value<A: Arith>(ar: &A, g: u32, u: u32, r: u32) -> bool {
    exists|s: u32| squared_relu(ar, g, s) && #[trigger] times(ar, s, u, r)
}

/// `r` is `gate`, rectified and squared, times `up`, over `n` elements.
pub open spec fn gated_all<A: Arith>(
    ar: &A,
    gate: Seq<u32>,
    up: Seq<u32>,
    n: int,
    r: Seq<u32>,
) -> bool {
    &&& r.len() == n
    &&& forall|i: int| 0 <= i < r.len() ==> gated_value(ar, gate[i], up[i], #[trigger] r[i])
}

/// The feed-forward network of layer `l`: the token is normalised and quantised, gated, normalised
/// again, projected and added to the token.
pub open spec fn network_step<A: Arith>(
    ar: &A,
    m: Model,
    l: int,
    eps: u32,
    before: Seq<u32>,
    t: NetworkTrace,
    after: Seq<u32>,
) -> bool {
    let w = m.layers@[l];
    let n = m.n_embd as int;
    &&& rms_normed(ar, before, w.ffn_norm@, eps, t.normed)
    &&& quantized_blocks(ar, t.normed, t.y, t.scales)
    &&& quantized_product(ar, w.gate, t.y, t.scales, n, t.gate)
    &&& quantized_product(ar, w.up, t.y, t.scales, n, t.up)
    &&& gated_all(ar, t.gate, t.up, m.n_ff as int, t.gated)
    &&& rms_normed(ar, t.gated, w.ffn_sub_norm@, eps, t.gated_normed)
    &&& matrix_product(ar, w.down, t.gated_normed, t.down)
    &&& added(ar, before, t.down, after)
}

/// Layer `l` leads from `before` to `after`.
pub open spec fn layer_step<A: Arith>(
    ar: &A,
    m: Model,
    l: int,
    pos: int,
    eps: u32,
    theta: u32,
    before: Flow,
    t: LayerTrace,
    after: Flow,
) -> bool {
    &&& attention_step(ar, m, l, pos, eps, theta, before, t.attention, t.mid)
    &&& network_step(ar, m, l, eps, t.mid.x, t.network, after.x)
    &&& after.k == t.mid.k
    &&& after.v == t.mid.v
}

/// The vectors on the way of a token through the model.
pub struct ForwardTrace {
    pub eps: u32,
    pub theta: u32,
    pub flows: Seq<Flow>,
    pub layers: Seq<LayerTrace>,
    pub normed: Seq<u32>,
}

/// Layer `l` of the trace is a step of the model.
pub open spec fn step_at<A: Arith>(
    ar: &A,
    m: Model,
    pos: int,
    t: ForwardTrace,
    l: int,
) -> bool {
    layer_step(ar, m, l, pos, t.eps, t.theta, t.flows[l], t.layers[l], t.flows[l + 1])
}

/// The table of the vectors of the tokens.
pub open spec fn embedding(m: Model) -> Seq<u32> {
    match m.token_embd {
        TensorData::F32(e) => e@,
        TensorData::I2(_) => Seq::empty(),
    }
}

/// The token starts as its row of the table, goes through the layers in order, is normalised, and
/// its inner products with the rows of the table are the logits.
pub open spec fn is_forward<A: Arith>(
    ar: &A,
    m: Model,
    token: int,
    pos: int,
    k0: Seq<u32>,
    v0: Seq<u32>,
    k1: Seq<u32>,
    v1: Seq<u32>,
    logits: Seq<u32>,
    t: ForwardTrace,
) -> bool {
    let n = m.n_embd as int;
    &&& single(ar, m.rms_eps, t.eps)
    &&& single(ar, m.rope_theta, t.theta)
    &&& t.flows.len() == m.layers@.len() + 1
    &&& t.flows.first() == (Flow { x: dense_row(embedding(m), n, token), k: k0, v: v0 })
    &&& forall|l: int| 0 <= l < m.layers@.len() ==> #[trigger] step_at(ar, m, pos, t, l)
    &&& t.flows.last().k == k1
    &&& t.flows.last().v == v1
    &&& rms_normed(ar, t.flows.last().x, m.final_norm@, t.eps, t.normed)
    &&& dense_product(ar, embedding(m), n, t.normed, logits)
}

/// `logits` and the caches `k1` and `v1` come out of `token` at position `pos`, with the caches
/// `k0` and `v0`.
pub open spec fn forwarded<A: Arith>(
    ar: &A,
    m: Model,
    token: int,
    pos: int,
    k0: Seq<u32>,
    v0: Seq<u32>,
    k1: Seq<u32>,
    v1: Seq<u32>,
    logits: Seq<u32>,
) -> bool {
    exists|t: ForwardTrace| #[trigger] is_forward(ar, m, token, pos, k0, v0, k1, v1, logits, t)
}

pub open spec fn shorter(a: int, b: int) -> int {
    if a <= b {
        a
    } else {
        b
    }
}

/// The shapes of the weights of a layer fit each other.
pub open spec fn layer_ready(m: Model, w: Layer) -> bool {
    let n = m.n_embd as int;
    let dim = m.head_dim as int;
    let a = shorter(n, w.attn_norm@.len() as int);
    let o = shorter(n, w.attn_sub_norm@.len() as int);
    let f = shorter(n, w.ffn_norm@.len() as int);
    let d = shorter(m.n_ff as int, w.ffn_sub_norm@.len() as int);
    &&& accepts_quantized(w.q, n, a, (a + 63) / 64)
    &&& accepts_quantized(w.k, n, a, (a + 63) / 64)
    &&& accepts_quantized(w.v, n, a, (a + 63) / 64)
    &&& heads_fit(row_count(w.q, n), m.n_head as int, dim)
    &&& heads_fit(row_count(w.k, n), m.n_head_kv as int, dim)
    &&& m.n_head_kv * dim <= row_count(w.v, n)
    &&& accepts(w.o, o)
    &&& n <= row_count(w.o, o)
    &&& accepts_quantized(w.gate, n, f, (f + 63) / 64)
    &&& accepts_quantized(w.up, n, f, (f + 63) / 64)
    &&& m.n_ff <= row_count(w.gate, n)
    &&& m.n_ff <= row_count(w.up, n)
    &&& accepts(w.down, d)
    &&& n <= row_count(w.down, d)
}

/// The model can be evaluated: its table of tokens is dense, and all shapes fit each other.
pub open spec fn ready(m: Model) -> bool {
    &&& m.token_embd is F32
    &&& m.n_embd > 0
    &&& m.layers@.len() > 0 ==> grouped(m) && m.n_head * m.head_dim <= m.n_embd
    &&& forall|l: int| 0 <= l < m.layers@.len() ==> layer_ready(m, #[trigger] m.layers@[l])
}

/// `n` tokens can follow at position `pos`: the cells of their positions exist, where there are
/// layers, and the positions can be counted.
pub open spec fn room(m: Model, pos: int, n: int) -> bool {
    &&& m.layers@.len() > 0 ==> pos + n <= m.n_ctx
    &&& pos + n <= usize::MAX
}

/// Tells whether `n` tokens can follow at position `pos`.
pub fn check_room(m: &Model, pos: usize, n: usize) -> (r: bool)
    ensures
        r == room(*m, pos as int, n as int),
        r == ((m.layers@.len() > 0 ==> pos + n <= m.n_ctx) && pos + n <= usize::MAX),
{
    match pos.checked_add(n) {
        None => false,
        Some(end) => m.layers.len() == 0 || end <= m.n_ctx,
    }
}

/// The table has a row for the token.
pub open spec fn knows(m: Model, token: u32) -> bool {
    (token + 1) * m.n_embd <= embedding(m).len()
}

fn min(a: usize, b: usize) -> (r: usize)
    ensures
        r == shorter(a as int, b as int),
{
    if a <= b {
        a
    } else {
        b
    }
}

fn blocks(n: usize) -> (r: usize)
    ensures
        r == (n + 63) / 64,
{
    if n == 0 {
        0
    } else {
        (n - 1) / 64 + 1
    }
}

fn check_heads(len: usize, heads: usize, dim: usize) -> (r: bool)
    ensures
        r == heads_fit(len as int, heads as int, dim as int),
{
    match heads.checked_mul(dim) {
        None => false,
        Some(n) => n <= len && (heads == 0 || dim % 2 == 0 || n < len),
    }
}

fn check_layer(m: &Model, w: &Layer) -> (r: bool)
    requires
        m.n_embd > 0,
    ensures
        r == layer_ready(*m, *w),
{
    let n: usize = m.n_embd;
    let a: usize = min(n, w.attn_norm.len());
    let o: usize = min(n, w.attn_sub_norm.len());
    let f: usize = min(n, w.ffn_norm.len());
    let d: usize = min(m.n_ff, w.ffn_sub_norm.len());
    let values: bool = match m.n_head_kv.checked_mul(m.head_dim) {
        None => false,
        Some(len) => len <= count_rows(&w.v, n),
    };
    check_accepts_quantized(&w.q, n, a, blocks(a)) && check_accepts_quantized(
        &w.k,
        n,
        a,
        blocks(a),
    ) && check_accepts_quantized(&w.v, n, a, blocks(a)) && check_heads(
        count_rows(&w.q, n),
        m.n_head,
        m.head_dim,
    ) && check_heads(count_rows(&w.k, n), m.n_head_kv, m.head_dim) && values && check_accepts(
        &w.o,
        o,
    ) && n <= count_rows(&w.o, o) && check_accepts_quantized(&w.gate, n, f, blocks(f))
        && check_accepts_quantized(&w.up, n, f, blocks(f)) && m.n_ff <= count_rows(&w.gate, n)
        && m.n_ff <= count_rows(&w.up, n) && check_accepts(&w.down, d) && n <= count_rows(
        &w.down,
        d,
    )
}

/// Tells whether the model can be evaluated.
pub fn check_ready(m: &Model) -> (r: bool)
    ensures
        r == ready(*m),
{
    let dense: bool = match m.token_embd {
        TensorData::F32(_) => true,
        TensorData::I2(_) => false,
    };
    let heads: bool = match m.n_head.checked_mul(m.head_dim) {
        None => false,
        Some(n) => n <= m.n_embd,
    };
    if !dense || m.n_embd == 0 {
        return false;
    }
    if m.layers.len() > 0 && (!check_grouped(m) || !heads) {
        return false;
    }
    let mut l: usize = 0;
    while l < m.layers.len()
        invariant
            m.n_embd > 0,
            l <= m.layers@.len(),
            forall|i: int| 0 <= i < l ==> layer_ready(*m, #[trigger] m.layers@[i]),
        decreases m.layers@.len() - l,
    {
        if !check_layer(m, &m.layers[l]) {
            assert(!layer_ready(*m, m.layers@[l as int]));
            return false;
        }
        l += 1;
    }
    true
}

/// Tells whether the table has a row for the token.
pub fn check_knows(m: &Model, token: u32) -> (r: bool)
    ensures
        r == knows(*m, token),
        m.token_embd is F32 ==> r == ((token + 1) * m.n_embd <= m.token_embd->F32_0@.len()),
{
    let len: usize = match &m.token_embd {
        TensorData::F32(e) => e.len(),
        TensorData::I2(_) => 0,
    };
    proof {
        let a = token + 1;
        let n = m.n_embd as int;
        if n > 0 {
            lemma_fundamental_div_mod(len as int, n);
            let q = len as int / n;
            let r = len as int % n;
            if a <= q {
                assert(a * n <= n * q) by (nonlinear_arith)
                    requires
                        a <= q,
                        n > 0,
                ;
            } else {
                assert(a * n > n * q + r) by (nonlinear_arith)
                    requires
                        a >= q + 1,
                        n > 0,
                        r < n,
                ;
            }
        } else {
            assert(a * 0 == 0);
        }
    }
    m.n_embd == 0 || (token as u64) < (len / m.n_embd) as u64
}

fn add_all<A: Arith>(ar: &A, x: &[u32], y: &[u32]) -> (r: Vec<u32>)
    requires
        x@.len() <= y@.len(),
    ensures
        added(ar, x@, y@, r@),
{
    let mut r: Vec<u32> = Vec::new();
    let mut i: usize = 0;
    while i < x.len()
        invariant
            x@.len() <= y@.len(),
            i <= x@.len(),
            r@.len() == i,
            forall|j: int| 0 <= j < i ==> plus(ar, x@[j], y@[j], #[trigger] r@[j]),
        decreases x@.len() - i,
    {
        r.push(ar.plus(x[i], y[i]));
        i += 1;
    }
    r
}

fn gate_all<A: Arith>(ar: &A, gate: &[u32], up: &[u32], n: usize) -> (r: Vec<u32>)
    requires
        n <= gate@.len(),
        n <= up@.len(),
    ensures
        gated_all(ar, gate@, up@, n as int, r@),
{
    let mut r: Vec<u32> = Vec::new();
    let mut i: usize = 0;
    while i < n
        invariant
            n <= gate@.len(),
            n <= up@.len(),
            i <= n,
            r@.len() == i,
            forall|j: int| 0 <= j < i ==> gated_value(ar, gate@[j], up@[j], #[trigger] r@[j]),
        decreases n - i,
    {
        let s: u32 = relu2(ar, gate[i]);
        let g: u32 = ar.times(s, up[i]);
        assert(squared_relu(ar, gate@[i as int], s) && times(ar, s, up@[i as int], g));
        r.push(g);
        i += 1;
    }
    r
}

fn forward_attention<A: Arith>(
    ar: &A,
    m: &Model,
    l: usize,
    eps: u32,
    theta: u32,
    x: &[u32],
    kv: &mut KVCache,
) -> (r: Vec<u32>)
    requires
        ready(*m),
        l < m.layers@.len(),
        old(kv).fits(*m),
        old(kv).pos < m.n_ctx,
        x@.len() == m.n_embd,
    ensures
        final(kv).fits(*m),
        final(kv).pos == old(kv).pos,
        r@.len() == m.n_embd,
        exists|t: AttentionTrace| #[trigger]
            attention_step(
                ar,
                *m,
                l as int,
                old(kv).pos as int,
                eps,
                theta,
                (Flow { x: x@, k: old(kv).k@, v: old(kv).v@ }),
                t,
                (Flow { x: r@, k: final(kv).k@, v: final(kv).v@ }),
            ),
{
    let ghost k_before = kv.k@;
    let ghost v_before = kv.v@;
    let pos: usize = kv.pos;
    let w: &Layer = &m.layers[l];
    assert(layer_ready(*m, m.layers@[l as int]));
    let normed: Vec<u32> = rms_norm(ar, x, w.attn_norm.as_slice(), eps);
    let (y, scales) = quantize_i8_blocks(ar, normed.as_slice());
    let mut q: Vec<u32> = i2_matvec_q(ar, &w.q, y.as_slice(), scales.as_slice(), m.n_embd);
    let mut k: Vec<u32> = i2_matvec_q(ar, &w.k, y.as_slice(), scales.as_slice(), m.n_embd);
    let v: Vec<u32> = i2_matvec_q(ar, &w.v, y.as_slice(), scales.as_slice(), m.n_embd);
    let ghost q0 = q@;
    let ghost k0 = k@;
    rope(ar, &mut q, &mut k, pos, m.head_dim, m.n_head, m.n_head_kv, theta);
    write_row(m, &mut kv.k, l, pos, k.as_slice());
    write_row(m, &mut kv.v, l, pos, v.as_slice());
    let found: Vec<u32> = attend(ar, m, l, pos, q.as_slice(), &kv.k, &kv.v);
    let found_normed: Vec<u32> = rms_norm(
        ar,
        found.as_slice(),
        w.attn_sub_norm.as_slice(),
        eps,
    );
    let o: Vec<u32> = i2_matvec(ar, &w.o, found_normed.as_slice());
    let r: Vec<u32> = add_all(ar, x, o.as_slice());
    proof {
        let t = AttentionTrace {
            normed: normed@,
            y: y@,
            scales: scales@,
            q0,
            k0,
            q: q@,
            k: k@,
            v: v@,
            found: found@,
            found_normed: found_normed@,
            o: o@,
        };
        assert(attention_step(
            ar,
            *m,
            l as int,
            pos as int,
            eps,
            theta,
            (Flow { x: x@, k: k_before, v: v_before }),
            t,
            (Flow { x: r@, k: kv.k@, v: kv.v@ }),
        ));
    }
    r
}

fn forward_network<A: Arith>(ar: &A, m: &Model, l: usize, eps: u32, x: &[u32]) -> (r: Vec<u32>)
    requires
        ready(*m),
        l < m.layers@.len(),
        x@.len() == m.n_embd,
    ensures
        r@.len() == m.n_embd,
        exists|t: NetworkTrace| #[trigger] network_step(ar, *m, l as int, eps, x@, t, r@),
{
    let w: &Layer = &m.layers[l];
    assert(layer_ready(*m, m.layers@[l as int]));
    let normed: Vec<u32> = rms_norm(ar, x, w.ffn_norm.as_slice(), eps);
    let (y, scales) = quantize_i8_blocks(ar, normed.as_slice());
    let gate: Vec<u32> = i2_matvec_q(ar, &w.gate, y.as_slice(), scales.as_slice(), m.n_embd);
    let up: Vec<u32> = i2_matvec_q(ar, &w.up, y.as_slice(), scales.as_slice(), m.n_embd);
    let gated: Vec<u32> = gate_all(ar, gate.as_slice(), up.as_slice(), m.n_ff);
    let gated_normed: Vec<u32> = rms_norm(ar, gated.as_slice(), w.ffn_sub_norm.as_slice(), eps);
    let down: Vec<u32> = i2_matvec(ar, &w.down, gated_normed.as_slice());
    let r: Vec<u32> = add_all(ar, x, down.as_slice());
    proof {
        let t = NetworkTrace {
            normed: normed@,
            y: y@,
            scales: scales@,
            gate: gate@,
            up: up@,
            gated: gated@,
            gated_normed: gated_normed@,
            down: down@,
        };
        assert(network_step(ar, *m, l as int, eps, x@, t, r@));
    }
    r
}

/// Takes a token through the model: its key and value go into the cache, and its logits come out.
pub fn forward_token<A: Arith>(ar: &A, model: &Model, kv: &mut KVCache, token: u32) -> (logits: Vec<
    u32,
>)
    requires
        ready(*model),
        knows(*model, token),
        old(kv).fits(*model),
        room(*model, old(kv).pos as int, 1),
    ensures
        forwarded(
            ar,
            *model,
            token as int,
            old(kv).pos as int,
            old(kv).k@,
            old(kv).v@,
            final(kv).k@,
            final(kv).v@,
            logits@,
        ),
        final(kv).pos == old(kv).pos + 1,
        final(kv).fits(*model),
        logits@.len() == embedding(*model).len() as int / model.n_embd as int,
        logits@.len() > 0,
{
    let n: usize = model.n_embd;
    let e: &Vec<u32> = match &model.token_embd {
        TensorData::F32(e) => e,
        // Not reached: the table of a model that is ready is dense.
        TensorData::I2(_) => {
            return Vec::new();
        },
    };
    let ghost k0 = kv.k@;
    let ghost v0 = kv.v@;
    let ghost pos = kv.pos as int;
    let e_len: usize = e.len();
    proof {
        let a = token as int;
        let b = n as int;
        assert(0 <= a * b && a * b + b == (a + 1) * b && (a + 1) * b >= a + 1) by (nonlinear_arith)
            requires
                a >= 0,
                b > 0,
        ;
        let len = e_len as int;
        assert(len / b >= 1) by (nonlinear_arith)
            requires
                len >= b,
                b > 0,
        ;
    }
    let start: usize = token as usize * n;
    let row: &[u32] = slice_subrange(e.as_slice(), start, start + n);
    let mut x: Vec<u32> = Vec::new();
    x.extend_from_slice(row);
    assert(x@ =~= dense_row(embedding(*model), n as int, token as int));
    let eps: u32 = to_single(ar, model.rms_eps);
    let theta: u32 = to_single(ar, model.rope_theta);
    let ghost mut t = ForwardTrace {
        eps,
        theta,
        flows: seq![(Flow { x: x@, k: k0, v: v0 })],
        layers: Seq::empty(),
        normed: Seq::empty(),
    };
    let mut l: usize = 0;
    while l < model.layers.len()
        invariant
            ready(*model),
            l <= model.layers@.len(),
            kv.fits(*model),
            kv.pos == pos,
            room(*model, pos, 1),
            x@.len() == model.n_embd,
            t.eps == eps,
            t.theta == theta,
            t.flows.len() == l + 1,
            t.layers.len() == l,
            t.flows.first() == (Flow {
                x: dense_row(embedding(*model), n as int, token as int),
                k: k0,
                v: v0,
            }),
            t.flows.last() == (Flow { x: x@, k: kv.k@, v: kv.v@ }),
            forall|i: int| 0 <= i < l ==> #[trigger] step_at(ar, *model, pos, t, i),
        decreases model.layers@.len() - l,
    {
        let ghost before = t.flows.last();
        assert(pos < model.n_ctx);
        let mid: Vec<u32> = forward_attention(ar, model, l, eps, theta, x.as_slice(), kv);
        let ghost flow = Flow { x: mid@, k: kv.k@, v: kv.v@ };
        let after: Vec<u32> = forward_network(ar, model, l, eps, mid.as_slice());
        proof {
            let attention = choose|a: AttentionTrace| #[trigger]
                attention_step(ar, *model, l as int, pos, eps, theta, before, a, flow);
            let network = choose|b: NetworkTrace| #[trigger]
                network_step(ar, *model, l as int, eps, mid@, b, after@);
            let step = LayerTrace { attention, mid: flow, network };
            let next = Flow { x: after@, k: kv.k@, v: kv.v@ };
            assert(layer_step(ar, *model, l as int, pos, eps, theta, before, step, next));
            let t0 = t;
            t = ForwardTrace { flows: t0.flows.push(next), layers: t0.layers.push(step), ..t0 };
            assert forall|i: int| 0 <= i < l + 1 implies #[trigger] step_at(
                ar,
                *model,
                pos,
                t,
                i,
            ) by {
                if i < l {
                    assert(step_at(ar, *model, pos, t0, i));
                }
            }
        }
        x = after;
        l += 1;
    }
    let normed: Vec<u32> = rms_norm(ar, x.as_slice(), model.final_norm.as_slice(), eps);
    let logits: Vec<u32> = dense_matvec(ar, e.as_slice(), n, normed.as_slice());
    kv.pos = kv.pos + 1;
    proof {
        let t0 = t;
        t = ForwardTrace { normed: normed@, ..t0 };
        assert forall|i: int| 0 <= i < model.layers@.len() implies #[trigger] step_at(
            ar,
            *model,
            pos,
            t,
            i,
        ) by {
            assert(step_at(ar, *model, pos, t0, i));
        }
        assert(is_forward(
            ar,
            *model,
            token as int,
            pos,
            k0,
            v0,
            kv.k@,
            kv.v@,
            logits@,
            t,
        ));
    }
    logits
}

} // verus!
