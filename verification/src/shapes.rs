//! Models of the usual shapes can be evaluated.

use crate::attention::{grouped, kv_head};
use crate::cache::{cache_fits, holds_layers};
use crate::forward::{embedding, knows, layer_ready, ready, room};
use crate::linear::{row_block, row_fits};
use crate::matrix::row_count;
use crate::model::{Layer, Model};
use crate::weights::TensorData;
use vstd::arithmetic::div_mod::lemma_fundamental_div_mod_converse;
use vstd::prelude::*;

verus! {

/// The matrix has `rows` rows and `cols` columns, whole blocks in each row where it is ternary.
pub open spec fn has_shape(w: TensorData, rows: int, cols: int) -> bool {
    match w {
        TensorData::F32(v) => v@.len() == rows * cols,
        TensorData::I2(t) => t.wf() && t.n == rows * cols && cols % 64 == 0,
    }
}

/// The weights of a layer have the shapes that the dimensions of the model ask for.
pub open spec fn layer_has_shapes(m: Model, w: Layer) -> bool {
    let n = m.n_embd as int;
    &&& w.attn_norm@.len() == n
    &&& w.attn_sub_norm@.len() == n
    &&& w.ffn_norm@.len() == n
    &&& w.ffn_sub_norm@.len() == m.n_ff
    &&& has_shape(w.q, m.n_head * m.head_dim, n)
    &&& has_shape(w.k, m.n_head_kv * m.head_dim, n)
    &&& has_shape(w.v, m.n_head_kv * m.head_dim, n)
    &&& has_shape(w.o, n, n)
    &&& has_shape(w.gate, m.n_ff as int, n)
    &&& has_shape(w.up, m.n_ff as int, n)
    &&& has_shape(w.down, n, m.n_ff as int)
}

/// A matrix of `rows` rows has that many, and all of them can be multiplied with as many
/// activations as it has columns.
proof fn lemma_shape(w: TensorData, rows: int, cols: int)
    requires
        has_shape(w, rows, cols),
        rows > 0,
        cols > 0,
    ensures
        row_count(w, cols) == rows,
        w matches TensorData::I2(t) ==> row_fits(t, rows - 1, cols, cols, (cols + 63) / 64) && t.n
            as int / cols == rows && t.n >= cols,
{
    let n = rows * cols;
    lemma_fundamental_div_mod_converse(n, cols, rows, 0);
    if let TensorData::I2(t) = w {
        let b = cols / 64;
        let last = rows - 1;
        assert(cols == 64 * b);
        assert((cols - 1) / 64 * 64 == cols - 64);
        assert(last * cols + (cols - 64) == 64 * (rows * b - 1)) by (nonlinear_arith)
            requires
                cols == 64 * b,
                last == rows - 1,
        ;
        assert(row_block(last, cols, (cols - 1) / 64 * 64) == rows * b - 1);
        assert(n == 64 * (rows * b)) by (nonlinear_arith)
            requires
                n == rows * cols,
                cols == 64 * b,
        ;
        assert(last * cols + cols == n) by (nonlinear_arith)
            requires
                n == rows * cols,
                last == rows - 1,
        ;
        assert(n >= cols) by (nonlinear_arith)
            requires
                n == rows * cols,
                rows >= 1,
                cols > 0,
        ;
    }
}

/// A model whose weights have the shapes that its dimensions ask for can be evaluated: heads of an
/// even dimension that share the embedding, as many of the query to each of the keys.
pub proof fn lemma_usual_shapes_are_ready(m: Model)
    requires
        m.token_embd is F32,
        m.n_ff > 0,
        m.n_head_kv > 0,
        m.n_head > 0,
        m.n_head as int % m.n_head_kv as int == 0,
        m.head_dim > 0,
        m.head_dim % 2 == 0,
        m.n_head * m.head_dim == m.n_embd,
        forall|l: int| 0 <= l < m.layers@.len() ==> layer_has_shapes(m, #[trigger] m.layers@[l]),
    ensures
        ready(m),
{
    let h = m.n_head as int;
    let kv = m.n_head_kv as int;
    let dim = m.head_dim as int;
    let n = m.n_embd as int;
    let g = h / kv;
    assert(h == kv * g && g >= 1) by (nonlinear_arith)
        requires
            h % kv == 0,
            g == h / kv,
            h > 0,
            kv > 0,
    ;
    assert(kv <= h) by (nonlinear_arith)
        requires
            h == kv * g,
            g >= 1,
            kv > 0,
    ;
    assert((h - 1) / g < kv) by (nonlinear_arith)
        requires
            h == kv * g,
            g >= 1,
            kv > 0,
    ;
    assert(kv_head(m, h - 1) < kv);
    assert(grouped(m));
    assert(n > 0 && kv * dim > 0) by (nonlinear_arith)
        requires
            n == h * dim,
            h > 0,
            kv > 0,
            dim > 0,
    ;
    assert forall|l: int| 0 <= l < m.layers@.len() implies layer_ready(
        m,
        #[trigger] m.layers@[l],
    ) by {
        let w = m.layers@[l];
        assert(layer_has_shapes(m, w));
        lemma_shape(w.q, h * dim, n);
        lemma_shape(w.k, kv * dim, n);
        lemma_shape(w.v, kv * dim, n);
        lemma_shape(w.o, n, n);
        lemma_shape(w.gate, m.n_ff as int, n);
        lemma_shape(w.up, m.n_ff as int, n);
        lemma_shape(w.down, n, m.n_ff as int);
    }
}

/// The model knows the tokens that its table has a row for, and no others; as many tokens can
/// follow as the context has positions left; and caches of as many elements as memory can hold can
/// be had.
pub proof fn lemma_what_fits(m: Model, rows: int, token: u32, pos: int, n: int)
    requires
        m.n_embd > 0,
        embedding(m).len() == rows * m.n_embd,
    ensures
        knows(m, token) <==> token < rows,
        0 <= pos && 0 <= n && pos + n <= m.n_ctx ==> room(m, pos, n),
        m.layers@.len() > 0 && pos + n > m.n_ctx ==> !room(m, pos, n),
        m.layers@.len() == m.n_layer ==> holds_layers(m),
        m.n_layer > 0 && m.head_dim > 0 && m.n_layer * (m.n_head_kv * m.n_ctx * m.head_dim)
            <= isize::MAX / 4 ==> cache_fits(m),
        m.n_layer * (m.n_head_kv * m.n_ctx * m.head_dim) > isize::MAX / 4 ==> !cache_fits(m),
{
    let e = m.n_embd as int;
    let t = token + 1;
    assert(t * e <= rows * e <==> t <= rows) by (nonlinear_arith)
        requires
            e > 0,
    ;
    if m.n_layer > 0 && m.head_dim > 0 && m.n_layer * (m.n_head_kv * m.n_ctx * m.head_dim)
        <= isize::MAX / 4 {
        let a = m.n_head_kv * m.n_ctx;
        let d = m.head_dim as int;
        let l = m.n_layer as int;
        assert(a >= 0) by (nonlinear_arith)
            requires
                a == m.n_head_kv * m.n_ctx,
        ;
        assert(a <= a * d && a * d <= l * (a * d)) by (nonlinear_arith)
            requires
                a >= 0,
                d >= 1,
                l >= 1,
        ;
    }
}

} // verus!
