//! The cache of keys and values: one cell for each layer, each head of keys and each position.

use crate::float::ZERO;
use crate::model::Model;
use vstd::arithmetic::div_mod::{lemma_fundamental_div_mod, lemma_fundamental_div_mod_converse};
use vstd::prelude::*;

verus! {

/// How the cells of a cache lie: `[layer][head][position][dimension]`.
pub struct Layout {
    pub heads: int,
    pub ctx: int,
    pub dim: int,
}

/// The layout of the caches of a model.
pub open spec fn layout(m: Model) -> Layout {
    Layout { heads: m.n_head_kv as int, ctx: m.n_ctx as int, dim: m.head_dim as int }
}

/// The number of elements in a layer.
pub open spec fn layer_len(a: Layout) -> int {
    a.heads * a.ctx * a.dim
}

/// Where the cell of a layer, a head and a position starts.
pub open spec fn cell_start(a: Layout, l: int, h: int, t: int) -> int {
    ((l * a.heads + h) * a.ctx + t) * a.dim
}

/// The cell of a layer, a head and a position.
pub open spec fn cell(a: Layout, c: Seq<u32>, l: int, h: int, t: int) -> Seq<u32> {
    c.subrange(cell_start(a, l, h, t), cell_start(a, l, h, t) + a.dim)
}

/// The position that element `i` belongs to.
pub open spec fn position_of(a: Layout, i: int) -> int {
    i / a.dim % a.ctx
}

/// The head that element `i` belongs to.
pub open spec fn head_of(a: Layout, i: int) -> int {
    i / a.dim / a.ctx % a.heads
}

/// The layer that element `i` belongs to.
pub open spec fn layer_of_element(a: Layout, i: int) -> int {
    i / a.dim / a.ctx / a.heads
}

/// The cache `before` with the cells of layer `l` and position `t` replaced by the heads in
/// `row`.
pub open spec fn written(a: Layout, before: Seq<u32>, l: int, t: int, row: Seq<u32>) -> Seq<u32> {
    Seq::new(
        before.len(),
        |i: int|
            if a.heads > 0 && a.dim > 0 && layer_of_element(a, i) == l && position_of(a, i) == t {
                row[head_of(a, i) * a.dim + i % a.dim]
            } else {
                before[i]
            },
    )
}

proof fn lemma_place(a: Layout, l: int, h: int, t: int, d: int)
    requires
        0 <= l,
        0 <= h < a.heads,
        0 <= t < a.ctx,
        0 <= d < a.dim,
    ensures
        layer_of_element(a, cell_start(a, l, h, t) + d) == l,
        head_of(a, cell_start(a, l, h, t) + d) == h,
        position_of(a, cell_start(a, l, h, t) + d) == t,
        (cell_start(a, l, h, t) + d) % a.dim == d,
        cell_start(a, l, h, t) >= 0,
{
    let lh = l * a.heads + h;
    assert(lh >= 0) by (nonlinear_arith)
        requires
            lh == l * a.heads + h,
            l >= 0,
            a.heads > 0,
            h >= 0,
    ;
    let slot = lh * a.ctx + t;
    assert(slot >= 0) by (nonlinear_arith)
        requires
            slot == lh * a.ctx + t,
            lh >= 0,
            a.ctx > 0,
            t >= 0,
    ;
    assert(slot * a.dim >= 0) by (nonlinear_arith)
        requires
            slot >= 0,
            a.dim > 0,
    ;
    let i = slot * a.dim + d;
    lemma_fundamental_div_mod_converse(i, a.dim, slot, d);
    lemma_fundamental_div_mod_converse(slot, a.ctx, lh, t);
    lemma_fundamental_div_mod_converse(lh, a.heads, l, h);
}

proof fn lemma_rebuilt(a: Layout, i: int)
    requires
        0 <= i,
        0 < a.heads,
        0 < a.ctx,
        0 < a.dim,
    ensures
        i == cell_start(a, layer_of_element(a, i), head_of(a, i), position_of(a, i)) + i % a.dim,
        0 <= head_of(a, i) < a.heads,
        0 <= position_of(a, i) < a.ctx,
        0 <= i % a.dim < a.dim,
{
    let slot = i / a.dim;
    let lh = slot / a.ctx;
    let l = lh / a.heads;
    lemma_fundamental_div_mod(i, a.dim);
    lemma_fundamental_div_mod(slot, a.ctx);
    lemma_fundamental_div_mod(lh, a.heads);
    assert(a.heads * l == l * a.heads) by (nonlinear_arith);
    assert(a.ctx * lh == lh * a.ctx) by (nonlinear_arith);
    assert(a.dim * slot == slot * a.dim) by (nonlinear_arith);
}

/// Cells lie inside of the cache.
pub proof fn lemma_cell_inside(a: Layout, n_layer: int, l: int, h: int, t: int)
    requires
        0 <= l < n_layer,
        0 <= h < a.heads,
        0 <= t < a.ctx,
        0 <= a.dim,
    ensures
        0 <= cell_start(a, l, h, t),
        cell_start(a, l, h, t) + a.dim <= n_layer * layer_len(a),
{
    let lh = l * a.heads + h;
    assert(0 <= lh && lh + 1 <= n_layer * a.heads) by (nonlinear_arith)
        requires
            lh == l * a.heads + h,
            0 <= l < n_layer,
            0 <= h < a.heads,
    ;
    let slot = lh * a.ctx + t;
    let n = n_layer * a.heads;
    assert(0 <= slot && slot + 1 <= n * a.ctx) by (nonlinear_arith)
        requires
            slot == lh * a.ctx + t,
            0 <= lh,
            lh + 1 <= n,
            0 <= t < a.ctx,
    ;
    let all = n * a.ctx;
    assert(0 <= slot * a.dim && slot * a.dim + a.dim <= all * a.dim) by (nonlinear_arith)
        requires
            0 <= slot,
            slot + 1 <= all,
            0 <= a.dim,
    ;
    assert(all * a.dim == n_layer * layer_len(a)) by (nonlinear_arith)
        requires
            all == n_layer * a.heads * a.ctx,
            layer_len(a) == a.heads * a.ctx * a.dim,
    ;
}

/// Reading the cells of a layer and a position gives back the row that was written there.
pub proof fn lemma_written_cell(
    a: Layout,
    n_layer: int,
    before: Seq<u32>,
    l: int,
    h: int,
    t: int,
    row: Seq<u32>,
)
    requires
        n_layer * layer_len(a) <= before.len(),
        0 <= l < n_layer,
        0 <= h < a.heads,
        0 <= t < a.ctx,
        0 <= a.dim,
        a.heads * a.dim <= row.len(),
    ensures
        cell(a, written(a, before, l, t, row), l, h, t) == row.subrange(
            h * a.dim,
            h * a.dim + a.dim,
        ),
{
    lemma_cell_inside(a, n_layer, l, h, t);
    let w = written(a, before, l, t, row);
    let start = cell_start(a, l, h, t);
    assert(0 <= h * a.dim && h * a.dim + a.dim <= a.heads * a.dim) by (nonlinear_arith)
        requires
            0 <= h < a.heads,
            0 <= a.dim,
    ;
    assert forall|d: int| 0 <= d < a.dim implies #[trigger] cell(a, w, l, h, t)[d] == row[h * a.dim
        + d] by {
        lemma_place(a, l, h, t, d);
        assert(cell(a, w, l, h, t)[d] == w[start + d]);
    }
    assert(cell(a, w, l, h, t) =~= row.subrange(h * a.dim, h * a.dim + a.dim));
}

/// Writing the cells of a layer and a position leaves every other cell as it was.
pub proof fn lemma_written_elsewhere(
    a: Layout,
    n_layer: int,
    before: Seq<u32>,
    l: int,
    t: int,
    row: Seq<u32>,
    l2: int,
    h2: int,
    t2: int,
)
    requires
        n_layer * layer_len(a) <= before.len(),
        0 <= l2 < n_layer,
        0 <= h2 < a.heads,
        0 <= t2 < a.ctx,
        0 <= a.dim,
        l2 != l || t2 != t,
    ensures
        cell(a, written(a, before, l, t, row), l2, h2, t2) == cell(a, before, l2, h2, t2),
{
    lemma_cell_inside(a, n_layer, l2, h2, t2);
    let w = written(a, before, l, t, row);
    let start = cell_start(a, l2, h2, t2);
    assert forall|d: int| 0 <= d < a.dim implies #[trigger] cell(a, w, l2, h2, t2)[d]
        == before[start + d] by {
        lemma_place(a, l2, h2, t2, d);
        assert(cell(a, w, l2, h2, t2)[d] == w[start + d]);
    }
    assert(cell(a, w, l2, h2, t2) =~= cell(a, before, l2, h2, t2));
}

/// The keys and the values of the tokens so far.
pub struct KVCache {
    pub k: Vec<u32>,
    pub v: Vec<u32>,
    /// The number of tokens so far.
    pub pos: usize,
}

/// The size of the caches of a model can be computed, and such a cache can be had.
pub open spec fn cache_fits(m: Model) -> bool {
    &&& m.n_head_kv * m.n_ctx <= usize::MAX
    &&& layer_len(layout(m)) <= usize::MAX
    &&& m.n_layer * layer_len(layout(m)) <= isize::MAX / 4
}

pub fn check_cache_fits(m: &Model) -> (r: bool)
    ensures
        r == cache_fits(*m),
{
    match m.n_head_kv.checked_mul(m.n_ctx) {
        None => false,
        Some(a) => match a.checked_mul(m.head_dim) {
            None => false,
            Some(per) => match m.n_layer.checked_mul(per) {
                None => false,
                Some(n) => n <= isize::MAX as usize / 4,
            },
        },
    }
}

/// The caches of a model have room for all of its layers.
pub open spec fn holds_layers(m: Model) -> bool {
    m.layers@.len() <= m.n_layer || layer_len(layout(m)) == 0
}

pub fn check_holds_layers(m: &Model) -> (r: bool)
    ensures
        r == holds_layers(*m),
{
    proof {
        let h = m.n_head_kv as int;
        let c = m.n_ctx as int;
        let d = m.head_dim as int;
        assert(h * c * d == 0 <==> h == 0 || c == 0 || d == 0) by (nonlinear_arith);
    }
    m.layers.len() <= m.n_layer || m.n_head_kv == 0 || m.n_ctx == 0 || m.head_dim == 0
}

proof fn lemma_layers_held(m: Model)
    requires
        holds_layers(m),
    ensures
        m.layers@.len() * layer_len(layout(m)) <= m.n_layer * layer_len(layout(m)),
{
    let h = m.n_head_kv as int;
    let c = m.n_ctx as int;
    let d = m.head_dim as int;
    assert(h * c * d >= 0) by (nonlinear_arith)
        requires
            h >= 0,
            c >= 0,
            d >= 0,
    ;
    lemma_scaled_order(m.layers@.len() as int, m.n_layer as int, layer_len(layout(m)));
}

proof fn lemma_scaled_order(a: int, b: int, x: int)
    by (nonlinear_arith)
    requires
        a <= b || x == 0,
        x >= 0,
    ensures
        a * x <= b * x,
{
}

impl KVCache {
    /// The cache has room for the layers of the model.
    pub open spec fn fits(&self, m: Model) -> bool {
        &&& m.layers@.len() * layer_len(layout(m)) <= self.k@.len()
        &&& m.layers@.len() * layer_len(layout(m)) <= self.v@.len()
    }

    /// The cache of a model before the first token: all zeros.
    pub fn new(model: &Model) -> (c: KVCache)
        requires
            cache_fits(*model),
        ensures
            c.k@.len() == model.n_layer * layer_len(layout(*model)),
            c.v@.len() == model.n_layer * layer_len(layout(*model)),
            holds_layers(*model) ==> c.fits(*model),
            c.pos == 0,
            forall|i: int| 0 <= i < c.k@.len() ==> c.k@[i] == ZERO,
            forall|i: int| 0 <= i < c.v@.len() ==> c.v@[i] == ZERO,
    {
        let per: usize = model.n_head_kv * model.n_ctx * model.head_dim;
        let n: usize = model.n_layer * per;
        proof {
            if holds_layers(*model) {
                lemma_layers_held(*model);
            }
        }
        KVCache { k: vec![ZERO; n], v: vec![ZERO; n], pos: 0 }
    }
}

/// Writes the heads in `row` into the cells of layer `l` and position `t`.
pub fn write_row(m: &Model, c: &mut Vec<u32>, l: usize, t: usize, row: &[u32])
    requires
        m.layers@.len() * layer_len(layout(*m)) <= old(c)@.len(),
        l < m.layers@.len(),
        t < m.n_ctx,
        m.n_head_kv * m.head_dim <= row@.len(),
    ensures
        final(c)@ == written(layout(*m), old(c)@, l as int, t as int, row@),
{
    let ghost a = layout(*m);
    let ghost before = c@;
    let ghost w = written(a, before, l as int, t as int, row@);
    let len: usize = c.len();
    let row_len: usize = row.len();
    if m.head_dim == 0 || m.n_head_kv == 0 {
        assert(c@ =~= w);
        return ;
    }
    let mut h: usize = 0;
    proof {
        assert forall|i: int| 0 <= i < before.len() implies head_of(a, i) >= 0 by {
            lemma_rebuilt(a, i);
        }
    }
    while h < m.n_head_kv
        invariant
            a == layout(*m),
            len == c@.len(),
            row_len == row@.len(),
            before.len() == len,
            m.layers@.len() * layer_len(a) <= len,
            l < m.layers@.len(),
            m.head_dim > 0,
            t < m.n_ctx,
            h <= m.n_head_kv,
            m.n_head_kv * m.head_dim <= row_len,
            w == written(a, before, l as int, t as int, row@),
            forall|i: int|
                0 <= i < len ==> #[trigger] c@[i] == if head_of(a, i) < h {
                    w[i]
                } else {
                    before[i]
                },
        decreases m.n_head_kv - h,
    {
        proof {
            lemma_cell_inside(a, m.layers@.len() as int, l as int, h as int, t as int);
            let x = h as int;
            let y = m.n_head_kv as int;
            let z = m.head_dim as int;
            assert(0 <= x * z && x * z + z <= y * z) by (nonlinear_arith)
                requires
                    0 <= x < y,
                    0 <= z,
            ;
        }
        let start: usize = start_of(m, l, h, t, len);
        let base: usize = h * m.head_dim;
        let mut d: usize = 0;
        while d < m.head_dim
            invariant
                a == layout(*m),
                len == c@.len(),
                before.len() == len,
                l < m.layers@.len(),
                t < m.n_ctx,
                h < m.n_head_kv,
                d <= m.head_dim,
                start == cell_start(a, l as int, h as int, t as int),
                start + m.head_dim <= len,
                base == h * m.head_dim,
                base + m.head_dim <= row_len,
                row_len == row@.len(),
                w == written(a, before, l as int, t as int, row@),
                forall|i: int|
                    0 <= i < len ==> #[trigger] c@[i] == if head_of(a, i) < h || (head_of(a, i)
                        == h && i % a.dim < d) {
                        w[i]
                    } else {
                        before[i]
                    },
            decreases m.head_dim - d,
        {
            let ghost c0 = c@;
            c.set(start + d, row[base + d]);
            proof {
                assert forall|i: int| 0 <= i < len implies #[trigger] c@[i] == if head_of(a, i)
                    < h || (head_of(a, i) == h && i % a.dim < d + 1) {
                    w[i]
                } else {
                    before[i]
                } by {
                    assert(c0[i] == if head_of(a, i) < h || (head_of(a, i) == h && i % a.dim
                        < d) {
                        w[i]
                    } else {
                        before[i]
                    });
                    lemma_place(a, l as int, h as int, t as int, d as int);
                    lemma_rebuilt(a, i);
                }
            }
            d += 1;
        }
        proof {
            assert forall|i: int| 0 <= i < len implies #[trigger] c@[i] == if head_of(a, i) < h
                + 1 {
                w[i]
            } else {
                before[i]
            } by {
                lemma_rebuilt(a, i);
            }
        }
        h += 1;
    }
    proof {
        assert forall|i: int| 0 <= i < len implies #[trigger] c@[i] == w[i] by {
            lemma_rebuilt(a, i);
        }
        assert(c@ =~= w);
    }
}

/// Where the cell of a layer, a head and a position starts, in a cache of `len` elements.
pub fn start_of(m: &Model, l: usize, h: usize, t: usize, len: usize) -> (r: usize)
    requires
        m.layers@.len() * layer_len(layout(*m)) <= len,
        l < m.layers@.len(),
        h < m.n_head_kv,
        t < m.n_ctx,
        m.head_dim > 0,
    ensures
        r == cell_start(layout(*m), l as int, h as int, t as int),
        r + m.head_dim <= len,
{
    proof {
        let a = layout(*m);
        lemma_cell_inside(a, m.layers@.len() as int, l as int, h as int, t as int);
        let lh = l * a.heads + h;
        let slot = lh * a.ctx + t;
        assert(l * a.heads >= 0) by (nonlinear_arith)
            requires
                l >= 0,
                a.heads >= 0,
        ;
        assert(lh * a.ctx >= lh) by (nonlinear_arith)
            requires
                lh >= 0,
                a.ctx >= 1,
        ;
        assert(slot * a.dim >= slot) by (nonlinear_arith)
            requires
                slot >= 0,
                a.dim >= 1,
        ;
    }
    ((l * m.n_head_kv + h) * m.n_ctx + t) * m.head_dim
}

} // verus!
