//! What a token does to the cache, and what it reads of it.

use crate::arith::Arith;
use crate::attention::{attended, grouped, head_attended, kv_head, lemma_attention_looks_back};
use crate::cache::{
    cell, layer_len, layer_of_element, layout, lemma_written_cell, lemma_written_elsewhere,
    position_of, written, Layout,
};
use crate::forward::{
    attention_step, forwarded, is_forward, layer_ready, ready, step_at, Flow, ForwardTrace,
    LayerTrace,
};
use crate::matrix::row_count;
use crate::model::Model;
use crate::rope::{heads_fit, lemma_turn_inside, pairs, turned_at, turns};
use vstd::prelude::*;

verus! {

/// The two caches hold the same in every cell of the positions before `pos`, and, in the first
/// `layers` layers, at `pos` too.
pub open spec fn agree(m: Model, c1: Seq<u32>, c2: Seq<u32>, pos: int, layers: int) -> bool {
    &&& m.layers@.len() * layer_len(layout(m)) <= c1.len()
    &&& m.layers@.len() * layer_len(layout(m)) <= c2.len()
    &&& forall|l: int, h: int, t: int|
        #![trigger cell(layout(m), c1, l, h, t)]
        #![trigger cell(layout(m), c2, l, h, t)]
        0 <= l < m.layers@.len() && 0 <= h < m.n_head_kv && 0 <= t && (t < pos || t == pos && l < layers)
            && t < m.n_ctx ==> cell(layout(m), c1, l, h, t) == cell(layout(m), c2, l, h, t)
}

/// The two caches hold the same in every element but those of position `pos` in the layers of the
/// model.
pub open spec fn same_but(m: Model, c1: Seq<u32>, c2: Seq<u32>, pos: int) -> bool {
    &&& c2.len() == c1.len()
    &&& forall|i: int|
        0 <= i < c1.len() && (position_of(layout(m), i) != pos || layer_of_element(layout(m), i)
            >= m.layers@.len()) ==> #[trigger] c2[i] == c1[i]
}

proof fn lemma_flows_keep<A: Arith>(
    ar: &A,
    m: Model,
    token: int,
    pos: int,
    k0: Seq<u32>,
    v0: Seq<u32>,
    k1: Seq<u32>,
    v1: Seq<u32>,
    logits: Seq<u32>,
    t: ForwardTrace,
    l: int,
)
    requires
        is_forward(ar, m, token, pos, k0, v0, k1, v1, logits, t),
        0 <= l <= m.layers@.len(),
    ensures
        same_but(m, k0, t.flows[l].k, pos),
        same_but(m, v0, t.flows[l].v, pos),
    decreases l,
{
    if l > 0 {
        lemma_flows_keep(ar, m, token, pos, k0, v0, k1, v1, logits, t, l - 1);
        assert(step_at(ar, m, pos, t, l - 1));
    }
}

/// A token writes the cells of its own position, in the layers of the model, and no others.
pub proof fn lemma_forward_keeps_others<A: Arith>(
    ar: &A,
    m: Model,
    token: int,
    pos: int,
    k0: Seq<u32>,
    v0: Seq<u32>,
    k1: Seq<u32>,
    v1: Seq<u32>,
    logits: Seq<u32>,
)
    requires
        forwarded(ar, m, token, pos, k0, v0, k1, v1, logits),
    ensures
        same_but(m, k0, k1, pos),
        same_but(m, v0, v1, pos),
{
    let t = choose|t: ForwardTrace| #[trigger]
        is_forward(ar, m, token, pos, k0, v0, k1, v1, logits, t);
    lemma_flows_keep(ar, m, token, pos, k0, v0, k1, v1, logits, t, m.layers@.len() as int);
}

/// The cache `c` after the first `n` layers have written their rows at `pos`.
spec fn rewritten(a: Layout, c: Seq<u32>, rows: Seq<Seq<u32>>, pos: int, n: int) -> Seq<u32>
    decreases n,
{
    if n <= 0 {
        c
    } else {
        written(a, rewritten(a, c, rows, pos, n - 1), n - 1, pos, rows[n - 1])
    }
}

proof fn lemma_write_agrees(
    m: Model,
    c1: Seq<u32>,
    c2: Seq<u32>,
    pos: int,
    l: int,
    row: Seq<u32>,
)
    requires
        agree(m, c1, c2, pos, l),
        0 <= l < m.layers@.len(),
        0 <= pos < m.n_ctx,
        m.n_head_kv * m.head_dim <= row.len(),
    ensures
        agree(
            m,
            written(layout(m), c1, l, pos, row),
            written(layout(m), c2, l, pos, row),
            pos,
            l + 1,
        ),
{
    let a = layout(m);
    let n = m.layers@.len() as int;
    let w1 = written(a, c1, l, pos, row);
    let w2 = written(a, c2, l, pos, row);
    assert forall|i: int, h: int, t: int|
        #![trigger cell(a, w1, i, h, t)]
        #![trigger cell(a, w2, i, h, t)]
        0 <= i < m.layers@.len() && 0 <= h < m.n_head_kv && 0 <= t && (t < pos || t == pos && i < l + 1)
            && t < m.n_ctx implies cell(a, w1, i, h, t) == cell(a, w2, i, h, t) by {
        if i == l && t == pos {
            lemma_written_cell(a, n, c1, l, h, pos, row);
            lemma_written_cell(a, n, c2, l, h, pos, row);
        } else {
            lemma_written_elsewhere(a, n, c1, l, pos, row, i, h, t);
            lemma_written_elsewhere(a, n, c2, l, pos, row, i, h, t);
            assert(cell(a, c1, i, h, t) == cell(a, c2, i, h, t));
        }
    }
}

proof fn lemma_kv_head_in_range(m: Model, h: int)
    requires
        grouped(m),
        m.head_dim > 0,
        0 <= h < m.n_head,
    ensures
        0 <= kv_head(m, h) < m.n_head_kv,
{
    let y = m.n_head as int;
    let c = m.n_head_kv as int;
    let b = y / c;
    assert(b >= 1) by (nonlinear_arith)
        requires
            b == y / c,
            y >= c,
            c > 0,
    ;
    assert(0 <= h / b <= (y - 1) / b) by (nonlinear_arith)
        requires
            0 <= h <= y - 1,
            b >= 1,
    ;
}

proof fn lemma_attended_alike<A: Arith>(
    ar: &A,
    m: Model,
    l: int,
    pos: int,
    q: Seq<u32>,
    k1: Seq<u32>,
    v1: Seq<u32>,
    k2: Seq<u32>,
    v2: Seq<u32>,
    out: Seq<u32>,
)
    requires
        grouped(m),
        0 <= l < m.layers@.len(),
        0 <= pos < m.n_ctx,
        agree(m, k1, k2, pos, l + 1),
        agree(m, v1, v2, pos, l + 1),
        attended(ar, m, l, pos, q, k1, v1, out),
    ensures
        attended(ar, m, l, pos, q, k2, v2, out),
{
    if m.head_dim > 0 {
        assert forall|h: int| 0 <= h < m.n_head implies #[trigger] head_attended(
            ar,
            m,
            l,
            pos,
            h,
            q,
            k2,
            v2,
            out,
        ) by {
            lemma_kv_head_in_range(m, h);
            assert(head_attended(ar, m, l, pos, h, q, k1, v1, out));
            let g = kv_head(m, h);
            assert forall|t: int|
                #![trigger cell(layout(m), k1, l, g, t)]
                #![trigger cell(layout(m), v1, l, g, t)]
                0 <= t <= pos implies cell(layout(m), k1, l, g, t) == cell(layout(m), k2, l, g, t)
                && cell(layout(m), v1, l, g, t) == cell(layout(m), v2, l, g, t) by {
                assert(cell(layout(m), k1, l, g, t) == cell(layout(m), k2, l, g, t));
                assert(cell(layout(m), v1, l, g, t) == cell(layout(m), v2, l, g, t));
            }
            lemma_attention_looks_back(ar, m, l, pos, h, q, k1, v1, k2, v2, out);
        }
    }
}

proof fn lemma_roped_len<A: Arith>(
    ar: &A,
    stages: Seq<Seq<u32>>,
    before: Seq<u32>,
    after: Seq<u32>,
    heads: int,
    pos: int,
    head_dim: int,
    theta: u32,
    s: int,
)
    requires
        heads >= 0,
        head_dim >= 0,
        heads_fit(before.len() as int, heads, head_dim),
        turns(ar, stages, before, after, heads, pos, head_dim, theta),
        0 <= s < stages.len(),
    ensures
        stages[s].len() == before.len(),
    decreases s,
{
    if s > 0 {
        lemma_roped_len(ar, stages, before, after, heads, pos, head_dim, theta, s - 1);
        assert(turned_at(ar, stages, s - 1, pos, head_dim, theta));
        lemma_turn_inside(before.len() as int, heads, head_dim, s - 1);
    }
}

/// A token reads the positions before its own and no others: from caches that agree on those, it
/// can come to the same logits, and it leaves caches that agree on its own position as well.
pub proof fn lemma_forward_reads_past<A: Arith>(
    ar: &A,
    m: Model,
    token: int,
    pos: int,
    k0: Seq<u32>,
    v0: Seq<u32>,
    k1: Seq<u32>,
    v1: Seq<u32>,
    logits: Seq<u32>,
    k2: Seq<u32>,
    v2: Seq<u32>,
) -> (caches: (Seq<u32>, Seq<u32>))
    requires
        ready(m),
        0 <= pos,
        m.layers@.len() > 0 ==> pos < m.n_ctx,
        agree(m, k0, k2, pos, 0),
        agree(m, v0, v2, pos, 0),
        forwarded(ar, m, token, pos, k0, v0, k1, v1, logits),
    ensures
        forwarded(ar, m, token, pos, k2, v2, caches.0, caches.1, logits),
        agree(m, k1, caches.0, pos + 1, 0),
        agree(m, v1, caches.1, pos + 1, 0),
{
    let t = choose|t: ForwardTrace| #[trigger]
        is_forward(ar, m, token, pos, k0, v0, k1, v1, logits, t);
    let a = layout(m);
    let n = m.layers@.len() as int;
    let ks = Seq::new(n as nat, |l: int| t.layers[l].attention.k);
    let vs = Seq::new(n as nat, |l: int| t.layers[l].attention.v);
    let flows = Seq::new(
        (n + 1) as nat,
        |l: int|
            Flow {
                x: t.flows[l].x,
                k: rewritten(a, k2, ks, pos, l),
                v: rewritten(a, v2, vs, pos, l),
            },
    );
    let layers = Seq::new(
        n as nat,
        |l: int|
            LayerTrace {
                attention: t.layers[l].attention,
                mid: Flow { x: t.layers[l].mid.x, k: flows[l + 1].k, v: flows[l + 1].v },
                network: t.layers[l].network,
            },
    );
    let t2 = ForwardTrace { flows, layers, ..t };
    assert forall|l: int| 0 <= l < n implies #[trigger] step_at(ar, m, pos, t2, l) by {
        lemma_agreement_grows(ar, m, token, pos, k0, v0, k1, v1, logits, k2, v2, t, ks, vs, l);
        assert(step_at(ar, m, pos, t, l));
        let s = t.layers[l].attention;
        assert(ks[l] == s.k && vs[l] == s.v);
        assert(attention_step(ar, m, l, pos, t.eps, t.theta, flows[l], s, layers[l].mid));
    }
    if n > 0 {
        lemma_agreement_grows(ar, m, token, pos, k0, v0, k1, v1, logits, k2, v2, t, ks, vs, n - 1);
    }
    let caches = (rewritten(a, k2, ks, pos, n), rewritten(a, v2, vs, pos, n));
    assert(is_forward(ar, m, token, pos, k2, v2, caches.0, caches.1, logits, t2));
    assert(t.flows[n].k == k1);
    caches
}

proof fn lemma_agreement_grows<A: Arith>(
    ar: &A,
    m: Model,
    token: int,
    pos: int,
    k0: Seq<u32>,
    v0: Seq<u32>,
    k1: Seq<u32>,
    v1: Seq<u32>,
    logits: Seq<u32>,
    k2: Seq<u32>,
    v2: Seq<u32>,
    t: ForwardTrace,
    ks: Seq<Seq<u32>>,
    vs: Seq<Seq<u32>>,
    l: int,
)
    requires
        ready(m),
        0 <= pos,
        m.layers@.len() > 0 ==> pos < m.n_ctx,
        agree(m, k0, k2, pos, 0),
        agree(m, v0, v2, pos, 0),
        is_forward(ar, m, token, pos, k0, v0, k1, v1, logits, t),
        ks == Seq::new(m.layers@.len(), |l: int| t.layers[l].attention.k),
        vs == Seq::new(m.layers@.len(), |l: int| t.layers[l].attention.v),
        0 <= l < m.layers@.len(),
    ensures
        agree(m, t.flows[l + 1].k, rewritten(layout(m), k2, ks, pos, l + 1), pos, l + 1),
        agree(m, t.flows[l + 1].v, rewritten(layout(m), v2, vs, pos, l + 1), pos, l + 1),
        attended(
            ar,
            m,
            l,
            pos,
            t.layers[l].attention.q,
            rewritten(layout(m), k2, ks, pos, l + 1),
            rewritten(layout(m), v2, vs, pos, l + 1),
            t.layers[l].attention.found,
        ),
    decreases l,
{
    let a = layout(m);
    if l > 0 {
        lemma_agreement_grows(ar, m, token, pos, k0, v0, k1, v1, logits, k2, v2, t, ks, vs, l - 1);
    }
    let before = t.flows[l];
    let k = rewritten(a, k2, ks, pos, l);
    let v = rewritten(a, v2, vs, pos, l);
    assert(agree(m, before.k, k, pos, l) && agree(m, before.v, v, pos, l));
    assert(step_at(ar, m, pos, t, l));
    let s = t.layers[l].attention;
    let w = m.layers@[l];
    assert(layer_ready(m, w));
    let stages = choose|stages: Seq<Seq<u32>>| #[trigger]
        turns(
            ar,
            stages,
            s.k0,
            s.k,
            m.n_head_kv as int,
            pos,
            m.head_dim as int,
            t.theta,
        );
    assert(s.k0.len() == row_count(w.k, m.n_embd as int));
    assert(m.n_head_kv * pairs(m.head_dim as int) >= 0) by (nonlinear_arith)
        requires
            m.n_head_kv >= 0,
            pairs(m.head_dim as int) >= 0,
    ;
    lemma_roped_len(
        ar,
        stages,
        s.k0,
        s.k,
        m.n_head_kv as int,
        pos,
        m.head_dim as int,
        t.theta,
        stages.len() - 1,
    );
    assert(s.v.len() == row_count(w.v, m.n_embd as int));
    lemma_write_agrees(m, before.k, k, pos, l, s.k);
    lemma_write_agrees(m, before.v, v, pos, l, s.v);
    assert(ks[l] == s.k && vs[l] == s.v);
    lemma_attended_alike(
        ar,
        m,
        l,
        pos,
        s.q,
        t.flows[l + 1].k,
        t.flows[l + 1].v,
        rewritten(a, k2, ks, pos, l + 1),
        rewritten(a, v2, vs, pos, l + 1),
        s.found,
    );
}

} // verus!
