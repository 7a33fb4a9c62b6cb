//! Attention of the heads of a query to the cells of the cache.

use crate::arith::{accumulate, from_count, over, root, running_dot, Arith};
use crate::cache::{cell, cell_start, layer_len, layout, lemma_cell_inside, start_of, Layout};
use crate::float::ZERO;
use crate::model::Model;
use crate::ops::{softmax, softmaxed};
use vstd::prelude::*;
use vstd::slice::slice_subrange;

verus! {

/// The head of keys and values that head `h` of the query attends to: the heads of the query
/// share those of the keys in groups of equal size.
pub open spec fn kv_head(m: Model, h: int) -> int {
    h / (m.n_head as int / m.n_head_kv as int)
}

/// Each head of the query has a head of keys to attend to.
pub open spec fn grouped(m: Model) -> bool {
    &&& m.n_head_kv > 0
    &&& m.n_head > 0 ==> m.n_head >= m.n_head_kv
    &&& m.n_head > 0 && m.head_dim > 0 ==> kv_head(m, m.n_head - 1) < m.n_head_kv
}

pub fn check_grouped(m: &Model) -> (r: bool)
    ensures
        r == grouped(*m),
{
    if m.n_head_kv == 0 {
        false
    } else if m.n_head == 0 {
        true
    } else if m.n_head < m.n_head_kv {
        false
    } else {
        proof {
            lemma_groups(*m);
        }
        m.head_dim == 0 || (m.n_head - 1) / (m.n_head / m.n_head_kv) < m.n_head_kv
    }
}

proof fn lemma_groups(m: Model)
    requires
        m.n_head_kv > 0,
        m.n_head >= m.n_head_kv,
    ensures
        m.n_head as int / m.n_head_kv as int >= 1,
{
    let a = m.n_head as int;
    let b = m.n_head_kv as int;
    assert(a / b >= 1) by (nonlinear_arith)
        requires
            a >= b,
            b > 0,
    ;
}

/// `r` is the inner product of a query and a key over the root of their dimension.
pub open spec fn scored<A: Arith>(ar: &A, q: Seq<u32>, k: Seq<u32>, dim: int, r: u32) -> bool {
    exists|s: u32, c: u32, d: u32|
        running_dot(ar, q, k, dim, s) && from_count(ar, dim as u64, c) && #[trigger] root(ar, c, d)
            && #[trigger] over(ar, s, d, r)
}

/// `scores` are the scores of the positions from the first on.
pub open spec fn scored_all<A: Arith>(
    ar: &A,
    a: Layout,
    k: Seq<u32>,
    l: int,
    g: int,
    q: Seq<u32>,
    scores: Seq<u32>,
) -> bool {
    forall|t: int|
        0 <= t < scores.len() ==> scored(ar, q, cell(a, k, l, g, t), a.dim, #[trigger] scores[t])
}

/// Dimension `d` of the first `n` positions.
pub open spec fn column(a: Layout, v: Seq<u32>, l: int, g: int, d: int, n: int) -> Seq<u32> {
    Seq::new(n as nat, |t: int| v[cell_start(a, l, g, t) + d])
}

/// `out` is the sum of the values of the first positions, each times the share of attention that
/// `probs` gives it.
pub open spec fn mixed<A: Arith>(
    ar: &A,
    a: Layout,
    v: Seq<u32>,
    l: int,
    g: int,
    probs: Seq<u32>,
    out: Seq<u32>,
) -> bool {
    &&& out.len() == a.dim
    &&& forall|d: int|
        0 <= d < out.len() ==> running_dot(
            ar,
            probs,
            column(a, v, l, g, d, probs.len() as int),
            probs.len() as int,
            #[trigger] out[d],
        )
}

/// `out` is what the query `q` of one head finds in the first `n` positions of head `g`.
pub open spec fn found<A: Arith>(
    ar: &A,
    a: Layout,
    k: Seq<u32>,
    v: Seq<u32>,
    l: int,
    g: int,
    n: int,
    q: Seq<u32>,
    out: Seq<u32>,
) -> bool {
    exists|scores: Seq<u32>, probs: Seq<u32>|
        scores.len() == n && probs.len() == n && #[trigger] scored_all(
            ar,
            a,
            k,
            l,
            g,
            q,
            scores,
        ) && softmaxed(ar, scores, probs) && #[trigger] mixed(ar, a, v, l, g, probs, out)
}

/// The elements of `q` that belong to head `h`.
pub open spec fn head_part(q: Seq<u32>, dim: int, h: int) -> Seq<u32> {
    q.subrange(h * dim, h * dim + dim)
}

/// Head `h` of `out` is what head `h` of the query finds in the positions up to `pos`.
pub open spec fn head_attended<A: Arith>(
    ar: &A,
    m: Model,
    l: int,
    pos: int,
    h: int,
    q: Seq<u32>,
    k: Seq<u32>,
    v: Seq<u32>,
    out: Seq<u32>,
) -> bool {
    found(
        ar,
        layout(m),
        k,
        v,
        l,
        kv_head(m, h),
        pos + 1,
        head_part(q, m.head_dim as int, h),
        head_part(out, m.head_dim as int, h),
    )
}

/// `out` is what the heads of the query find, one behind the other, and zeros behind them.
pub open spec fn attended<A: Arith>(
    ar: &A,
    m: Model,
    l: int,
    pos: int,
    q: Seq<u32>,
    k: Seq<u32>,
    v: Seq<u32>,
    out: Seq<u32>,
) -> bool {
    &&& out.len() == m.n_embd
    &&& m.head_dim > 0 ==> forall|h: int|
        0 <= h < m.n_head ==> #[trigger] head_attended(ar, m, l, pos, h, q, k, v, out)
    &&& forall|i: int| m.n_head * m.head_dim <= i < out.len() ==> #[trigger] out[i] == ZERO
}

fn score<A: Arith>(ar: &A, q: &[u32], k: &[u32]) -> (r: u32)
    requires
        q@.len() == k@.len(),
    ensures
        scored(ar, q@, k@, q@.len() as int, r),
{
    let s: u32 = accumulate(ar, q, k);
    let dim: usize = q.len();
    let c: u32 = ar.from_count(dim as u64);
    let d: u32 = ar.root(c);
    let r: u32 = ar.over(s, d);
    assert(root(ar, c, d) && over(ar, s, d, r));
    r
}

/// What the query `q` of one head finds in the first `n` positions of head `g`.
fn attend_head<A: Arith>(
    ar: &A,
    m: &Model,
    l: usize,
    g: usize,
    n: usize,
    q: &[u32],
    k: &Vec<u32>,
    v: &Vec<u32>,
) -> (out: Vec<u32>)
    requires
        m.layers@.len() * layer_len(layout(*m)) <= k@.len(),
        m.layers@.len() * layer_len(layout(*m)) <= v@.len(),
        l < m.layers@.len(),
        g < m.n_head_kv,
        n <= m.n_ctx,
        m.head_dim > 0,
        q@.len() == m.head_dim,
    ensures
        found(ar, layout(*m), k@, v@, l as int, g as int, n as int, q@, out@),
        out@.len() == m.head_dim,
{
    let ghost a = layout(*m);
    let len: usize = k.len();
    let mut scores: Vec<u32> = Vec::new();
    let mut t: usize = 0;
    while t < n
        invariant
            a == layout(*m),
            len == k@.len(),
            m.layers@.len() * layer_len(a) <= len,
            l < m.layers@.len(),
            g < m.n_head_kv,
            n <= m.n_ctx,
            m.head_dim > 0,
            q@.len() == m.head_dim,
            t <= n,
            scores@.len() == t,
            scored_all(ar, a, k@, l as int, g as int, q@, scores@),
        decreases n - t,
    {
        let start: usize = start_of(m, l, g, t, len);
        let c: &[u32] = slice_subrange(k.as_slice(), start, start + m.head_dim);
        assert(c@ == cell(a, k@, l as int, g as int, t as int));
        scores.push(score(ar, q, c));
        t += 1;
    }
    let probs: Vec<u32> = softmax(ar, scores.as_slice());
    let v_len: usize = v.len();
    let mut out: Vec<u32> = Vec::new();
    let mut d: usize = 0;
    while d < m.head_dim
        invariant
            a == layout(*m),
            v_len == v@.len(),
            m.layers@.len() * layer_len(a) <= v_len,
            l < m.layers@.len(),
            g < m.n_head_kv,
            n <= m.n_ctx,
            m.head_dim > 0,
            probs@.len() == n,
            d <= m.head_dim,
            out@.len() == d,
            forall|j: int|
                0 <= j < d ==> running_dot(
                    ar,
                    probs@,
                    column(a, v@, l as int, g as int, j, n as int),
                    n as int,
                    #[trigger] out@[j],
                ),
        decreases m.head_dim - d,
    {
        let mut values: Vec<u32> = Vec::new();
        let mut t: usize = 0;
        while t < n
            invariant
                a == layout(*m),
                v_len == v@.len(),
                m.layers@.len() * layer_len(a) <= v_len,
                l < m.layers@.len(),
                g < m.n_head_kv,
                n <= m.n_ctx,
                d < m.head_dim,
                t <= n,
                values@.len() == t,
                forall|j: int|
                    0 <= j < t ==> #[trigger] values@[j] == v@[cell_start(
                        a,
                        l as int,
                        g as int,
                        j,
                    ) + d],
            decreases n - t,
        {
            let start: usize = start_of(m, l, g, t, v_len);
            values.push(v[start + d]);
            t += 1;
        }
        assert(values@ =~= column(a, v@, l as int, g as int, d as int, n as int));
        out.push(accumulate(ar, probs.as_slice(), values.as_slice()));
        d += 1;
    }
    assert(scored_all(ar, a, k@, l as int, g as int, q@, scores@) && mixed(
        ar,
        a,
        v@,
        l as int,
        g as int,
        probs@,
        out@,
    ));
    out
}

/// What the heads of the query `q` find in layer `l` of the cache, up to position `pos`.
pub fn attend<A: Arith>(
    ar: &A,
    m: &Model,
    l: usize,
    pos: usize,
    q: &[u32],
    k: &Vec<u32>,
    v: &Vec<u32>,
) -> (out: Vec<u32>)
    requires
        grouped(*m),
        m.layers@.len() * layer_len(layout(*m)) <= k@.len(),
        m.layers@.len() * layer_len(layout(*m)) <= v@.len(),
        l < m.layers@.len(),
        pos < m.n_ctx,
        m.n_head * m.head_dim <= q@.len(),
        m.n_head * m.head_dim <= m.n_embd,
    ensures
        attended(ar, *m, l as int, pos as int, q@, k@, v@, out@),
{
    let ghost dim = m.head_dim as int;
    let q_len: usize = q.len();
    let mut out: Vec<u32> = Vec::new();
    if m.head_dim > 0 {
        let mut h: usize = 0;
        while h < m.n_head
            invariant
                grouped(*m),
                m.layers@.len() * layer_len(layout(*m)) <= k@.len(),
                m.layers@.len() * layer_len(layout(*m)) <= v@.len(),
                l < m.layers@.len(),
                pos < m.n_ctx,
                q_len == q@.len(),
                m.n_head * m.head_dim <= q_len,
                m.n_head * m.head_dim <= m.n_embd,
                dim == m.head_dim,
                dim > 0,
                h <= m.n_head,
                out@.len() == h * dim,
                forall|j: int|
                    0 <= j < h ==> #[trigger] head_attended(
                        ar,
                        *m,
                        l as int,
                        pos as int,
                        j,
                        q@,
                        k@,
                        v@,
                        out@,
                    ),
            decreases m.n_head - h,
        {
            proof {
                lemma_groups(*m);
                let x = h as int;
                let y = m.n_head as int;
                let b = y / m.n_head_kv as int;
                assert(0 <= x * dim && x * dim + dim <= y * dim) by (nonlinear_arith)
                    requires
                        0 <= x < y,
                        0 <= dim,
                ;
                assert((x + 1) * dim == x * dim + dim) by (nonlinear_arith);
                assert(0 <= x / b <= (y - 1) / b) by (nonlinear_arith)
                    requires
                        0 <= x <= y - 1,
                        b >= 1,
                ;
            }
            let n_groups: usize = m.n_head / m.n_head_kv;
            let g: usize = h / n_groups;
            let base: usize = h * m.head_dim;
            let qh: &[u32] = slice_subrange(q, base, base + m.head_dim);
            let part: Vec<u32> = attend_head(ar, m, l, g, pos + 1, qh, k, v);
            let ghost out0 = out@;
            out.extend_from_slice(part.as_slice());
            proof {
                assert(head_part(out@, dim, h as int) =~= part@);
                assert forall|j: int| 0 <= j < h + 1 implies #[trigger] head_attended(
                    ar,
                    *m,
                    l as int,
                    pos as int,
                    j,
                    q@,
                    k@,
                    v@,
                    out@,
                ) by {
                    if j < h {
                        assert(head_attended(ar, *m, l as int, pos as int, j, q@, k@, v@, out0));
                        let x = h as int;
                        assert(0 <= j * dim && j * dim + dim <= x * dim) by (nonlinear_arith)
                            requires
                                0 <= j < x,
                                0 <= dim,
                        ;
                        assert(head_part(out@, dim, j) =~= head_part(out0, dim, j));
                    }
                }
            }
            h += 1;
        }
    } else {
        assert(m.n_head * 0 == 0);
    }
    let ghost heads = out@;
    while out.len() < m.n_embd
        invariant
            heads.len() == m.n_head * m.head_dim,
            heads.len() <= out@.len() <= m.n_embd,
            out@.take(heads.len() as int) == heads,
            forall|i: int| heads.len() <= i < out@.len() ==> #[trigger] out@[i] == ZERO,
        decreases m.n_embd - out@.len(),
    {
        let ghost before = out@;
        out.push(ZERO);
        assert(out@.take(heads.len() as int) =~= before.take(heads.len() as int));
    }
    proof {
        if m.head_dim > 0 {
            assert forall|h: int| 0 <= h < m.n_head implies #[trigger] head_attended(
                ar,
                *m,
                l as int,
                pos as int,
                h,
                q@,
                k@,
                v@,
                out@,
            ) by {
                assert(head_attended(ar, *m, l as int, pos as int, h, q@, k@, v@, heads));
                let y = m.n_head as int;
                assert(0 <= h * dim && h * dim + dim <= y * dim) by (nonlinear_arith)
                    requires
                        0 <= h < y,
                        0 <= dim,
                ;
                assert(head_part(out@, dim, h) =~= head_part(out@.take(heads.len() as int), dim, h));
            }
        }
    }
    out
}

/// Attention looks back only, and only at one head of keys and values: caches that agree on the
/// cells of that head, up to position `pos`, give a head of the query the same answers.
pub proof fn lemma_attention_looks_back<A: Arith>(
    ar: &A,
    m: Model,
    l: int,
    pos: int,
    h: int,
    q: Seq<u32>,
    k1: Seq<u32>,
    v1: Seq<u32>,
    k2: Seq<u32>,
    v2: Seq<u32>,
    out: Seq<u32>,
)
    requires
        m.layers@.len() * layer_len(layout(m)) <= k1.len(),
        m.layers@.len() * layer_len(layout(m)) <= v1.len(),
        m.layers@.len() * layer_len(layout(m)) <= k2.len(),
        m.layers@.len() * layer_len(layout(m)) <= v2.len(),
        0 <= l < m.layers@.len(),
        0 <= kv_head(m, h) < m.n_head_kv,
        0 <= pos < m.n_ctx,
        forall|t: int|
            #![trigger cell(layout(m), k1, l, kv_head(m, h), t)]
            #![trigger cell(layout(m), v1, l, kv_head(m, h), t)]
            0 <= t <= pos ==> cell(layout(m), k1, l, kv_head(m, h), t) == cell(
                layout(m),
                k2,
                l,
                kv_head(m, h),
                t,
            ) && cell(layout(m), v1, l, kv_head(m, h), t) == cell(
                layout(m),
                v2,
                l,
                kv_head(m, h),
                t,
            ),
        head_attended(ar, m, l, pos, h, q, k1, v1, out),
    ensures
        head_attended(ar, m, l, pos, h, q, k2, v2, out),
{
    let a = layout(m);
    let g = kv_head(m, h);
    let qh = head_part(q, a.dim, h);
    let oh = head_part(out, a.dim, h);
    let (scores, probs) = choose|scores: Seq<u32>, probs: Seq<u32>|
        scores.len() == pos + 1 && probs.len() == pos + 1 && #[trigger] scored_all(
            ar,
            a,
            k1,
            l,
            g,
            qh,
            scores,
        ) && softmaxed(ar, scores, probs) && #[trigger] mixed(ar, a, v1, l, g, probs, oh);
    assert(scored_all(ar, a, k2, l, g, qh, scores)) by {
        assert forall|t: int| 0 <= t < scores.len() implies scored(
            ar,
            qh,
            cell(a, k2, l, g, t),
            a.dim,
            #[trigger] scores[t],
        ) by {
            assert(cell(a, k1, l, g, t) == cell(a, k2, l, g, t));
        }
    }
    assert(mixed(ar, a, v2, l, g, probs, oh)) by {
        assert forall|d: int| 0 <= d < oh.len() implies running_dot(
            ar,
            probs,
            column(a, v2, l, g, d, probs.len() as int),
            probs.len() as int,
            #[trigger] oh[d],
        ) by {
            let n = probs.len() as int;
            assert forall|t: int| 0 <= t < n implies #[trigger] column(a, v1, l, g, d, n)[t]
                == column(a, v2, l, g, d, n)[t] by {
                lemma_cell_inside(a, m.layers@.len() as int, l, g, t);
                assert(cell(a, v1, l, g, t)[d] == cell(a, v2, l, g, t)[d]);
            }
            assert(column(a, v1, l, g, d, n) =~= column(a, v2, l, g, d, n));
        }
    }
}

} // verus!
