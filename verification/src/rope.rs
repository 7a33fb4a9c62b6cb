//! Rotary positions: the dimensions of each head are turned, two by two, by an angle that grows
//! with the position.

use crate::arith::Arith;
use crate::ops::{rotation, turn, turn_by, turned};
use vstd::arithmetic::div_mod::{lemma_fundamental_div_mod, lemma_fundamental_div_mod_converse};
use vstd::prelude::*;

verus! {

/// The number of pairs in a head. The last one of a head with an odd number of dimensions ends
/// on the first dimension of the next head.
pub open spec fn pairs(head_dim: int) -> int {
    (head_dim + 1) / 2
}

/// The dimension on which turn `s` starts, within its head.
pub open spec fn pair_dim(head_dim: int, s: int) -> int {
    2 * (s % pairs(head_dim))
}

/// The element on which turn `s` starts.
pub open spec fn pair_start(head_dim: int, s: int) -> int {
    s / pairs(head_dim) * head_dim + pair_dim(head_dim, s)
}

/// `(x, y)` is the pair of elements `at` and `at + 1`, turned.
pub open spec fn turned_pair<A: Arith>(
    ar: &A,
    v: Seq<u32>,
    at: int,
    sc: (u32, u32),
    x: u32,
    y: u32,
) -> bool {
    turned(ar, v[at], v[at + 1], sc, x, y)
}

/// `w` is `v` after turn `s`.
pub open spec fn turn_step<A: Arith>(
    ar: &A,
    v: Seq<u32>,
    w: Seq<u32>,
    s: int,
    pos: int,
    head_dim: int,
    theta: u32,
) -> bool {
    exists|sc: (u32, u32), x: u32, y: u32|
        rotation(ar, pos, pair_dim(head_dim, s), head_dim, theta, sc) && #[trigger] turned_pair(
            ar,
            v,
            pair_start(head_dim, s),
            sc,
            x,
            y,
        ) && w == v.update(pair_start(head_dim, s), x).update(pair_start(head_dim, s) + 1, y)
}

/// Turn `s` leads from each vector in `stages` to the next one.
pub open spec fn turned_at<A: Arith>(
    ar: &A,
    stages: Seq<Seq<u32>>,
    s: int,
    pos: int,
    head_dim: int,
    theta: u32,
) -> bool {
    turn_step(ar, stages[s], stages[s + 1], s, pos, head_dim, theta)
}

/// The vectors in `stages` lead from `before` to `after` by the turns of `heads` heads.
pub open spec fn turns<A: Arith>(
    ar: &A,
    stages: Seq<Seq<u32>>,
    before: Seq<u32>,
    after: Seq<u32>,
    heads: int,
    pos: int,
    head_dim: int,
    theta: u32,
) -> bool {
    &&& stages.len() == heads * pairs(head_dim) + 1
    &&& stages.first() == before
    &&& stages.last() == after
    &&& forall|s: int|
        0 <= s < stages.len() - 1 ==> #[trigger] turned_at(ar, stages, s, pos, head_dim, theta)
}

/// `after` is `before`, with its first `heads` heads turned to position `pos`.
pub open spec fn roped<A: Arith>(
    ar: &A,
    before: Seq<u32>,
    after: Seq<u32>,
    heads: int,
    pos: int,
    head_dim: int,
    theta: u32,
) -> bool {
    exists|stages: Seq<Seq<u32>>| #[trigger]
        turns(ar, stages, before, after, heads, pos, head_dim, theta)
}

/// The vector has the elements that the turns of `heads` heads touch.
pub open spec fn heads_fit(len: int, heads: int, head_dim: int) -> bool {
    &&& heads * head_dim <= len
    &&& heads > 0 && head_dim % 2 == 1 ==> heads * head_dim < len
}

/// Turns the first `heads` heads of `v` to position `pos`.
pub fn rotate<A: Arith>(
    ar: &A,
    v: &mut Vec<u32>,
    pos: usize,
    head_dim: usize,
    heads: usize,
    theta: u32,
)
    requires
        heads_fit(old(v)@.len() as int, heads as int, head_dim as int),
    ensures
        roped(ar, old(v)@, final(v)@, heads as int, pos as int, head_dim as int, theta),
        final(v)@.len() == old(v)@.len(),
{
    let len: usize = v.len();
    let ghost before = v@;
    let ghost mut stages: Seq<Seq<u32>> = seq![v@];
    let ghost p = pairs(head_dim as int);
    let mut h: usize = 0;
    while h < heads
        invariant
            h <= heads,
            p == pairs(head_dim as int),
            len == v@.len(),
            before == old(v)@,
            before.len() == len,
            heads_fit(len as int, heads as int, head_dim as int),
            stages.len() == h * p + 1,
            stages.first() == before,
            stages.last() == v@,
            forall|s: int|
                0 <= s < stages.len() - 1 ==> #[trigger] turned_at(
                    ar,
                    stages,
                    s,
                    pos as int,
                    head_dim as int,
                    theta,
                ),
        decreases heads - h,
    {
        proof {
            let a = h as int;
            let b = heads as int;
            let c = head_dim as int;
            assert(0 <= a * c && a * c + c <= b * c) by (nonlinear_arith)
                requires
                    0 <= a < b,
                    c >= 0,
            ;
        }
        let base: usize = h * head_dim;
        let mut d: usize = 0;
        let ghost mut j: int = 0;
        while d < head_dim
            invariant
                h < heads,
                p == pairs(head_dim as int),
                0 <= j <= p,
                d == 2 * j,
                d <= head_dim + 1,
                base == h * head_dim,
                base + head_dim <= heads * head_dim,
                len == v@.len(),
                before.len() == len,
                heads_fit(len as int, heads as int, head_dim as int),
                stages.len() == h * p + j + 1,
                stages.first() == before,
                stages.last() == v@,
                forall|s: int|
                    0 <= s < stages.len() - 1 ==> #[trigger] turned_at(
                        ar,
                        stages,
                        s,
                        pos as int,
                        head_dim as int,
                        theta,
                    ),
            decreases head_dim + 1 - d,
        {
            let ghost s = h * p + j;
            let ghost v0 = v@;
            let ghost stages0 = stages;
            proof {
                lemma_fundamental_div_mod_converse(s, p, h as int, j);
                assert(pair_dim(head_dim as int, s) == d);
                assert(pair_start(head_dim as int, s) == base + d);
            }
            let sc: (u32, u32) = turn_by(ar, pos, d, head_dim, theta);
            let at: usize = base + d;
            let (x, y) = turn(ar, v[at], v[at + 1], sc);
            v.set(at, x);
            v.set(at + 1, y);
            proof {
                assert(turned_pair(ar, v0, pair_start(head_dim as int, s), sc, x, y));
                assert(turn_step(ar, v0, v@, s, pos as int, head_dim as int, theta));
                stages = stages.push(v@);
                assert forall|i: int| 0 <= i < stages.len() - 1 implies #[trigger] turned_at(
                    ar,
                    stages,
                    i,
                    pos as int,
                    head_dim as int,
                    theta,
                ) by {
                    if i < stages0.len() - 1 {
                        assert(turned_at(ar, stages0, i, pos as int, head_dim as int, theta));
                    }
                }
                j = j + 1;
            }
            if head_dim - d <= 2 {
                d = head_dim + head_dim % 2;
            } else {
                d = d + 2;
            }
        }
        proof {
            let a = h as int;
            assert((a + 1) * p == a * p + p) by (nonlinear_arith);
        }
        h += 1;
    }
    assert(turns(
        ar,
        stages,
        before,
        v@,
        heads as int,
        pos as int,
        head_dim as int,
        theta,
    ));
}

/// A turn touches elements of the vector only.
pub proof fn lemma_turn_inside(len: int, heads: int, head_dim: int, s: int)
    requires
        heads >= 0,
        head_dim >= 0,
        heads_fit(len, heads, head_dim),
        0 <= s < heads * pairs(head_dim),
    ensures
        0 <= pair_start(head_dim, s),
        pair_start(head_dim, s) + 1 < len,
{
    let p = pairs(head_dim);
    if head_dim == 0 {
        assert(heads * 0 == 0);
    } else {
        lemma_fundamental_div_mod(s, p);
        let h = s / p;
        let j = s % p;
        assert(0 <= h < heads) by (nonlinear_arith)
            requires
                s == p * h + j,
                0 <= j < p,
                0 <= s < heads * p,
        ;
        assert(0 <= h * head_dim && h * head_dim + head_dim <= heads * head_dim)
            by (nonlinear_arith)
            requires
                0 <= h < heads,
                head_dim > 0,
        ;
    }
}

proof fn lemma_even_starts(head_dim: int, s: int)
    requires
        head_dim > 0,
        head_dim % 2 == 0,
        s >= 0,
    ensures
        pair_start(head_dim, s) == 2 * s,
{
    let p = pairs(head_dim);
    lemma_fundamental_div_mod(s, p);
    let q = s / p;
    assert(q * (2 * p) == 2 * (p * q)) by (nonlinear_arith);
}

proof fn lemma_stage_len<A: Arith>(
    ar: &A,
    stages: Seq<Seq<u32>>,
    before: Seq<u32>,
    after: Seq<u32>,
    heads: int,
    pos: int,
    head_dim: int,
    theta: u32,
    s: int,
)
    requires
        head_dim > 0,
        head_dim % 2 == 0,
        heads_fit(before.len() as int, heads, head_dim),
        turns(ar, stages, before, after, heads, pos, head_dim, theta),
        0 <= s < stages.len(),
    ensures
        stages[s].len() == before.len(),
        2 * s <= before.len(),
    decreases s,
{
    let p = pairs(head_dim);
    assert(heads * head_dim == 2 * (heads * p)) by (nonlinear_arith)
        requires
            head_dim == 2 * p,
    ;
    if s > 0 {
        lemma_stage_len(ar, stages, before, after, heads, pos, head_dim, theta, s - 1);
        assert(turned_at(ar, stages, s - 1, pos, head_dim, theta));
        lemma_even_starts(head_dim, s - 1);
    }
}

proof fn lemma_untouched<A: Arith>(
    ar: &A,
    stages: Seq<Seq<u32>>,
    before: Seq<u32>,
    after: Seq<u32>,
    heads: int,
    pos: int,
    head_dim: int,
    theta: u32,
    s1: int,
    s2: int,
    i: int,
)
    requires
        head_dim > 0,
        head_dim % 2 == 0,
        heads_fit(before.len() as int, heads, head_dim),
        turns(ar, stages, before, after, heads, pos, head_dim, theta),
        0 <= s1 <= s2 < stages.len(),
        0 <= i < 2 * s1 || 2 * s2 <= i < before.len(),
    ensures
        stages[s1][i] == stages[s2][i],
    decreases s2 - s1,
{
    if s1 < s2 {
        lemma_untouched(ar, stages, before, after, heads, pos, head_dim, theta, s1, s2 - 1, i);
        assert(turned_at(ar, stages, s2 - 1, pos, head_dim, theta));
        lemma_even_starts(head_dim, s2 - 1);
        lemma_stage_len(ar, stages, before, after, heads, pos, head_dim, theta, s2 - 1);
        lemma_stage_len(ar, stages, before, after, heads, pos, head_dim, theta, s2);
    }
}

/// Where the number of dimensions is even, the pairs are turned independently of each other:
/// elements `2 s` and `2 s + 1` come from the same two elements, by the angle of their dimension.
pub proof fn lemma_pairs_turned<A: Arith>(
    ar: &A,
    before: Seq<u32>,
    after: Seq<u32>,
    heads: int,
    pos: int,
    head_dim: int,
    theta: u32,
    s: int,
)
    requires
        head_dim > 0,
        head_dim % 2 == 0,
        heads_fit(before.len() as int, heads, head_dim),
        roped(ar, before, after, heads, pos, head_dim, theta),
        0 <= s < heads * pairs(head_dim),
    ensures
        exists|sc: (u32, u32)|
            rotation(ar, pos, pair_dim(head_dim, s), head_dim, theta, sc)
                && #[trigger] turned_pair(ar, before, 2 * s, sc, after[2 * s], after[2 * s + 1]),
{
    let stages = choose|stages: Seq<Seq<u32>>| #[trigger]
        turns(ar, stages, before, after, heads, pos, head_dim, theta);
    let n = stages.len() - 1;
    let p = pairs(head_dim);
    assert(heads * head_dim == 2 * (heads * p)) by (nonlinear_arith)
        requires
            head_dim == 2 * p,
    ;
    lemma_even_starts(head_dim, s);
    lemma_untouched(ar, stages, before, after, heads, pos, head_dim, theta, 0, s, 2 * s);
    lemma_untouched(ar, stages, before, after, heads, pos, head_dim, theta, 0, s, 2 * s + 1);
    lemma_untouched(ar, stages, before, after, heads, pos, head_dim, theta, s + 1, n, 2 * s);
    lemma_untouched(ar, stages, before, after, heads, pos, head_dim, theta, s + 1, n, 2 * s + 1);
    lemma_stage_len(ar, stages, before, after, heads, pos, head_dim, theta, s);
    assert(turned_at(ar, stages, s, pos, head_dim, theta));
    let (sc, x, y) = choose|sc: (u32, u32), x: u32, y: u32|
        rotation(ar, pos, pair_dim(head_dim, s), head_dim, theta, sc) && #[trigger] turned_pair(
            ar,
            stages[s],
            pair_start(head_dim, s),
            sc,
            x,
            y,
        ) && stages[s + 1] == stages[s].update(pair_start(head_dim, s), x).update(
            pair_start(head_dim, s) + 1,
            y,
        );
    assert(turned_pair(ar, before, 2 * s, sc, after[2 * s], after[2 * s + 1]));
}

/// Turns the heads of a query and of a key to position `pos`.
pub fn rope<A: Arith>(
    ar: &A,
    q: &mut Vec<u32>,
    k: &mut Vec<u32>,
    pos: usize,
    head_dim: usize,
    n_head: usize,
    n_head_kv: usize,
    theta: u32,
)
    requires
        heads_fit(old(q)@.len() as int, n_head as int, head_dim as int),
        heads_fit(old(k)@.len() as int, n_head_kv as int, head_dim as int),
    ensures
        roped(ar, old(q)@, final(q)@, n_head as int, pos as int, head_dim as int, theta),
        roped(ar, old(k)@, final(k)@, n_head_kv as int, pos as int, head_dim as int, theta),
        final(q)@.len() == old(q)@.len(),
        final(k)@.len() == old(k)@.len(),
{
    rotate(ar, q, pos, head_dim, n_head, theta);
    rotate(ar, k, pos, head_dim, n_head_kv, theta);
}

} // verus!
