//! Where the dot product of a row wraps: in eight lanes of 16 bits for each chunk of 2048 weights,
//! and in the 32 bits of the total.

use crate::dot::{
    chunk_end, chunked_sum, dot, lane_dot, lanes_sum, lemma_dot_splits, row_dot, wrap16, wrap32,
};
use crate::i2::code_at;
use vstd::prelude::*;

verus! {

/// The dot product of a range is that of its parts, and that of one weight is the product of its
/// code and its activation: weight `i` lies in byte `i % 16` of the sixteen bytes of its block, in
/// the two bits `i % 64 / 16` from the top.
pub proof fn lemma_dot_is_the_sum(x: Seq<u8>, y: Seq<i8>, lo: int, mid: int, hi: int)
    requires
        0 <= lo <= mid <= hi,
    ensures
        dot(x, y, lo, hi) == dot(x, y, lo, mid) + dot(x, y, mid, hi),
        lo % 64 < 16 ==> dot(x, y, lo, lo + 1) == (x[lo / 64 * 16 + lo % 16] as int / 64) * y[lo],
        16 <= lo % 64 < 32 ==> dot(x, y, lo, lo + 1) == (x[lo / 64 * 16 + lo % 16] as int / 16 % 4)
            * y[lo],
        32 <= lo % 64 < 48 ==> dot(x, y, lo, lo + 1) == (x[lo / 64 * 16 + lo % 16] as int / 4 % 4)
            * y[lo],
        48 <= lo % 64 ==> dot(x, y, lo, lo + 1) == (x[lo / 64 * 16 + lo % 16] as int % 4) * y[lo],
{
    lemma_dot_splits(x, y, lo, mid, hi);
    reveal_with_fuel(dot, 2);
}

/// Where all activations but those of one lane are zero, the lane is the whole dot product.
proof fn lemma_only_lane(x: Seq<u8>, y: Seq<i8>, lo: int, hi: int, lane: int, l: int)
    requires
        0 <= lo,
        forall|i: int| lo <= i < hi && i % 8 != lane ==> #[trigger] y[i] == 0,
    ensures
        lane_dot(x, y, lo, hi, l) == if l == lane {
            dot(x, y, lo, hi)
        } else {
            0
        },
    decreases hi - lo,
{
    if lo < hi {
        lemma_only_lane(x, y, lo, hi - 1, lane, l);
        let i = hi - 1;
        if i % 8 != lane {
            assert(y[i] == 0);
            assert(code_at(x, i) * y[i] == 0) by (nonlinear_arith)
                requires
                    y[i] == 0,
            ;
        }
    }
}

/// The activations whose indices leave the same remainder on division by 8 share 16 bits: where all
/// others are zero, up to 2048 weights give their dot product, wrapped to 16 bits.
pub proof fn lemma_a_lane_wraps(x: Seq<u8>, y: Seq<i8>, n: int, lane: int)
    requires
        0 <= n <= 2048,
        0 <= lane < 8,
        forall|i: int| 0 <= i < n && i % 8 != lane ==> #[trigger] y[i] == 0,
    ensures
        row_dot(x, y, n) == (dot(x, y, 0, n) + 0x8000) % 0x1_0000 - 0x8000,
{
    lemma_one_chunk(x, y, n);
    lemma_only_lane(x, y, 0, n, lane, 0);
    lemma_only_lane(x, y, 0, n, lane, 1);
    lemma_only_lane(x, y, 0, n, lane, 2);
    lemma_only_lane(x, y, 0, n, lane, 3);
    lemma_only_lane(x, y, 0, n, lane, 4);
    lemma_only_lane(x, y, 0, n, lane, 5);
    lemma_only_lane(x, y, 0, n, lane, 6);
    lemma_only_lane(x, y, 0, n, lane, 7);
}

/// Up to 2048 weights are one chunk.
proof fn lemma_one_chunk(x: Seq<u8>, y: Seq<i8>, n: int)
    requires
        0 <= n <= 2048,
    ensures
        row_dot(x, y, n) == lanes_sum(x, y, 0, n),
{
    reveal_with_fuel(chunked_sum, 2);
    if n == 0 {
        assert(lanes_sum(x, y, 0, 0) == 0);
    } else {
        assert((n + 2047) / 2048 == 1);
        assert(chunk_end(n, 0) == n);
    }
}

/// A lane of activations that were taken apart by lanes.
proof fn lemma_lane_apart(x: Seq<u8>, y: Seq<i8>, z: Seq<i8>, hi: int, lane: int)
    requires
        forall|i: int| 0 <= i < hi ==> #[trigger] z[i] == (if i % 8 == lane {
            y[i]
        } else {
            0i8
        }),
    ensures
        dot(x, z, 0, hi) == lane_dot(x, y, 0, hi, lane),
    decreases hi,
{
    if 0 < hi {
        lemma_lane_apart(x, y, z, hi - 1, lane);
        let i = hi - 1;
        assert(z[i] == (if i % 8 == lane {
            y[i]
        } else {
            0i8
        }));
        if i % 8 != lane {
            assert(code_at(x, i) * z[i] == 0) by (nonlinear_arith)
                requires
                    z[i] == 0,
            ;
        }
    }
}

/// The lanes do not touch each other: up to 2048 weights give the sum of what the activations give
/// that were taken apart by the remainder of their index on division by 8.
pub proof fn lemma_lanes_add_up(x: Seq<u8>, y: Seq<i8>, z: Seq<Seq<i8>>, n: int)
    requires
        0 <= n <= 2048,
        z.len() == 8,
        forall|l: int, i: int|
            0 <= l < 8 && 0 <= i < n ==> #[trigger] z[l][i] == (if i % 8 == l {
                y[i]
            } else {
                0i8
            }),
    ensures
        row_dot(x, y, n) == row_dot(x, z[0], n) + row_dot(x, z[1], n) + row_dot(x, z[2], n)
            + row_dot(x, z[3], n) + row_dot(x, z[4], n) + row_dot(x, z[5], n) + row_dot(x, z[6], n)
            + row_dot(x, z[7], n),
{
    lemma_one_chunk(x, y, n);
    assert forall|l: int| 0 <= l < 8 implies #[trigger] row_dot(x, z[l], n) == wrap16(
        lane_dot(x, y, 0, n, l),
    ) by {
        lemma_a_lane_wraps(x, z[l], n, l);
        lemma_lane_apart(x, y, z[l], n, l);
    }
    assert(row_dot(x, z[0], n) == wrap16(lane_dot(x, y, 0, n, 0)));
    assert(row_dot(x, z[1], n) == wrap16(lane_dot(x, y, 0, n, 1)));
    assert(row_dot(x, z[2], n) == wrap16(lane_dot(x, y, 0, n, 2)));
    assert(row_dot(x, z[3], n) == wrap16(lane_dot(x, y, 0, n, 3)));
    assert(row_dot(x, z[4], n) == wrap16(lane_dot(x, y, 0, n, 4)));
    assert(row_dot(x, z[5], n) == wrap16(lane_dot(x, y, 0, n, 5)));
    assert(row_dot(x, z[6], n) == wrap16(lane_dot(x, y, 0, n, 6)));
    assert(row_dot(x, z[7], n) == wrap16(lane_dot(x, y, 0, n, 7)));
}

/// A lane of the weights behind the first `c` chunks.
proof fn lemma_lane_behind(x: Seq<u8>, y: Seq<i8>, c: int, lo: int, hi: int, lane: int)
    requires
        0 <= c,
        0 <= lo <= hi,
        c * 2048 + hi <= y.len(),
        c * 2048 + hi <= x.len() * 4,
        (c * 2048 + hi) % 64 == 0,
    ensures
        lane_dot(x, y, c * 2048 + lo, c * 2048 + hi, lane) == lane_dot(
            x.skip(c * 512),
            y.skip(c * 2048),
            lo,
            hi,
            lane,
        ),
{
    lemma_lane_behind_up_to(x, y, c, lo, hi, hi, lane);
}

proof fn lemma_lane_behind_up_to(
    x: Seq<u8>,
    y: Seq<i8>,
    c: int,
    lo: int,
    hi: int,
    end: int,
    lane: int,
)
    requires
        0 <= c,
        0 <= lo <= hi <= end,
        c * 2048 + end <= y.len(),
        c * 2048 + end <= x.len() * 4,
        (c * 2048 + end) % 64 == 0,
    ensures
        lane_dot(x, y, c * 2048 + lo, c * 2048 + hi, lane) == lane_dot(
            x.skip(c * 512),
            y.skip(c * 2048),
            lo,
            hi,
            lane,
        ),
    decreases hi - lo,
{
    if lo < hi {
        lemma_lane_behind_up_to(x, y, c, lo, hi - 1, end, lane);
        let i = hi - 1;
        let far = c * 2048 + i;
        assert(far / 64 * 16 + far % 16 == c * 512 + (i / 64 * 16 + i % 16));
        assert(far % 64 == i % 64 && far % 8 == i % 8);
        assert(far / 64 * 16 + far % 16 < x.len());
        assert(x.skip(c * 512)[i / 64 * 16 + i % 16] == x[far / 64 * 16 + far % 16]);
        assert(code_at(x, far) == code_at(x.skip(c * 512), i));
        assert(y.skip(c * 2048)[i] == y[far]);
    }
}

/// The chunks behind the first `c` of them.
proof fn lemma_chunks_behind(x: Seq<u8>, y: Seq<i8>, n: int, c: int, d: int)
    requires
        0 <= c,
        0 <= d <= (n - c * 2048 + 2047) / 2048,
        c * 2048 <= n <= y.len(),
        n <= x.len() * 4,
        n % 64 == 0,
    ensures
        chunked_sum(x, y, n, c + d) == chunked_sum(x, y, n, c) + chunked_sum(
            x.skip(c * 512),
            y.skip(c * 2048),
            n - c * 2048,
            d,
        ),
    decreases d,
{
    if d > 0 {
        lemma_chunks_behind(x, y, n, c, d - 1);
        let lo = (d - 1) * 2048;
        let hi = chunk_end(n - c * 2048, d - 1);
        assert((c + d - 1) * 2048 == c * 2048 + lo);
        assert(chunk_end(n, c + d - 1) == c * 2048 + hi);
        lemma_lane_behind(x, y, c, lo, hi, 0);
        lemma_lane_behind(x, y, c, lo, hi, 1);
        lemma_lane_behind(x, y, c, lo, hi, 2);
        lemma_lane_behind(x, y, c, lo, hi, 3);
        lemma_lane_behind(x, y, c, lo, hi, 4);
        lemma_lane_behind(x, y, c, lo, hi, 5);
        lemma_lane_behind(x, y, c, lo, hi, 6);
        lemma_lane_behind(x, y, c, lo, hi, 7);
    }
}

/// Whole chunks at the start of a row do not depend on how long the row is.
proof fn lemma_chunks_in_front(x: Seq<u8>, y: Seq<i8>, n: int, m: int, c: int)
    requires
        c * 2048 <= n,
        c * 2048 <= m,
    ensures
        chunked_sum(x, y, n, c) == chunked_sum(x, y, m, c),
    decreases c,
{
    if c > 0 {
        lemma_chunks_in_front(x, y, n, m, c - 1);
        assert(chunk_end(n, c - 1) == c * 2048 && chunk_end(m, c - 1) == c * 2048);
    }
}

/// The lanes start anew with every chunk of 2048 weights, and the results of the chunks add up in
/// 32 bits: a row gives the sum of what its first `c` chunks and what the weights behind them give
/// as rows of their own.
pub proof fn lemma_chunks_add_up(x: Seq<u8>, y: Seq<i8>, n: int, c: int)
    requires
        0 <= c,
        c * 2048 <= n <= y.len(),
        n <= x.len() * 4,
        n % 64 == 0,
    ensures
        row_dot(x, y, n) == (row_dot(x, y, c * 2048) + row_dot(
            x.skip(c * 512),
            y.skip(c * 2048),
            n - c * 2048,
        ) + 0x8000_0000) % 0x1_0000_0000 - 0x8000_0000,
{
    let d = (n - c * 2048 + 2047) / 2048;
    assert((n + 2047) / 2048 == c + d);
    assert((c * 2048 + 2047) / 2048 == c);
    lemma_chunks_behind(x, y, n, c, d);
    lemma_chunks_in_front(x, y, n, c * 2048, c);
    let a = chunked_sum(x, y, n, c);
    let b = chunked_sum(x.skip(c * 512), y.skip(c * 2048), n - c * 2048, d);
    assert(wrap32(a + b) == wrap32(wrap32(a) + wrap32(b)));
}

} // verus!
