//! Integer dot products of ternary codes with 8-bit activations.

use crate::i2::{byte_index, code_at, field_of};
use vstd::prelude::*;
use vstd::slice::slice_subrange;

verus! {

/// What 16-bit two's complement keeps of a number.
pub open spec fn wrap16(x: int) -> int {
    (x + 0x8000) % 0x1_0000 - 0x8000
}

/// What 32-bit two's complement keeps of a number.
pub open spec fn wrap32(x: int) -> int {
    (x + 0x8000_0000) % 0x1_0000_0000 - 0x8000_0000
}

/// Code `i` times activation `i`.
pub open spec fn product(x: Seq<u8>, y: Seq<i8>, i: int) -> int {
    code_at(x, i) * y[i]
}

/// The dot product of the codes and the activations from `lo` up to `hi`.
pub open spec fn dot(x: Seq<u8>, y: Seq<i8>, lo: int, hi: int) -> int
    decreases hi - lo,
{
    if hi <= lo {
        0
    } else {
        dot(x, y, lo, hi - 1) + product(x, y, hi - 1)
    }
}

/// The part of that dot product that falls to one of eight lanes: the indices that leave the
/// remainder `lane` on division by 8.
pub open spec fn lane_dot(x: Seq<u8>, y: Seq<i8>, lo: int, hi: int, lane: int) -> int
    decreases hi - lo,
{
    if hi <= lo {
        0
    } else {
        lane_dot(x, y, lo, hi - 1, lane) + if (hi - 1) % 8 == lane {
            product(x, y, hi - 1)
        } else {
            0
        }
    }
}

/// The sum of the eight lanes, each of which is kept in 16 bits.
pub open spec fn lanes_sum(x: Seq<u8>, y: Seq<i8>, lo: int, hi: int) -> int {
    wrap16(lane_dot(x, y, lo, hi, 0)) + wrap16(lane_dot(x, y, lo, hi, 1)) + wrap16(
        lane_dot(x, y, lo, hi, 2),
    ) + wrap16(lane_dot(x, y, lo, hi, 3)) + wrap16(lane_dot(x, y, lo, hi, 4)) + wrap16(
        lane_dot(x, y, lo, hi, 5),
    ) + wrap16(lane_dot(x, y, lo, hi, 6)) + wrap16(lane_dot(x, y, lo, hi, 7))
}

/// Where chunk `c` of 2048 weights ends, in a row of `n` weights.
pub open spec fn chunk_end(n: int, c: int) -> int {
    if (c + 1) * 2048 <= n {
        (c + 1) * 2048
    } else {
        n
    }
}

/// The sum over the first `chunks` chunks of a row of `n` weights. The lanes start anew with each
/// chunk.
pub open spec fn chunked_sum(x: Seq<u8>, y: Seq<i8>, n: int, chunks: int) -> int
    decreases chunks,
{
    if chunks <= 0 {
        0
    } else {
        chunked_sum(x, y, n, chunks - 1) + lanes_sum(
            x,
            y,
            (chunks - 1) * 2048,
            chunk_end(n, chunks - 1),
        )
    }
}

/// The dot product of a row of `n` weights as eight 16-bit lanes and a 32-bit total compute it.
pub open spec fn row_dot(x: Seq<u8>, y: Seq<i8>, n: int) -> int {
    wrap32(chunked_sum(x, y, n, (n + 2047) / 2048))
}

proof fn lemma_wrap16_add(a: int, t: int)
    ensures
        wrap16(wrap16(a) + t) == wrap16(a + t),
        -0x8000 <= wrap16(a) < 0x8000,
        -0x8000 <= a < 0x8000 ==> wrap16(a) == a,
{
}

proof fn lemma_wrap32_add(a: int, t: int)
    ensures
        wrap32(wrap32(a) + t) == wrap32(a + t),
        -0x8000_0000 <= wrap32(a) < 0x8000_0000,
        -0x8000_0000 <= a < 0x8000_0000 ==> wrap32(a) == a,
{
}

fn add16(a: i16, b: i16) -> (r: i16)
    ensures
        r == wrap16(a + b),
{
    a.wrapping_add(b)
}

fn add32(a: i32, b: i32) -> (r: i32)
    ensures
        r == wrap32(a + b),
{
    a.wrapping_add(b)
}

fn code(x: &[u8], i: usize) -> (c: u8)
    requires
        byte_index(i as int) < x@.len(),
    ensures
        c == code_at(x@, i as int),
        c < 4,
{
    field_of(x[i / 64 * 16 + i % 16], i % 64 / 16)
}

/// The eight lanes over the weights from `lo` up to `hi`, both multiples of 64.
fn lanes(x: &[u8], y: &[i8], lo: usize, hi: usize) -> (acc: [i16; 8])
    requires
        lo <= hi <= y@.len(),
        hi % 64 == 0,
        hi <= x@.len() * 4,
    ensures
        forall|l: int|
            0 <= l < 8 ==> #[trigger] acc@[l] == wrap16(
                lane_dot(x@, y@, lo as int, hi as int, l),
            ),
{
    let mut acc: [i16; 8] = [0i16, 0i16, 0i16, 0i16, 0i16, 0i16, 0i16, 0i16];
    let mut i: usize = lo;
    while i < hi
        invariant
            lo <= i <= hi <= y@.len(),
            hi % 64 == 0,
            hi <= x@.len() * 4,
            forall|l: int|
                0 <= l < 8 ==> #[trigger] acc@[l] == wrap16(
                    lane_dot(x@, y@, lo as int, i as int, l),
                ),
        decreases hi - i,
    {
        let lane: usize = i % 8;
        let c: u8 = code(x, i);
        let v: i8 = y[i];
        assert(-384 <= c as int * v as int <= 384) by (nonlinear_arith)
            requires
                c < 4,
                -128 <= v <= 127,
        ;
        let p: i16 = c as i16 * v as i16;
        let ghost before = acc@;
        let sum: i16 = add16(acc[lane], p);
        acc[lane] = sum;
        proof {
            assert forall|l: int| 0 <= l < 8 implies #[trigger] acc@[l] == wrap16(
                lane_dot(x@, y@, lo as int, i + 1, l),
            ) by {
                let d = lane_dot(x@, y@, lo as int, i as int, l);
                assert(before[l] == wrap16(d));
                if l == lane {
                    lemma_wrap16_add(d, p as int);
                }
            }
        }
        i += 1;
    }
    acc
}

/// One row of [`vec_dot_i2_i8_s_1x1`].
fn row_dot_exec(x: &[u8], y: &[i8], n: usize) -> (r: i32)
    requires
        n % 64 == 0,
        n <= y@.len(),
        n <= x@.len() * 4,
    ensures
        r == row_dot(x@, y@, n as int),
{
    let mut total: i32 = 0;
    let mut lo: usize = 0;
    let ghost mut c: int = 0;
    while lo < n
        invariant
            n % 64 == 0,
            n <= y@.len(),
            n <= x@.len() * 4,
            lo <= n,
            0 <= c,
            lo == n || lo == c * 2048,
            c == (lo + 2047) / 2048,
            total == wrap32(chunked_sum(x@, y@, n as int, c)),
        decreases n - lo,
    {
        let hi: usize = if n - lo <= 2048 {
            n
        } else {
            lo + 2048
        };
        let acc: [i16; 8] = lanes(x, y, lo, hi);
        let ghost t0 = chunked_sum(x@, y@, n as int, c);
        let mut l: usize = 0;
        let ghost mut part: int = 0;
        while l < 8
            invariant
                l <= 8,
                total == wrap32(t0 + part),
                part == partial(acc@, l as int),
            decreases 8 - l,
        {
            let v: i16 = acc[l];
            proof {
                lemma_wrap32_add(t0 + part, v as int);
                part = part + v as int;
            }
            total = add32(total, v as i32);
            l += 1;
        }
        proof {
            reveal_with_fuel(partial, 9);
            assert(hi == chunk_end(n as int, c));
            assert(part == lanes_sum(x@, y@, lo as int, hi as int));
            c = c + 1;
        }
        lo = hi;
    }
    total
}

spec fn partial(acc: Seq<i16>, l: int) -> int
    decreases l,
{
    if l <= 0 {
        0
    } else {
        partial(acc, l - 1) + acc[l - 1]
    }
}

/// The integer dot product of each of `nrc` rows of packed weights with the same activations.
///
/// A row has `n` weights in `n / 4` bytes; of them the whole blocks count. The products of a chunk
/// of 2048 weights are summed in eight lanes of 16 bits and the lanes in 32 bits, both of which
/// wrap. The result of a row is the number to convert to floating point.
pub fn vec_dot_i2_i8_s_1x1(n: usize, x_row: &[u8], y: &[i8], nrc: usize) -> (out: Vec<i32>)
    requires
        n as int / 64 * 64 <= y@.len(),
        n >= 64 && nrc > 0 ==> (nrc - 1) * (n as int / 4) + n as int / 64 * 16 <= x_row@.len(),
    ensures
        out@.len() == nrc,
        forall|r: int|
            #![trigger out@[r]]
            0 <= r < nrc ==> out@[r] == if n < 64 {
                0
            } else {
                row_dot(
                    x_row@.subrange(
                        r * (n as int / 4),
                        r * (n as int / 4) + n as int / 64 * 16,
                    ),
                    y@,
                    n as int / 64 * 64,
                )
            },
{
    let mut out: Vec<i32> = Vec::new();
    let nb: usize = n / 64;
    let stride: usize = n / 4;
    let total: usize = x_row.len();
    let mut row: usize = 0;
    while row < nrc
        invariant
            nb == n / 64,
            stride == n / 4,
            total == x_row@.len(),
            row <= nrc,
            out@.len() == row,
            n as int / 64 * 64 <= y@.len(),
            n >= 64 && nrc > 0 ==> (nrc - 1) * (n as int / 4) + n as int / 64 * 16 <= x_row@.len(),
            forall|r: int|
                #![trigger out@[r]]
                0 <= r < row ==> out@[r] == if n < 64 {
                    0
                } else {
                    row_dot(
                        x_row@.subrange(
                            r * (n as int / 4),
                            r * (n as int / 4) + n as int / 64 * 16,
                        ),
                        y@,
                        n as int / 64 * 64,
                    )
                },
        decreases nrc - row,
    {
        if nb == 0 {
            out.push(0);
        } else {
            proof {
                let s = stride as int;
                let r = row as int;
                let last = nrc - 1;
                assert(0 <= r * s <= last * s) by (nonlinear_arith)
                    requires
                        0 <= r <= last,
                        0 <= s,
                ;
            }
            let off: usize = row * stride;
            let x: &[u8] = slice_subrange(x_row, off, off + nb * 16);
            out.push(row_dot_exec(x, y, nb * 64));
        }
        row += 1;
    }
    out
}

/// The eight lanes together hold the whole dot product.
proof fn lemma_lanes_cover(x: Seq<u8>, y: Seq<i8>, lo: int, hi: int)
    ensures
        dot(x, y, lo, hi) == lane_dot(x, y, lo, hi, 0) + lane_dot(x, y, lo, hi, 1) + lane_dot(
            x,
            y,
            lo,
            hi,
            2,
        ) + lane_dot(x, y, lo, hi, 3) + lane_dot(x, y, lo, hi, 4) + lane_dot(x, y, lo, hi, 5)
            + lane_dot(x, y, lo, hi, 6) + lane_dot(x, y, lo, hi, 7),
    decreases hi - lo,
{
    if lo < hi {
        lemma_lanes_cover(x, y, lo, hi - 1);
    }
}

/// Every lane of every chunk of a row of `n` weights fits in 16 bits.
pub open spec fn lanes_fit(x: Seq<u8>, y: Seq<i8>, n: int) -> bool {
    forall|c: int, l: int|
        0 <= c < (n + 2047) / 2048 && 0 <= l < 8 ==> -0x8000 <= #[trigger] lane_dot(
            x,
            y,
            c * 2048,
            chunk_end(n, c),
            l,
        ) < 0x8000
}

pub(crate) proof fn lemma_dot_splits(x: Seq<u8>, y: Seq<i8>, lo: int, mid: int, hi: int)
    requires
        lo <= mid <= hi,
    ensures
        dot(x, y, lo, hi) == dot(x, y, lo, mid) + dot(x, y, mid, hi),
    decreases hi - mid,
{
    if mid < hi {
        lemma_dot_splits(x, y, lo, mid, hi - 1);
    }
}

proof fn lemma_chunks_exact(x: Seq<u8>, y: Seq<i8>, n: int, chunks: int)
    requires
        0 <= chunks <= (n + 2047) / 2048,
        0 <= n,
        lanes_fit(x, y, n),
    ensures
        chunked_sum(x, y, n, chunks) == dot(
            x,
            y,
            0,
            if chunks * 2048 <= n {
                chunks * 2048
            } else {
                n
            },
        ),
    decreases chunks,
{
    if chunks > 0 {
        let c = chunks - 1;
        lemma_chunks_exact(x, y, n, c);
        let lo = c * 2048;
        let hi = chunk_end(n, c);
        lemma_lanes_cover(x, y, lo, hi);
        lemma_dot_splits(x, y, 0, lo, hi);
        assert forall|l: int| 0 <= l < 8 implies wrap16(#[trigger] lane_dot(x, y, lo, hi, l))
            == lane_dot(x, y, lo, hi, l) by {
            assert(-0x8000 <= lane_dot(x, y, c * 2048, chunk_end(n, c), l) < 0x8000);
        }
    }
}

/// Where no lane leaves 16 bits and the total does not leave 32, the result of a row is the dot
/// product of its codes and the activations.
pub proof fn lemma_row_dot_exact(x: Seq<u8>, y: Seq<i8>, n: int)
    requires
        0 <= n,
        lanes_fit(x, y, n),
        -0x8000_0000 <= dot(x, y, 0, n) < 0x8000_0000,
    ensures
        row_dot(x, y, n) == dot(x, y, 0, n),
{
    lemma_chunks_exact(x, y, n, (n + 2047) / 2048);
}

proof fn lemma_product_bound(x: Seq<u8>, y: Seq<i8>, i: int)
    ensures
        -384 <= product(x, y, i) <= 384,
{
    let c = code_at(x, i) as int;
    let v = y[i] as int;
    assert(c < 4);
    assert(-384 <= c * v <= 384) by (nonlinear_arith)
        requires
            0 <= c < 4,
            -128 <= v <= 127,
    ;
}

proof fn lemma_lane_bound(x: Seq<u8>, y: Seq<i8>, hi: int, lane: int)
    requires
        0 <= hi,
        0 <= lane < 8,
    ensures
        -384 * ((hi + 7 - lane) / 8) <= lane_dot(x, y, 0, hi, lane) <= 384 * ((hi + 7 - lane) / 8),
    decreases hi,
{
    if 0 < hi {
        lemma_lane_bound(x, y, hi - 1, lane);
        lemma_product_bound(x, y, hi - 1);
    }
}

pub proof fn lemma_dot_bounds(x: Seq<u8>, y: Seq<i8>, n: int)
    requires
        0 <= n,
    ensures
        -384 * n <= dot(x, y, 0, n) <= 384 * n,
    decreases n,
{
    if 0 < n {
        lemma_dot_bounds(x, y, n - 1);
        lemma_product_bound(x, y, n - 1);
    }
}

/// Rows of at most 640 weights never wrap, whatever the codes and the activations.
pub proof fn lemma_short_rows_exact(x: Seq<u8>, y: Seq<i8>, n: int)
    requires
        0 <= n <= 640,
    ensures
        row_dot(x, y, n) == dot(x, y, 0, n),
{
    assert forall|c: int, l: int| 0 <= c < (n + 2047) / 2048 && 0 <= l < 8 implies -0x8000
        <= #[trigger] lane_dot(x, y, c * 2048, chunk_end(n, c), l) < 0x8000 by {
        lemma_lane_bound(x, y, n, l);
    }
    lemma_dot_bounds(x, y, n);
    lemma_row_dot_exact(x, y, n);
}

} // verus!
